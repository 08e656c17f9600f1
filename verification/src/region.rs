//! Reading and overwriting a rectangle of a sparse plane.
//!
//! Formats and border lines travel as run-length encodings that list the
//! cells of a rectangle row by row; values travel as arrays. Overwriting
//! hands back what the rectangle held before, in the same shape.

use vstd::prelude::*;
use crate::content::Content;
use crate::plane::Plane;
use crate::position::lemma_index_bound;
use crate::position::lemma_index_order;
use crate::position::Rect;
use crate::rle::RunLengthEncoding;
use crate::values::shown;
use crate::values::stored;
use crate::values::Array;
use crate::values::CellValue;
use crate::values::CellValueModel;

verus! {

/// The cell `(x, y)` of a plane that is keyed by column, or by row where it
/// is held transposed.
pub open spec fn cell_at<T: Content>(plane: Plane<T>, transposed: bool, x: int, y: int) -> Option<
    T::Model,
> {
    if transposed {
        plane.at(y, x)
    } else {
        plane.at(x, y)
    }
}

/// Whether the rectangle is not empty, has sides that fit in 32 bits, and
/// holds `n` cells.
pub open spec fn fits(rect: Rect, n: int) -> bool {
    &&& rect.nonempty()
    &&& rect.spec_width() <= u32::MAX
    &&& rect.spec_height() <= u32::MAX
    &&& rect.spec_width() * rect.spec_height() == n
}

/// Whether `cells` lists, row by row, what the rectangle holds in the plane.
pub open spec fn captures<T: Content>(
    cells: Seq<Option<T::Model>>,
    plane: Plane<T>,
    transposed: bool,
    rect: Rect,
) -> bool {
    &&& cells.len() == rect.spec_width() * rect.spec_height()
    &&& forall|x: int, y: int| #[trigger]
        rect.holds(x, y) ==> cells[rect.index_of(x, y)] == cell_at(plane, transposed, x, y)
}

/// Whether `after` is `before` with the rectangle overwritten, row by row, by
/// `cells`.
pub open spec fn overwritten<T: Content>(
    after: Plane<T>,
    before: Plane<T>,
    transposed: bool,
    rect: Rect,
    cells: Seq<Option<T::Model>>,
) -> bool {
    forall|x: int, y: int| #[trigger]
        cell_at(after, transposed, x, y) == if rect.holds(x, y) {
            cells[rect.index_of(x, y)]
        } else {
            cell_at(before, transposed, x, y)
        }
}

/// The cell `(x, y)` of the map of a plane.
pub open spec fn map_cell<M>(m: Map<(int, int), M>, transposed: bool, x: int, y: int) -> Option<M> {
    let k = if transposed {
        (y, x)
    } else {
        (x, y)
    };
    if m.dom().contains(k) {
        Some(m[k])
    } else {
        None
    }
}

/// The map `m` with the rectangle overwritten, row by row, by `cells`.
pub open spec fn map_overwritten<M>(
    m: Map<(int, int), M>,
    transposed: bool,
    rect: Rect,
    cells: Seq<Option<M>>,
) -> Map<(int, int), M> {
    Map::new(
        |k: (int, int)|
            {
                let x = if transposed { k.1 } else { k.0 };
                let y = if transposed { k.0 } else { k.1 };
                if rect.holds(x, y) {
                    cells[rect.index_of(x, y)] is Some
                } else {
                    m.dom().contains(k)
                }
            },
        |k: (int, int)|
            {
                let x = if transposed { k.1 } else { k.0 };
                let y = if transposed { k.0 } else { k.1 };
                if rect.holds(x, y) {
                    cells[rect.index_of(x, y)]->0
                } else {
                    m[k]
                }
            },
    )
}

/// Whether `cells` lists, row by row, what the rectangle holds in the map.
pub open spec fn map_captures<M>(
    cells: Seq<Option<M>>,
    m: Map<(int, int), M>,
    transposed: bool,
    rect: Rect,
) -> bool {
    &&& cells.len() == rect.spec_width() * rect.spec_height()
    &&& forall|x: int, y: int| #[trigger]
        rect.holds(x, y) ==> cells[rect.index_of(x, y)] == map_cell(m, transposed, x, y)
}

/// A plane overwritten cell by cell has the overwritten map as its view.
pub proof fn lemma_overwritten_view<T: Content>(
    after: Plane<T>,
    before: Plane<T>,
    transposed: bool,
    rect: Rect,
    cells: Seq<Option<T::Model>>,
)
    requires
        overwritten(after, before, transposed, rect, cells),
    ensures
        after@ == map_overwritten(before@, transposed, rect, cells),
{
    let target = map_overwritten(before@, transposed, rect, cells);
    assert forall|k: (int, int)| #[trigger] after@.dom().contains(k) == target.dom().contains(k) by {
        let x = if transposed { k.1 } else { k.0 };
        let y = if transposed { k.0 } else { k.1 };
        assert(cell_at(after, transposed, x, y) == after.at(k.0, k.1));
        assert(cell_at(before, transposed, x, y) == before.at(k.0, k.1));
        assert(before@.dom().contains(k) == before.at(k.0, k.1) is Some);
    }
    assert forall|k: (int, int)| #[trigger] after@.dom().contains(k) implies after@[k] == target[k] by {
        let x = if transposed { k.1 } else { k.0 };
        let y = if transposed { k.0 } else { k.1 };
        assert(cell_at(after, transposed, x, y) == after.at(k.0, k.1));
        assert(cell_at(before, transposed, x, y) == before.at(k.0, k.1));
        assert(before@.dom().contains(k) == before.at(k.0, k.1) is Some);
        if !rect.holds(x, y) {
            assert(before@[k] == before.at(k.0, k.1)->0);
        }
    }
    assert(after@ =~= target);
}

/// What lists the cells of a plane lists the cells of its view.
pub proof fn lemma_captures_view<T: Content>(
    cells: Seq<Option<T::Model>>,
    plane: Plane<T>,
    transposed: bool,
    rect: Rect,
)
    requires
        captures(cells, plane, transposed, rect),
    ensures
        map_captures(cells, plane@, transposed, rect),
{
    assert forall|x: int, y: int| #[trigger] rect.holds(x, y) implies cells[rect.index_of(x, y)]
        == map_cell(plane@, transposed, x, y) by {
        assert(cell_at(plane, transposed, x, y) == map_cell(plane@, transposed, x, y));
    }
}

/// Overwriting a rectangle and then overwriting it with what it held before
/// gives the first map back.
pub proof fn lemma_overwrite_undone<M>(
    m: Map<(int, int), M>,
    transposed: bool,
    rect: Rect,
    cells: Seq<Option<M>>,
    prior: Seq<Option<M>>,
)
    requires
        map_captures(prior, m, transposed, rect),
    ensures
        map_overwritten(map_overwritten(m, transposed, rect, cells), transposed, rect, prior) == m,
{
    let back = map_overwritten(map_overwritten(m, transposed, rect, cells), transposed, rect, prior);
    assert forall|k: (int, int)| back.dom().contains(k) == m.dom().contains(k) && (m.dom().contains(k)
        ==> back[k] == m[k]) by {
        let x = if transposed { k.1 } else { k.0 };
        let y = if transposed { k.0 } else { k.1 };
        if rect.holds(x, y) {
            assert(prior[rect.index_of(x, y)] == map_cell(m, transposed, x, y));
        }
    }
    assert(back =~= m);
}

/// The map `m` with the rectangle overwritten by `values`, a blank clearing
/// its cell.
pub open spec fn map_values_written(
    m: Map<(int, int), CellValueModel>,
    rect: Rect,
    values: Array,
) -> Map<(int, int), CellValueModel> {
    Map::new(
        |k: (int, int)|
            if rect.holds(k.0, k.1) {
                !(values.at(k.0 - rect.min.x, k.1 - rect.min.y) is Blank)
            } else {
                m.dom().contains(k)
            },
        |k: (int, int)|
            if rect.holds(k.0, k.1) {
                values.at(k.0 - rect.min.x, k.1 - rect.min.y)
            } else {
                m[k]
            },
    )
}

/// Whether `values` shows what the rectangle holds in the map, with a blank
/// for a cell that holds nothing.
pub open spec fn map_values_captured(
    values: Array,
    m: Map<(int, int), CellValueModel>,
    rect: Rect,
) -> bool {
    &&& values.wf()
    &&& matches_array(rect, values)
    &&& forall|x: int, y: int| #[trigger]
        rect.holds(x, y) ==> values.at(x - rect.min.x, y - rect.min.y) == shown(
            map_cell(m, false, x, y),
        )
}

/// A plane of values overwritten cell by cell has the overwritten map as its
/// view.
pub proof fn lemma_values_written_view(
    after: Plane<CellValue>,
    before: Plane<CellValue>,
    rect: Rect,
    values: Array,
)
    requires
        values_written(after, before, rect, values),
    ensures
        after@ == map_values_written(before@, rect, values),
{
    let target = map_values_written(before@, rect, values);
    assert forall|k: (int, int)| after@.dom().contains(k) == target.dom().contains(k) && (
    after@.dom().contains(k) ==> after@[k] == target[k]) by {
        assert(after.at(k.0, k.1) == if rect.holds(k.0, k.1) {
            stored(values.at(k.0 - rect.min.x, k.1 - rect.min.y))
        } else {
            before.at(k.0, k.1)
        });
    }
    assert(after@ =~= target);
}

/// What shows the cells of a plane of values shows the cells of its view.
pub proof fn lemma_values_captured_view(values: Array, plane: Plane<CellValue>, rect: Rect)
    requires
        values_captured(values, plane, rect),
    ensures
        map_values_captured(values, plane@, rect),
{
    assert forall|x: int, y: int| #[trigger] rect.holds(x, y) implies values.at(
        x - rect.min.x,
        y - rect.min.y,
    ) == shown(map_cell(plane@, false, x, y)) by {
        assert(plane.at(x, y) == map_cell(plane@, false, x, y));
    }
}

/// Overwriting the values of a rectangle and then overwriting them with what
/// the rectangle held before gives the first map back, if no cell of the map
/// holds a blank.
pub proof fn lemma_values_undone(
    m: Map<(int, int), CellValueModel>,
    rect: Rect,
    values: Array,
    prior: Array,
)
    requires
        map_values_captured(prior, m, rect),
        forall|k: (int, int)| m.dom().contains(k) ==> !(#[trigger] m[k] is Blank),
    ensures
        map_values_written(map_values_written(m, rect, values), rect, prior) == m,
{
    let back = map_values_written(map_values_written(m, rect, values), rect, prior);
    assert forall|k: (int, int)| back.dom().contains(k) == m.dom().contains(k) && (m.dom().contains(k)
        ==> back[k] == m[k]) by {
        if rect.holds(k.0, k.1) {
            assert(prior.at(k.0 - rect.min.x, k.1 - rect.min.y) == shown(map_cell(m, false, k.0, k.1)));
            if m.dom().contains(k) {
                assert(!(m[k] is Blank));
            }
        }
    }
    assert(back =~= m);
}

/// Whether the cell at offset `(dx, dy)` comes before the cell at offset
/// `(ex, ey)` when cells are counted row by row.
pub open spec fn earlier(dx: int, dy: int, ex: int, ey: int) -> bool {
    dy < ey || (dy == ey && dx < ex)
}

/// Overwrites the rectangle with `values`, which list its cells row by row,
/// and hands back what it held. Where the rectangle is empty, too wide or
/// too high, or `values` has another length than it has cells, nothing
/// changes and the result is `None`.
pub fn overlay<T: Content>(
    plane: &mut Plane<T>,
    transposed: bool,
    rect: Rect,
    values: &RunLengthEncoding<Option<T>>,
) -> (r: Option<RunLengthEncoding<Option<T>>>)
    requires
        old(plane).wf(),
        values.wf(),
    ensures
        final(plane).wf(),
        match r {
            Some(prior) => {
                &&& fits(rect, values.expand().len() as int)
                &&& prior.wf()
                &&& captures(prior.expand(), *old(plane), transposed, rect)
                &&& overwritten(*final(plane), *old(plane), transposed, rect, values.expand())
            },
            None => !fits(rect, values.expand().len() as int) && *final(plane) == *old(plane),
        },
{
    let size = match rect.size() {
        Some(s) => s,
        None => {
            return None;
        },
    };
    if size.len() != values.size() as u64 {
        return None;
    }
    let ghost before = *plane;
    let ghost cells = values.expand();
    let ghost w = rect.spec_width();
    let mut prior: RunLengthEncoding<Option<T>> = RunLengthEncoding::new();
    let mut i: usize = 0;
    let mut dy: u32 = 0;
    while dy < size.h
        invariant
            dy <= size.h,
            size.w == w,
            w == rect.spec_width(),
            size.h == rect.spec_height(),
            rect.nonempty(),
            cells == values.expand(),
            cells.len() == w * size.h,
            cells.len() <= usize::MAX,
            values.wf(),
            plane.wf(),
            prior.wf(),
            i == dy * w,
            prior.expand().len() == i,
            forall|x: int, y: int| #[trigger]
                cell_at(*plane, transposed, x, y) == if rect.holds(x, y) && y - rect.min.y < dy {
                    cells[rect.index_of(x, y)]
                } else {
                    cell_at(before, transposed, x, y)
                },
            forall|x: int, y: int| #[trigger]
                rect.holds(x, y) && y - rect.min.y < dy ==> prior.expand()[rect.index_of(x, y)]
                    == cell_at(before, transposed, x, y),
        decreases size.h - dy,
    {
        let mut dx: u32 = 0;
        while dx < size.w
            invariant
                dx <= size.w,
                dy < size.h,
                size.w == w,
                w == rect.spec_width(),
                size.h == rect.spec_height(),
                rect.nonempty(),
                cells == values.expand(),
                cells.len() == w * size.h,
                cells.len() <= usize::MAX,
            cells.len() <= usize::MAX,
                values.wf(),
                plane.wf(),
                prior.wf(),
                i == dy * w + dx,
                prior.expand().len() == i,
                forall|x: int, y: int| #[trigger]
                    cell_at(*plane, transposed, x, y) == if rect.holds(x, y) && earlier(
                        x - rect.min.x,
                        y - rect.min.y,
                        dx as int,
                        dy as int,
                    ) {
                        cells[rect.index_of(x, y)]
                    } else {
                        cell_at(before, transposed, x, y)
                    },
                forall|x: int, y: int| #[trigger]
                    rect.holds(x, y) && earlier(x - rect.min.x, y - rect.min.y, dx as int, dy as int)
                        ==> prior.expand()[rect.index_of(x, y)] == cell_at(before, transposed, x, y),
            decreases size.w - dx,
        {
            let x: i64 = (rect.min.x as i128 + dx as i128) as i64;
            let y: i64 = (rect.min.y as i128 + dy as i128) as i64;
            let (key, row) = if transposed {
                (y, x)
            } else {
                (x, y)
            };
            proof {
                lemma_index_bound(w, size.h as int, dx as int, dy as int);
                assert(rect.index_of(x as int, y as int) == i);
            }
            let ghost seen = prior.expand();
            let ghost current = *plane;
            let held = match plane.get(key, row) {
                Some(v) => Some(v.duplicate()),
                None => None,
            };
            assert(cell_at(current, transposed, x as int, y as int) == cell_at(
                before,
                transposed,
                x as int,
                y as int,
            ));
            prior.push(held);
            let fresh = match values.get_at(i) {
                Some(v) => v.duplicate(),
                None => None,
            };
            plane.set(key, row, fresh);
            proof {
                assert forall|a: int, b: int| #[trigger]
                    rect.holds(a, b) && earlier(a - rect.min.x, b - rect.min.y, dx + 1, dy as int) implies prior.expand()[rect.index_of(
                    a,
                    b,
                )] == cell_at(before, transposed, a, b) by {
                    if a == x && b == y {
                    } else {
                        lemma_index_order(w, a - rect.min.x, b - rect.min.y, dx as int, dy as int);
                        assert(prior.expand()[rect.index_of(a, b)] == seen[rect.index_of(a, b)]);
                    }
                }
                assert forall|a: int, b: int| #[trigger]
                    cell_at(*plane, transposed, a, b) == if rect.holds(a, b) && earlier(
                        a - rect.min.x,
                        b - rect.min.y,
                        dx + 1,
                        dy as int,
                    ) {
                        cells[rect.index_of(a, b)]
                    } else {
                        cell_at(before, transposed, a, b)
                    } by {
                    assert(cell_at(current, transposed, a, b) == if rect.holds(a, b) && earlier(
                        a - rect.min.x,
                        b - rect.min.y,
                        dx as int,
                        dy as int,
                    ) {
                        cells[rect.index_of(a, b)]
                    } else {
                        cell_at(before, transposed, a, b)
                    });
                }
            }
            i = i + 1;
            dx += 1;
        }
        proof {
            assert((dy + 1) * w == dy * w + w) by (nonlinear_arith);
            assert forall|x: int, y: int| #[trigger]
                cell_at(*plane, transposed, x, y) == if rect.holds(x, y) && y - rect.min.y < dy + 1 {
                    cells[rect.index_of(x, y)]
                } else {
                    cell_at(before, transposed, x, y)
                } by {
                assert(rect.holds(x, y) ==> (earlier(x - rect.min.x, y - rect.min.y, w, dy as int) <==> y
                    - rect.min.y < dy + 1));
            }
            assert forall|x: int, y: int| #[trigger]
                rect.holds(x, y) && y - rect.min.y < dy + 1 implies prior.expand()[rect.index_of(x, y)]
                == cell_at(before, transposed, x, y) by {
                assert(earlier(x - rect.min.x, y - rect.min.y, w, dy as int));
            }
        }
        dy += 1;
    }
    proof {
        assert(size.h * w == w * size.h) by (nonlinear_arith);
    }
    Some(prior)
}

/// Lists, row by row, what the rectangle holds, or gives `None` where the
/// rectangle is empty, too wide or too high, or has more cells than a list
/// can hold.
pub fn capture<T: Content>(plane: &Plane<T>, transposed: bool, rect: Rect) -> (r: Option<
    RunLengthEncoding<Option<T>>,
>)
    requires
        plane.wf(),
    ensures
        match r {
            Some(cells) => {
                &&& fits(rect, cells.expand().len() as int)
                &&& cells.wf()
                &&& captures(cells.expand(), *plane, transposed, rect)
            },
            None => forall|n: int| n <= usize::MAX ==> !fits(rect, n),
        },
{
    let size = match rect.size() {
        Some(s) => s,
        None => {
            return None;
        },
    };
    if size.len() > usize::MAX as u64 {
        return None;
    }
    let ghost w = rect.spec_width();
    let mut cells: RunLengthEncoding<Option<T>> = RunLengthEncoding::new();
    let mut i: usize = 0;
    let mut dy: u32 = 0;
    while dy < size.h
        invariant
            dy <= size.h,
            size.w == w,
            w == rect.spec_width(),
            size.h == rect.spec_height(),
            rect.nonempty(),
            w * size.h <= usize::MAX,
            plane.wf(),
            cells.wf(),
            i == dy * w,
            cells.expand().len() == i,
            forall|x: int, y: int| #[trigger]
                rect.holds(x, y) && y - rect.min.y < dy ==> cells.expand()[rect.index_of(x, y)]
                    == cell_at(*plane, transposed, x, y),
        decreases size.h - dy,
    {
        let mut dx: u32 = 0;
        while dx < size.w
            invariant
                dx <= size.w,
                dy < size.h,
                size.w == w,
                w == rect.spec_width(),
                size.h == rect.spec_height(),
                rect.nonempty(),
                w * size.h <= usize::MAX,
                plane.wf(),
                cells.wf(),
                i == dy * w + dx,
                cells.expand().len() == i,
                forall|x: int, y: int| #[trigger]
                    rect.holds(x, y) && earlier(x - rect.min.x, y - rect.min.y, dx as int, dy as int)
                        ==> cells.expand()[rect.index_of(x, y)] == cell_at(*plane, transposed, x, y),
            decreases size.w - dx,
        {
            let x: i64 = (rect.min.x as i128 + dx as i128) as i64;
            let y: i64 = (rect.min.y as i128 + dy as i128) as i64;
            let (key, row) = if transposed {
                (y, x)
            } else {
                (x, y)
            };
            proof {
                lemma_index_bound(w, size.h as int, dx as int, dy as int);
                assert(rect.index_of(x as int, y as int) == i);
            }
            let ghost seen = cells.expand();
            let held = match plane.get(key, row) {
                Some(v) => Some(v.duplicate()),
                None => None,
            };
            cells.push(held);
            proof {
                assert forall|a: int, b: int| #[trigger]
                    rect.holds(a, b) && earlier(a - rect.min.x, b - rect.min.y, dx + 1, dy as int) implies cells.expand()[rect.index_of(
                    a,
                    b,
                )] == cell_at(*plane, transposed, a, b) by {
                    if a == x && b == y {
                    } else {
                        lemma_index_order(w, a - rect.min.x, b - rect.min.y, dx as int, dy as int);
                        assert(cells.expand()[rect.index_of(a, b)] == seen[rect.index_of(a, b)]);
                    }
                }
            }
            i = i + 1;
            dx += 1;
        }
        proof {
            assert((dy + 1) * w == dy * w + w) by (nonlinear_arith);
            assert forall|x: int, y: int| #[trigger]
                rect.holds(x, y) && y - rect.min.y < dy + 1 implies cells.expand()[rect.index_of(x, y)]
                == cell_at(*plane, transposed, x, y) by {
                assert(earlier(x - rect.min.x, y - rect.min.y, w, dy as int));
            }
        }
        dy += 1;
    }
    proof {
        assert(size.h * w == w * size.h) by (nonlinear_arith);
    }
    Some(cells)
}

/// Whether `values` has the sides of the rectangle.
pub open spec fn matches_array(rect: Rect, values: Array) -> bool {
    &&& rect.nonempty()
    &&& rect.spec_width() == values.spec_width()
    &&& rect.spec_height() == values.spec_height()
}

/// Whether `after` is `before` with the rectangle overwritten by `values`,
/// a blank clearing its cell.
pub open spec fn values_written(
    after: Plane<CellValue>,
    before: Plane<CellValue>,
    rect: Rect,
    values: Array,
) -> bool {
    forall|x: int, y: int| #[trigger]
        after.at(x, y) == if rect.holds(x, y) {
            stored(values.at(x - rect.min.x, y - rect.min.y))
        } else {
            before.at(x, y)
        }
}

/// Whether `values` shows what the rectangle holds in the plane, with a blank
/// for a cell that holds nothing.
pub open spec fn values_captured(values: Array, plane: Plane<CellValue>, rect: Rect) -> bool {
    &&& values.wf()
    &&& matches_array(rect, values)
    &&& forall|x: int, y: int| #[trigger]
        rect.holds(x, y) ==> values.at(x - rect.min.x, y - rect.min.y) == shown(plane.at(x, y))
}

/// Overwrites the rectangle with `values`, a blank clearing its cell, and
/// hands back what the rectangle held. Where `values` has other sides than
/// the rectangle, nothing changes and the result is `None`.
pub fn overlay_values(plane: &mut Plane<CellValue>, rect: Rect, values: &Array) -> (r: Option<Array>)
    requires
        old(plane).wf(),
        values.wf(),
    ensures
        final(plane).wf(),
        match r {
            Some(prior) => {
                &&& matches_array(rect, *values)
                &&& values_captured(prior, *old(plane), rect)
                &&& values_written(*final(plane), *old(plane), rect, *values)
            },
            None => !matches_array(rect, *values) && *final(plane) == *old(plane),
        },
{
    let size = match rect.size() {
        Some(s) => s,
        None => {
            proof {
                values.lemma_sides();
            }
            return None;
        },
    };
    if size.w != values.width() || size.h != values.height() {
        return None;
    }
    let ghost before = *plane;
    let mut prior = Array::new_empty(size);
    let mut dy: u32 = 0;
    while dy < size.h
        invariant
            dy <= size.h,
            size.w == rect.spec_width(),
            size.h == rect.spec_height(),
            size.w == values.spec_width(),
            size.h == values.spec_height(),
            rect.nonempty(),
            values.wf(),
            plane.wf(),
            prior.wf(),
            prior.spec_width() == size.w,
            prior.spec_height() == size.h,
            forall|x: int, y: int| #[trigger]
                plane.at(x, y) == if rect.holds(x, y) && y - rect.min.y < dy {
                    stored(values.at(x - rect.min.x, y - rect.min.y))
                } else {
                    before.at(x, y)
                },
            forall|x: int, y: int| #[trigger]
                rect.holds(x, y) && y - rect.min.y < dy ==> prior.at(x - rect.min.x, y - rect.min.y)
                    == shown(before.at(x, y)),
        decreases size.h - dy,
    {
        let mut dx: u32 = 0;
        while dx < size.w
            invariant
                dx <= size.w,
                dy < size.h,
                size.w == rect.spec_width(),
                size.h == rect.spec_height(),
                size.w == values.spec_width(),
                size.h == values.spec_height(),
                rect.nonempty(),
                values.wf(),
                plane.wf(),
                prior.wf(),
                prior.spec_width() == size.w,
                prior.spec_height() == size.h,
                forall|x: int, y: int| #[trigger]
                    plane.at(x, y) == if rect.holds(x, y) && earlier(
                        x - rect.min.x,
                        y - rect.min.y,
                        dx as int,
                        dy as int,
                    ) {
                        stored(values.at(x - rect.min.x, y - rect.min.y))
                    } else {
                        before.at(x, y)
                    },
                forall|x: int, y: int| #[trigger]
                    rect.holds(x, y) && earlier(x - rect.min.x, y - rect.min.y, dx as int, dy as int)
                        ==> prior.at(x - rect.min.x, y - rect.min.y) == shown(before.at(x, y)),
            decreases size.w - dx,
        {
            let x: i64 = (rect.min.x as i128 + dx as i128) as i64;
            let y: i64 = (rect.min.y as i128 + dy as i128) as i64;
            let ghost current = *plane;
            let ghost seen = prior;
            let held = CellValue::from_stored(plane.get(x, y));
            assert(current.at(x as int, y as int) == before.at(x as int, y as int));
            prior.set(dx, dy, held);
            let fresh = match values.get(dx, dy) {
                Some(v) => v.duplicate().into_stored(),
                None => None,
            };
            plane.set(x, y, fresh);
            proof {
                assert forall|a: int, b: int| #[trigger]
                    rect.holds(a, b) && earlier(a - rect.min.x, b - rect.min.y, dx + 1, dy as int) implies prior.at(
                    a - rect.min.x,
                    b - rect.min.y,
                ) == shown(before.at(a, b)) by {
                    if a == x && b == y {
                    } else {
                        assert(prior.at(a - rect.min.x, b - rect.min.y) == seen.at(
                            a - rect.min.x,
                            b - rect.min.y,
                        ));
                    }
                }
                assert forall|a: int, b: int| #[trigger]
                    plane.at(a, b) == if rect.holds(a, b) && earlier(
                        a - rect.min.x,
                        b - rect.min.y,
                        dx + 1,
                        dy as int,
                    ) {
                        stored(values.at(a - rect.min.x, b - rect.min.y))
                    } else {
                        before.at(a, b)
                    } by {
                    assert(current.at(a, b) == if rect.holds(a, b) && earlier(
                        a - rect.min.x,
                        b - rect.min.y,
                        dx as int,
                        dy as int,
                    ) {
                        stored(values.at(a - rect.min.x, b - rect.min.y))
                    } else {
                        before.at(a, b)
                    });
                }
            }
            dx += 1;
        }
        proof {
            assert forall|x: int, y: int| #[trigger]
                plane.at(x, y) == if rect.holds(x, y) && y - rect.min.y < dy + 1 {
                    stored(values.at(x - rect.min.x, y - rect.min.y))
                } else {
                    before.at(x, y)
                } by {
                assert(rect.holds(x, y) ==> (earlier(
                    x - rect.min.x,
                    y - rect.min.y,
                    size.w as int,
                    dy as int,
                ) <==> y - rect.min.y < dy + 1));
            }
            assert forall|x: int, y: int| #[trigger]
                rect.holds(x, y) && y - rect.min.y < dy + 1 implies prior.at(
                x - rect.min.x,
                y - rect.min.y,
            ) == shown(before.at(x, y)) by {
                assert(earlier(x - rect.min.x, y - rect.min.y, size.w as int, dy as int));
            }
        }
        dy += 1;
    }
    Some(prior)
}

} // verus!
