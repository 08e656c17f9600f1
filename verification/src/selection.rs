//! Border commands: from a choice of edges of a rectangle to the operations
//! that set the lines on them.

use vstd::prelude::*;
use crate::content::Content;
use crate::borders::BorderSelection;
use crate::borders::CellBorder;
use crate::borders::CellBorderModel;
use crate::clipboard::copyable;
use crate::content::option_model;
use crate::operation::Operation;
use crate::position::Pos;
use crate::position::Rect;
use crate::position::SheetId;
use crate::position::SheetRect;
use crate::rle::RunLengthEncoding;
use crate::transaction::all_shaped;
use crate::transaction::all_wf;

verus! {

/// A rectangle of lines of one direction: the lines on the top edges of the
/// cells of `rect`, or those on their left edges; to be set, or to be
/// cleared.
#[derive(Clone, Copy, Debug, PartialEq, Eq, Structural)]
pub struct LineFill {
    pub rect: Rect,
    pub horizontal: bool,
    pub clear: bool,
}

/// The lines on the left edge of the rectangle.
pub open spec fn left_fill(r: Rect, clear: bool) -> Seq<LineFill> {
    seq![
        LineFill {
            rect: Rect { min: r.min, max: Pos { x: r.min.x, y: r.max.y } },
            horizontal: false,
            clear,
        },
    ]
}

/// The lines on the top edge of the rectangle.
pub open spec fn top_fill(r: Rect, clear: bool) -> Seq<LineFill> {
    seq![
        LineFill {
            rect: Rect { min: r.min, max: Pos { x: r.max.x, y: r.min.y } },
            horizontal: true,
            clear,
        },
    ]
}

/// The lines on the right edge of the rectangle: the left edges of the cells
/// beyond it, where there are such cells.
pub open spec fn right_fill(r: Rect, clear: bool) -> Seq<LineFill> {
    if r.max.x < i64::MAX {
        seq![
            LineFill {
                rect: Rect {
                    min: Pos { x: (r.max.x + 1) as i64, y: r.min.y },
                    max: Pos { x: (r.max.x + 1) as i64, y: r.max.y },
                },
                horizontal: false,
                clear,
            },
        ]
    } else {
        Seq::empty()
    }
}

/// The lines on the bottom edge of the rectangle: the top edges of the cells
/// below it, where there are such cells.
pub open spec fn bottom_fill(r: Rect, clear: bool) -> Seq<LineFill> {
    if r.max.y < i64::MAX {
        seq![
            LineFill {
                rect: Rect {
                    min: Pos { x: r.min.x, y: (r.max.y + 1) as i64 },
                    max: Pos { x: r.max.x, y: (r.max.y + 1) as i64 },
                },
                horizontal: true,
                clear,
            },
        ]
    } else {
        Seq::empty()
    }
}

/// The horizontal lines between the rows of the rectangle.
pub open spec fn rows_fill(r: Rect, clear: bool) -> Seq<LineFill> {
    if r.min.y < r.max.y {
        seq![
            LineFill {
                rect: Rect { min: Pos { x: r.min.x, y: (r.min.y + 1) as i64 }, max: r.max },
                horizontal: true,
                clear,
            },
        ]
    } else {
        Seq::empty()
    }
}

/// The vertical lines between the columns of the rectangle.
pub open spec fn columns_fill(r: Rect, clear: bool) -> Seq<LineFill> {
    if r.min.x < r.max.x {
        seq![
            LineFill {
                rect: Rect { min: Pos { x: (r.min.x + 1) as i64, y: r.min.y }, max: r.max },
                horizontal: false,
                clear,
            },
        ]
    } else {
        Seq::empty()
    }
}

/// The lines that a selection speaks of, in the order left, top, right,
/// bottom, between rows, between columns.
pub open spec fn selection_fills(r: Rect, sel: BorderSelection) -> Seq<LineFill> {
    match sel {
        BorderSelection::Left => left_fill(r, false),
        BorderSelection::Top => top_fill(r, false),
        BorderSelection::Right => right_fill(r, false),
        BorderSelection::Bottom => bottom_fill(r, false),
        BorderSelection::Outer => left_fill(r, false) + top_fill(r, false) + right_fill(r, false)
            + bottom_fill(r, false),
        BorderSelection::Horizontal => rows_fill(r, false),
        BorderSelection::Vertical => columns_fill(r, false),
        BorderSelection::Inner => rows_fill(r, false) + columns_fill(r, false),
        BorderSelection::All => left_fill(r, false) + top_fill(r, false) + right_fill(r, false)
            + bottom_fill(r, false) + rows_fill(r, false) + columns_fill(r, false),
        BorderSelection::Clear => left_fill(r, true) + top_fill(r, true) + right_fill(r, true)
            + bottom_fill(r, true) + rows_fill(r, true) + columns_fill(r, true),
    }
}

/// The lines that the first `n` of the selections speak of.
pub open spec fn all_fills(r: Rect, sels: Seq<BorderSelection>, n: int) -> Seq<LineFill>
    decreases n,
{
    if n <= 0 {
        Seq::empty()
    } else {
        all_fills(r, sels, n - 1) + selection_fills(r, sels[n - 1])
    }
}

/// Whether `op` gives every line of `fill` on the sheet `sheet_id` the style
/// `style`, or none where the fill clears.
pub open spec fn fills_lines(op: Operation, sheet_id: SheetId, fill: LineFill, style: Option<CellBorderModel>) -> bool {
    match op {
        Operation::SetBorders { sheet_rect, horizontal, borders } => {
            &&& sheet_rect == (SheetRect { min: fill.rect.min, max: fill.rect.max, sheet_id })
            &&& horizontal == fill.horizontal
            &&& borders.wf()
            &&& borders.expand() == Seq::new(
                (fill.rect.spec_width() * fill.rect.spec_height()) as nat,
                |i: int|
                    if fill.clear {
                        None
                    } else {
                        style
                    },
            )
        },
        _ => false,
    }
}

/// Whether `ops` are the operations of a border command: none for a
/// rectangle without a size or with more cells than a list can hold; else
/// one for each rectangle of lines that the selections speak of, selection
/// after selection.
pub open spec fn draws_borders(
    rect: SheetRect,
    sels: Seq<BorderSelection>,
    style: Option<CellBorderModel>,
    ops: Seq<Operation>,
) -> bool {
    if !copyable(rect.spec_rect()) {
        ops.len() == 0
    } else {
        let fills = all_fills(rect.spec_rect(), sels, sels.len() as int);
        &&& ops.len() == fills.len()
        &&& forall|i: int| 0 <= i < ops.len() ==> fills_lines(#[trigger] ops[i], rect.sheet_id, fills[i], style)
    }
}

/// A rectangle inside a rectangle that is stretched by one cell to the right
/// and downwards has no more cells than one more row and column allow.
proof fn lemma_inner_cells(w: int, h: int, a: int, b: int)
    requires
        0 < a <= w,
        0 < b <= h,
    ensures
        0 < a * b <= w * h,
{
    assert(a * b <= w * b) by (nonlinear_arith)
        requires
            a <= w,
            0 < b,
    ;
    assert(w * b <= w * h) by (nonlinear_arith)
        requires
            b <= h,
            0 < w,
    ;
    assert(0 < a * b) by (nonlinear_arith)
        requires
            0 < a,
            0 < b,
    ;
}

/// Whether the rectangle of lines is not empty and no wider and no higher
/// than `r`.
pub open spec fn within(fill: LineFill, r: Rect) -> bool {
    &&& fill.rect.nonempty()
    &&& fill.rect.spec_width() <= r.spec_width()
    &&& fill.rect.spec_height() <= r.spec_height()
}

/// The lines that a selection speaks of.
fn fills_of(r: Rect, sel: BorderSelection) -> (out: Vec<LineFill>)
    requires
        r.nonempty(),
    ensures
        out@ == selection_fills(r, sel),
        forall|q: int| 0 <= q < out@.len() ==> within(#[trigger] out@[q], r),
{
    let clear = match sel {
        BorderSelection::Clear => true,
        _ => false,
    };
    let (left, top, right, bottom, rows, columns) = match sel {
        BorderSelection::Left => (true, false, false, false, false, false),
        BorderSelection::Top => (false, true, false, false, false, false),
        BorderSelection::Right => (false, false, true, false, false, false),
        BorderSelection::Bottom => (false, false, false, true, false, false),
        BorderSelection::Outer => (true, true, true, true, false, false),
        BorderSelection::Horizontal => (false, false, false, false, true, false),
        BorderSelection::Vertical => (false, false, false, false, false, true),
        BorderSelection::Inner => (false, false, false, false, true, true),
        BorderSelection::All => (true, true, true, true, true, true),
        BorderSelection::Clear => (true, true, true, true, true, true),
    };
    let mut out: Vec<LineFill> = Vec::new();
    if left {
        out.push(
            LineFill { rect: Rect { min: r.min, max: Pos { x: r.min.x, y: r.max.y } }, horizontal: false, clear },
        );
        assert(forall|q: int| 0 <= q < out@.len() ==> within(#[trigger] out@[q], r));
    }
    if top {
        out.push(
            LineFill { rect: Rect { min: r.min, max: Pos { x: r.max.x, y: r.min.y } }, horizontal: true, clear },
        );
        assert(forall|q: int| 0 <= q < out@.len() ==> within(#[trigger] out@[q], r));
    }
    if right && r.max.x < i64::MAX {
        out.push(
            LineFill {
                rect: Rect { min: Pos { x: r.max.x + 1, y: r.min.y }, max: Pos { x: r.max.x + 1, y: r.max.y } },
                horizontal: false,
                clear,
            },
        );
        assert(forall|q: int| 0 <= q < out@.len() ==> within(#[trigger] out@[q], r));
    }
    if bottom && r.max.y < i64::MAX {
        out.push(
            LineFill {
                rect: Rect { min: Pos { x: r.min.x, y: r.max.y + 1 }, max: Pos { x: r.max.x, y: r.max.y + 1 } },
                horizontal: true,
                clear,
            },
        );
        assert(forall|q: int| 0 <= q < out@.len() ==> within(#[trigger] out@[q], r));
    }
    if rows && r.min.y < r.max.y {
        out.push(
            LineFill { rect: Rect { min: Pos { x: r.min.x, y: r.min.y + 1 }, max: r.max }, horizontal: true, clear },
        );
        assert(forall|q: int| 0 <= q < out@.len() ==> within(#[trigger] out@[q], r));
    }
    if columns && r.min.x < r.max.x {
        out.push(
            LineFill { rect: Rect { min: Pos { x: r.min.x + 1, y: r.min.y }, max: r.max }, horizontal: false, clear },
        );
        assert(forall|q: int| 0 <= q < out@.len() ==> within(#[trigger] out@[q], r));
    }
    proof {
        assert(out@ =~= selection_fills(r, sel));
    }
    out
}

/// The operations of a border command on the rectangle `sheet_rect`: for
/// each selection, in order, the lines it speaks of get the style `style`;
/// a selection that clears takes every line of the rectangle away.
#[verifier::loop_isolation(false)]
pub fn set_borders_operations(
    sheet_rect: SheetRect,
    selections: &Vec<BorderSelection>,
    style: &Option<CellBorder>,
) -> (ops: Vec<Operation>)
    ensures
        draws_borders(sheet_rect, selections@, option_model(*style), ops@),
        all_wf(ops@),
        all_shaped(ops@),
{
    let mut ops: Vec<Operation> = Vec::new();
    let rect = sheet_rect.rect();
    let size = match rect.size() {
        Some(s) => s,
        None => {
            return ops;
        },
    };
    if size.len() > usize::MAX as u64 {
        return ops;
    }
    let ghost model = option_model(*style);
    let mut i: usize = 0;
    proof {
        assert(all_fills(rect, selections@, 0) =~= Seq::<LineFill>::empty());
    }
    while i < selections.len()
        invariant
            i <= selections.len(),
            ops@.len() == all_fills(rect, selections@, i as int).len(),
            all_wf(ops@),
            all_shaped(ops@),
            forall|q: int|
                0 <= q < ops@.len() ==> fills_lines(
                    #[trigger] ops@[q],
                    sheet_rect.sheet_id,
                    all_fills(rect, selections@, i as int)[q],
                    model,
                ),
        decreases selections.len() - i,
    {
        let fills = fills_of(rect, selections[i]);
        let ghost so_far = all_fills(rect, selections@, i as int);
        let ghost start = ops@;
        let mut j: usize = 0;
        while j < fills.len()
            invariant
                j <= fills.len(),
                ops@.len() == start.len() + j,
                forall|q: int| 0 <= q < start.len() ==> ops@[q] == start[q],
                all_wf(ops@),
                all_shaped(ops@),
                forall|q: int|
                    0 <= q < j ==> fills_lines(
                        #[trigger] ops@[start.len() + q],
                        sheet_rect.sheet_id,
                        fills@[q],
                        model,
                    ),
            decreases fills.len() - j,
        {
            let fill = fills[j];
            proof {
                assert(within(fills@[j as int], rect));
                lemma_inner_cells(
                    rect.spec_width(),
                    rect.spec_height(),
                    fill.rect.spec_width(),
                    fill.rect.spec_height(),
                );
            }
            let cells = match fill.rect.size() {
                Some(s) => s.len() as usize,
                None => 0,
            };
            let value = if fill.clear {
                None
            } else {
                style.duplicate()
            };
            let lines = RunLengthEncoding::repeat(value, cells);
            ops.push(
                Operation::SetBorders {
                    sheet_rect: fill.rect.to_sheet_rect(sheet_rect.sheet_id),
                    horizontal: fill.horizontal,
                    borders: lines,
                },
            );
            j += 1;
        }
        proof {
            let next = all_fills(rect, selections@, i + 1);
            assert(next == so_far + fills@);
            assert forall|q: int| 0 <= q < ops@.len() implies fills_lines(
                #[trigger] ops@[q],
                sheet_rect.sheet_id,
                next[q],
                model,
            ) by {
                if q < start.len() {
                    assert(ops@[q] == start[q]);
                } else {
                    assert(ops@[start.len() + (q - start.len())] == ops@[q]);
                }
            }
        }
        i += 1;
    }
    ops
}

} // verus!
