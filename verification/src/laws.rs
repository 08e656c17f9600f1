//! Laws of the engine that span several of its functions.

use vstd::prelude::*;
use crate::content::Content;
use crate::operation::distinct_ids;
use crate::operation::effect_all;
use crate::operation::grid_effect;
use crate::operation::has_sheet;
use crate::operation::lemma_sheet_index;
use crate::operation::outcome;
use crate::operation::sheet_effect;
use crate::operation::sheet_index;
use crate::operation::GridView;
use crate::operation::Operation;
use crate::position::SheetId;
use crate::sheet::SheetView;
use crate::sheet::obstructs;
use crate::sheet::output_at;
use crate::sheet::output_size;
use crate::sheet::shown_by;
use crate::sheet::spill_message;
use crate::sheet::spilled;
use crate::transaction::shaped;
use crate::borders::BorderSides;
use crate::borders::CellBorderModel;
use crate::borders::sides_model;
use crate::clipboard::border_entry;
use crate::clipboard::borders_copied;
use crate::clipboard::code_copied;
use crate::clipboard::entry_in;
use crate::clipboard::any_side;
use crate::code::stripped_model;
use crate::code::CodeCellValue;
use crate::paste::entry_targets;
use crate::paste::line_targets;
use crate::paste::sets_code;
use crate::paste::sets_line;
use crate::paste::LineTarget;
use crate::position::Pos;
use crate::position::Rect;
use crate::region::map_cell;
use crate::sheet::lines_of;
use crate::sheet::sides_in;
use crate::clipboard::cells_copied;
use crate::clipboard::copyable;
use crate::clipboard::formats_copied;
use crate::clipboard::snapshot_of;
use crate::clipboard::Clipboard;
use crate::formatting::CellFmtArray;
use crate::paste::array_of_cells;
use crate::paste::pasteable;
use crate::paste::pasted_rect;
use crate::paste::pastes;
use crate::paste::PasteOperations;
use crate::position::lemma_index_bound;
use crate::position::SheetRect;
use crate::region::map_captures;
use crate::region::map_overwritten;
use crate::sheet::formats_captured;
use crate::sheet::formats_written;
use crate::values::CellValueModel;

verus! {

/// Whether `op` changes what the sheet `id` holds: it speaks of that sheet
/// and neither adds nor deletes a sheet.
pub open spec fn cell_op(op: Operation, id: SheetId) -> bool {
    &&& op.target() == id
    &&& !(op is AddSheet)
    &&& !(op is DeleteSheet)
}

/// The sheet `v` after `op`, which a malformed operation leaves as it is.
pub open spec fn sheet_step(v: SheetView, op: Operation) -> SheetView {
    if shaped(op) {
        sheet_effect(v, op)
    } else {
        v
    }
}

/// The sheet `v` after the operations `ops`, applied in order.
pub open spec fn sheet_fold(v: SheetView, ops: Seq<Operation>) -> SheetView
    decreases ops.len(),
{
    if ops.len() == 0 {
        v
    } else {
        sheet_step(sheet_fold(v, ops.drop_last()), ops.last())
    }
}

/// Applying one list of operations to a sheet after another is applying the
/// joined list.
pub proof fn lemma_fold_concat(v: SheetView, a: Seq<Operation>, b: Seq<Operation>)
    ensures
        sheet_fold(v, a + b) == sheet_fold(sheet_fold(v, a), b),
    decreases b.len(),
{
    if b.len() == 0 {
        assert(a + b =~= a);
    } else {
        assert((a + b).drop_last() =~= a + b.drop_last());
        assert((a + b).last() == b.last());
        lemma_fold_concat(v, a, b.drop_last());
    }
}

/// An operation on the cells of a sheet keeps the sheet's identifier.
pub proof fn lemma_step_keeps_id(v: SheetView, op: Operation)
    requires
        !(op is AddSheet),
        !(op is DeleteSheet),
    ensures
        sheet_step(v, op).id == v.id,
{
    match op {
        Operation::SetCellFormats { sheet_rect, attr } => {
            match attr {
                crate::formatting::CellFmtArray::Align(_) => {},
                crate::formatting::CellFmtArray::Wrap(_) => {},
                crate::formatting::CellFmtArray::NumericFormat(_) => {},
                crate::formatting::CellFmtArray::NumericDecimals(_) => {},
                crate::formatting::CellFmtArray::Bold(_) => {},
                crate::formatting::CellFmtArray::Italic(_) => {},
                crate::formatting::CellFmtArray::TextColor(_) => {},
                crate::formatting::CellFmtArray::FillColor(_) => {},
            }
        },
        _ => {},
    }
}

/// Operations on the cells of one sheet change that sheet of the grid and
/// nothing else: the grid after them has, in the sheet's place, the sheet
/// after them.
pub proof fn lemma_cell_ops(g: GridView, id: SheetId, ops: Seq<Operation>)
    requires
        distinct_ids(g),
        has_sheet(g, id),
        forall|k: int| 0 <= k < ops.len() ==> cell_op(#[trigger] ops[k], id),
    ensures
        effect_all(g, ops).sheets == g.sheets.update(
            sheet_index(g, id),
            sheet_fold(g.sheets[sheet_index(g, id)], ops),
        ),
        sheet_fold(g.sheets[sheet_index(g, id)], ops).id == id,
    decreases ops.len(),
{
    let i = sheet_index(g, id);
    if ops.len() == 0 {
        assert(g.sheets.update(i, g.sheets[i]) =~= g.sheets);
    } else {
        let front = ops.drop_last();
        let op = ops.last();
        assert forall|k: int| 0 <= k < front.len() implies cell_op(#[trigger] front[k], id) by {
            assert(front[k] == ops[k]);
        }
        lemma_cell_ops(g, id, front);
        let mid = effect_all(g, front);
        let v = sheet_fold(g.sheets[i], front);
        assert(mid.sheets[i] == v);
        assert(distinct_ids(mid)) by {
            assert forall|a: int, b: int| 0 <= a < b < mid.sheets.len() implies (#[trigger] mid.sheets[a]).id != (
            #[trigger] mid.sheets[b]).id by {
                assert(g.sheets[a].id != g.sheets[b].id);
            }
        }
        lemma_sheet_index(mid, i);
        assert(cell_op(op, id));
        lemma_step_keeps_id(v, op);
        crate::transaction::lemma_shaped(mid, op);
        if shaped(op) {
            assert(outcome(mid, op) is Applied);
            assert(grid_effect(mid, op).sheets =~= g.sheets.update(i, sheet_step(v, op)));
        } else {
            assert(!(outcome(mid, op) is Applied));
            assert(g.sheets.update(i, v) =~= g.sheets.update(i, sheet_step(v, op)));
        }
    }
}

/// The sheet after the first `n` of some operations is the sheet after the
/// first `n - 1`, with one step more.
pub proof fn lemma_fold_take(v: SheetView, ops: Seq<Operation>, n: int)
    requires
        0 < n <= ops.len(),
    ensures
        sheet_fold(v, ops.take(n)) == sheet_step(sheet_fold(v, ops.take(n - 1)), ops[n - 1]),
{
    assert(ops.take(n).drop_last() =~= ops.take(n - 1));
    assert(ops.take(n).last() == ops[n - 1]);
}

/// Whether one of the first `n` code cells of a snapshot is pasted into the
/// cell `(x, y)`.
pub open spec fn pasted_before(entries: Seq<(Pos, CodeCellValue)>, start: Pos, n: int, x: int, y: int) -> bool {
    exists|i: int| 0 <= i < n && start.x + (#[trigger] entries[i]).0.x == x && start.y + entries[i].0.y == y
}

/// Pasting the code cells of a snapshot into a sheet without code cells, at
/// the place from which they were copied, changes the code cells only, and
/// puts into each cell that holds one of the first `n` of them the code cell
/// of the source without its output.
proof fn lemma_codes(
    v: SheetView,
    ops: Seq<Operation>,
    id: SheetId,
    source: SheetView,
    rect: Rect,
    entries: Seq<(Pos, CodeCellValue)>,
    n: int,
)
    requires
        code_copied(entries, source, rect),
        ops.len() == entries.len(),
        0 <= n <= ops.len(),
        forall|i: int|
            0 <= i < ops.len() ==> sets_code(#[trigger] ops[i], id, rect.min, entries[i].0, entries[i].1.model()),
        v.code == Map::<(int, int), crate::code::CodeCellModel>::empty(),
    ensures
        sheet_fold(v, ops.take(n)) == (SheetView { code: sheet_fold(v, ops.take(n)).code, ..v }),
        forall|x: int, y: int|
            #[trigger] map_cell(sheet_fold(v, ops.take(n)).code, false, x, y) == if pasted_before(
                entries,
                rect.min,
                n,
                x,
                y,
            ) {
                Some(stripped_model(source.code[(x, y)]))
            } else {
                None
            },
    decreases n,
{
    if n == 0 {
        assert(ops.take(0) =~= Seq::<Operation>::empty());
    } else {
        lemma_codes(v, ops, id, source, rect, entries, n - 1);
        lemma_fold_take(v, ops, n);
        let before = sheet_fold(v, ops.take(n - 1));
        let after = sheet_fold(v, ops.take(n));
        let op = ops[n - 1];
        assert(sets_code(op, id, rect.min, entries[n - 1].0, entries[n - 1].1.model()));
        let px = rect.min.x + entries[n - 1].0.x;
        let py = rect.min.y + entries[n - 1].0.y;
        assert forall|x: int, y: int|
            #[trigger] map_cell(after.code, false, x, y) == if pasted_before(entries, rect.min, n, x, y) {
                Some(stripped_model(source.code[(x, y)]))
            } else {
                None
            } by {
            assert(map_cell(before.code, false, x, y) == if pasted_before(entries, rect.min, n - 1, x, y) {
                Some(stripped_model(source.code[(x, y)]))
            } else {
                None
            });
            if x == px && y == py {
                assert(pasted_before(entries, rect.min, n, x, y));
            } else if pasted_before(entries, rect.min, n, x, y) {
                let i = choose|i: int|
                    0 <= i < n && rect.min.x + (#[trigger] entries[i]).0.x == x && rect.min.y + entries[i].0.y == y;
                assert(i < n - 1);
                assert(pasted_before(entries, rect.min, n - 1, x, y));
            } else {
                if pasted_before(entries, rect.min, n - 1, x, y) {
                    let i = choose|i: int|
                        0 <= i < n - 1 && rect.min.x + (#[trigger] entries[i]).0.x == x && rect.min.y
                            + entries[i].0.y == y;
                    assert(pasted_before(entries, rect.min, n, x, y));
                }
            }
        }
    }
}

/// The line on the top edge of the cell `(x, y)` of a sheet, or on its left
/// edge.
pub open spec fn line_in(v: SheetView, horizontal: bool, x: int, y: int) -> Option<CellBorderModel> {
    map_cell(lines_of(v, horizontal), horizontal, x, y)
}

/// Whether one of the first `n` targets is the line of the direction
/// `horizontal` at the cell `(x, y)`.
pub open spec fn targeted(targets: Seq<LineTarget>, n: int, horizontal: bool, x: int, y: int) -> bool {
    exists|q: int|
        0 <= q < n && (#[trigger] targets[q]).horizontal == horizontal && targets[q].x == x && targets[q].y
            == y
}

/// Whether the source has the line of a target, with its style.
pub open spec fn true_target(source: SheetView, t: LineTarget) -> bool {
    line_in(source, t.horizontal, t.x, t.y) == Some(t.style)
}

/// Setting lines that the source has, one by one, in a sheet without lines
/// changes the lines only, and gives each line that one of the first `n`
/// operations sets the style that the source has there.
proof fn lemma_lines(
    v: SheetView,
    ops: Seq<Operation>,
    id: SheetId,
    source: SheetView,
    targets: Seq<LineTarget>,
    n: int,
)
    requires
        ops.len() == targets.len(),
        0 <= n <= ops.len(),
        forall|q: int| 0 <= q < ops.len() ==> sets_line(#[trigger] ops[q], id, targets[q]),
        forall|q: int| 0 <= q < targets.len() ==> true_target(source, #[trigger] targets[q]),
        v.horizontal == Map::<(int, int), CellBorderModel>::empty(),
        v.vertical == Map::<(int, int), CellBorderModel>::empty(),
    ensures
        sheet_fold(v, ops.take(n)) == (SheetView {
            horizontal: sheet_fold(v, ops.take(n)).horizontal,
            vertical: sheet_fold(v, ops.take(n)).vertical,
            ..v
        }),
        forall|horizontal: bool, x: int, y: int|
            #[trigger] line_in(sheet_fold(v, ops.take(n)), horizontal, x, y) == if targeted(
                targets,
                n,
                horizontal,
                x,
                y,
            ) {
                line_in(source, horizontal, x, y)
            } else {
                None
            },
    decreases n,
{
    if n == 0 {
        assert(ops.take(0) =~= Seq::<Operation>::empty());
    } else {
        lemma_lines(v, ops, id, source, targets, n - 1);
        lemma_fold_take(v, ops, n);
        let before = sheet_fold(v, ops.take(n - 1));
        let after = sheet_fold(v, ops.take(n));
        let op = ops[n - 1];
        let t = targets[n - 1];
        assert(sets_line(op, id, t));
        assert(true_target(source, t));
        assert(1 * 1 == 1) by (nonlinear_arith);
        assert(0 * 1 + 0 == 0) by (nonlinear_arith);
        match op {
            Operation::SetBorders { sheet_rect, horizontal, borders } => {
                let r = sheet_rect.spec_rect();
                assert(shaped(op));
                assert(r.index_of(t.x, t.y) == 0);
                assert forall|h: bool, x: int, y: int|
                    #[trigger] line_in(after, h, x, y) == if targeted(targets, n, h, x, y) {
                        line_in(source, h, x, y)
                    } else {
                        None
                    } by {
                    assert(line_in(before, h, x, y) == if targeted(targets, n - 1, h, x, y) {
                        line_in(source, h, x, y)
                    } else {
                        None
                    });
                    if h == t.horizontal && x == t.x && y == t.y {
                        assert(targeted(targets, n, h, x, y));
                        assert(r.holds(x, y));
                    } else {
                        assert(!(h == horizontal && r.holds(x, y)));
                        assert(line_in(after, h, x, y) == line_in(before, h, x, y));
                        if targeted(targets, n, h, x, y) {
                            let q = choose|q: int|
                                0 <= q < n && (#[trigger] targets[q]).horizontal == h && targets[q].x == x
                                    && targets[q].y == y;
                            assert(q < n - 1);
                            assert(targeted(targets, n - 1, h, x, y));
                        } else if targeted(targets, n - 1, h, x, y) {
                            let q = choose|q: int|
                                0 <= q < n - 1 && (#[trigger] targets[q]).horizontal == h && targets[q].x == x
                                    && targets[q].y == y;
                            assert(targeted(targets, n, h, x, y));
                        }
                    }
                }
            },
            _ => {},
        }
    }
}

/// The lines that a border entry of a snapshot asks for are lines of the
/// source, and each line that the source has on an edge of the entry's cell
/// is among them.
proof fn lemma_entry_targets(b: (i64, i64, Option<BorderSides>), source: SheetView, rect: Rect)
    requires
        entry_in(b, source, rect),
    ensures
        forall|j: int|
            0 <= j < entry_targets(b, rect.min).len() ==> true_target(source, #[trigger] entry_targets(b, rect.min)[j]),
        forall|horizontal: bool, x: int, y: int|
            on_edge(rect.min.x + b.0, rect.min.y + b.1, horizontal, x, y) && line_in(source, horizontal, x, y) is Some
                ==> #[trigger] targeted(
                entry_targets(b, rect.min),
                entry_targets(b, rect.min).len() as int,
                horizontal,
                x,
                y,
            ),
{
    let x0 = rect.min.x + b.0;
    let y0 = rect.min.y + b.1;
    let all = entry_targets(b, rect.min);
    match b.2 {
        None => {
            assert(!any_side(sides_in(source, x0, y0)));
        },
        Some(s) => {
            assert(sides_model(s) == sides_in(source, x0, y0));
            let l = match s.left {
                Some(l) => seq![LineTarget { horizontal: false, x: x0, y: y0, style: l.model() }],
                None => Seq::empty(),
            };
            let t = match s.top {
                Some(l) => seq![LineTarget { horizontal: true, x: x0, y: y0, style: l.model() }],
                None => Seq::empty(),
            };
            let r = match s.right {
                Some(l) => seq![LineTarget { horizontal: false, x: x0 + 1, y: y0, style: l.model() }],
                None => Seq::empty(),
            };
            let d = match s.bottom {
                Some(l) => seq![LineTarget { horizontal: true, x: x0, y: y0 + 1, style: l.model() }],
                None => Seq::empty(),
            };
            assert(all == l + t + r + d);
            assert forall|j: int| 0 <= j < all.len() implies true_target(source, #[trigger] all[j]) by {
                if j < l.len() {
                    assert(all[j] == l[j]);
                } else if j < l.len() + t.len() {
                    assert(all[j] == t[j - l.len()]);
                } else if j < l.len() + t.len() + r.len() {
                    assert(all[j] == r[j - l.len() - t.len()]);
                } else {
                    assert(all[j] == d[j - l.len() - t.len() - r.len()]);
                }
            }
            assert forall|horizontal: bool, x: int, y: int|
                on_edge(x0, y0, horizontal, x, y) && line_in(source, horizontal, x, y) is Some implies #[trigger] targeted(
                all,
                all.len() as int,
                horizontal,
                x,
                y,
            ) by {
                if !horizontal && x == x0 && y == y0 {
                    assert(s.left is Some);
                    assert(all[0] == l[0]);
                } else if horizontal && x == x0 && y == y0 {
                    assert(s.top is Some);
                    assert(all[l.len() as int] == t[0]);
                } else if !horizontal && x == x0 + 1 && y == y0 {
                    assert(s.right is Some);
                    assert(all[(l.len() + t.len()) as int] == r[0]);
                } else {
                    assert(s.bottom is Some);
                    assert(all[(l.len() + t.len() + r.len()) as int] == d[0]);
                }
            }
        },
    }
}

/// Whether the line of the direction `horizontal` at the cell `(x, y)` lies
/// on an edge of the cell `(x0, y0)`: it is the line on that cell's left or
/// top edge, or on the left edge of the cell to its right, or on the top edge
/// of the cell below.
pub open spec fn on_edge(x0: int, y0: int, horizontal: bool, x: int, y: int) -> bool {
    ||| !horizontal && x == x0 && y == y0
    ||| horizontal && x == x0 && y == y0
    ||| !horizontal && x == x0 + 1 && y == y0 && x0 < i64::MAX
    ||| horizontal && x == x0 && y == y0 + 1 && y0 < i64::MAX
}

/// The lines that the first `n` border entries of a snapshot ask for are
/// lines of the source, and each line that the source has on an edge of the
/// cell of one of these entries is among them.
proof fn lemma_targets(borders: Seq<(i64, i64, Option<BorderSides>)>, source: SheetView, rect: Rect, n: int)
    requires
        0 <= n <= borders.len(),
        forall|e: int| 0 <= e < borders.len() ==> entry_in(#[trigger] borders[e], source, rect),
    ensures
        forall|q: int|
            0 <= q < line_targets(borders, rect.min, n).len() ==> true_target(
                source,
                #[trigger] line_targets(borders, rect.min, n)[q],
            ),
        forall|e: int, horizontal: bool, x: int, y: int|
            0 <= e < n && on_edge(rect.min.x + borders[e].0, rect.min.y + borders[e].1, horizontal, x, y)
                && line_in(source, horizontal, x, y) is Some ==> #[trigger] covered(
                borders,
                rect,
                n,
                e,
                horizontal,
                x,
                y,
            ),
    decreases n,
{
    if n > 0 {
        lemma_targets(borders, source, rect, n - 1);
        let prev = line_targets(borders, rect.min, n - 1);
        let last = entry_targets(borders[n - 1], rect.min);
        let all = line_targets(borders, rect.min, n);
        assert(all == prev + last);
        assert(entry_in(borders[n - 1], source, rect));
        lemma_entry_targets(borders[n - 1], source, rect);
        assert forall|q: int| 0 <= q < all.len() implies true_target(source, #[trigger] all[q]) by {
            if q < prev.len() {
                assert(all[q] == prev[q]);
            } else {
                assert(all[q] == last[q - prev.len()]);
            }
        }
        assert forall|e: int, horizontal: bool, x: int, y: int|
            0 <= e < n && on_edge(rect.min.x + borders[e].0, rect.min.y + borders[e].1, horizontal, x, y)
                && line_in(source, horizontal, x, y) is Some implies #[trigger] covered(
            borders,
            rect,
            n,
            e,
            horizontal,
            x,
            y,
        ) by {
            if e < n - 1 {
                assert(covered(borders, rect, n - 1, e, horizontal, x, y));
                let q = choose|q: int|
                    0 <= q < prev.len() && (#[trigger] prev[q]).horizontal == horizontal && prev[q].x == x
                        && prev[q].y == y;
                assert(all[q] == prev[q]);
            } else {
                assert(targeted(last, last.len() as int, horizontal, x, y));
                let q = choose|q: int|
                    0 <= q < last.len() && (#[trigger] last[q]).horizontal == horizontal && last[q].x == x
                        && last[q].y == y;
                assert(all[prev.len() + q] == last[q]);
            }
        }
    }
}

/// Whether the line at `(x, y)` is among the lines that the first `n` border
/// entries ask for.
pub open spec fn covered(
    borders: Seq<(i64, i64, Option<BorderSides>)>,
    rect: Rect,
    n: int,
    e: int,
    horizontal: bool,
    x: int,
    y: int,
) -> bool {
    targeted(
        line_targets(borders, rect.min, n),
        line_targets(borders, rect.min, n).len() as int,
        horizontal,
        x,
        y,
    )
}

/// A cell of a rectangle that was overwritten with what another map holds
/// there holds what the other map holds.
proof fn lemma_overwritten_cell<M>(
    m: Map<(int, int), M>,
    rect: Rect,
    cells: Seq<Option<M>>,
    source: Map<(int, int), M>,
    x: int,
    y: int,
)
    requires
        map_captures(cells, source, false, rect),
        rect.holds(x, y),
    ensures
        map_cell(map_overwritten(m, false, rect, cells), false, x, y) == map_cell(source, false, x, y),
{
    assert(cells[rect.index_of(x, y)] == map_cell(source, false, x, y));
}

/// Whether the sheet `t` has, in every cell of `rect`, the formats that the
/// sheet `source` has there.
pub open spec fn same_formats(t: SheetView, source: SheetView, rect: Rect) -> bool {
    forall|x: int, y: int| #[trigger]
        rect.holds(x, y) ==> {
            &&& map_cell(t.align, false, x, y) == map_cell(source.align, false, x, y)
            &&& map_cell(t.wrap, false, x, y) == map_cell(source.wrap, false, x, y)
            &&& map_cell(t.numeric_format, false, x, y) == map_cell(source.numeric_format, false, x, y)
            &&& map_cell(t.numeric_decimals, false, x, y) == map_cell(source.numeric_decimals, false, x, y)
            &&& map_cell(t.bold, false, x, y) == map_cell(source.bold, false, x, y)
            &&& map_cell(t.italic, false, x, y) == map_cell(source.italic, false, x, y)
            &&& map_cell(t.text_color, false, x, y) == map_cell(source.text_color, false, x, y)
            &&& map_cell(t.fill_color, false, x, y) == map_cell(source.fill_color, false, x, y)
        }
}

/// Whether two sheets differ in their formats at most.
pub open spec fn formats_apart(t: SheetView, v: SheetView) -> bool {
    t == (SheetView {
        align: t.align,
        wrap: t.wrap,
        numeric_format: t.numeric_format,
        numeric_decimals: t.numeric_decimals,
        bold: t.bold,
        italic: t.italic,
        text_color: t.text_color,
        fill_color: t.fill_color,
        ..v
    })
}

/// Writing the eight lists of formats of a snapshot over the rectangle from
/// which they were copied changes the formats only and gives every cell of
/// the rectangle the formats of the source.
proof fn lemma_formats(v: SheetView, ops: Seq<Operation>, target: SheetRect, formats: Seq<CellFmtArray>, source: SheetView)
    requires
        formats_copied(formats, source, target.spec_rect()),
        ops.len() == 8,
        forall|i: int|
            0 <= i < 8 ==> #[trigger] ops[i] == (Operation::SetCellFormats { sheet_rect: target, attr: formats[i] }),
    ensures
        formats_apart(sheet_fold(v, ops), v),
        same_formats(sheet_fold(v, ops), source, target.spec_rect()),
{
    let rect = target.spec_rect();
    let f0 = sheet_fold(v, ops.take(0));
    assert(ops.take(0) =~= Seq::<Operation>::empty());
    assert(f0 == v);
    let f1 = sheet_fold(v, ops.take(1));
    let f2 = sheet_fold(v, ops.take(2));
    let f3 = sheet_fold(v, ops.take(3));
    let f4 = sheet_fold(v, ops.take(4));
    let f5 = sheet_fold(v, ops.take(5));
    let f6 = sheet_fold(v, ops.take(6));
    let f7 = sheet_fold(v, ops.take(7));
    let f8 = sheet_fold(v, ops.take(8));
    assert(ops.take(8) =~= ops);
    lemma_fold_take(v, ops, 1);
    lemma_fold_take(v, ops, 2);
    lemma_fold_take(v, ops, 3);
    lemma_fold_take(v, ops, 4);
    lemma_fold_take(v, ops, 5);
    lemma_fold_take(v, ops, 6);
    lemma_fold_take(v, ops, 7);
    lemma_fold_take(v, ops, 8);
    assert(formats[0].wf() && formats[1].wf() && formats[2].wf() && formats[3].wf());
    assert(formats[4].wf() && formats[5].wf() && formats[6].wf() && formats[7].wf());
    assert(shaped(ops[0]) && shaped(ops[1]) && shaped(ops[2]) && shaped(ops[3]));
    assert(shaped(ops[4]) && shaped(ops[5]) && shaped(ops[6]) && shaped(ops[7]));
    assert(f1 == formats_written(f0, rect, formats[0]));
    assert(f2 == formats_written(f1, rect, formats[1]));
    assert(f3 == formats_written(f2, rect, formats[2]));
    assert(f4 == formats_written(f3, rect, formats[3]));
    assert(f5 == formats_written(f4, rect, formats[4]));
    assert(f6 == formats_written(f5, rect, formats[5]));
    assert(f7 == formats_written(f6, rect, formats[6]));
    assert(f8 == formats_written(f7, rect, formats[7]));
    assert(formats_captured(formats[0], source, rect) && formats_captured(formats[1], source, rect));
    assert(formats_captured(formats[2], source, rect) && formats_captured(formats[3], source, rect));
    assert(formats_captured(formats[4], source, rect) && formats_captured(formats[5], source, rect));
    assert(formats_captured(formats[6], source, rect) && formats_captured(formats[7], source, rect));
    match (
        formats[0],
        formats[1],
        formats[2],
        formats[3],
        formats[4],
        formats[5],
        formats[6],
        formats[7],
    ) {
        (
            CellFmtArray::Align(r0),
            CellFmtArray::Wrap(r1),
            CellFmtArray::NumericFormat(r2),
            CellFmtArray::NumericDecimals(r3),
            CellFmtArray::Bold(r4),
            CellFmtArray::Italic(r5),
            CellFmtArray::TextColor(r6),
            CellFmtArray::FillColor(r7),
        ) => {
            assert(f8.align == map_overwritten(v.align, false, rect, r0.expand()));
            assert(f8.wrap == map_overwritten(v.wrap, false, rect, r1.expand()));
            assert(f8.numeric_format == map_overwritten(v.numeric_format, false, rect, r2.expand()));
            assert(f8.numeric_decimals == map_overwritten(v.numeric_decimals, false, rect, r3.expand()));
            assert(f8.bold == map_overwritten(v.bold, false, rect, r4.expand()));
            assert(f8.italic == map_overwritten(v.italic, false, rect, r5.expand()));
            assert(f8.text_color == map_overwritten(v.text_color, false, rect, r6.expand()));
            assert(f8.fill_color == map_overwritten(v.fill_color, false, rect, r7.expand()));
            assert forall|x: int, y: int| #[trigger] rect.holds(x, y) implies {
                &&& map_cell(f8.align, false, x, y) == map_cell(source.align, false, x, y)
                &&& map_cell(f8.wrap, false, x, y) == map_cell(source.wrap, false, x, y)
                &&& map_cell(f8.numeric_format, false, x, y) == map_cell(source.numeric_format, false, x, y)
                &&& map_cell(f8.numeric_decimals, false, x, y) == map_cell(
                    source.numeric_decimals,
                    false,
                    x,
                    y,
                )
                &&& map_cell(f8.bold, false, x, y) == map_cell(source.bold, false, x, y)
                &&& map_cell(f8.italic, false, x, y) == map_cell(source.italic, false, x, y)
                &&& map_cell(f8.text_color, false, x, y) == map_cell(source.text_color, false, x, y)
                &&& map_cell(f8.fill_color, false, x, y) == map_cell(source.fill_color, false, x, y)
            } by {
                lemma_overwritten_cell(v.align, rect, r0.expand(), source.align, x, y);
                lemma_overwritten_cell(v.wrap, rect, r1.expand(), source.wrap, x, y);
                lemma_overwritten_cell(v.numeric_format, rect, r2.expand(), source.numeric_format, x, y);
                lemma_overwritten_cell(v.numeric_decimals, rect, r3.expand(), source.numeric_decimals, x, y);
                lemma_overwritten_cell(v.bold, rect, r4.expand(), source.bold, x, y);
                lemma_overwritten_cell(v.italic, rect, r5.expand(), source.italic, x, y);
                lemma_overwritten_cell(v.text_color, rect, r6.expand(), source.text_color, x, y);
                lemma_overwritten_cell(v.fill_color, rect, r7.expand(), source.fill_color, x, y);
            }
        },
        _ => {},
    }
}

/// Whether a sheet holds nothing: no value, no format, no code cell, no
/// border line.
pub open spec fn unwritten(v: SheetView) -> bool {
    &&& v.values == Map::<(int, int), CellValueModel>::empty()
    &&& v.align == Map::<(int, int), crate::formatting::CellAlign>::empty()
    &&& v.wrap == Map::<(int, int), crate::formatting::CellWrap>::empty()
    &&& v.numeric_format == Map::<(int, int), crate::formatting::NumericFormatModel>::empty()
    &&& v.numeric_decimals == Map::<(int, int), i16>::empty()
    &&& v.bold == Map::<(int, int), bool>::empty()
    &&& v.italic == Map::<(int, int), bool>::empty()
    &&& v.text_color == Map::<(int, int), Seq<char>>::empty()
    &&& v.fill_color == Map::<(int, int), Seq<char>>::empty()
    &&& v.code == Map::<(int, int), crate::code::CodeCellModel>::empty()
    &&& v.horizontal == Map::<(int, int), CellBorderModel>::empty()
    &&& v.vertical == Map::<(int, int), CellBorderModel>::empty()
}

/// Whether the sheet `t` shows over `rect` what the sheet `source` holds
/// there: in every cell of the rectangle the same value, the same formats and
/// the same lines on its four edges, and the same code cell without what its
/// last run gave.
pub open spec fn reproduces(t: SheetView, source: SheetView, rect: Rect) -> bool {
    &&& same_formats(t, source, rect)
    &&& forall|x: int, y: int| #[trigger]
        rect.holds(x, y) ==> {
            &&& map_cell(t.values, false, x, y) == map_cell(source.values, false, x, y)
            &&& sides_in(t, x, y) == sides_in(source, x, y)
            &&& map_cell(t.code, false, x, y) == match map_cell(source.code, false, x, y) {
                Some(c) => Some(stripped_model(c)),
                None => None,
            }
        }
}

/// The snapshot of a rectangle can be pasted at the rectangle's first cell.
proof fn lemma_snapshot_pasteable(c: Clipboard, source: SheetView, rect: Rect)
    requires
        copyable(rect),
        snapshot_of(c, source, rect),
    ensures
        pasteable(rect.min, c),
        pasted_rect(rect.min, c.w as int, c.h as int) == rect,
{
    assert forall|i: int| 0 <= i < c.borders@.len() implies crate::paste::border_pasteable(
        rect.min,
        #[trigger] c.borders@[i],
    ) by {
        assert(entry_in(c.borders@[i], source, rect));
    }
}

/// The sheet after one operation.
proof fn lemma_fold_one(v: SheetView, ops: Seq<Operation>)
    requires
        ops.len() == 1,
    ensures
        sheet_fold(v, ops) == sheet_step(v, ops[0]),
{
    assert(ops.drop_last() =~= Seq::<Operation>::empty());
    assert(sheet_fold(v, ops.drop_last()) == v);
}

/// What holds of a copy and a paste at the place of copying into a sheet that
/// holds nothing.
pub open spec fn copied_and_pasted(
    source: SheetView,
    rect: Rect,
    c: Clipboard,
    g: GridView,
    id: SheetId,
    p: PasteOperations,
) -> bool {
    &&& copyable(rect)
    &&& snapshot_of(c, source, rect)
    &&& forall|k: (int, int)| source.values.dom().contains(k) ==> !(#[trigger] source.values[k] is Blank)
    &&& distinct_ids(g)
    &&& has_sheet(g, id)
    &&& unwritten(g.sheets[sheet_index(g, id)])
    &&& pastes(g, id, rect.min, c, p)
}

/// The operations of such a paste: one that writes the values, then one for
/// each code cell, then the eight lists of formats, then the border lines.
proof fn lemma_paste_shape(source: SheetView, rect: Rect, c: Clipboard, g: GridView, id: SheetId, p: PasteOperations)
    requires
        copied_and_pasted(source, rect, c, g, id, p),
    ensures
        p.values == 1,
        p.removals == 0,
        p.codes == c.code@.len(),
        p.formats == 8,
        c.formats@.len() == 8,
        p.ops@.len() == 9 + c.code@.len() + line_targets(c.borders@, rect.min, c.borders@.len() as int).len(),
        forall|k: int| 0 <= k < p.ops@.len() ==> cell_op(#[trigger] p.ops@[k], id),
        match p.ops@[0] {
            Operation::SetCellValues { sheet_rect, values } => sheet_rect.spec_rect() == rect && array_of_cells(
                values,
                c.cells@,
                rect.spec_width(),
                rect.spec_height(),
            ),
            _ => false,
        },
        forall|k: int|
            0 <= k < c.code@.len() ==> sets_code(
                #[trigger] p.ops@[1 + k],
                id,
                rect.min,
                c.code@[k].0,
                c.code@[k].1.model(),
            ),
        forall|k: int|
            0 <= k < 8 ==> #[trigger] p.ops@[1 + c.code@.len() + k] == (Operation::SetCellFormats {
                sheet_rect: SheetRect { min: rect.min, max: rect.max, sheet_id: id },
                attr: c.formats@[k],
            }),
        forall|k: int|
            0 <= k < line_targets(c.borders@, rect.min, c.borders@.len() as int).len() ==> sets_line(
                #[trigger] p.ops@[9 + c.code@.len() + k],
                id,
                line_targets(c.borders@, rect.min, c.borders@.len() as int)[k],
            ),
{
    let ops = p.ops@;
    let i = sheet_index(g, id);
    let blank = g.sheets[i];
    lemma_snapshot_pasteable(c, source, rect);
    let target = SheetRect { min: rect.min, max: rect.max, sheet_id: id };
    let a = p.values as int;
    let b = a + p.removals;
    let d = b + p.codes;
    let e = d + p.formats;
    let targets = line_targets(c.borders@, rect.min, c.borders@.len() as int);
    assert(a == 1);
    if b > a {
        assert(crate::cell_value::code_removal_in(ops[a], target, blank.code));
    }
    assert forall|k: int| 0 <= k < c.code@.len() implies sets_code(
        #[trigger] ops[1 + k],
        id,
        rect.min,
        c.code@[k].0,
        c.code@[k].1.model(),
    ) by {
        assert(ops[b + k] == ops[1 + k]);
    }
    assert forall|k: int| 0 <= k < 8 implies #[trigger] ops[1 + c.code@.len() + k] == (Operation::SetCellFormats {
        sheet_rect: target,
        attr: c.formats@[k],
    }) by {
        assert(ops[d + k] == ops[1 + c.code@.len() + k]);
    }
    assert forall|k: int| 0 <= k < targets.len() implies sets_line(
        #[trigger] ops[9 + c.code@.len() + k],
        id,
        targets[k],
    ) by {
        assert(ops[e + k] == ops[9 + c.code@.len() + k]);
    }
    assert forall|k: int| 0 <= k < ops.len() implies cell_op(#[trigger] ops[k], id) by {
        if k < 1 {
        } else if k < d {
            assert(sets_code(ops[1 + (k - 1)], id, rect.min, c.code@[k - 1].0, c.code@[k - 1].1.model()));
        } else if k < e {
            assert(ops[1 + c.code@.len() + (k - d)] == (Operation::SetCellFormats {
                sheet_rect: target,
                attr: c.formats@[k - d],
            }));
        } else {
            assert(sets_line(ops[9 + c.code@.len() + (k - e)], id, targets[k - e]));
        }
    }
}

/// Writing the values of a snapshot over the rectangle from which they were
/// copied, in a sheet without values, changes the values only and gives
/// every cell of the rectangle the value of the source.
proof fn lemma_values(blank: SheetView, op: Operation, source: SheetView, rect: Rect, c: Clipboard)
    requires
        copyable(rect),
        cells_copied(c.cells@, source, rect),
        forall|k: (int, int)| source.values.dom().contains(k) ==> !(#[trigger] source.values[k] is Blank),
        match op {
            Operation::SetCellValues { sheet_rect, values } => sheet_rect.spec_rect() == rect && array_of_cells(
                values,
                c.cells@,
                rect.spec_width(),
                rect.spec_height(),
            ),
            _ => false,
        },
    ensures
        sheet_step(blank, op) == (SheetView { values: sheet_step(blank, op).values, ..blank }),
        forall|x: int, y: int| #[trigger]
            rect.holds(x, y) ==> map_cell(sheet_step(blank, op).values, false, x, y) == map_cell(
                source.values,
                false,
                x,
                y,
            ),
{
    let w = rect.spec_width();
    let h = rect.spec_height();
    match op {
        Operation::SetCellValues { sheet_rect, values } => {
            assert(shaped(op));
            let v1 = sheet_step(blank, op);
            assert(v1 == crate::sheet::values_set(blank, rect, values));
            assert forall|x: int, y: int| #[trigger] rect.holds(x, y) implies map_cell(v1.values, false, x, y)
                == map_cell(source.values, false, x, y) by {
                let dx = x - rect.min.x;
                let dy = y - rect.min.y;
                lemma_index_bound(w, h, dx, dy);
                assert(rect.index_of(x, y) == dy * w + dx);
                assert(c.cells@[rect.index_of(x, y)].model() == crate::clipboard::snapshot_cell(source, x, y));
                assert(values.at(dx, dy) == crate::paste::pasted_value(c.cells@, w, dx, dy));
                if source.values.dom().contains((x, y)) {
                    assert(!(source.values[(x, y)] is Blank));
                }
            }
        },
        _ => {},
    }
}

/// After the code cells of a snapshot were pasted, every cell of the
/// rectangle holds the code cell of the source without its output.
proof fn lemma_codes_pasted(
    v: SheetView,
    ops: Seq<Operation>,
    id: SheetId,
    source: SheetView,
    rect: Rect,
    entries: Seq<(Pos, CodeCellValue)>,
)
    requires
        code_copied(entries, source, rect),
        ops.len() == entries.len(),
        forall|i: int|
            0 <= i < ops.len() ==> sets_code(#[trigger] ops[i], id, rect.min, entries[i].0, entries[i].1.model()),
        v.code == Map::<(int, int), crate::code::CodeCellModel>::empty(),
    ensures
        sheet_fold(v, ops) == (SheetView { code: sheet_fold(v, ops).code, ..v }),
        forall|x: int, y: int| #[trigger]
            rect.holds(x, y) ==> map_cell(sheet_fold(v, ops).code, false, x, y) == match map_cell(
                source.code,
                false,
                x,
                y,
            ) {
                Some(c) => Some(stripped_model(c)),
                None => None,
            },
{
    let n = ops.len() as int;
    lemma_codes(v, ops, id, source, rect, entries, n);
    assert(ops.take(n) =~= ops);
    let t = sheet_fold(v, ops);
    assert forall|x: int, y: int| #[trigger] rect.holds(x, y) implies map_cell(t.code, false, x, y)
        == match map_cell(source.code, false, x, y) {
        Some(c) => Some(stripped_model(c)),
        None => None,
    } by {
        assert(map_cell(t.code, false, x, y) == if pasted_before(entries, rect.min, n, x, y) {
            Some(stripped_model(source.code[(x, y)]))
        } else {
            None
        });
        if source.code.dom().contains((x, y)) {
            let k = choose|k: int|
                0 <= k < entries.len() && (#[trigger] entries[k]).0.x == x - rect.min.x && entries[k].0.y == y
                    - rect.min.y;
            assert(pasted_before(entries, rect.min, n, x, y));
        } else if pasted_before(entries, rect.min, n, x, y) {
            let k = choose|k: int|
                0 <= k < n && rect.min.x + (#[trigger] entries[k]).0.x == x && rect.min.y + entries[k].0.y == y;
            assert(source.code.dom().contains((x, y)));
        }
    }
}

/// After the border lines of a snapshot were pasted into a sheet without
/// lines, every cell of the rectangle has on its four edges the lines of the
/// source.
proof fn lemma_lines_pasted(
    v: SheetView,
    ops: Seq<Operation>,
    id: SheetId,
    source: SheetView,
    rect: Rect,
    borders: Seq<(i64, i64, Option<BorderSides>)>,
)
    requires
        copyable(rect),
        borders_copied(borders, source, rect),
        ops.len() == line_targets(borders, rect.min, borders.len() as int).len(),
        forall|q: int|
            0 <= q < ops.len() ==> sets_line(
                #[trigger] ops[q],
                id,
                line_targets(borders, rect.min, borders.len() as int)[q],
            ),
        v.horizontal == Map::<(int, int), CellBorderModel>::empty(),
        v.vertical == Map::<(int, int), CellBorderModel>::empty(),
    ensures
        sheet_fold(v, ops) == (SheetView {
            horizontal: sheet_fold(v, ops).horizontal,
            vertical: sheet_fold(v, ops).vertical,
            ..v
        }),
        forall|x: int, y: int| #[trigger]
            rect.holds(x, y) ==> sides_in(sheet_fold(v, ops), x, y) == sides_in(source, x, y),
{
    let n = ops.len() as int;
    let targets = line_targets(borders, rect.min, borders.len() as int);
    lemma_targets(borders, source, rect, borders.len() as int);
    lemma_lines(v, ops, id, source, targets, n);
    assert(ops.take(n) =~= ops);
    let t = sheet_fold(v, ops);
    assert forall|x: int, y: int| #[trigger] rect.holds(x, y) implies sides_in(t, x, y) == sides_in(source, x, y) by {
        let en = rect.index_of(x, y);
        lemma_index_bound(rect.spec_width(), rect.spec_height(), x - rect.min.x, y - rect.min.y);
        assert(border_entry(borders[en], source, rect, x, y));
        lemma_side(t, source, targets, borders, rect, en, false, x, y, x, y);
        lemma_side(t, source, targets, borders, rect, en, true, x, y, x, y);
        if x < i64::MAX {
            lemma_side(t, source, targets, borders, rect, en, false, x, y, x + 1, y);
        }
        if y < i64::MAX {
            lemma_side(t, source, targets, borders, rect, en, true, x, y, x, y + 1);
        }
    }
}

/// A line on an edge of a cell whose borders were copied and pasted is in
/// the pasted sheet what it is in the source.
proof fn lemma_side(
    t: SheetView,
    source: SheetView,
    targets: Seq<LineTarget>,
    borders: Seq<(i64, i64, Option<BorderSides>)>,
    rect: Rect,
    e: int,
    horizontal: bool,
    x0: int,
    y0: int,
    x: int,
    y: int,
)
    requires
        targets == line_targets(borders, rect.min, borders.len() as int),
        0 <= e < borders.len(),
        rect.min.x + borders[e].0 == x0,
        rect.min.y + borders[e].1 == y0,
        on_edge(x0, y0, horizontal, x, y),
        forall|h: bool, a: int, b: int|
            #[trigger] line_in(t, h, a, b) == if targeted(targets, targets.len() as int, h, a, b) {
                line_in(source, h, a, b)
            } else {
                None
            },
        forall|k: int, h: bool, a: int, b: int|
            0 <= k < borders.len() && on_edge(rect.min.x + borders[k].0, rect.min.y + borders[k].1, h, a, b)
                && line_in(source, h, a, b) is Some ==> #[trigger] covered(
                borders,
                rect,
                borders.len() as int,
                k,
                h,
                a,
                b,
            ),
    ensures
        line_in(t, horizontal, x, y) == line_in(source, horizontal, x, y),
{
    assert(line_in(t, horizontal, x, y) == if targeted(targets, targets.len() as int, horizontal, x, y) {
        line_in(source, horizontal, x, y)
    } else {
        None
    });
    if line_in(source, horizontal, x, y) is Some {
        assert(covered(borders, rect, borders.len() as int, e, horizontal, x, y));
    }
}

/// Spill comes and goes with what is in the way. A value put into the
/// rectangle of a code cell's output, outside the code cell's own cell, marks
/// the output spilled: the code cell shows the spill error in its own cell
/// and nothing elsewhere. Once later operations on values have left no value
/// in that rectangle outside the code cell's own cell, the mark is gone and
/// the code cell shows its output again. The code cell, with what its last
/// run gave, is the same throughout: nothing runs again.
pub proof fn lemma_spill(v: SheetView, ax: int, ay: int, x: int, y: int, put: Operation, take: Operation)
    requires
        v.code.dom().contains((ax, ay)),
        !spilled(v, ax, ay),
        put is SetCellValues,
        take is SetCellValues,
        ax <= x < ax + output_size(v.code[(ax, ay)]).0,
        ay <= y < ay + output_size(v.code[(ax, ay)]).1,
        !(x == ax && y == ay),
        sheet_effect(v, put).values.dom().contains((x, y)),
        forall|px: int, py: int|
            ax <= px < ax + output_size(v.code[(ax, ay)]).0 && ay <= py < ay + output_size(v.code[(ax, ay)]).1
                && !(px == ax && py == ay) ==> !sheet_effect(sheet_effect(v, put), take).values.dom().contains(
                (px, py),
            ),
    ensures
        sheet_effect(v, put).code == v.code,
        spilled(sheet_effect(v, put), ax, ay),
        forall|px: int, py: int| #[trigger]
            shown_by(sheet_effect(v, put), ax, ay, px, py) == if px == ax && py == ay {
                Some(CellValueModel::Error(spill_message()))
            } else {
                None
            },
        sheet_effect(sheet_effect(v, put), take).code == v.code,
        !spilled(sheet_effect(sheet_effect(v, put), take), ax, ay),
        forall|px: int, py: int| #[trigger]
            shown_by(sheet_effect(sheet_effect(v, put), take), ax, ay, px, py) == output_at(
                v.code[(ax, ay)],
                px - ax,
                py - ay,
            ),
{
    let v1 = sheet_effect(v, put);
    let v2 = sheet_effect(v1, take);
    assert(obstructs(v1, ax, ay, x, y));
    assert forall|px: int, py: int| !#[trigger] obstructs(v2, ax, ay, px, py) by {
        if obstructs(v2, ax, ay, px, py) {
            assert(v2.code.dom().contains((px, py)));
            assert(obstructs(v, ax, ay, px, py));
        }
    }
}

/// Copy and paste: pasting the snapshot of a rectangle of a sheet at the
/// rectangle's first cell, into a sheet that holds nothing, gives a sheet
/// that shows over the rectangle what the source holds there. Code cells come
/// without what their last run gave.
pub proof fn lemma_copy_paste(
    source: SheetView,
    rect: Rect,
    c: Clipboard,
    g: GridView,
    id: SheetId,
    p: PasteOperations,
)
    requires
        copyable(rect),
        snapshot_of(c, source, rect),
        forall|k: (int, int)| source.values.dom().contains(k) ==> !(#[trigger] source.values[k] is Blank),
        distinct_ids(g),
        has_sheet(g, id),
        unwritten(g.sheets[sheet_index(g, id)]),
        pastes(g, id, rect.min, c, p),
    ensures
        effect_all(g, p.ops@).sheets.len() == g.sheets.len(),
        reproduces(effect_all(g, p.ops@).sheets[sheet_index(g, id)], source, rect),
{
    let ops = p.ops@;
    let blank = g.sheets[sheet_index(g, id)];
    let target = SheetRect { min: rect.min, max: rect.max, sheet_id: id };
    lemma_paste_shape(source, rect, c, g, id, p);
    lemma_cell_ops(g, id, ops);
    let d: int = 1 + c.code@.len() as int;
    let e: int = d + 8;
    let part_v = ops.subrange(0, 1);
    let part_a = ops.subrange(1, d);
    let part_f = ops.subrange(d, e);
    let part_l = ops.subrange(e, ops.len() as int);
    assert(ops =~= part_v + part_a + part_f + part_l);
    lemma_fold_concat(blank, part_v + part_a + part_f, part_l);
    lemma_fold_concat(blank, part_v + part_a, part_f);
    lemma_fold_concat(blank, part_v, part_a);
    let v1 = sheet_fold(blank, part_v);
    let v2 = sheet_fold(v1, part_a);
    let v3 = sheet_fold(v2, part_f);
    let v4 = sheet_fold(v3, part_l);
    lemma_fold_one(blank, part_v);
    lemma_values(blank, ops[0], source, rect, c);
    assert forall|k: int| 0 <= k < part_a.len() implies sets_code(
        #[trigger] part_a[k],
        id,
        rect.min,
        c.code@[k].0,
        c.code@[k].1.model(),
    ) by {
        assert(part_a[k] == ops[1 + k]);
    }
    lemma_codes_pasted(v1, part_a, id, source, rect, c.code@);
    assert forall|k: int| 0 <= k < 8 implies #[trigger] part_f[k] == (Operation::SetCellFormats {
        sheet_rect: target,
        attr: c.formats@[k],
    }) by {
        assert(part_f[k] == ops[1 + c.code@.len() + k]);
    }
    lemma_formats(v2, part_f, target, c.formats@, source);
    assert forall|q: int| 0 <= q < part_l.len() implies sets_line(
        #[trigger] part_l[q],
        id,
        line_targets(c.borders@, rect.min, c.borders@.len() as int)[q],
    ) by {
        assert(part_l[q] == ops[9 + c.code@.len() + q]);
    }
    lemma_lines_pasted(v3, part_l, id, source, rect, c.borders@);
    lemma_frames(blank, v1, v2, v3, v4, source, rect);
}

/// Four steps of which each changes its own kind of content give a sheet
/// that shows what each step brought.
proof fn lemma_frames(
    blank: SheetView,
    v1: SheetView,
    v2: SheetView,
    v3: SheetView,
    v4: SheetView,
    source: SheetView,
    rect: Rect,
)
    requires
        v1 == (SheetView { values: v1.values, ..blank }),
        v2 == (SheetView { code: v2.code, ..v1 }),
        formats_apart(v3, v2),
        v4 == (SheetView { horizontal: v4.horizontal, vertical: v4.vertical, ..v3 }),
        forall|x: int, y: int| #[trigger]
            rect.holds(x, y) ==> map_cell(v1.values, false, x, y) == map_cell(source.values, false, x, y),
        forall|x: int, y: int| #[trigger]
            rect.holds(x, y) ==> map_cell(v2.code, false, x, y) == match map_cell(source.code, false, x, y) {
                Some(c) => Some(stripped_model(c)),
                None => None,
            },
        same_formats(v3, source, rect),
        forall|x: int, y: int| #[trigger] rect.holds(x, y) ==> sides_in(v4, x, y) == sides_in(source, x, y),
    ensures
        reproduces(v4, source, rect),
{
    assert(v4.values == v1.values);
    assert(v4.code == v2.code);
    assert(v4.align == v3.align);
    assert(v4.wrap == v3.wrap);
    assert(v4.numeric_format == v3.numeric_format);
    assert(v4.numeric_decimals == v3.numeric_decimals);
    assert(v4.bold == v3.bold);
    assert(v4.italic == v3.italic);
    assert(v4.text_color == v3.text_color);
    assert(v4.fill_color == v3.fill_color);
}

} // verus!
