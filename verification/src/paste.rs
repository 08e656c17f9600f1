//! Pasting a snapshot: the operations that write it into a sheet at a new
//! origin.

use vstd::prelude::*;
use crate::content::Content;
use crate::borders::BorderSides;
use crate::borders::CellBorder;
use crate::borders::CellBorderModel;
use crate::cell_value::single;
use crate::clipboard::Clipboard;
use crate::clipboard::ClipboardCell;
use crate::code::CodeCellModel;
use crate::code::CodeCellValue;
use crate::controller::GridController;
use crate::operation::has_sheet;
use crate::operation::sheet_index;
use crate::operation::GridView;
use crate::operation::Operation;
use crate::plane::cell_before;
use crate::plane::lists_cell;
use crate::position::ArraySize;
use crate::position::Pos;
use crate::position::Rect;
use crate::position::SheetId;
use crate::position::SheetPos;
use crate::position::SheetRect;
use crate::rle::RunLengthEncoding;
use crate::cell_value::writes_text;
use crate::text::split;
use crate::text::split_spec;
use crate::text::texts;
use crate::text::trimmed;
use crate::transaction::all_shaped;
use crate::transaction::all_wf;
use crate::transaction::reversed;
use crate::transaction::shaped;
use crate::values::shown;
use crate::values::Array;
use crate::values::CellValue;
use crate::values::CellValueModel;

verus! {

/// The value that a snapshot has for the cell at offset `(dx, dy)`: the
/// value of the entry that stands for it in the row-by-row list, or a blank
/// where the entry has none or the list is too short.
pub open spec fn pasted_value(cells: Seq<ClipboardCell>, w: int, dx: int, dy: int) -> CellValueModel {
    let i = dy * w + dx;
    if 0 <= i < cells.len() {
        shown(cells[i].model().value)
    } else {
        CellValueModel::Blank
    }
}

/// Whether `a` is the block of the values of a snapshot of `w` by `h` cells.
pub open spec fn array_of_cells(a: Array, cells: Seq<ClipboardCell>, w: int, h: int) -> bool {
    &&& a.wf()
    &&& a.spec_width() == w
    &&& a.spec_height() == h
    &&& forall|dx: int, dy: int|
        0 <= dx < w && 0 <= dy < h ==> #[trigger] a.at(dx, dy) == pasted_value(cells, w, dx, dy)
}

/// The values of a snapshot as a block, or `None` for a snapshot without
/// width or height. Entries beyond the last cell of the block are left out;
/// cells without an entry are blank.
pub fn array_from_clipboard_cells(clipboard: &Clipboard) -> (r: Option<Array>)
    ensures
        match r {
            Some(a) => clipboard.w > 0 && clipboard.h > 0 && array_of_cells(
                a,
                clipboard.cells@,
                clipboard.w as int,
                clipboard.h as int,
            ),
            None => clipboard.w == 0 || clipboard.h == 0,
        },
{
    let size = match ArraySize::new(clipboard.w, clipboard.h) {
        Some(s) => s,
        None => {
            return None;
        },
    };
    let w = clipboard.w;
    let h = clipboard.h;
    let ghost cells = clipboard.cells@;
    let mut array = Array::new_empty(size);
    let mut i: u64 = 0;
    let mut dy: u32 = 0;
    while dy < h
        invariant
            dy <= h,
            w > 0,
            cells == clipboard.cells@,
            array.wf(),
            array.spec_width() == w,
            array.spec_height() == h,
            i == dy * w,
            forall|x: int, y: int|
                0 <= x < w && 0 <= y < h ==> #[trigger] array.at(x, y) == if y < dy {
                    pasted_value(cells, w as int, x, y)
                } else {
                    CellValueModel::Blank
                },
        decreases h - dy,
    {
        let mut dx: u32 = 0;
        while dx < w
            invariant
                dx <= w,
                dy < h,
                w > 0,
                cells == clipboard.cells@,
                array.wf(),
                array.spec_width() == w,
                array.spec_height() == h,
                i == dy * w + dx,
                forall|x: int, y: int|
                    0 <= x < w && 0 <= y < h ==> #[trigger] array.at(x, y) == if y < dy || (y == dy && x
                        < dx) {
                        pasted_value(cells, w as int, x, y)
                    } else {
                        CellValueModel::Blank
                    },
            decreases w - dx,
        {
            proof {
                crate::position::lemma_index_bound(w as int, h as int, dx as int, dy as int);
                assert(w * h <= u32::MAX * u32::MAX) by (nonlinear_arith)
                    requires
                        w <= u32::MAX,
                        h <= u32::MAX,
                ;
            }
            if i < clipboard.cells.len() as u64 {
                let value = match &clipboard.cells[i as usize].value {
                    Some(v) => v.duplicate(),
                    None => CellValue::Blank,
                };
                array.set(dx, dy, value);
            }
            i = i + 1;
            dx += 1;
        }
        proof {
            assert((dy + 1) * w == dy * w + w) by (nonlinear_arith);
        }
        dy += 1;
    }
    Some(array)
}

/// A border line that a paste sets: its direction, the cell on whose top or
/// left edge it lies, and its style.
pub struct LineTarget {
    pub horizontal: bool,
    pub x: int,
    pub y: int,
    pub style: CellBorderModel,
}

/// The lines that the entry `b` of a snapshot asks for when it is pasted
/// with the origin `start`: one for each edge of its cell that has a line,
/// in the order left, top, right, bottom.
pub open spec fn entry_targets(b: (i64, i64, Option<BorderSides>), start: Pos) -> Seq<LineTarget> {
    match b.2 {
        None => Seq::empty(),
        Some(s) => {
            let x = b.0 + start.x;
            let y = b.1 + start.y;
            (match s.left {
                Some(l) => seq![LineTarget { horizontal: false, x, y, style: l.model() }],
                None => Seq::empty(),
            }) + (match s.top {
                Some(l) => seq![LineTarget { horizontal: true, x, y, style: l.model() }],
                None => Seq::empty(),
            }) + (match s.right {
                Some(l) => seq![LineTarget { horizontal: false, x: x + 1, y, style: l.model() }],
                None => Seq::empty(),
            }) + (match s.bottom {
                Some(l) => seq![LineTarget { horizontal: true, x, y: y + 1, style: l.model() }],
                None => Seq::empty(),
            })
        },
    }
}

/// The lines that the first `n` border entries of a snapshot ask for.
pub open spec fn line_targets(borders: Seq<(i64, i64, Option<BorderSides>)>, start: Pos, n: int) -> Seq<
    LineTarget,
>
    decreases n,
{
    if n <= 0 {
        Seq::empty()
    } else {
        line_targets(borders, start, n - 1) + entry_targets(borders[n - 1], start)
    }
}

/// Whether `op` sets the one line `t` on the sheet `sheet_id`.
pub open spec fn sets_line(op: Operation, sheet_id: SheetId, t: LineTarget) -> bool {
    match op {
        Operation::SetBorders { sheet_rect, horizontal, borders } => {
            &&& i64::MIN <= t.x <= i64::MAX
            &&& i64::MIN <= t.y <= i64::MAX
            &&& sheet_rect == single(SheetPos { x: t.x as i64, y: t.y as i64, sheet_id })
            &&& horizontal == t.horizontal
            &&& borders.wf()
            &&& borders.expand() == seq![Some(t.style)]
        },
        _ => false,
    }
}

/// Whether `op` puts a code cell with the model `code` at the offset
/// `offset` from `start` on the sheet `sheet_id`.
pub open spec fn sets_code(op: Operation, sheet_id: SheetId, start: Pos, offset: Pos, code: CodeCellModel) -> bool {
    match op {
        Operation::SetCellCode { sheet_pos, code_cell_value } => {
            &&& sheet_pos.sheet_id == sheet_id
            &&& sheet_pos.x == start.x + offset.x
            &&& sheet_pos.y == start.y + offset.y
            &&& code_cell_value is Some
            &&& code_cell_value->0.model() == code
        },
        _ => false,
    }
}

/// Whether every position that pasting the snapshot at `start` speaks of is
/// a position: the last cell of the pasted rectangle, the cell of each code
/// cell, and the cell of each border entry with, where it has a line on its
/// right or bottom edge, the cell beyond.
pub open spec fn pasteable(start: Pos, c: Clipboard) -> bool {
    &&& c.w > 0 && c.h > 0 ==> start.x + c.w - 1 <= i64::MAX && start.y + c.h - 1 <= i64::MAX
    &&& forall|i: int|
        0 <= i < c.code@.len() ==> i64::MIN <= start.x + (#[trigger] c.code@[i]).0.x <= i64::MAX && i64::MIN
            <= start.y + c.code@[i].0.y <= i64::MAX
    &&& forall|i: int| 0 <= i < c.borders@.len() ==> border_pasteable(start, #[trigger] c.borders@[i])
}

/// Whether the cell of a border entry, and where needed the cell beyond, is
/// a position when the entry is pasted at `start`.
pub open spec fn border_pasteable(start: Pos, b: (i64, i64, Option<BorderSides>)) -> bool {
    match b.2 {
        None => true,
        Some(s) => {
            &&& i64::MIN <= start.x + b.0 <= i64::MAX
            &&& i64::MIN <= start.y + b.1 <= i64::MAX
            &&& s.right is Some ==> start.x + b.0 < i64::MAX
            &&& s.bottom is Some ==> start.y + b.1 < i64::MAX
        },
    }
}

/// The rectangle that a snapshot of `w` by `h` cells covers when it is pasted
/// at `start`.
pub open spec fn pasted_rect(start: Pos, w: int, h: int) -> Rect {
    Rect { min: start, max: Pos { x: (start.x + w - 1) as i64, y: (start.y + h - 1) as i64 } }
}

/// Whether some code cell of the snapshot is pasted into the cell `(x, y)`.
pub open spec fn code_pasted_at(c: Clipboard, start: Pos, x: int, y: int) -> bool {
    exists|i: int| 0 <= i < c.code@.len() && start.x + (#[trigger] c.code@[i]).0.x == x && start.y + c.code@[i].0.y == y
}

/// The operations of a paste, in their order: the writing of the values,
/// the removal of code cells in the way, the pasted code cells, the formats
/// and the border lines; with the number of operations of each of the first
/// four kinds, and whether code has to run afterwards.
pub struct PasteOperations {
    pub ops: Vec<Operation>,
    pub values: usize,
    pub removals: usize,
    pub codes: usize,
    pub formats: usize,
    pub compute: bool,
}

/// Whether `p` holds the operations that paste the snapshot `c` at `start`
/// into the sheet `sheet_id` of the grid `g`.
///
/// Where some position of the paste is no position there is no operation.
/// Else the operations are, in this order: for a snapshot with width and
/// height, one that writes its values over the pasted rectangle; where the
/// grid has the sheet, one that takes away each code cell in the pasted
/// rectangle into which no code cell is pasted, by column and then by row;
/// one that puts each code cell of the snapshot at its place; for a snapshot
/// with width and height, one that writes each of its formats over the pasted
/// rectangle; one for each border line. Code has to run where values were
/// written or a code cell was taken away or put.
pub open spec fn pastes(g: GridView, sheet_id: SheetId, start: Pos, c: Clipboard, p: PasteOperations) -> bool {
    let ops = p.ops@;
    let sized = c.w > 0 && c.h > 0;
    let rect = pasted_rect(start, c.w as int, c.h as int);
    let target = SheetRect { min: rect.min, max: rect.max, sheet_id };
    let a = p.values as int;
    let b = a + p.removals;
    let d = b + p.codes;
    let e = d + p.formats;
    if !pasteable(start, c) {
        ops.len() == 0 && !p.compute && a == 0 && b == 0 && d == 0 && e == 0
    } else {
        &&& e <= ops.len()
        &&& a == if sized { 1int } else { 0int }
        &&& sized ==> match ops[0] {
            Operation::SetCellValues { sheet_rect, values } => sheet_rect == target && array_of_cells(
                values,
                c.cells@,
                c.w as int,
                c.h as int,
            ),
            _ => false,
        }
        &&& !(sized && has_sheet(g, sheet_id)) ==> p.removals == 0
        &&& sized && has_sheet(g, sheet_id) ==> {
            let code = g.sheets[sheet_index(g, sheet_id)].code;
            &&& forall|i: int|
                a <= i < b ==> crate::cell_value::code_removal_in(#[trigger] ops[i], target, code) && !removal_pasted(
                    ops[i],
                    c,
                    start,
                )
            &&& forall|i: int, j: int|
                a <= i < j < b ==> crate::cell_value::removal_before(#[trigger] ops[i], #[trigger] ops[j])
            &&& forall|x: int, y: int|
                rect.holds(x, y) && code.dom().contains((x, y)) && !code_pasted_at(c, start, x, y)
                    ==> exists|i: int| a <= i < b && #[trigger] crate::cell_value::removes_code_at(ops[i], x, y)
        }
        &&& p.codes == c.code@.len()
        &&& forall|i: int|
            0 <= i < c.code@.len() ==> sets_code(
                #[trigger] ops[b + i],
                sheet_id,
                start,
                c.code@[i].0,
                c.code@[i].1.model(),
            )
        &&& p.formats == if sized { c.formats@.len() as int } else { 0int }
        &&& sized ==> forall|i: int|
            0 <= i < c.formats@.len() ==> #[trigger] ops[d + i] == (Operation::SetCellFormats {
                sheet_rect: target,
                attr: c.formats@[i],
            })
        &&& ops.len() - e == line_targets(c.borders@, start, c.borders@.len() as int).len()
        &&& forall|i: int|
            0 <= i < ops.len() - e ==> sets_line(
                #[trigger] ops[e + i],
                sheet_id,
                line_targets(c.borders@, start, c.borders@.len() as int)[i],
            )
        &&& p.compute == (a + p.removals + p.codes > 0)
    }
}

/// Whether `op` takes away a code cell from a cell into which the snapshot
/// pastes a code cell.
pub open spec fn removal_pasted(op: Operation, c: Clipboard, start: Pos) -> bool {
    match op {
        Operation::SetCellCode { sheet_pos, code_cell_value } => code_pasted_at(
            c,
            start,
            sheet_pos.x as int,
            sheet_pos.y as int,
        ),
        _ => false,
    }
}

/// Whether every position of the paste is a position.
fn check_pasteable(start: Pos, c: &Clipboard) -> (r: bool)
    ensures
        r == pasteable(start, *c),
{
    if c.w > 0 && c.h > 0 {
        if start.x as i128 + c.w as i128 - 1 > i64::MAX as i128 || start.y as i128 + c.h as i128 - 1
            > i64::MAX as i128 {
            return false;
        }
    }
    let mut i: usize = 0;
    while i < c.code.len()
        invariant
            i <= c.code.len(),
            forall|k: int|
                0 <= k < i ==> i64::MIN <= start.x + (#[trigger] c.code@[k]).0.x <= i64::MAX && i64::MIN
                    <= start.y + c.code@[k].0.y <= i64::MAX,
        decreases c.code.len() - i,
    {
        let p = c.code[i].0;
        let x = start.x as i128 + p.x as i128;
        let y = start.y as i128 + p.y as i128;
        if x < i64::MIN as i128 || x > i64::MAX as i128 || y < i64::MIN as i128 || y > i64::MAX as i128 {
            return false;
        }
        i += 1;
    }
    let mut j: usize = 0;
    while j < c.borders.len()
        invariant
            j <= c.borders.len(),
            forall|k: int| 0 <= k < j ==> border_pasteable(start, #[trigger] c.borders@[k]),
        decreases c.borders.len() - j,
    {
        let b = &c.borders[j];
        match &b.2 {
            None => {},
            Some(s) => {
                let x = start.x as i128 + b.0 as i128;
                let y = start.y as i128 + b.1 as i128;
                if x < i64::MIN as i128 || x > i64::MAX as i128 || y < i64::MIN as i128 || y
                    > i64::MAX as i128 {
                    return false;
                }
                if s.right.is_some() && x >= i64::MAX as i128 {
                    return false;
                }
                if s.bottom.is_some() && y >= i64::MAX as i128 {
                    return false;
                }
            },
        }
        j += 1;
    }
    true
}

/// The operation that sets one border line.
fn line_op(sheet_id: SheetId, horizontal: bool, x: i64, y: i64, style: &CellBorder) -> (op: Operation)
    ensures
        sets_line(op, sheet_id, LineTarget { horizontal, x: x as int, y: y as int, style: style.model() }),
        op.wf(),
        shaped(op),
{
    let line = style.duplicate();
    let ghost m = line.model();
    let r = RunLengthEncoding::repeat(Some(line), 1);
    proof {
        assert(r.expand() =~= seq![Some(m)]);
        assert(1 * 1 == 1) by (nonlinear_arith);
    }
    Operation::SetBorders {
        sheet_rect: SheetRect::single_pos(SheetPos { x, y, sheet_id }),
        horizontal,
        borders: r,
    }
}

/// Appends the operations for the border lines of one snapshot entry.
fn push_entry_lines(ops: &mut Vec<Operation>, sheet_id: SheetId, start: Pos, b: &(i64, i64, Option<BorderSides>))
    requires
        border_pasteable(start, *b),
        all_wf(old(ops)@),
    ensures
        all_wf(final(ops)@),
        final(ops)@.len() == old(ops)@.len() + entry_targets(*b, start).len(),
        forall|i: int| 0 <= i < old(ops)@.len() ==> final(ops)@[i] == old(ops)@[i],
        forall|i: int|
            0 <= i < entry_targets(*b, start).len() ==> sets_line(
                #[trigger] final(ops)@[old(ops)@.len() + i],
                sheet_id,
                entry_targets(*b, start)[i],
            ),
{
    let ghost before = ops@;
    match &b.2 {
        None => {},
        Some(s) => {
            let x: i64 = (start.x as i128 + b.0 as i128) as i64;
            let y: i64 = (start.y as i128 + b.1 as i128) as i64;
            let ghost mut done: Seq<LineTarget> = Seq::empty();
            match &s.left {
                Some(l) => {
                    ops.push(line_op(sheet_id, false, x, y, l));
                    proof {
                        done = done.push(LineTarget { horizontal: false, x: x as int, y: y as int, style: l.model() });
                    }
                },
                None => {},
            }
            assert(ops@.len() == before.len() + done.len());
            match &s.top {
                Some(l) => {
                    ops.push(line_op(sheet_id, true, x, y, l));
                    proof {
                        done = done.push(LineTarget { horizontal: true, x: x as int, y: y as int, style: l.model() });
                    }
                },
                None => {},
            }
            match &s.right {
                Some(l) => {
                    ops.push(line_op(sheet_id, false, x + 1, y, l));
                    proof {
                        done = done.push(
                            LineTarget { horizontal: false, x: x as int + 1, y: y as int, style: l.model() },
                        );
                    }
                },
                None => {},
            }
            match &s.bottom {
                Some(l) => {
                    ops.push(line_op(sheet_id, true, x, y + 1, l));
                    proof {
                        done = done.push(
                            LineTarget { horizontal: true, x: x as int, y: y as int + 1, style: l.model() },
                        );
                    }
                },
                None => {},
            }
            proof {
                assert(done =~= entry_targets(*b, start));
                assert(ops@.len() == before.len() + done.len());
                assert forall|i: int| 0 <= i < done.len() implies sets_line(
                    #[trigger] ops@[before.len() + i],
                    sheet_id,
                    done[i],
                ) by {}
            }
        },
    }
}

/// Whether some code cell of the list is pasted into the cell `at` when the
/// list is pasted at `start`.
fn pasted_over(code: &Vec<(Pos, CodeCellValue)>, start: Pos, at: (i64, i64)) -> (r: bool)
    ensures
        r == exists|i: int|
            0 <= i < code@.len() && start.x + (#[trigger] code@[i]).0.x == at.0 && start.y + code@[i].0.y
                == at.1,
{
    let mut i: usize = 0;
    while i < code.len()
        invariant
            i <= code.len(),
            forall|k: int|
                0 <= k < i ==> !(start.x + (#[trigger] code@[k]).0.x == at.0 && start.y + code@[k].0.y == at.1),
        decreases code.len() - i,
    {
        let p = code[i].0;
        if start.x as i128 + p.x as i128 == at.0 as i128 && start.y as i128 + p.y as i128 == at.1 as i128 {
            return true;
        }
        i += 1;
    }
    false
}

impl GridController {
    /// The operations that paste the snapshot `clipboard` at `start_pos`
    /// into the sheet `sheet_id`. They are only made, not applied.
    #[verifier::loop_isolation(false)]
    #[verifier::rlimit(60)]
    pub fn paste_operations(&self, sheet_id: SheetId, start_pos: Pos, clipboard: Clipboard) -> (p:
        PasteOperations)
        requires
            self.wf(),
            clipboard.wf(),
        ensures
            pastes(self@.grid, sheet_id, start_pos, clipboard, p),
            all_wf(p.ops@),
    {
        let ghost g = self@.grid;
        let ghost c = clipboard;
        let mut ops: Vec<Operation> = Vec::new();
        if !check_pasteable(start_pos, &clipboard) {
            return PasteOperations { ops, values: 0, removals: 0, codes: 0, formats: 0, compute: false };
        }
        let sized = clipboard.w > 0 && clipboard.h > 0;
        let rect = if sized {
            Rect {
                min: start_pos,
                max: Pos {
                    x: (start_pos.x as i128 + clipboard.w as i128 - 1) as i64,
                    y: (start_pos.y as i128 + clipboard.h as i128 - 1) as i64,
                },
            }
        } else {
            Rect { min: start_pos, max: start_pos }
        };
        let target = rect.to_sheet_rect(sheet_id);
        proof {
            if sized {
                assert(rect == pasted_rect(start_pos, c.w as int, c.h as int));
            }
        }
        match array_from_clipboard_cells(&clipboard) {
            Some(values) => {
                ops.push(Operation::SetCellValues { sheet_rect: target, values });
            },
            None => {},
        }
        let values_n = ops.len();
        let ghost ops_a = ops@;
        if sized {
            match self.grid().try_sheet_from_id(sheet_id) {
                Some(sheet) => {
                    let ghost code = sheet@.code;
                    let coded = sheet.code_positions_in(rect);
                    let ghost mut picks: Seq<int> = Seq::empty();
                    let mut k: usize = 0;
                    while k < coded.len()
                        invariant
                            k <= coded.len(),
                            ops@.len() == values_n + picks.len(),
                            forall|i: int| 0 <= i < ops_a.len() ==> ops@[i] == ops_a[i],
                            all_wf(ops@),
                            forall|i: int| 0 <= i < picks.len() ==> 0 <= #[trigger] picks[i] < k,
                            forall|i: int, j: int| 0 <= i < j < picks.len() ==> picks[i] < picks[j],
                            forall|i: int|
                                0 <= i < picks.len() ==> #[trigger] ops@[values_n + i] == (Operation::SetCellCode {
                                    sheet_pos: SheetPos {
                                        x: coded@[picks[i]].0,
                                        y: coded@[picks[i]].1,
                                        sheet_id,
                                    },
                                    code_cell_value: None,
                                }) && !code_pasted_at(c, start_pos, coded@[picks[i]].0 as int, coded@[picks[i]].1 as int),
                            forall|q: int|
                                0 <= q < k && !code_pasted_at(c, start_pos, (#[trigger] coded@[q]).0 as int, coded@[q].1 as int)
                                    ==> exists|i: int| 0 <= i < picks.len() && #[trigger] picks[i] == q,
                        decreases coded.len() - k,
                    {
                        let at = coded[k];
                        if !pasted_over(&clipboard.code, start_pos, at) {
                            let ghost old_picks = picks;
                            ops.push(
                                Operation::SetCellCode {
                                    sheet_pos: SheetPos { x: at.0, y: at.1, sheet_id },
                                    code_cell_value: None,
                                },
                            );
                            proof {
                                picks = picks.push(k as int);
                                assert forall|q: int|
                                    0 <= q < k + 1 && !code_pasted_at(
                                        c,
                                        start_pos,
                                        (#[trigger] coded@[q]).0 as int,
                                        coded@[q].1 as int,
                                    ) implies exists|i: int| 0 <= i < picks.len() && #[trigger] picks[i] == q by {
                                    if q < k {
                                        let i = choose|i: int| 0 <= i < old_picks.len() && #[trigger] old_picks[i] == q;
                                        assert(picks[i] == q);
                                    } else {
                                        assert(picks[old_picks.len() as int] == q);
                                    }
                                }
                            }
                        }
                        k += 1;
                    }
                    proof {
                        let a = values_n as int;
                        let b = ops@.len() as int;
                        assert forall|i: int| a <= i < b implies crate::cell_value::code_removal_in(
                            #[trigger] ops@[i],
                            target,
                            code,
                        ) && !removal_pasted(ops@[i], c, start_pos) by {
                            assert(ops@[values_n + (i - a)] == ops@[i]);
                        }
                        assert forall|i: int, j: int| a <= i < j < b implies crate::cell_value::removal_before(
                            #[trigger] ops@[i],
                            #[trigger] ops@[j],
                        ) by {
                            assert(ops@[values_n + (i - a)] == ops@[i]);
                            assert(ops@[values_n + (j - a)] == ops@[j]);
                            assert(cell_before(coded@[picks[i - a]], coded@[picks[j - a]]));
                        }
                        assert forall|x: int, y: int|
                            rect.holds(x, y) && code.dom().contains((x, y)) && !code_pasted_at(c, start_pos, x, y) implies exists|
                            i: int,
                        | a <= i < b && #[trigger] crate::cell_value::removes_code_at(ops@[i], x, y) by {
                            assert(lists_cell(coded@, x, y));
                            let q = choose|q: int|
                                0 <= q < coded@.len() && (#[trigger] coded@[q]).0 == x && coded@[q].1 == y;
                            let i = choose|i: int| 0 <= i < picks.len() && #[trigger] picks[i] == q;
                            assert(crate::cell_value::removes_code_at(ops@[values_n + i], x, y));
                        }
                    }
                },
                None => {},
            }
        }
        let removals_n = ops.len() - values_n;
        let ghost ops_b = ops@;
        let Clipboard { w, h, cells, formats, borders, code } = clipboard;
        let mut i: usize = 0;
        while i < code.len()
            invariant
                i <= code.len(),
                ops@.len() == ops_b.len() + i,
                forall|q: int| 0 <= q < ops_b.len() ==> ops@[q] == ops_b[q],
                all_wf(ops@),
                forall|q: int|
                    0 <= q < i ==> sets_code(
                        #[trigger] ops@[ops_b.len() + q],
                        sheet_id,
                        start_pos,
                        code@[q].0,
                        code@[q].1.model(),
                    ),
            decreases code.len() - i,
        {
            let entry = &code[i];
            let at = SheetPos {
                x: (start_pos.x as i128 + entry.0.x as i128) as i64,
                y: (start_pos.y as i128 + entry.0.y as i128) as i64,
                sheet_id,
            };
            ops.push(Operation::SetCellCode { sheet_pos: at, code_cell_value: Some(entry.1.duplicate()) });
            i += 1;
        }
        let codes_n = code.len();
        let ghost ops_d = ops@;
        let mut formats_n: usize = 0;
        if sized {
            let ghost all = formats@;
            let n = formats.len();
            let mut pending = reversed(formats);
            let mut f: usize = 0;
            while f < n
                invariant
                    f <= n,
                    n == all.len(),
                    pending@.len() == n - f,
                    forall|q: int| 0 <= q < pending@.len() ==> pending@[q] == all[n - 1 - q],
                    ops@.len() == ops_d.len() + f,
                    forall|q: int| 0 <= q < ops_d.len() ==> ops@[q] == ops_d[q],
                    all_wf(ops@),
                    forall|q: int|
                        0 <= q < f ==> #[trigger] ops@[ops_d.len() + q] == (Operation::SetCellFormats {
                            sheet_rect: target,
                            attr: all[q],
                        }),
                decreases n - f,
            {
                match pending.pop() {
                    Some(attr) => {
                        assert(attr == all[f as int]);
                        ops.push(Operation::SetCellFormats { sheet_rect: target, attr });
                    },
                    None => {},
                }
                f += 1;
            }
            formats_n = n;
        }
        let ghost ops_e = ops@;
        let mut j: usize = 0;
        proof {
            assert(line_targets(borders@, start_pos, 0) =~= Seq::<LineTarget>::empty());
        }
        while j < borders.len()
            invariant
                j <= borders.len(),
                ops@.len() == ops_e.len() + line_targets(borders@, start_pos, j as int).len(),
                forall|q: int| 0 <= q < ops_e.len() ==> ops@[q] == ops_e[q],
                all_wf(ops@),
                forall|q: int|
                    0 <= q < line_targets(borders@, start_pos, j as int).len() ==> sets_line(
                        #[trigger] ops@[ops_e.len() + q],
                        sheet_id,
                        line_targets(borders@, start_pos, j as int)[q],
                    ),
            decreases borders.len() - j,
        {
            let ghost before = ops@;
            let ghost so_far = line_targets(borders@, start_pos, j as int);
            assert(border_pasteable(start_pos, c.borders@[j as int]));
            push_entry_lines(&mut ops, sheet_id, start_pos, &borders[j]);
            proof {
                let next = line_targets(borders@, start_pos, j + 1);
                assert(next == so_far + entry_targets(borders@[j as int], start_pos));
                assert forall|q: int| 0 <= q < next.len() implies sets_line(
                    #[trigger] ops@[ops_e.len() + q],
                    sheet_id,
                    next[q],
                ) by {
                    if q < so_far.len() {
                        assert(ops@[ops_e.len() + q] == before[ops_e.len() + q]);
                    } else {
                        assert(ops@[before.len() + (q - so_far.len())] == ops@[ops_e.len() + q]);
                    }
                }
            }
            j += 1;
        }
        let compute = values_n > 0 || removals_n > 0 || codes_n > 0;
        proof {
            let all = ops@;
            let a = values_n as int;
            let b = a + removals_n;
            let d = b + codes_n;
            let e = d + formats_n;
            assert(ops_b.len() == b);
            assert(ops_d.len() == d);
            assert(ops_e.len() == e);
            assert forall|q: int| 0 <= q < d implies all[q] == ops_d[q] by {
                assert(ops_e[q] == ops_d[q]);
            }
            assert forall|q: int| 0 <= q < b implies all[q] == ops_b[q] by {
                assert(ops_d[q] == ops_b[q]);
            }
            assert forall|q: int| 0 <= q < a implies all[q] == ops_a[q] by {
                assert(ops_b[q] == ops_a[q]);
            }
            if sized {
                assert(all[0] == ops_a[0]);
            }
            assert forall|q: int| 0 <= q < c.code@.len() implies sets_code(
                #[trigger] all[b + q],
                sheet_id,
                start_pos,
                c.code@[q].0,
                c.code@[q].1.model(),
            ) by {
                assert(all[b + q] == ops_d[ops_b.len() + q]);
            }
            if sized {
                assert forall|q: int| 0 <= q < c.formats@.len() implies #[trigger] all[d + q] == (
                Operation::SetCellFormats { sheet_rect: target, attr: c.formats@[q] }) by {
                    assert(all[d + q] == ops_e[ops_d.len() + q]);
                }
            }
            if sized && has_sheet(g, sheet_id) {
                let code = g.sheets[sheet_index(g, sheet_id)].code;
                assert forall|i: int| a <= i < b implies crate::cell_value::code_removal_in(
                    #[trigger] all[i],
                    target,
                    code,
                ) && !removal_pasted(all[i], c, start_pos) by {
                    assert(all[i] == ops_b[i]);
                }
                assert forall|i: int, j: int| a <= i < j < b implies crate::cell_value::removal_before(
                    #[trigger] all[i],
                    #[trigger] all[j],
                ) by {
                    assert(all[i] == ops_b[i]);
                    assert(all[j] == ops_b[j]);
                }
                assert forall|x: int, y: int|
                    rect.holds(x, y) && code.dom().contains((x, y)) && !code_pasted_at(c, start_pos, x, y) implies exists|
                    i: int,
                | a <= i < b && #[trigger] crate::cell_value::removes_code_at(all[i], x, y) by {
                    let i = choose|i: int|
                        a <= i < b && #[trigger] crate::cell_value::removes_code_at(ops_b[i], x, y);
                    assert(all[i] == ops_b[i]);
                }
            }
        }
        PasteOperations {
            ops,
            values: values_n,
            removals: removals_n,
            codes: codes_n,
            formats: formats_n,
            compute,
        }
    }
}

/// Whether `ops` write the text `field` into the cell at the offset `(x, y)`
/// from `start`; there is no operation where that is no position.
pub open spec fn cell_written(
    g: GridView,
    sheet_id: SheetId,
    start: Pos,
    x: int,
    y: int,
    field: Seq<char>,
    ops: Seq<Operation>,
) -> bool {
    if start.x + x > i64::MAX || start.y + y > i64::MAX {
        ops.len() == 0
    } else {
        writes_text(
            g,
            SheetPos { x: (start.x + x) as i64, y: (start.y + y) as i64, sheet_id },
            trimmed(field),
            ops,
        )
    }
}

/// Whether `ops` write the first `k` of the fields `fields` into row `y`,
/// field after field.
pub open spec fn row_written(
    g: GridView,
    sheet_id: SheetId,
    start: Pos,
    y: int,
    fields: Seq<Seq<char>>,
    k: int,
    ops: Seq<Operation>,
) -> bool
    decreases k,
{
    if k <= 0 {
        ops.len() == 0
    } else {
        exists|cut: int|
            0 <= cut <= ops.len() && row_written(g, sheet_id, start, y, fields, k - 1, #[trigger] ops.take(cut))
                && cell_written(g, sheet_id, start, k - 1, y, fields[k - 1], ops.skip(cut))
    }
}

/// Whether `ops` write the first `j` of the lines `lines`, line after line,
/// each split into fields at the tabs.
pub open spec fn rows_written(
    g: GridView,
    sheet_id: SheetId,
    start: Pos,
    lines: Seq<Seq<char>>,
    j: int,
    ops: Seq<Operation>,
) -> bool
    decreases j,
{
    if j <= 0 {
        ops.len() == 0
    } else {
        exists|cut: int|
            0 <= cut <= ops.len() && rows_written(g, sheet_id, start, lines, j - 1, #[trigger] ops.take(cut))
                && row_written(
                g,
                sheet_id,
                start,
                j - 1,
                split_spec(lines[j - 1], '\t'),
                split_spec(lines[j - 1], '\t').len() as int,
                ops.skip(cut),
            )
    }
}

impl GridController {
    /// The operations that write one row of fields, starting at the offset
    /// `(0, y)` from `start_pos`.
    fn row_operations(&self, sheet_id: SheetId, start_pos: Pos, y: usize, fields: &Vec<String>) -> (ops: Vec<
        Operation,
    >)
        requires
            self.wf(),
        ensures
            row_written(self@.grid, sheet_id, start_pos, y as int, texts(fields@), fields@.len() as int, ops@),
            all_wf(ops@),
            all_shaped(ops@),
    {
        let ghost g = self@.grid;
        let mut ops: Vec<Operation> = Vec::new();
        let mut x: usize = 0;
        while x < fields.len()
            invariant
                x <= fields.len(),
                self.wf(),
                g == self@.grid,
                row_written(g, sheet_id, start_pos, y as int, texts(fields@), x as int, ops@),
                all_wf(ops@),
                all_shaped(ops@),
            decreases fields.len() - x,
        {
            let ghost before = ops@;
            let px = start_pos.x as i128 + x as i128;
            let py = start_pos.y as i128 + y as i128;
            let ghost mut added: Seq<Operation> = Seq::empty();
            if px <= i64::MAX as i128 && py <= i64::MAX as i128 {
                let pos = SheetPos { x: px as i64, y: py as i64, sheet_id };
                let mut cell = self.set_cell_value_operations(pos, fields[x].clone());
                proof {
                    added = cell@;
                }
                ops.append(&mut cell);
            }
            proof {
                assert(ops@.take(before.len() as int) =~= before);
                assert(ops@.skip(before.len() as int) =~= added);
                assert(texts(fields@)[x as int] == fields@[x as int]@);
                assert forall|i: int| 0 <= i < ops@.len() implies (#[trigger] ops@[i]).wf() && shaped(ops@[i]) by {
                    if i >= before.len() {
                        assert(ops@[i] == added[i - before.len()]);
                    } else {
                        assert(ops@[i] == before[i]);
                    }
                }
                assert(cell_written(
                    g,
                    sheet_id,
                    start_pos,
                    x as int,
                    y as int,
                    texts(fields@)[x as int],
                    ops@.skip(before.len() as int),
                ));
            }
            x += 1;
        }
        ops
    }

    /// The operations that paste the plain text `text` at `start_pos` into
    /// the sheet `sheet_id`: the text is split into lines at the line breaks
    /// and each line into fields at the tabs, and each field is written as if
    /// it had been typed into its cell.
    pub fn plain_text_operations(&self, sheet_id: SheetId, start_pos: Pos, text: &str) -> (ops: Vec<Operation>)
        requires
            self.wf(),
        ensures
            rows_written(
                self@.grid,
                sheet_id,
                start_pos,
                split_spec(text@, '\n'),
                split_spec(text@, '\n').len() as int,
                ops@,
            ),
            all_wf(ops@),
            all_shaped(ops@),
    {
        let ghost g = self@.grid;
        let lines = split(text, '\n');
        let ghost all = texts(lines@);
        let mut ops: Vec<Operation> = Vec::new();
        let mut y: usize = 0;
        while y < lines.len()
            invariant
                y <= lines.len(),
                self.wf(),
                g == self@.grid,
                all == texts(lines@),
                rows_written(g, sheet_id, start_pos, all, y as int, ops@),
                all_wf(ops@),
                all_shaped(ops@),
            decreases lines.len() - y,
        {
            let ghost before = ops@;
            let fields = split(lines[y].as_str(), '\t');
            let mut row = self.row_operations(sheet_id, start_pos, y, &fields);
            let ghost added = row@;
            ops.append(&mut row);
            proof {
                assert(ops@.take(before.len() as int) =~= before);
                assert(ops@.skip(before.len() as int) =~= added);
                assert(all[y as int] == lines@[y as int]@);
                assert(texts(fields@) == split_spec(all[y as int], '\t'));
                assert(texts(fields@).len() == fields@.len());
                assert(row_written(
                    g,
                    sheet_id,
                    start_pos,
                    y as int,
                    split_spec(all[y as int], '\t'),
                    split_spec(all[y as int], '\t').len() as int,
                    ops@.skip(before.len() as int),
                ));
                assert forall|i: int| 0 <= i < ops@.len() implies (#[trigger] ops@[i]).wf() && shaped(ops@[i]) by {
                    if i >= before.len() {
                        assert(ops@[i] == added[i - before.len()]);
                    } else {
                        assert(ops@[i] == before[i]);
                    }
                }
            }
            y += 1;
        }
        ops
    }
}

} // verus!
