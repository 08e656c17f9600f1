//! Transactions: lists of operations applied as one step, the operations
//! that take a step back, and the summary of what a step touched.

use vstd::prelude::*;
use crate::content::Content;
use crate::formatting::CellFmtArray;
use crate::grid::Grid;
use crate::operation::backwards;
use crate::operation::effect_all;
use crate::operation::inverses_of;
use crate::operation::lemma_effect_prepend;
use crate::operation::outcome;
use crate::operation::GridView;
use crate::operation::Operation;
use crate::position::SheetId;
use crate::position::SheetPos;
use crate::position::SheetRect;
use crate::region::fits;
use crate::region::matches_array;

verus! {

/// Where a transaction comes from.
#[derive(Clone, Copy, Debug, PartialEq, Eq, Hash, Structural)]
pub enum TransactionType {
    /// A change that the user made: it can be undone.
    Normal,
    /// The undoing of an earlier change.
    Undo,
    /// The redoing of an undone change.
    Redo,
    /// A change that another client made and that is replayed here.
    Multiplayer,
    /// A change that the engine's surroundings make on its behalf, such as
    /// storing what a run of code gave: it leaves the history alone.
    Internal,
}

/// An entry of the undo or redo history: the operations to apply, in order,
/// and the cursor that was current when the entry was made.
#[derive(Clone, Debug, PartialEq, Eq)]
pub struct Transaction {
    pub ops: Vec<Operation>,
    pub cursor: Option<String>,
}

/// What a transaction touched.
#[derive(Clone, Debug, PartialEq, Eq)]
pub struct TransactionSummary {
    /// The rectangles whose values, code or formats changed.
    pub cell_regions_modified: Vec<SheetRect>,
    /// The sheets on which a fill colour changed.
    pub fill_sheets_modified: Vec<SheetId>,
    /// The sheets on which a border changed.
    pub border_sheets_modified: Vec<SheetId>,
    /// The code cells that have to be run.
    pub code_cells_modified: Vec<SheetPos>,
    /// Whether a sheet was added, deleted, renamed or recoloured.
    pub sheet_list_modified: bool,
    /// The cursor that the caller handed in, as it came.
    pub cursor: Option<String>,
}

/// A summary as contracts see it.
pub struct SummaryView {
    pub cell_regions: Seq<SheetRect>,
    pub fill_sheets: Seq<SheetId>,
    pub border_sheets: Seq<SheetId>,
    pub code_cells: Seq<SheetPos>,
    pub sheet_list_modified: bool,
    pub cursor: Option<Seq<char>>,
}

/// The summary of nothing.
pub open spec fn empty_summary() -> SummaryView {
    SummaryView {
        cell_regions: Seq::empty(),
        fill_sheets: Seq::empty(),
        border_sheets: Seq::empty(),
        code_cells: Seq::empty(),
        sheet_list_modified: false,
        cursor: None,
    }
}

/// Whether what the operation carries has the shape of its rectangle, so that
/// no grid finds it malformed.
pub open spec fn shaped(op: Operation) -> bool {
    match op {
        Operation::SetCellValues { sheet_rect, values } => matches_array(sheet_rect.spec_rect(), values),
        Operation::SetCellFormats { sheet_rect, attr } => fits(sheet_rect.spec_rect(), attr.spec_len()),
        Operation::SetBorders { sheet_rect, horizontal, borders } => fits(
            sheet_rect.spec_rect(),
            borders.expand().len() as int,
        ),
        _ => true,
    }
}

/// An operation is malformed for a grid exactly when the grid has its sheet
/// and the operation is not shaped.
pub proof fn lemma_shaped(g: GridView, op: Operation)
    ensures
        outcome(g, op) is Applied ==> shaped(op),
        shaped(op) ==> !(outcome(g, op) is Malformed),
        outcome(g, op) is Malformed ==> !shaped(op),
{
}

/// Whether a code cell is there and has not been run.
pub open spec fn awaits_run(code: Option<crate::code::CodeCellValue>) -> bool {
    match code {
        Some(c) => c.output is None,
        None => false,
    }
}

/// The summary `s` after the applied operation `op` was noted. A code cell is
/// listed for running where the transaction asks for computing and the
/// operation puts code there that has not been run.
pub open spec fn noted(s: SummaryView, op: Operation, compute: bool) -> SummaryView {
    match op {
        Operation::SetCellValues { sheet_rect, values } => SummaryView {
            cell_regions: s.cell_regions.push(sheet_rect),
            ..s
        },
        Operation::SetCellFormats { sheet_rect, attr } => SummaryView {
            cell_regions: s.cell_regions.push(sheet_rect),
            fill_sheets: if attr is FillColor {
                s.fill_sheets.push(sheet_rect.sheet_id)
            } else {
                s.fill_sheets
            },
            ..s
        },
        Operation::SetBorders { sheet_rect, horizontal, borders } => SummaryView {
            border_sheets: s.border_sheets.push(sheet_rect.sheet_id),
            ..s
        },
        Operation::SetCellCode { sheet_pos, code_cell_value } => SummaryView {
            cell_regions: s.cell_regions.push(
                SheetRect {
                    min: crate::position::Pos { x: sheet_pos.x, y: sheet_pos.y },
                    max: crate::position::Pos { x: sheet_pos.x, y: sheet_pos.y },
                    sheet_id: sheet_pos.sheet_id,
                },
            ),
            code_cells: if compute && awaits_run(code_cell_value) {
                s.code_cells.push(sheet_pos)
            } else {
                s.code_cells
            },
            ..s
        },
        _ => SummaryView { sheet_list_modified: true, ..s },
    }
}

/// The summary `s` after the operations `ops` ran on the grid `g`: each
/// applied operation is noted, in order; stale ones leave no trace.
pub open spec fn summarized(s: SummaryView, g: GridView, ops: Seq<Operation>, compute: bool) -> SummaryView
    decreases ops.len(),
{
    if ops.len() == 0 {
        s
    } else {
        let prev = summarized(s, g, ops.drop_last(), compute);
        if outcome(effect_all(g, ops.drop_last()), ops.last()) is Applied {
            noted(prev, ops.last(), compute)
        } else {
            prev
        }
    }
}

/// The number of the operations `ops` that are applied when they run on the
/// grid `g`.
pub open spec fn applied_count(g: GridView, ops: Seq<Operation>) -> nat
    decreases ops.len(),
{
    if ops.len() == 0 {
        0
    } else {
        let prev = applied_count(g, ops.drop_last());
        if outcome(effect_all(g, ops.drop_last()), ops.last()) is Applied {
            prev + 1
        } else {
            prev
        }
    }
}

/// Every operation of the list is well formed.
pub open spec fn all_wf(ops: Seq<Operation>) -> bool {
    forall|i: int| 0 <= i < ops.len() ==> (#[trigger] ops[i]).wf()
}

/// Every operation of the list is shaped.
pub open spec fn all_shaped(ops: Seq<Operation>) -> bool {
    forall|i: int| 0 <= i < ops.len() ==> shaped(#[trigger] ops[i])
}

/// No operation of the list is malformed for the grid that the operations
/// before it leave.
pub open spec fn none_malformed(g: GridView, ops: Seq<Operation>) -> bool {
    forall|i: int| 0 <= i < ops.len() ==> #[trigger] sound_at(g, ops, i)
}

/// Whether the operation with the index `i` is not malformed for the grid
/// that the operations before it leave.
pub open spec fn sound_at(g: GridView, ops: Seq<Operation>, i: int) -> bool {
    !(outcome(effect_all(g, ops.take(i)), ops[i]) is Malformed)
}

impl TransactionSummary {
    /// The summary as contracts see it.
    pub open spec fn view(&self) -> SummaryView {
        SummaryView {
            cell_regions: self.cell_regions_modified@,
            fill_sheets: self.fill_sheets_modified@,
            border_sheets: self.border_sheets_modified@,
            code_cells: self.code_cells_modified@,
            sheet_list_modified: self.sheet_list_modified,
            cursor: self.cursor.model(),
        }
    }

    /// The summary of nothing.
    pub fn new() -> (r: TransactionSummary)
        ensures
            r@ == empty_summary(),
    {
        TransactionSummary {
            cell_regions_modified: Vec::new(),
            fill_sheets_modified: Vec::new(),
            border_sheets_modified: Vec::new(),
            code_cells_modified: Vec::new(),
            sheet_list_modified: false,
            cursor: None,
        }
    }

    /// Whether the summary names nothing that changed.
    pub fn is_empty(&self) -> (r: bool)
        ensures
            r == (self@.cell_regions.len() == 0 && self@.fill_sheets.len() == 0
                && self@.border_sheets.len() == 0 && self@.code_cells.len() == 0
                && !self@.sheet_list_modified),
    {
        self.cell_regions_modified.len() == 0 && self.fill_sheets_modified.len() == 0
            && self.border_sheets_modified.len() == 0 && self.code_cells_modified.len() == 0
            && !self.sheet_list_modified
    }
}

impl Default for TransactionSummary {
    fn default() -> (r: TransactionSummary)
        ensures
            r@ == empty_summary(),
    {
        TransactionSummary::new()
    }
}

/// What an operation leaves in a summary once it is applied.
enum Touch {
    Region(SheetRect),
    Fill(SheetRect),
    Border(SheetId),
    Code(SheetPos, bool),
    Sheets,
}

/// What `op` leaves in a summary once it is applied.
fn touch_of(op: &Operation, compute: bool) -> (t: Touch)
    ensures
        forall|s: SummaryView| #[trigger] touched(s, t) == noted(s, *op, compute),
{
    match op {
        Operation::SetCellValues { sheet_rect, values } => Touch::Region(*sheet_rect),
        Operation::SetCellFormats { sheet_rect, attr } => match attr {
            CellFmtArray::FillColor(_) => Touch::Fill(*sheet_rect),
            _ => Touch::Region(*sheet_rect),
        },
        Operation::SetBorders { sheet_rect, horizontal, borders } => Touch::Border(sheet_rect.sheet_id),
        Operation::SetCellCode { sheet_pos, code_cell_value } => Touch::Code(
            *sheet_pos,
            compute && match code_cell_value {
                Some(c) => c.output.is_none(),
                None => false,
            },
        ),
        _ => Touch::Sheets,
    }
}

/// The summary `s` with `t` added.
spec fn touched(s: SummaryView, t: Touch) -> SummaryView {
    match t {
        Touch::Region(r) => SummaryView { cell_regions: s.cell_regions.push(r), ..s },
        Touch::Fill(r) => SummaryView {
            cell_regions: s.cell_regions.push(r),
            fill_sheets: s.fill_sheets.push(r.sheet_id),
            ..s
        },
        Touch::Border(id) => SummaryView { border_sheets: s.border_sheets.push(id), ..s },
        Touch::Code(p, run) => SummaryView {
            cell_regions: s.cell_regions.push(
                SheetRect {
                    min: crate::position::Pos { x: p.x, y: p.y },
                    max: crate::position::Pos { x: p.x, y: p.y },
                    sheet_id: p.sheet_id,
                },
            ),
            code_cells: if run {
                s.code_cells.push(p)
            } else {
                s.code_cells
            },
            ..s
        },
        Touch::Sheets => SummaryView { sheet_list_modified: true, ..s },
    }
}

/// Adds `t` to the summary.
fn note(summary: &mut TransactionSummary, t: Touch)
    ensures
        final(summary)@ == touched(old(summary)@, t),
{
    match t {
        Touch::Region(r) => {
            summary.cell_regions_modified.push(r);
        },
        Touch::Fill(r) => {
            summary.cell_regions_modified.push(r);
            summary.fill_sheets_modified.push(r.sheet_id);
        },
        Touch::Border(id) => {
            summary.border_sheets_modified.push(id);
        },
        Touch::Code(p, run) => {
            summary.cell_regions_modified.push(SheetRect::single_pos(p));
            if run {
                summary.code_cells_modified.push(p);
            }
        },
        Touch::Sheets => {
            summary.sheet_list_modified = true;
        },
    }
}

/// The list in the opposite order.
pub fn reversed<T>(v: Vec<T>) -> (r: Vec<T>)
    ensures
        r@ == backwards(v@),
{
    let ghost whole = v@;
    let mut rest = v;
    let mut out: Vec<T> = Vec::new();
    while rest.len() > 0
        invariant
            rest@.len() + out@.len() == whole.len(),
            rest@ == whole.take(rest@.len() as int),
            forall|i: int| 0 <= i < out@.len() ==> out@[i] == whole[whole.len() - 1 - i],
        decreases rest.len(),
    {
        let ghost before = rest@;
        match rest.pop() {
            Some(x) => {
                out.push(x);
                proof {
                    assert(rest@ =~= whole.take(rest@.len() as int));
                }
            },
            None => {},
        }
    }
    proof {
        assert(out@ =~= backwards(whole));
    }
    out
}

/// How a run of operations ended: the operations that take it back, in the
/// order in which to apply them, and the index of the malformed operation
/// that stopped the run, if one did.
pub struct RunResult {
    pub reverse: Vec<Operation>,
    pub failed: Option<usize>,
}

/// The number of operations that a run got through.
pub open spec fn run_length(ops: Seq<Operation>, failed: Option<usize>) -> int {
    match failed {
        Some(k) => k as int,
        None => ops.len() as int,
    }
}

/// Applies `ops` in order until one is malformed. Stale operations are
/// passed over. The operations before the malformed one stay applied; the
/// malformed one and those behind it leave no trace.
pub fn run(grid: &mut Grid, ops: Vec<Operation>, compute: bool, summary: &mut TransactionSummary) -> (r:
    RunResult)
    requires
        old(grid).wf(),
        all_wf(ops@),
    ensures
        final(grid).wf(),
        all_wf(r.reverse@),
        all_shaped(r.reverse@),
        match r.failed {
            Some(k) => k < ops@.len() && outcome(effect_all(old(grid)@, ops@.take(k as int)), ops@[k as int]) is Malformed,
            None => true,
        },
        none_malformed(old(grid)@, ops@.take(run_length(ops@, r.failed))),
        final(grid)@ == effect_all(old(grid)@, ops@.take(run_length(ops@, r.failed))),
        effect_all(final(grid)@, r.reverse@) == old(grid)@,
        inverses_of(old(grid)@, ops@.take(run_length(ops@, r.failed)), backwards(r.reverse@)),
        r.reverse@.len() == applied_count(old(grid)@, ops@.take(run_length(ops@, r.failed))),
        final(summary)@ == summarized(
            old(summary)@,
            old(grid)@,
            ops@.take(run_length(ops@, r.failed)),
            compute,
        ),
{
    let ghost all = ops@;
    let ghost g0 = grid@;
    let ghost s0 = summary@;
    let n = ops.len();
    let mut pending = reversed(ops);
    let mut log: Vec<Operation> = Vec::new();
    let mut failed: Option<usize> = None;
    let mut i: usize = 0;
    proof {
        assert(all.take(0) =~= Seq::<Operation>::empty());
        assert(backwards(log@) =~= Seq::<Operation>::empty());
    }
    while i < n && failed.is_none()
        invariant
            i <= n,
            n == all.len(),
            all_wf(all),
            failed is None ==> pending@.len() == n - i,
            failed is None ==> forall|k: int| 0 <= k < pending@.len() ==> pending@[k] == all[n - 1 - k],
            grid.wf(),
            all_wf(log@),
            all_shaped(log@),
            failed is None ==> grid@ == effect_all(g0, all.take(i as int)),
            failed is None ==> summary@ == summarized(s0, g0, all.take(i as int), compute),
            failed is None ==> none_malformed(g0, all.take(i as int)),
            failed is None ==> log@.len() == applied_count(g0, all.take(i as int)),
            failed is None ==> inverses_of(g0, all.take(i as int), log@),
            effect_all(grid@, backwards(log@)) == g0,
            match failed {
                Some(k) => {
                    &&& k < n
                    &&& outcome(effect_all(g0, all.take(k as int)), all[k as int]) is Malformed
                    &&& grid@ == effect_all(g0, all.take(k as int))
                    &&& summary@ == summarized(s0, g0, all.take(k as int), compute)
                    &&& none_malformed(g0, all.take(k as int))
                    &&& log@.len() == applied_count(g0, all.take(k as int))
                    &&& inverses_of(g0, all.take(k as int), log@)
                },
                None => true,
            },
        decreases n - i + (if failed is None { 1int } else { 0int }),
    {
        let ghost before = grid@;
        let ghost undo = backwards(log@);
        let ghost noted_so_far = summary@;
        match pending.pop() {
            Some(op) => {
                let ghost current = op;
                assert(current == all[i as int]);
                assert(all.take(i + 1).drop_last() =~= all.take(i as int));
                assert(all.take(i + 1).last() == current);
                let t = touch_of(&op, compute);
                match grid.apply(op) {
                    Ok(Some(inverse)) => {
                        proof {
                            lemma_shaped(grid@, inverse);
                            lemma_shaped(before, current);
                            lemma_effect_prepend(grid@, inverse, undo);
                            assert(touched(noted_so_far, t) == noted(noted_so_far, current, compute));
                        }
                        let ghost logged = log@;
                        log.push(inverse);
                        note(summary, t);
                        proof {
                            assert(log@.drop_last() =~= logged);
                            assert(backwards(log@) =~= seq![inverse] + undo);
                            lemma_step_clean(g0, all, i as int);
                        }
                        i += 1;
                    },
                    Ok(None) => {
                        proof {
                            lemma_step_clean(g0, all, i as int);
                        }
                        i += 1;
                    },
                    Err(_) => {
                        failed = Some(i);
                    },
                }
            },
            None => {
                proof {
                    assert(false);
                }
            },
        }
    }
    let ghost logged = log@;
    let reverse = reversed(log);
    proof {
        assert(backwards(reverse@) =~= logged);
        assert(all.take(n as int) =~= all);
        assert forall|k: int| 0 <= k < reverse@.len() implies (#[trigger] reverse@[k]).wf() && shaped(
            reverse@[k],
        ) by {
            assert(reverse@[k] == log@[log@.len() - 1 - k]);
        }
    }
    RunResult { reverse, failed }
}

/// If no operation before index `i` is malformed and the one at `i` is not
/// either, none up to and including `i` is.
proof fn lemma_step_clean(g: GridView, all: Seq<Operation>, i: int)
    requires
        0 <= i < all.len(),
        none_malformed(g, all.take(i)),
        !(outcome(effect_all(g, all.take(i)), all[i]) is Malformed),
    ensures
        none_malformed(g, all.take(i + 1)),
{
    let a = all.take(i + 1);
    let front = all.take(i);
    assert forall|k: int| 0 <= k < a.len() implies #[trigger] sound_at(g, a, k) by {
        assert(a.take(k) =~= all.take(k));
        assert(a[k] == all[k]);
        if k < i {
            assert(sound_at(g, front, k));
            assert(front.take(k) =~= all.take(k));
            assert(front[k] == all[k]);
        }
    }
}

} // verus!
