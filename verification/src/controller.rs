//! The transaction engine: applies transactions to the grid and keeps the
//! undo and redo history.
//!
//! A transaction is begun, applied and committed. Applying records the
//! operations that take the transaction back; committing a user's
//! transaction puts them on the undo stack and clears the redo stack. Undo
//! and redo each move one entry from one stack to the other.

use vstd::prelude::*;
use crate::content::Content;
use crate::content::option_model;
use crate::grid::Grid;
use crate::operation::effect_all;
use crate::operation::has_sheet;
use crate::operation::outcome;
use crate::operation::sheet_index;
use crate::operation::GridView;
use crate::operation::Operation;
use crate::position::SheetId;
use crate::sheet::empty_sheet;
use crate::sheet::Sheet;
use crate::transaction::all_shaped;
use crate::transaction::all_wf;
use crate::transaction::applied_count;
use crate::transaction::empty_summary;
use crate::transaction::lemma_shaped;
use crate::transaction::none_malformed;
use crate::transaction::run;
use crate::transaction::summarized;
use crate::transaction::SummaryView;
use crate::transaction::Transaction;
use crate::transaction::TransactionSummary;
use crate::transaction::TransactionType;

verus! {

/// A transaction that has been begun and not yet committed.
pub struct Pending {
    kind: TransactionType,
    applied: bool,
    submitted: bool,
    reverse: Vec<Operation>,
    summary: TransactionSummary,
    origin: Ghost<GridView>,
}

/// The grid of a file with its undo and redo history.
pub struct GridController {
    grid: Grid,
    undo_stack: Vec<Transaction>,
    redo_stack: Vec<Transaction>,
    pending: Option<Pending>,
}

/// A history entry as contracts see it.
pub struct EntryView {
    pub ops: Seq<Operation>,
    pub cursor: Option<Seq<char>>,
}

/// A transaction in progress as contracts see it.
pub struct PendingView {
    /// Where the transaction comes from.
    pub kind: TransactionType,
    /// Whether its operations have been applied.
    pub applied: bool,
    /// Whether the list of operations that was handed in held any
    /// operation.
    pub submitted: bool,
    /// The operations that take it back, in the order in which to apply
    /// them.
    pub reverse: Seq<Operation>,
    /// What it touched.
    pub summary: SummaryView,
    /// The grid as it was when the transaction was begun.
    pub origin: GridView,
}

/// A controller as contracts see it.
pub struct ControllerView {
    pub grid: GridView,
    /// The undo stack; its last entry is the one to undo next.
    pub undo: Seq<EntryView>,
    /// The redo stack; its last entry is the one to redo next.
    pub redo: Seq<EntryView>,
    /// The transaction in progress, if there is one.
    pub pending: Option<PendingView>,
}

/// A transaction was applied but stopped at a malformed operation.
#[derive(Clone, Debug, PartialEq, Eq)]
pub struct TransactionError {
    /// The index of the malformed operation in the list that was handed in.
    pub index: usize,
}

/// A committed transaction that stopped at a malformed operation: the
/// operations before it stay applied and committed.
#[derive(Clone, Debug, PartialEq, Eq)]
pub struct TransactionFailure {
    /// The index of the malformed operation in the list that was handed in.
    pub index: usize,
    /// What the operations before it touched.
    pub summary: TransactionSummary,
}

/// The views of a stack of history entries.
pub open spec fn entry_views(stack: Seq<Transaction>) -> Seq<EntryView> {
    Seq::new(stack.len(), |i: int| EntryView { ops: stack[i].ops@, cursor: stack[i].cursor.model() })
}

/// Every operation of every entry is well formed and shaped.
pub open spec fn entries_sound(stack: Seq<EntryView>) -> bool {
    forall|i: int| 0 <= i < stack.len() ==> all_wf((#[trigger] stack[i]).ops) && all_shaped(stack[i].ops)
}

/// Whether `c1` is `c0` after a committed step of kind `kind` whose
/// operations, taken back by `c1`'s newest entry, changed the grid: the entry
/// went on the undo stack (and the redo stack was cleared) for a user's
/// transaction or a redo, on the redo stack for an undo.
pub open spec fn recorded(c0: ControllerView, c1: ControllerView, kind: TransactionType) -> bool {
    &&& c1.pending is None
    &&& match kind {
        TransactionType::Normal => {
            &&& c1.undo.len() == c0.undo.len() + 1
            &&& c1.undo.drop_last() == c0.undo
            &&& effect_all(c1.grid, c1.undo.last().ops) == c0.grid
            &&& c1.redo.len() == 0
        },
        TransactionType::Redo => {
            &&& c1.undo.len() == c0.undo.len() + 1
            &&& c1.undo.drop_last() == c0.undo
            &&& effect_all(c1.grid, c1.undo.last().ops) == c0.grid
            &&& c1.redo == c0.redo
        },
        TransactionType::Undo => {
            &&& c1.redo.len() == c0.redo.len() + 1
            &&& c1.redo.drop_last() == c0.redo
            &&& effect_all(c1.grid, c1.redo.last().ops) == c0.grid
            &&& c1.undo == c0.undo
        },
        TransactionType::Multiplayer => c1.undo == c0.undo && c1.redo == c0.redo,
        TransactionType::Internal => c1.undo == c0.undo && c1.redo == c0.redo,
    }
}

/// Whether `d` is `c` after one undo: the newest undo entry was applied and
/// left the stack, and an entry that takes the undo back went on the redo
/// stack.
pub open spec fn undone(c: ControllerView, d: ControllerView) -> bool {
    &&& c.undo.len() > 0
    &&& d.pending is None
    &&& d.grid == effect_all(c.grid, c.undo.last().ops)
    &&& d.undo == c.undo.drop_last()
    &&& d.redo.len() == c.redo.len() + 1
    &&& d.redo.drop_last() == c.redo
    &&& effect_all(d.grid, d.redo.last().ops) == c.grid
}

/// Whether `e` is `d` after one redo: the newest redo entry was applied and
/// left the stack, and an entry that takes the redo back went on the undo
/// stack.
pub open spec fn redone(d: ControllerView, e: ControllerView) -> bool {
    &&& d.redo.len() > 0
    &&& e.pending is None
    &&& e.grid == effect_all(d.grid, d.redo.last().ops)
    &&& e.redo == d.redo.drop_last()
    &&& e.undo.len() == d.undo.len() + 1
    &&& e.undo.drop_last() == d.undo
    &&& effect_all(e.grid, e.undo.last().ops) == d.grid
}

/// Undoing a user's transaction gives back the grid and the undo stack from
/// before it.
pub proof fn lemma_undo_restores(c0: ControllerView, c1: ControllerView, c2: ControllerView)
    requires
        recorded(c0, c1, TransactionType::Normal),
        undone(c1, c2),
    ensures
        c2.grid == c0.grid,
        c2.undo == c0.undo,
{
}

/// After any number of user's transactions, as many undos give back the grid
/// and the undo stack from before the first, and leave as many entries to
/// redo: `forward` lists the states from before the first transaction to
/// after the last, `backward` the states from there through the undos.
pub proof fn lemma_undo_all(forward: Seq<ControllerView>, backward: Seq<ControllerView>)
    requires
        forward.len() > 0,
        backward.len() == forward.len(),
        backward[0] == forward.last(),
        forall|i: int|
            0 <= i < forward.len() - 1 ==> recorded(#[trigger] forward[i], forward[i + 1], TransactionType::Normal),
        forall|i: int| 0 <= i < backward.len() - 1 ==> undone(#[trigger] backward[i], backward[i + 1]),
    ensures
        backward.last().grid == forward[0].grid,
        backward.last().undo == forward[0].undo,
        backward.last().redo.len() == forward.last().redo.len() + forward.len() - 1,
        forward.len() > 1 ==> backward.last().redo.len() == forward.len() - 1,
{
    let n = forward.len() - 1;
    lemma_undo_some(forward, backward, n);
    if n > 0 {
        assert(recorded(forward[n - 1], forward[n], TransactionType::Normal));
    }
}

/// After `k` of the undos the grid and the undo stack are those from before
/// the last `k` transactions.
proof fn lemma_undo_some(forward: Seq<ControllerView>, backward: Seq<ControllerView>, k: int)
    requires
        forward.len() > 0,
        backward.len() == forward.len(),
        backward[0] == forward.last(),
        forall|i: int|
            0 <= i < forward.len() - 1 ==> recorded(#[trigger] forward[i], forward[i + 1], TransactionType::Normal),
        forall|i: int| 0 <= i < backward.len() - 1 ==> undone(#[trigger] backward[i], backward[i + 1]),
        0 <= k < forward.len(),
    ensures
        backward[k].grid == forward[forward.len() - 1 - k].grid,
        backward[k].undo == forward[forward.len() - 1 - k].undo,
        backward[k].redo.len() == forward.last().redo.len() + k,
    decreases k,
{
    if k > 0 {
        lemma_undo_some(forward, backward, k - 1);
        let n = forward.len() - 1;
        assert(undone(backward[k - 1], backward[k]));
        assert(recorded(forward[n - k], forward[n - k + 1], TransactionType::Normal));
    }
}

/// One redo after one undo gives back the grid and both stacks' lengths from
/// before the undo, and the redo stack itself.
pub proof fn lemma_redo_restores(c: ControllerView, d: ControllerView, e: ControllerView)
    requires
        undone(c, d),
        redone(d, e),
    ensures
        e.grid == c.grid,
        e.redo == c.redo,
        e.undo.len() == c.undo.len(),
        e.undo.drop_last() == c.undo.drop_last(),
{
}

impl GridController {
    /// The grid is well formed, every recorded operation is well formed and
    /// shaped, and the operations recorded for a transaction in progress
    /// take the grid back to where the transaction began.
    pub closed spec fn wf(&self) -> bool {
        &&& self.grid.wf()
        &&& entries_sound(entry_views(self.undo_stack@))
        &&& entries_sound(entry_views(self.redo_stack@))
        &&& match self.pending {
            Some(p) => {
                &&& all_wf(p.reverse@)
                &&& all_shaped(p.reverse@)
                &&& effect_all(self.grid@, p.reverse@) == p.origin@
                &&& !p.applied ==> p.reverse@.len() == 0 && p.summary@ == empty_summary() && self.grid@
                    == p.origin@ && !p.submitted
            },
            None => true,
        }
    }

    /// The controller as contracts see it.
    pub closed spec fn view(&self) -> ControllerView {
        ControllerView {
            grid: self.grid@,
            undo: entry_views(self.undo_stack@),
            redo: entry_views(self.redo_stack@),
            pending: match self.pending {
                Some(p) => Some(
                    PendingView {
                        kind: p.kind,
                        applied: p.applied,
                        submitted: p.submitted,
                        reverse: p.reverse@,
                        summary: p.summary@,
                        origin: p.origin@,
                    },
                ),
                None => None,
            },
        }
    }

    /// The sheets of a well-formed controller have distinct identifiers.
    pub proof fn lemma_distinct(&self)
        requires
            self.wf(),
        ensures
            crate::operation::distinct_ids(self@.grid),
    {
        self.grid.lemma_distinct();
    }

    /// A controller over a grid with one empty sheet named "Sheet 1" and no
    /// history.
    pub fn with_sheet(id: SheetId) -> (r: GridController)
        ensures
            r.wf(),
            r@.grid.sheets == seq![empty_sheet(id, "Sheet 1"@, "a0"@)],
            r@.undo.len() == 0,
            r@.redo.len() == 0,
            r@.pending is None,
    {
        let mut grid = Grid::new();
        let sheet = Sheet::new(id, String::from_str("Sheet 1"), String::from_str("a0"));
        let ghost v = sheet@;
        let ghost g0 = grid@;
        let r = grid.apply(Operation::AddSheet { sheet, index: 0 });
        proof {
            assert(!has_sheet(g0, id));
            assert(grid@.sheets =~= seq![v]);
        }
        GridController { grid, undo_stack: Vec::new(), redo_stack: Vec::new(), pending: None }
    }

    /// A controller over the grid `grid`, with no history.
    pub fn from_grid(grid: Grid) -> (r: GridController)
        requires
            grid.wf(),
        ensures
            r.wf(),
            r@.grid == grid@,
            r@.undo.len() == 0,
            r@.redo.len() == 0,
            r@.pending is None,
    {
        GridController { grid, undo_stack: Vec::new(), redo_stack: Vec::new(), pending: None }
    }

    /// A controller over a grid with one empty sheet named "Sheet 1", with a
    /// fresh identifier, and no history.
    pub fn new() -> (r: GridController)
        ensures
            r.wf(),
            r@.grid.sheets.len() == 1,
            r@.grid.sheets[0] == empty_sheet(r@.grid.sheets[0].id, "Sheet 1"@, "a0"@),
            r@.undo.len() == 0,
            r@.redo.len() == 0,
            r@.pending is None,
    {
        GridController::with_sheet(SheetId::new())
    }

    /// The grid.
    pub fn grid(&self) -> (g: &Grid)
        requires
            self.wf(),
        ensures
            g.wf(),
            g@ == self@.grid,
    {
        &self.grid
    }

    /// The identifiers of the sheets, in order.
    pub fn sheet_ids(&self) -> (r: Vec<SheetId>)
        ensures
            r@.len() == self@.grid.sheets.len(),
            forall|i: int| 0 <= i < r@.len() ==> r@[i] == self@.grid.sheets[i].id,
    {
        self.grid.sheet_ids()
    }

    /// The sheet with the identifier `id`, if the grid has it.
    pub fn sheet(&self, id: SheetId) -> (r: Option<&Sheet>)
        requires
            self.wf(),
        ensures
            match r {
                Some(s) => has_sheet(self@.grid, id) && s.wf() && s@ == self@.grid.sheets[sheet_index(
                    self@.grid,
                    id,
                )],
                None => !has_sheet(self@.grid, id),
            },
    {
        self.grid.try_sheet_from_id(id)
    }

    /// Whether a transaction has been begun and not yet committed.
    pub fn in_transaction(&self) -> (r: bool)
        ensures
            r == (self@.pending is Some),
    {
        self.pending.is_some()
    }

    /// The number of transactions that can be undone.
    pub fn undo_len(&self) -> (n: usize)
        ensures
            n == self@.undo.len(),
    {
        self.undo_stack.len()
    }

    /// The number of transactions that can be redone.
    pub fn redo_len(&self) -> (n: usize)
        ensures
            n == self@.redo.len(),
    {
        self.redo_stack.len()
    }

    /// Whether there is a transaction to undo.
    pub fn has_undo(&self) -> (r: bool)
        ensures
            r == (self@.undo.len() > 0),
    {
        self.undo_stack.len() > 0
    }

    /// Whether there is a transaction to redo.
    pub fn has_redo(&self) -> (r: bool)
        ensures
            r == (self@.redo.len() > 0),
    {
        self.redo_stack.len() > 0
    }

    /// Begins a transaction: no operation is applied yet.
    pub fn begin(&mut self, kind: TransactionType)
        requires
            old(self).wf(),
            old(self)@.pending is None,
        ensures
            final(self).wf(),
            final(self)@ == (ControllerView {
                pending: Some(
                    PendingView {
                        kind,
                        applied: false,
                        submitted: false,
                        reverse: Seq::empty(),
                        summary: empty_summary(),
                        origin: old(self)@.grid,
                    },
                ),
                ..old(self)@
            }),
    {
        let ghost origin = self.grid@;
        self.pending = Some(
            Pending {
                kind,
                applied: false,
                submitted: false,
                reverse: Vec::new(),
                summary: TransactionSummary::new(),
                origin: Ghost(origin),
            },
        );
        proof {
            assert(self.pending->0.reverse@ =~= Seq::<Operation>::empty());
        }
    }

    /// Applies the operations of the transaction in progress, in order, and
    /// records the operations that take them back. A malformed operation
    /// stops the transaction: the operations before it stay applied, it and
    /// those behind it leave no trace, and the result names its index.
    pub fn apply(&mut self, operations: Vec<Operation>, compute: bool) -> (r: Result<(), TransactionError>)
        requires
            old(self).wf(),
            old(self)@.pending is Some,
            !old(self)@.pending->0.applied,
            all_wf(operations@),
        ensures
            final(self).wf(),
            final(self)@.undo == old(self)@.undo,
            final(self)@.redo == old(self)@.redo,
            final(self)@.pending is Some,
            final(self)@.pending->0.applied,
            final(self)@.pending->0.kind == old(self)@.pending->0.kind,
            final(self)@.pending->0.submitted == (operations@.len() > 0),
            final(self)@.pending->0.origin == old(self)@.grid,
            effect_all(final(self)@.grid, final(self)@.pending->0.reverse) == old(self)@.grid,
            crate::operation::inverses_of(
                old(self)@.grid,
                operations@.take(
                    match r {
                        Ok(()) => operations@.len() as int,
                        Err(e) => e.index as int,
                    },
                ),
                crate::operation::backwards(final(self)@.pending->0.reverse),
            ),
            final(self)@.pending->0.reverse.len() == applied_count(
                old(self)@.grid,
                operations@.take(
                    match r {
                        Ok(()) => operations@.len() as int,
                        Err(e) => e.index as int,
                    },
                ),
            ),
            match r {
                Ok(()) => {
                    &&& none_malformed(old(self)@.grid, operations@)
                    &&& final(self)@.grid == effect_all(old(self)@.grid, operations@)
                    &&& final(self)@.pending->0.summary == summarized(
                        empty_summary(),
                        old(self)@.grid,
                        operations@,
                        compute,
                    )
                },
                Err(e) => {
                    &&& e.index < operations@.len()
                    &&& outcome(
                        effect_all(old(self)@.grid, operations@.take(e.index as int)),
                        operations@[e.index as int],
                    ) is Malformed
                    &&& none_malformed(old(self)@.grid, operations@.take(e.index as int))
                    &&& final(self)@.grid == effect_all(old(self)@.grid, operations@.take(e.index as int))
                    &&& final(self)@.pending->0.summary == summarized(
                        empty_summary(),
                        old(self)@.grid,
                        operations@.take(e.index as int),
                        compute,
                    )
                },
            },
    {
        let ghost g0 = self.grid@;
        let ghost all = operations@;
        let kind = match &self.pending {
            Some(p) => p.kind,
            None => TransactionType::Normal,
        };
        let submitted = operations.len() > 0;
        let mut summary = TransactionSummary::new();
        let result = run(&mut self.grid, operations, compute, &mut summary);
        let failed = result.failed;
        self.pending = Some(
            Pending { kind, applied: true, submitted, reverse: result.reverse, summary, origin: Ghost(g0) },
        );
        match failed {
            Some(index) => Err(TransactionError { index }),
            None => {
                proof {
                    assert(all.take(all.len() as int) =~= all);
                }
                Ok(())
            },
        }
    }

    /// Commits the applied transaction and hands back its summary with the
    /// cursor. The operations that take it back go on the undo stack, and
    /// the redo stack is cleared, for a user's transaction, whether or not
    /// any of its operations was applied; only a user's transaction over an
    /// empty list of operations leaves the history alone. They go on the redo
    /// stack for an undo and on the undo stack for a redo. A replayed
    /// transaction leaves the history alone.
    pub fn commit(&mut self, cursor: Option<String>) -> (s: TransactionSummary)
        requires
            old(self).wf(),
            old(self)@.pending is Some,
            old(self)@.pending->0.applied,
        ensures
            final(self).wf(),
            final(self)@.pending is None,
            final(self)@.grid == old(self)@.grid,
            s@ == (SummaryView { cursor: option_model(cursor), ..old(self)@.pending->0.summary }),
            match old(self)@.pending->0.kind {
                TransactionType::Normal => if old(self)@.pending->0.submitted {
                    &&& final(self)@.undo == old(self)@.undo.push(
                        EntryView { ops: old(self)@.pending->0.reverse, cursor: option_model(cursor) },
                    )
                    &&& final(self)@.redo.len() == 0
                } else {
                    final(self)@.undo == old(self)@.undo && final(self)@.redo == old(self)@.redo
                },
                TransactionType::Undo => {
                    &&& final(self)@.redo == old(self)@.redo.push(
                        EntryView { ops: old(self)@.pending->0.reverse, cursor: option_model(cursor) },
                    )
                    &&& final(self)@.undo == old(self)@.undo
                },
                TransactionType::Redo => {
                    &&& final(self)@.undo == old(self)@.undo.push(
                        EntryView { ops: old(self)@.pending->0.reverse, cursor: option_model(cursor) },
                    )
                    &&& final(self)@.redo == old(self)@.redo
                },
                TransactionType::Multiplayer => final(self)@.undo == old(self)@.undo && final(self)@.redo
                    == old(self)@.redo,
                TransactionType::Internal => final(self)@.undo == old(self)@.undo && final(self)@.redo
                    == old(self)@.redo,
            },
    {
        let ghost before = self@;
        let mut taken: Option<Pending> = None;
        core::mem::swap(&mut self.pending, &mut taken);
        match taken {
            Some(p) => {
                let Pending { kind, applied, submitted, reverse, summary, origin } = p;
                let mut summary = summary;
                let ghost ops = reverse@;
                let entry_cursor = cursor.duplicate();
                summary.cursor = cursor;
                match kind {
                    TransactionType::Normal => {
                        if submitted {
                            self.undo_stack.push(Transaction { ops: reverse, cursor: entry_cursor });
                            self.redo_stack = Vec::new();
                            proof {
                                assert(entry_views(self.undo_stack@) =~= before.undo.push(
                                    EntryView { ops, cursor: option_model(entry_cursor) },
                                ));
                            }
                        }
                    },
                    TransactionType::Undo => {
                        self.redo_stack.push(Transaction { ops: reverse, cursor: entry_cursor });
                        proof {
                            assert(entry_views(self.redo_stack@) =~= before.redo.push(
                                EntryView { ops, cursor: option_model(entry_cursor) },
                            ));
                        }
                    },
                    TransactionType::Redo => {
                        self.undo_stack.push(Transaction { ops: reverse, cursor: entry_cursor });
                        proof {
                            assert(entry_views(self.undo_stack@) =~= before.undo.push(
                                EntryView { ops, cursor: option_model(entry_cursor) },
                            ));
                        }
                    },
                    TransactionType::Multiplayer => {},
                    TransactionType::Internal => {},
                }
                summary
            },
            None => TransactionSummary::new(),
        }
    }

    /// Runs a whole transaction: begins it, applies `operations` and commits
    /// with `cursor`. A malformed operation stops it; the operations before
    /// it stay applied and committed, and the failure names its index.
    #[verifier::rlimit(60)]
    pub fn set_in_progress_transaction(
        &mut self,
        operations: Vec<Operation>,
        cursor: Option<String>,
        compute: bool,
        kind: TransactionType,
    ) -> (r: Result<TransactionSummary, TransactionFailure>)
        requires
            old(self).wf(),
            old(self)@.pending is None,
            all_wf(operations@),
        ensures
            final(self).wf(),
            final(self)@.pending is None,
            match r {
                Ok(s) => transacted(old(self)@, final(self)@, operations@, kind, option_model(cursor), compute, s@)
                    && none_malformed(old(self)@.grid, operations@),
                Err(e) => {
                    &&& e.index < operations@.len()
                    &&& outcome(
                        effect_all(old(self)@.grid, operations@.take(e.index as int)),
                        operations@[e.index as int],
                    ) is Malformed
                    &&& none_malformed(old(self)@.grid, operations@.take(e.index as int))
                    &&& transacted_upto(
                        old(self)@,
                        final(self)@,
                        operations@,
                        e.index as int,
                        kind,
                        option_model(cursor),
                        compute,
                        e.summary@,
                    )
                },
            },
    {
        let ghost before = self@;
        let ghost all = operations@;
        self.begin(kind);
        let applied = self.apply(operations, compute);
        let ghost mid = self@;
        let summary = self.commit(cursor);
        proof {
            let k = match &applied {
                Ok(()) => all.len() as int,
                Err(e) => e.index as int,
            };
            assert(all.take(all.len() as int) =~= all);
            match kind {
                TransactionType::Normal => {
                    if all.len() > 0 {
                        assert(self@.undo.drop_last() =~= before.undo);
                    }
                },
                TransactionType::Undo => {
                    assert(self@.redo.drop_last() =~= before.redo);
                },
                TransactionType::Redo => {
                    assert(self@.undo.drop_last() =~= before.undo);
                },
                TransactionType::Multiplayer => {},
                TransactionType::Internal => {},
            }
        }
        match applied {
            Ok(()) => Ok(summary),
            Err(e) => Err(TransactionFailure { index: e.index, summary }),
        }
    }

    /// Undoes the newest transaction on the undo stack: applies its entry,
    /// takes it off the stack and puts the entry that redoes it, with
    /// `cursor`, on the redo stack. The summary carries the cursor of the
    /// undone entry. With an empty undo stack nothing changes and the result
    /// is `None`.
    pub fn undo(&mut self, cursor: Option<String>) -> (r: Option<TransactionSummary>)
        requires
            old(self).wf(),
            old(self)@.pending is None,
        ensures
            final(self).wf(),
            match r {
                Some(s) => {
                    &&& undone(old(self)@, final(self)@)
                    &&& final(self)@.redo.last().cursor == option_model(cursor)
                    &&& s@ == (SummaryView {
                        cursor: old(self)@.undo.last().cursor,
                        ..summarized(empty_summary(), old(self)@.grid, old(self)@.undo.last().ops, true)
                    })
                },
                None => old(self)@.undo.len() == 0 && final(self)@ == old(self)@,
            },
    {
        let ghost before = self@;
        match self.undo_stack.pop() {
            None => {
                proof {
                    assert(self@.undo =~= before.undo);
                }
                None
            },
            Some(entry) => {
                let Transaction { ops, cursor: entry_cursor } = entry;
                let ghost entry_ops = ops@;
                proof {
                    assert(before.undo.last().ops == entry_ops);
                    assert(entry_views(self.undo_stack@) =~= before.undo.drop_last());
                    assert(entries_sound(entry_views(self.undo_stack@))) by {
                        assert forall|i: int| 0 <= i < self.undo_stack@.len() implies all_wf(
                            (#[trigger] entry_views(self.undo_stack@)[i]).ops,
                        ) && all_shaped(entry_views(self.undo_stack@)[i].ops) by {
                            assert(entry_views(self.undo_stack@)[i] == before.undo[i]);
                        }
                    }
                }
                self.begin(TransactionType::Undo);
                let applied = self.apply(ops, true);
                proof {
                    match &applied {
                        Ok(()) => {},
                        Err(e) => {
                            lemma_shaped(
                                effect_all(before.grid, entry_ops.take(e.index as int)),
                                entry_ops[e.index as int],
                            );
                        },
                    }
                }
                let mut summary = self.commit(cursor);
                summary.cursor = entry_cursor;
                proof {
                    assert(self@.redo.drop_last() =~= before.redo);
                }
                Some(summary)
            },
        }
    }

    /// Redoes the newest transaction on the redo stack: applies its entry,
    /// takes it off the stack and puts the entry that undoes it, with
    /// `cursor`, on the undo stack. The summary carries the cursor of the
    /// redone entry. With an empty redo stack nothing changes and the result
    /// is `None`.
    pub fn redo(&mut self, cursor: Option<String>) -> (r: Option<TransactionSummary>)
        requires
            old(self).wf(),
            old(self)@.pending is None,
        ensures
            final(self).wf(),
            match r {
                Some(s) => {
                    &&& redone(old(self)@, final(self)@)
                    &&& final(self)@.undo.last().cursor == option_model(cursor)
                    &&& s@ == (SummaryView {
                        cursor: old(self)@.redo.last().cursor,
                        ..summarized(empty_summary(), old(self)@.grid, old(self)@.redo.last().ops, true)
                    })
                },
                None => old(self)@.redo.len() == 0 && final(self)@ == old(self)@,
            },
    {
        let ghost before = self@;
        match self.redo_stack.pop() {
            None => {
                proof {
                    assert(self@.redo =~= before.redo);
                }
                None
            },
            Some(entry) => {
                let Transaction { ops, cursor: entry_cursor } = entry;
                let ghost entry_ops = ops@;
                proof {
                    assert(before.redo.last().ops == entry_ops);
                    assert(entry_views(self.redo_stack@) =~= before.redo.drop_last());
                    assert(entries_sound(entry_views(self.redo_stack@))) by {
                        assert forall|i: int| 0 <= i < self.redo_stack@.len() implies all_wf(
                            (#[trigger] entry_views(self.redo_stack@)[i]).ops,
                        ) && all_shaped(entry_views(self.redo_stack@)[i].ops) by {
                            assert(entry_views(self.redo_stack@)[i] == before.redo[i]);
                        }
                    }
                }
                self.begin(TransactionType::Redo);
                let applied = self.apply(ops, true);
                proof {
                    match &applied {
                        Ok(()) => {},
                        Err(e) => {
                            lemma_shaped(
                                effect_all(before.grid, entry_ops.take(e.index as int)),
                                entry_ops[e.index as int],
                            );
                        },
                    }
                }
                let mut summary = self.commit(cursor);
                summary.cursor = entry_cursor;
                proof {
                    assert(self@.undo.drop_last() =~= before.undo);
                }
                Some(summary)
            },
        }
    }
}

/// Whether the history of `c1` is that of `c0` after a committed transaction
/// of kind `kind` over a list of operations that was empty or not: a user's
/// transaction over an empty list leaves the history as it is; every other
/// transaction is recorded as `recorded` says, with the cursor, whether or
/// not any of its operations was applied.
pub open spec fn history_after(
    c0: ControllerView,
    c1: ControllerView,
    empty: bool,
    kind: TransactionType,
    cursor: Option<Seq<char>>,
) -> bool {
    if kind is Normal && empty {
        c1.undo == c0.undo && c1.redo == c0.redo
    } else {
        &&& recorded(c0, c1, kind)
        &&& kind is Normal || kind is Redo ==> c1.undo.last().cursor == cursor
        &&& kind is Undo ==> c1.redo.last().cursor == cursor
    }
}

/// Whether `c1` is `c0` after a committed transaction of kind `kind` over the
/// operations `ops` of which the first `k` ran, with the summary `s`: the
/// grid changed as these `k` operations say; the summary notes each of them
/// that was applied and carries the cursor; and the history is as
/// `history_after` says.
pub open spec fn transacted_upto(
    c0: ControllerView,
    c1: ControllerView,
    ops: Seq<Operation>,
    k: int,
    kind: TransactionType,
    cursor: Option<Seq<char>>,
    compute: bool,
    s: SummaryView,
) -> bool {
    &&& c1.pending is None
    &&& c1.grid == effect_all(c0.grid, ops.take(k))
    &&& s == (SummaryView { cursor, ..summarized(empty_summary(), c0.grid, ops.take(k), compute) })
    &&& history_after(c0, c1, ops.len() == 0, kind, cursor)
}

/// Whether `c1` is `c0` after a committed transaction of kind `kind` that ran
/// all of the operations `ops` and gave the summary `s`: the grid changed as
/// the operations say; the summary notes each applied operation and carries
/// the cursor; and the history is as `history_after` says.
pub open spec fn transacted(
    c0: ControllerView,
    c1: ControllerView,
    ops: Seq<Operation>,
    kind: TransactionType,
    cursor: Option<Seq<char>>,
    compute: bool,
    s: SummaryView,
) -> bool {
    &&& c1.pending is None
    &&& c1.grid == effect_all(c0.grid, ops)
    &&& s == (SummaryView { cursor, ..summarized(empty_summary(), c0.grid, ops, compute) })
    &&& history_after(c0, c1, ops.len() == 0, kind, cursor)
}

/// Whether a run of `ops` on the grid `g` gets through `k` of them: none of
/// the first `k` is malformed, and the one behind them, if there is one, is.
pub open spec fn stops_at(g: GridView, ops: Seq<Operation>, k: int) -> bool {
    &&& 0 <= k <= ops.len()
    &&& none_malformed(g, ops.take(k))
    &&& k < ops.len() ==> outcome(effect_all(g, ops.take(k)), ops[k]) is Malformed
}

/// Whether `c1` is `c0` after a user's transaction over `ops` that was
/// committed with `cursor` and gave the summary `s`: the operations up to the
/// first malformed one were applied and committed.
pub open spec fn acted(
    c0: ControllerView,
    c1: ControllerView,
    ops: Seq<Operation>,
    cursor: Option<Seq<char>>,
    compute: bool,
    s: SummaryView,
) -> bool {
    exists|k: int| #[trigger]
        stops_at(c0.grid, ops, k) && transacted_upto(c0, c1, ops, k, TransactionType::Normal, cursor, compute, s)
}

/// A user's transaction over a list that holds an operation, followed by an
/// undo, gives back the grid and the undo stack from before the transaction,
/// whether or not any of the operations was applied; and straight after the
/// transaction nothing can be redone.
pub proof fn lemma_transact_undo(
    c0: ControllerView,
    c1: ControllerView,
    c2: ControllerView,
    ops: Seq<Operation>,
    cursor: Option<Seq<char>>,
    compute: bool,
    s: SummaryView,
)
    requires
        ops.len() > 0,
        transacted(c0, c1, ops, TransactionType::Normal, cursor, compute, s),
        undone(c1, c2),
    ensures
        c1.redo.len() == 0,
        c1.undo.len() == c0.undo.len() + 1,
        c2.grid == c0.grid,
        c2.undo == c0.undo,
{
}

/// What a user does with a list that holds an operation leaves nothing to
/// redo and one entry more to undo, whatever there was to redo before.
pub proof fn lemma_act_history(
    c0: ControllerView,
    c1: ControllerView,
    ops: Seq<Operation>,
    cursor: Option<Seq<char>>,
    compute: bool,
    s: SummaryView,
)
    requires
        ops.len() > 0,
        acted(c0, c1, ops, cursor, compute, s),
    ensures
        c1.redo.len() == 0,
        c1.undo.len() == c0.undo.len() + 1,
        c1.undo.drop_last() == c0.undo,
        c1.undo.last().cursor == cursor,
        effect_all(c1.grid, c1.undo.last().ops) == c0.grid,
{
}

/// What a user does with a list that holds an operation can be undone: the
/// undo gives back the grid and the undo stack from before, also where a
/// malformed operation ended the transaction early or no operation was
/// applied; and straight after the action nothing can be redone.
pub proof fn lemma_act_undo(
    c0: ControllerView,
    c1: ControllerView,
    c2: ControllerView,
    ops: Seq<Operation>,
    cursor: Option<Seq<char>>,
    compute: bool,
    s: SummaryView,
)
    requires
        ops.len() > 0,
        acted(c0, c1, ops, cursor, compute, s),
        undone(c1, c2),
    ensures
        c1.redo.len() == 0,
        c1.undo.len() == c0.undo.len() + 1,
        c2.grid == c0.grid,
        c2.undo == c0.undo,
        c2.redo.len() == 1,
{
}

/// A run of shaped operations gets through all of them.
pub proof fn lemma_shaped_run(g: GridView, ops: Seq<Operation>, k: int)
    requires
        all_shaped(ops),
        stops_at(g, ops, k),
    ensures
        k == ops.len(),
{
    if k < ops.len() {
        lemma_shaped(effect_all(g, ops.take(k)), ops[k]);
    }
}

impl GridController {
    /// Runs `operations` as one transaction of the user and commits it with
    /// `cursor`. A malformed operation ends the transaction early; what was
    /// applied before it stays, and the summary tells of that much.
    pub fn act(&mut self, operations: Vec<Operation>, cursor: Option<String>, compute: bool) -> (s:
        TransactionSummary)
        requires
            old(self).wf(),
            old(self)@.pending is None,
            all_wf(operations@),
        ensures
            final(self).wf(),
            final(self)@.pending is None,
            acted(old(self)@, final(self)@, operations@, option_model(cursor), compute, s@),
    {
        let ghost all = operations@;
        let ghost before = self@;
        match self.set_in_progress_transaction(operations, cursor, compute, TransactionType::Normal) {
            Ok(s) => {
                proof {
                    assert(all.take(all.len() as int) =~= all);
                    assert(stops_at(before.grid, all, all.len() as int));
                }
                s
            },
            Err(e) => {
                proof {
                    assert(stops_at(before.grid, all, e.index as int));
                }
                e.summary
            },
        }
    }
}

} // verus!
