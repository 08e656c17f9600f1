//! What a user does to the list of sheets: adding, deleting, copying, moving,
//! naming and colouring a sheet, each as one transaction.

use vstd::prelude::*;
use crate::content::option_model;
use crate::controller::transacted;
use crate::controller::GridController;
use crate::ids::is_random_uuid;
use crate::operation::distinct_ids;
use crate::operation::effect_all;
use crate::operation::has_sheet;
use crate::operation::sheet_index;
use crate::operation::GridView;
use crate::operation::Operation;
use crate::position::SheetId;
use crate::sheet::empty_sheet;
use crate::sheet::Sheet;
use crate::sheet::SheetView;
use crate::text::natural_text;
use crate::text::push_char;
use crate::text::push_natural;
use crate::transaction::TransactionSummary;
use crate::transaction::TransactionType;

verus! {

/// The name that the sheet number `n` of a grid gets: "Sheet" and the number.
pub open spec fn sheet_label(n: nat) -> Seq<char> {
    "Sheet "@ + natural_text(n)
}

/// The order label of a sheet that comes behind `n` others.
pub open spec fn order_label(n: nat) -> Seq<char> {
    "a"@ + natural_text(n)
}

/// The name of the copy of a sheet named `name`.
pub open spec fn copy_label(name: Seq<char>) -> Seq<char> {
    name + " Copy"@
}

/// Whether `ops` is the one operation that puts an empty sheet with the
/// identifier `id` behind the sheets of `g`, named by its number.
pub open spec fn adds_sheet(g: GridView, id: SheetId, ops: Seq<Operation>) -> bool {
    &&& ops.len() == 1
    &&& match ops[0] {
        Operation::AddSheet { sheet, index } => sheet.wf() && index == g.sheets.len() && sheet@ == empty_sheet(
            id,
            sheet_label((g.sheets.len() + 1) as nat),
            order_label(g.sheets.len()),
        ),
        _ => false,
    }
}

/// Whether `ops` is the one operation that puts a copy of the sheet `id`,
/// under the identifier `copy` and with "Copy" behind its name, right behind
/// that sheet; or nothing where `g` has no such sheet.
pub open spec fn copies_sheet(g: GridView, id: SheetId, copy: SheetId, ops: Seq<Operation>) -> bool {
    if !has_sheet(g, id) {
        ops.len() == 0
    } else {
        &&& ops.len() == 1
        &&& match ops[0] {
            Operation::AddSheet { sheet, index } => sheet.wf() && index == sheet_index(g, id) + 1 && sheet@ == (
            SheetView {
                id: copy,
                name: copy_label(g.sheets[sheet_index(g, id)].name),
                ..g.sheets[sheet_index(g, id)]
            }),
            _ => false,
        }
    }
}

/// Whether the sheet `id` of `g` can be moved to stand before `to_before`,
/// or to the end for `None`: `g` has the sheet, and the other one too, which
/// is not the same.
pub open spec fn can_move(g: GridView, id: SheetId, to_before: Option<SheetId>) -> bool {
    &&& has_sheet(g, id)
    &&& match to_before {
        Some(t) => has_sheet(g, t) && t != id,
        None => true,
    }
}

/// The place that the sheet `id` takes among the other sheets of `g` when it
/// is moved to stand before `to_before`, or to the end for `None`.
pub open spec fn moved_index(g: GridView, id: SheetId, to_before: Option<SheetId>) -> int {
    match to_before {
        Some(t) => if sheet_index(g, t) > sheet_index(g, id) {
            sheet_index(g, t) - 1
        } else {
            sheet_index(g, t)
        },
        None => g.sheets.len() - 1,
    }
}

/// Whether `ops` move the sheet `id` of `g` to stand before `to_before`, or
/// to the end for `None`: they take the sheet out and put it back, as it is,
/// in its new place. Where the sheet cannot be moved there are none.
pub open spec fn moves_sheet(g: GridView, id: SheetId, to_before: Option<SheetId>, ops: Seq<Operation>) -> bool {
    if !can_move(g, id, to_before) {
        ops.len() == 0
    } else {
        &&& ops.len() == 2
        &&& match ops[0] {
            Operation::DeleteSheet { sheet_id } => sheet_id == id,
            _ => false,
        }
        &&& match ops[1] {
            Operation::AddSheet { sheet, index } => sheet.wf() && sheet@ == g.sheets[sheet_index(g, id)] && index
                == moved_index(g, id, to_before),
            _ => false,
        }
    }
}

/// Moving a sheet changes the order of the sheets and nothing else: the grid
/// after the move is the grid without the sheet, with the sheet put in at
/// its new place.
pub proof fn lemma_moved(g: GridView, id: SheetId, to_before: Option<SheetId>, ops: Seq<Operation>)
    requires
        distinct_ids(g),
        can_move(g, id, to_before),
        moves_sheet(g, id, to_before, ops),
    ensures
        0 <= moved_index(g, id, to_before) < g.sheets.len(),
        effect_all(g, ops).sheets == g.sheets.remove(sheet_index(g, id)).insert(
            moved_index(g, id, to_before),
            g.sheets[sheet_index(g, id)],
        ),
{
    let i = sheet_index(g, id);
    let at = moved_index(g, id, to_before);
    let first = ops.drop_last();
    assert(first.drop_last() =~= Seq::<Operation>::empty());
    assert(effect_all(g, first.drop_last()) == g);
    assert(first.last() == ops[0]);
    let g1 = effect_all(g, first);
    assert(g1.sheets == g.sheets.remove(i));
    assert(!has_sheet(g1, id)) by {
        if has_sheet(g1, id) {
            let k = sheet_index(g1, id);
            if k < i {
                assert(g1.sheets[k] == g.sheets[k]);
                assert(g.sheets[k].id != g.sheets[i].id);
            } else {
                assert(g1.sheets[k] == g.sheets[k + 1]);
                assert(g.sheets[i].id != g.sheets[k + 1].id);
            }
        }
    }
    match to_before {
        Some(t) => {
            let j = sheet_index(g, t);
            assert(0 <= j < g.sheets.len());
        },
        None => {},
    }
}

impl GridController {
    /// Adds an empty sheet with the identifier `id` behind the others. Where
    /// the grid has a sheet with that identifier already, nothing is added.
    pub fn add_sheet_as(&mut self, id: SheetId, cursor: Option<String>) -> (s: TransactionSummary)
        requires
            old(self).wf(),
            old(self)@.pending is None,
        ensures
            final(self).wf(),
            final(self)@.pending is None,
            exists|ops: Seq<Operation>|
                adds_sheet(old(self)@.grid, id, ops) && #[trigger] transacted(
                    old(self)@,
                    final(self)@,
                    ops,
                    TransactionType::Normal,
                    option_model(cursor),
                    false,
                    s@,
                ),
    {
        let count = self.grid().sheet_count();
        let mut name = String::from_str("Sheet ");
        push_natural(&mut name, count as u128 + 1);
        let mut order = String::from_str("a");
        push_natural(&mut order, count as u128);
        let sheet = Sheet::new(id, name, order);
        let mut ops: Vec<Operation> = Vec::new();
        ops.push(Operation::AddSheet { sheet, index: count });
        let ghost all = ops@;
        proof {
            assert(adds_sheet(self@.grid, id, all));
        }
        self.act_shaped(ops, cursor, false)
    }

    /// Adds an empty sheet with a fresh identifier behind the others.
    pub fn add_sheet(&mut self, cursor: Option<String>) -> (s: TransactionSummary)
        requires
            old(self).wf(),
            old(self)@.pending is None,
        ensures
            final(self).wf(),
            final(self)@.pending is None,
            exists|id: SheetId| #[trigger]
                is_random_uuid(id.id) && exists|ops: Seq<Operation>|
                    adds_sheet(old(self)@.grid, id, ops) && #[trigger] transacted(
                        old(self)@,
                        final(self)@,
                        ops,
                        TransactionType::Normal,
                        option_model(cursor),
                        false,
                        s@,
                    ),
    {
        let id = SheetId::new();
        let ghost before = self@;
        let s = self.add_sheet_as(id, cursor);
        proof {
            let ops = choose|ops: Seq<Operation>|
                adds_sheet(before.grid, id, ops) && #[trigger] transacted(
                    before,
                    self@,
                    ops,
                    TransactionType::Normal,
                    option_model(cursor),
                    false,
                    s@,
                );
            assert(adds_sheet(before.grid, id, ops) && transacted(
                before,
                self@,
                ops,
                TransactionType::Normal,
                option_model(cursor),
                false,
                s@,
            ));
            assert(is_random_uuid(id.id));
        }
        s
    }

    /// Deletes the sheet `sheet_id`.
    pub fn delete_sheet(&mut self, sheet_id: SheetId, cursor: Option<String>) -> (s: TransactionSummary)
        requires
            old(self).wf(),
            old(self)@.pending is None,
        ensures
            final(self).wf(),
            final(self)@.pending is None,
            transacted(
                old(self)@,
                final(self)@,
                seq![(Operation::DeleteSheet { sheet_id })],
                TransactionType::Normal,
                option_model(cursor),
                false,
                s@,
            ),
    {
        let mut ops: Vec<Operation> = Vec::new();
        ops.push(Operation::DeleteSheet { sheet_id });
        proof {
            assert(ops@ =~= seq![(Operation::DeleteSheet { sheet_id })]);
        }
        self.act_shaped(ops, cursor, false)
    }

    /// Gives the sheet `sheet_id` the name `name`.
    pub fn set_sheet_name(&mut self, sheet_id: SheetId, name: String, cursor: Option<String>) -> (s:
        TransactionSummary)
        requires
            old(self).wf(),
            old(self)@.pending is None,
        ensures
            final(self).wf(),
            final(self)@.pending is None,
            transacted(
                old(self)@,
                final(self)@,
                seq![(Operation::SetSheetName { sheet_id, name })],
                TransactionType::Normal,
                option_model(cursor),
                false,
                s@,
            ),
    {
        let mut ops: Vec<Operation> = Vec::new();
        ops.push(Operation::SetSheetName { sheet_id, name });
        proof {
            assert(ops@ =~= seq![(Operation::SetSheetName { sheet_id, name })]);
        }
        self.act_shaped(ops, cursor, false)
    }

    /// Gives the sheet `sheet_id` the colour `color`, or none.
    pub fn set_sheet_color(&mut self, sheet_id: SheetId, color: Option<String>, cursor: Option<String>) -> (s:
        TransactionSummary)
        requires
            old(self).wf(),
            old(self)@.pending is None,
        ensures
            final(self).wf(),
            final(self)@.pending is None,
            transacted(
                old(self)@,
                final(self)@,
                seq![(Operation::SetSheetColor { sheet_id, color })],
                TransactionType::Normal,
                option_model(cursor),
                false,
                s@,
            ),
    {
        let mut ops: Vec<Operation> = Vec::new();
        ops.push(Operation::SetSheetColor { sheet_id, color });
        proof {
            assert(ops@ =~= seq![(Operation::SetSheetColor { sheet_id, color })]);
        }
        self.act_shaped(ops, cursor, false)
    }

    /// Puts a copy of the sheet `sheet_id` right behind it, under the
    /// identifier `copy`.
    pub fn duplicate_sheet_as(&mut self, sheet_id: SheetId, copy: SheetId, cursor: Option<String>) -> (s:
        TransactionSummary)
        requires
            old(self).wf(),
            old(self)@.pending is None,
        ensures
            final(self).wf(),
            final(self)@.pending is None,
            exists|ops: Seq<Operation>|
                copies_sheet(old(self)@.grid, sheet_id, copy, ops) && #[trigger] transacted(
                    old(self)@,
                    final(self)@,
                    ops,
                    TransactionType::Normal,
                    option_model(cursor),
                    false,
                    s@,
                ),
    {
        let mut ops: Vec<Operation> = Vec::new();
        match self.grid().sheet_id_to_index(sheet_id) {
            Some(i) => {
                let sheet = self.grid().sheet(i);
                let mut name = sheet.name();
                let ghost first = name@;
                push_char(&mut name, ' ');
                push_char(&mut name, 'C');
                push_char(&mut name, 'o');
                push_char(&mut name, 'p');
                push_char(&mut name, 'y');
                proof {
                    reveal_strlit(" Copy");
                    assert(name@ =~= copy_label(first));
                }
                let second = sheet.copy_as(copy, name);
                let count = self.grid().sheet_count();
                assert(i < count);
                ops.push(Operation::AddSheet { sheet: second, index: i + 1 });
            },
            None => {},
        }
        proof {
            assert(copies_sheet(self@.grid, sheet_id, copy, ops@));
        }
        self.act_shaped(ops, cursor, false)
    }

    /// Puts a copy of the sheet `sheet_id` right behind it, under a fresh
    /// identifier.
    pub fn duplicate_sheet(&mut self, sheet_id: SheetId, cursor: Option<String>) -> (s: TransactionSummary)
        requires
            old(self).wf(),
            old(self)@.pending is None,
        ensures
            final(self).wf(),
            final(self)@.pending is None,
            exists|copy: SheetId| #[trigger]
                is_random_uuid(copy.id) && exists|ops: Seq<Operation>|
                    copies_sheet(old(self)@.grid, sheet_id, copy, ops) && #[trigger] transacted(
                        old(self)@,
                        final(self)@,
                        ops,
                        TransactionType::Normal,
                        option_model(cursor),
                        false,
                        s@,
                    ),
    {
        let copy = SheetId::new();
        let ghost before = self@;
        let s = self.duplicate_sheet_as(sheet_id, copy, cursor);
        proof {
            let ops = choose|ops: Seq<Operation>|
                copies_sheet(before.grid, sheet_id, copy, ops) && #[trigger] transacted(
                    before,
                    self@,
                    ops,
                    TransactionType::Normal,
                    option_model(cursor),
                    false,
                    s@,
                );
            assert(copies_sheet(before.grid, sheet_id, copy, ops) && transacted(
                before,
                self@,
                ops,
                TransactionType::Normal,
                option_model(cursor),
                false,
                s@,
            ));
            assert(is_random_uuid(copy.id));
        }
        s
    }

    /// Moves the sheet `sheet_id` to stand before the sheet `to_before`, or to
    /// the end of the list for `None`.
    pub fn move_sheet(&mut self, sheet_id: SheetId, to_before: Option<SheetId>, cursor: Option<String>) -> (s:
        TransactionSummary)
        requires
            old(self).wf(),
            old(self)@.pending is None,
        ensures
            final(self).wf(),
            final(self)@.pending is None,
            exists|ops: Seq<Operation>|
                moves_sheet(old(self)@.grid, sheet_id, to_before, ops) && #[trigger] transacted(
                    old(self)@,
                    final(self)@,
                    ops,
                    TransactionType::Normal,
                    option_model(cursor),
                    false,
                    s@,
                ),
    {
        let mut ops: Vec<Operation> = Vec::new();
        match self.grid().sheet_id_to_index(sheet_id) {
            Some(i) => {
                let target: Option<usize> = match to_before {
                    Some(t) => match self.grid().sheet_id_to_index(t) {
                        Some(j) => if j > i {
                            Some(j - 1)
                        } else if j < i {
                            Some(j)
                        } else {
                            None
                        },
                        None => None,
                    },
                    None => Some(self.grid().sheet_count() - 1),
                };
                match target {
                    Some(index) => {
                        let sheet = self.grid().sheet(i);
                        let second = sheet.copy_as(sheet.id(), sheet.name());
                        ops.push(Operation::DeleteSheet { sheet_id });
                        ops.push(Operation::AddSheet { sheet: second, index });
                    },
                    None => {},
                }
            },
            None => {},
        }
        proof {
            assert(moves_sheet(self@.grid, sheet_id, to_before, ops@));
        }
        self.act_shaped(ops, cursor, false)
    }
}

} // verus!
