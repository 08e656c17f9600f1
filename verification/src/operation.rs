//! Operations: the units of change.
//!
//! An operation names its target and carries what it writes. Applying it
//! changes the grid as `grid_effect` says and yields the operation that takes
//! the change back.

use vstd::prelude::*;
use crate::content::Content;
use crate::borders::CellBorder;
use crate::code::CodeCellValue;
use crate::content::option_model;
use crate::formatting::CellFmtArray;
use crate::position::SheetId;
use crate::position::SheetPos;
use crate::position::SheetRect;
use crate::region::fits;
use crate::region::map_captures;
use crate::region::map_cell;
use crate::region::map_values_captured;
use crate::region::matches_array;
use crate::rle::RunLengthEncoding;
use crate::sheet::code_set;
use crate::sheet::formats_written;
use crate::sheet::formats_captured;
use crate::sheet::lines_of;
use crate::sheet::lines_set;
use crate::sheet::values_set;
use crate::sheet::Sheet;
use crate::sheet::SheetView;
use crate::values::Array;

verus! {

/// One change to a grid.
#[derive(Clone, Debug, PartialEq, Eq)]
pub enum Operation {
    /// Overwrite the values of a rectangle; a blank clears its cell.
    SetCellValues { sheet_rect: SheetRect, values: Array },
    /// Put a code cell at a position, or take the one there away.
    SetCellCode { sheet_pos: SheetPos, code_cell_value: Option<CodeCellValue> },
    /// Overwrite one formatting attribute over a rectangle.
    SetCellFormats { sheet_rect: SheetRect, attr: CellFmtArray },
    /// Overwrite the border lines of one direction over a rectangle: the
    /// lines on the top edges of its cells, or those on their left edges.
    SetBorders {
        sheet_rect: SheetRect,
        horizontal: bool,
        borders: RunLengthEncoding<Option<CellBorder>>,
    },
    /// Put a sheet into the list of sheets at an index.
    AddSheet { sheet: Sheet, index: usize },
    /// Take a sheet out of the list of sheets.
    DeleteSheet { sheet_id: SheetId },
    /// Rename a sheet.
    SetSheetName { sheet_id: SheetId, name: String },
    /// Set or clear the colour of a sheet's tab.
    SetSheetColor { sheet_id: SheetId, color: Option<String> },
}

/// A grid as contracts see it: its sheets in order.
pub struct GridView {
    pub sheets: Seq<SheetView>,
}

/// How applying an operation ends.
pub enum Outcome {
    /// The grid changed as the operation says.
    Applied,
    /// The operation speaks of a sheet that is not there, or adds one that
    /// is: it is passed over and the grid stays as it is.
    Stale,
    /// What the operation carries does not have the shape of its rectangle:
    /// it fails and the grid stays as it is.
    Malformed,
}

/// Whether the grid has a sheet with this identifier.
pub open spec fn has_sheet(g: GridView, id: SheetId) -> bool {
    exists|i: int| 0 <= i < g.sheets.len() && (#[trigger] g.sheets[i]).id == id
}

/// The index of the sheet with this identifier.
pub open spec fn sheet_index(g: GridView, id: SheetId) -> int {
    choose|i: int| 0 <= i < g.sheets.len() && (#[trigger] g.sheets[i]).id == id
}

/// No two sheets share an identifier.
pub open spec fn distinct_ids(g: GridView) -> bool {
    forall|i: int, j: int|
        0 <= i < j < g.sheets.len() ==> (#[trigger] g.sheets[i]).id != (#[trigger] g.sheets[j]).id
}

/// With distinct identifiers a sheet is found at its own index.
pub proof fn lemma_sheet_index(g: GridView, i: int)
    requires
        distinct_ids(g),
        0 <= i < g.sheets.len(),
    ensures
        has_sheet(g, g.sheets[i].id),
        sheet_index(g, g.sheets[i].id) == i,
{
    let id = g.sheets[i].id;
    let j = sheet_index(g, id);
    if j < i {
        assert(g.sheets[j].id != g.sheets[i].id);
    } else if i < j {
        assert(g.sheets[i].id != g.sheets[j].id);
    }
}

impl Operation {
    /// What the operation carries is well formed.
    pub open spec fn wf(&self) -> bool {
        match self {
            Operation::SetCellValues { sheet_rect, values } => values.wf(),
            Operation::SetCellCode { sheet_pos, code_cell_value } => true,
            Operation::SetCellFormats { sheet_rect, attr } => attr.wf(),
            Operation::SetBorders { sheet_rect, horizontal, borders } => borders.wf(),
            Operation::AddSheet { sheet, index } => sheet.wf(),
            Operation::DeleteSheet { sheet_id } => true,
            Operation::SetSheetName { sheet_id, name } => true,
            Operation::SetSheetColor { sheet_id, color } => true,
        }
    }

    /// The sheet that the operation speaks of.
    pub open spec fn target(&self) -> SheetId {
        match self {
            Operation::SetCellValues { sheet_rect, values } => sheet_rect.sheet_id,
            Operation::SetCellCode { sheet_pos, code_cell_value } => sheet_pos.sheet_id,
            Operation::SetCellFormats { sheet_rect, attr } => sheet_rect.sheet_id,
            Operation::SetBorders { sheet_rect, horizontal, borders } => sheet_rect.sheet_id,
            Operation::AddSheet { sheet, index } => sheet@.id,
            Operation::DeleteSheet { sheet_id } => *sheet_id,
            Operation::SetSheetName { sheet_id, name } => *sheet_id,
            Operation::SetSheetColor { sheet_id, color } => *sheet_id,
        }
    }
}

/// How applying `op` to the grid `g` ends.
pub open spec fn outcome(g: GridView, op: Operation) -> Outcome {
    match op {
        Operation::AddSheet { sheet, index } => if has_sheet(g, sheet@.id) || index > g.sheets.len() {
            Outcome::Stale
        } else {
            Outcome::Applied
        },
        Operation::SetCellValues { sheet_rect, values } => if !has_sheet(g, sheet_rect.sheet_id) {
            Outcome::Stale
        } else if !matches_array(sheet_rect.spec_rect(), values) {
            Outcome::Malformed
        } else {
            Outcome::Applied
        },
        Operation::SetCellFormats { sheet_rect, attr } => if !has_sheet(g, sheet_rect.sheet_id) {
            Outcome::Stale
        } else if !fits(sheet_rect.spec_rect(), attr.spec_len()) {
            Outcome::Malformed
        } else {
            Outcome::Applied
        },
        Operation::SetBorders { sheet_rect, horizontal, borders } => if !has_sheet(
            g,
            sheet_rect.sheet_id,
        ) {
            Outcome::Stale
        } else if !fits(sheet_rect.spec_rect(), borders.expand().len() as int) {
            Outcome::Malformed
        } else {
            Outcome::Applied
        },
        _ => if has_sheet(g, op.target()) {
            Outcome::Applied
        } else {
            Outcome::Stale
        },
    }
}

/// The sheet `v` after an operation that speaks of its content or its name.
pub open spec fn sheet_effect(v: SheetView, op: Operation) -> SheetView {
    match op {
        Operation::SetCellValues { sheet_rect, values } => values_set(v, sheet_rect.spec_rect(), values),
        Operation::SetCellCode { sheet_pos, code_cell_value } => code_set(
            v,
            sheet_pos.x as int,
            sheet_pos.y as int,
            option_model(code_cell_value),
        ),
        Operation::SetCellFormats { sheet_rect, attr } => formats_written(
            v,
            sheet_rect.spec_rect(),
            attr,
        ),
        Operation::SetBorders { sheet_rect, horizontal, borders } => lines_set(
            v,
            horizontal,
            sheet_rect.spec_rect(),
            borders.expand(),
        ),
        Operation::SetSheetName { sheet_id, name } => SheetView { name: name@, ..v },
        Operation::SetSheetColor { sheet_id, color } => SheetView { color: option_model(color), ..v },
        _ => v,
    }
}

/// The grid `g` after the operation `op`. An operation that is stale or
/// malformed leaves the grid as it is.
pub open spec fn grid_effect(g: GridView, op: Operation) -> GridView {
    if !(outcome(g, op) is Applied) {
        g
    } else {
        match op {
            Operation::AddSheet { sheet, index } => GridView {
                sheets: g.sheets.insert(index as int, sheet@),
            },
            Operation::DeleteSheet { sheet_id } => GridView {
                sheets: g.sheets.remove(sheet_index(g, sheet_id)),
            },
            _ => GridView {
                sheets: g.sheets.update(
                    sheet_index(g, op.target()),
                    sheet_effect(g.sheets[sheet_index(g, op.target())], op),
                ),
            },
        }
    }
}

/// The grid `g` after the operations `ops`, applied in order.
pub open spec fn effect_all(g: GridView, ops: Seq<Operation>) -> GridView
    decreases ops.len(),
{
    if ops.len() == 0 {
        g
    } else {
        grid_effect(effect_all(g, ops.drop_last()), ops.last())
    }
}

/// Whether `inverse` is the operation that takes `op` back on the grid `g`,
/// which has the sheet that `op` speaks of: the operation of the same kind
/// over the same rectangle or position that carries what the grid held there.
/// A sheet that was added is deleted, and a sheet that was deleted is added
/// as it was, at the place where it stood.
pub open spec fn inverts(inverse: Operation, op: Operation, g: GridView) -> bool {
    let v = g.sheets[sheet_index(g, op.target())];
    match op {
        Operation::SetCellValues { sheet_rect, values } => match inverse {
            Operation::SetCellValues { sheet_rect: r, values: prior } => r == sheet_rect
                && map_values_captured(prior, v.values, sheet_rect.spec_rect()),
            _ => false,
        },
        Operation::SetCellCode { sheet_pos, code_cell_value } => match inverse {
            Operation::SetCellCode { sheet_pos: p, code_cell_value: prior } => p == sheet_pos && option_model(
                prior,
            ) == map_cell(v.code, false, sheet_pos.x as int, sheet_pos.y as int),
            _ => false,
        },
        Operation::SetCellFormats { sheet_rect, attr } => match inverse {
            Operation::SetCellFormats { sheet_rect: r, attr: prior } => r == sheet_rect && prior.wf()
                && prior.spec_attr() == attr.spec_attr() && formats_captured(
                prior,
                v,
                sheet_rect.spec_rect(),
            ),
            _ => false,
        },
        Operation::SetBorders { sheet_rect, horizontal, borders } => match inverse {
            Operation::SetBorders { sheet_rect: r, horizontal: h, borders: prior } => r == sheet_rect && h
                == horizontal && prior.wf() && map_captures(
                prior.expand(),
                lines_of(v, horizontal),
                horizontal,
                sheet_rect.spec_rect(),
            ),
            _ => false,
        },
        Operation::AddSheet { sheet, index } => match inverse {
            Operation::DeleteSheet { sheet_id } => sheet_id == sheet@.id,
            _ => false,
        },
        Operation::DeleteSheet { sheet_id } => match inverse {
            Operation::AddSheet { sheet, index } => index == sheet_index(g, sheet_id) && sheet@ == v,
            _ => false,
        },
        Operation::SetSheetName { sheet_id, name } => match inverse {
            Operation::SetSheetName { sheet_id: id, name: prior } => id == sheet_id && prior@ == v.name,
            _ => false,
        },
        Operation::SetSheetColor { sheet_id, color } => match inverse {
            Operation::SetSheetColor { sheet_id: id, color: prior } => id == sheet_id && option_model(prior)
                == v.color,
            _ => false,
        },
    }
}

/// Whether `log` lists, in the order of application, the operations that
/// take back those of `ops` that are applied when `ops` run on the grid `g`:
/// one for each applied operation, as `inverts` says of the grid that the
/// operation met; none for an operation that is passed over.
pub open spec fn inverses_of(g: GridView, ops: Seq<Operation>, log: Seq<Operation>) -> bool
    decreases ops.len(),
{
    if ops.len() == 0 {
        log.len() == 0
    } else {
        let met = effect_all(g, ops.drop_last());
        if outcome(met, ops.last()) is Applied {
            &&& log.len() > 0
            &&& inverts(log.last(), ops.last(), met)
            &&& inverses_of(g, ops.drop_last(), log.drop_last())
        } else {
            inverses_of(g, ops.drop_last(), log)
        }
    }
}

/// A sequence in the opposite order.
pub open spec fn backwards<T>(s: Seq<T>) -> Seq<T> {
    Seq::new(s.len(), |i: int| s[s.len() - 1 - i])
}

/// Applying `first` and then `rest` is applying `first` followed by `rest`.
pub proof fn lemma_effect_prepend(g: GridView, first: Operation, rest: Seq<Operation>)
    ensures
        effect_all(g, seq![first] + rest) == effect_all(grid_effect(g, first), rest),
    decreases rest.len(),
{
    let whole = seq![first] + rest;
    if rest.len() == 0 {
        assert(whole.drop_last() =~= Seq::<Operation>::empty());
        assert(effect_all(g, whole.drop_last()) == g);
        assert(whole.last() == first);
    } else {
        assert(whole.drop_last() =~= seq![first] + rest.drop_last());
        assert(whole.last() == rest.last());
        lemma_effect_prepend(g, first, rest.drop_last());
    }
}

} // verus!
