//! The grid: the sheets of a file in order, and the application of single
//! operations to them.

use vstd::prelude::*;
use crate::content::Content;
use crate::content::option_model;
use crate::operation::distinct_ids;
use crate::operation::grid_effect;
use crate::operation::has_sheet;
use crate::operation::inverts;
use crate::operation::lemma_sheet_index;
use crate::operation::outcome;
use crate::operation::sheet_index;
use crate::operation::GridView;
use crate::operation::Operation;
use crate::position::SheetId;
use crate::sheet::lemma_code_undone;
use crate::sheet::lemma_formats_undone;
use crate::sheet::lines_of;
use crate::sheet::Sheet;
use crate::sheet::SheetView;
use crate::region::lemma_overwrite_undone;
use crate::region::lemma_values_undone;

verus! {

/// The sheets of a file.
#[derive(Clone, Debug, PartialEq, Eq)]
pub struct Grid {
    sheets: Vec<Sheet>,
}

/// Why an operation could not be applied.
#[derive(Clone, Copy, Debug, PartialEq, Eq, Structural)]
pub enum OperationError {
    /// What the operation carries does not have the shape of its rectangle.
    SizeMismatch,
}

/// The views of a list of sheets.
pub open spec fn sheet_views(sheets: Seq<Sheet>) -> Seq<SheetView> {
    Seq::new(sheets.len(), |i: int| sheets[i]@)
}

impl Grid {
    /// Every sheet is well formed and no two share an identifier.
    pub closed spec fn wf(&self) -> bool {
        &&& forall|i: int| 0 <= i < self.sheets@.len() ==> (#[trigger] self.sheets@[i]).wf()
        &&& distinct_ids(self@)
    }

    /// The grid as contracts see it.
    pub closed spec fn view(&self) -> GridView {
        GridView { sheets: sheet_views(self.sheets@) }
    }

    /// The sheets of a well-formed grid have distinct identifiers.
    pub proof fn lemma_distinct(&self)
        requires
            self.wf(),
        ensures
            distinct_ids(self@),
    {
    }

    /// A grid without sheets.
    pub fn new() -> (r: Grid)
        ensures
            r.wf(),
            r@.sheets.len() == 0,
    {
        Grid { sheets: Vec::new() }
    }

    /// The number of sheets.
    pub fn sheet_count(&self) -> (n: usize)
        ensures
            n == self@.sheets.len(),
    {
        self.sheets.len()
    }

    /// The identifiers of the sheets, in order.
    pub fn sheet_ids(&self) -> (r: Vec<SheetId>)
        ensures
            r@.len() == self@.sheets.len(),
            forall|i: int| 0 <= i < r@.len() ==> r@[i] == self@.sheets[i].id,
    {
        let mut out: Vec<SheetId> = Vec::new();
        let mut i: usize = 0;
        while i < self.sheets.len()
            invariant
                i <= self.sheets.len(),
                out@.len() == i,
                forall|k: int| 0 <= k < i ==> out@[k] == self@.sheets[k].id,
            decreases self.sheets.len() - i,
        {
            out.push(self.sheets[i].id());
            i += 1;
        }
        out
    }

    /// The index of the sheet with the identifier `id`, if there is one.
    pub fn sheet_id_to_index(&self, id: SheetId) -> (r: Option<usize>)
        requires
            self.wf(),
        ensures
            match r {
                Some(i) => has_sheet(self@, id) && i == sheet_index(self@, id) && i < self@.sheets.len()
                    && self@.sheets[i as int].id == id,
                None => !has_sheet(self@, id),
            },
    {
        let mut i: usize = 0;
        while i < self.sheets.len()
            invariant
                i <= self.sheets.len(),
                self.wf(),
                forall|k: int| 0 <= k < i ==> (#[trigger] self@.sheets[k]).id != id,
            decreases self.sheets.len() - i,
        {
            if self.sheets[i].id().id == id.id {
                proof {
                    lemma_sheet_index(self@, i as int);
                }
                return Some(i);
            }
            i += 1;
        }
        None
    }

    /// The identifier of the sheet at `index`, if there is one.
    pub fn sheet_index_to_id(&self, index: usize) -> (r: Option<SheetId>)
        ensures
            r == if index < self@.sheets.len() {
                Some(self@.sheets[index as int].id)
            } else {
                None
            },
    {
        if index < self.sheets.len() {
            Some(self.sheets[index].id())
        } else {
            None
        }
    }

    /// The sheet at `index`.
    pub fn sheet(&self, index: usize) -> (r: &Sheet)
        requires
            self.wf(),
            index < self@.sheets.len(),
        ensures
            r.wf(),
            r@ == self@.sheets[index as int],
    {
        &self.sheets[index]
    }

    /// The sheet with the identifier `id`, if there is one.
    pub fn try_sheet_from_id(&self, id: SheetId) -> (r: Option<&Sheet>)
        requires
            self.wf(),
        ensures
            match r {
                Some(s) => has_sheet(self@, id) && s.wf() && s@ == self@.sheets[sheet_index(self@, id)],
                None => !has_sheet(self@, id),
            },
    {
        match self.sheet_id_to_index(id) {
            Some(i) => Some(&self.sheets[i]),
            None => None,
        }
    }

    /// Applies one operation. An applied operation changes the grid as
    /// `grid_effect` says and yields the operation that takes the change
    /// back. A stale operation is passed over and a malformed one fails;
    /// both leave the grid as it is.
    pub fn apply(&mut self, op: Operation) -> (r: Result<Option<Operation>, OperationError>)
        requires
            old(self).wf(),
            (op).wf(),
        ensures
            final(self).wf(),
            final(self)@ == grid_effect(old(self)@, op),
            match r {
                Ok(Some(inverse)) => {
                    &&& outcome(old(self)@, op) is Applied
                    &&& inverse.wf()
                    &&& outcome(final(self)@, inverse) is Applied
                    &&& grid_effect(final(self)@, inverse) == old(self)@
                    &&& inverts(inverse, op, old(self)@)
                },
                Ok(None) => outcome(old(self)@, op) is Stale,
                Err(e) => outcome(old(self)@, op) is Malformed,
            },
    {
        match op {
            Operation::AddSheet { sheet, index } => self.add_sheet(sheet, index),
            Operation::DeleteSheet { sheet_id } => self.delete_sheet(sheet_id),
            Operation::SetCellValues { sheet_rect, values } => self.set_cell_values(sheet_rect, values),
            Operation::SetCellFormats { sheet_rect, attr } => self.set_cell_formats(sheet_rect, attr),
            Operation::SetBorders { sheet_rect, horizontal, borders } => self.set_borders(
                sheet_rect,
                horizontal,
                borders,
            ),
            Operation::SetCellCode { sheet_pos, code_cell_value } => self.set_cell_code(
                sheet_pos,
                code_cell_value,
            ),
            Operation::SetSheetName { sheet_id, name } => self.set_sheet_name(sheet_id, name),
            Operation::SetSheetColor { sheet_id, color } => self.set_sheet_color(sheet_id, color),
        }
    }

    /// Applies `AddSheet`.
    fn add_sheet(&mut self, sheet: Sheet, index: usize) -> (r: Result<Option<Operation>, OperationError>)
        requires
            old(self).wf(),
            (Operation::AddSheet { sheet, index }).wf(),
        ensures
            final(self).wf(),
            final(self)@ == grid_effect(old(self)@, Operation::AddSheet { sheet, index }),
            match r {
                Ok(Some(inverse)) => {
                    &&& outcome(old(self)@, Operation::AddSheet { sheet, index }) is Applied
                    &&& inverse.wf()
                    &&& outcome(final(self)@, inverse) is Applied
                    &&& grid_effect(final(self)@, inverse) == old(self)@
                    &&& inverts(inverse, Operation::AddSheet { sheet, index }, old(self)@)
                },
                Ok(None) => outcome(old(self)@, Operation::AddSheet { sheet, index }) is Stale,
                Err(e) => outcome(old(self)@, Operation::AddSheet { sheet, index }) is Malformed,
            },
    {
        let ghost before = self@;
        let id = sheet.id();
        if index > self.sheets.len() {
            return Ok(None);
        }
        match self.sheet_id_to_index(id) {
            Some(_) => Ok(None),
            None => {
                let ghost added = sheet@;
                self.sheets.insert(index, sheet);
                proof {
                    assert(self@.sheets =~= before.sheets.insert(index as int, added));
                    assert(distinct_ids(self@)) by {
                        assert forall|i: int, j: int| 0 <= i < j < self@.sheets.len() implies (
                        #[trigger] self@.sheets[i]).id != (#[trigger] self@.sheets[j]).id by {
                            let a = if i < index { i } else { i - 1 };
                            let b = if j < index { j } else { j - 1 };
                            if i != index && j != index {
                                assert(before.sheets[a].id != before.sheets[b].id);
                            } else if i == index {
                                assert(before.sheets[b].id != id);
                            } else {
                                assert(before.sheets[a].id != id);
                            }
                        }
                    }
                    lemma_sheet_index(self@, index as int);
                    assert(self@.sheets.remove(index as int) =~= before.sheets);
                }
                Ok(Some(Operation::DeleteSheet { sheet_id: id }))
            },
        }
    }

    /// Applies `DeleteSheet`.
    fn delete_sheet(&mut self, sheet_id: SheetId) -> (r: Result<Option<Operation>, OperationError>)
        requires
            old(self).wf(),
            (Operation::DeleteSheet { sheet_id }).wf(),
        ensures
            final(self).wf(),
            final(self)@ == grid_effect(old(self)@, Operation::DeleteSheet { sheet_id }),
            match r {
                Ok(Some(inverse)) => {
                    &&& outcome(old(self)@, Operation::DeleteSheet { sheet_id }) is Applied
                    &&& inverse.wf()
                    &&& outcome(final(self)@, inverse) is Applied
                    &&& grid_effect(final(self)@, inverse) == old(self)@
                    &&& inverts(inverse, Operation::DeleteSheet { sheet_id }, old(self)@)
                },
                Ok(None) => outcome(old(self)@, Operation::DeleteSheet { sheet_id }) is Stale,
                Err(e) => outcome(old(self)@, Operation::DeleteSheet { sheet_id }) is Malformed,
            },
    {
        let ghost before = self@;
        match self.sheet_id_to_index(sheet_id) {
            None => Ok(None),
            Some(i) => {
                let sheet = self.sheets.remove(i);
                proof {
                    assert(self@.sheets =~= before.sheets.remove(i as int));
                    assert(distinct_ids(self@)) by {
                        assert forall|a: int, b: int| 0 <= a < b < self@.sheets.len() implies (
                        #[trigger] self@.sheets[a]).id != (#[trigger] self@.sheets[b]).id by {
                            let x = if a < i { a } else { a + 1 };
                            let y = if b < i { b } else { b + 1 };
                            assert(before.sheets[x].id != before.sheets[y].id);
                        }
                    }
                    assert(!has_sheet(self@, sheet_id)) by {
                        if has_sheet(self@, sheet_id) {
                            let a = sheet_index(self@, sheet_id);
                            let x = if a < i { a } else { a + 1 };
                            assert(self@.sheets[a] == before.sheets[x]);
                            if x < i {
                                assert(before.sheets[x].id != before.sheets[i as int].id);
                            } else {
                                assert(before.sheets[i as int].id != before.sheets[x].id);
                            }
                        }
                    }
                    assert(self@.sheets.insert(i as int, sheet@) =~= before.sheets);
                }
                Ok(Some(Operation::AddSheet { sheet, index: i }))
            },
        }
    }

    /// Applies `SetCellValues`.
    fn set_cell_values(&mut self, sheet_rect: crate::position::SheetRect, values: crate::values::Array) -> (r:
        Result<Option<Operation>, OperationError>)
        requires
            old(self).wf(),
            (Operation::SetCellValues { sheet_rect, values }).wf(),
        ensures
            final(self).wf(),
            final(self)@ == grid_effect(old(self)@, Operation::SetCellValues { sheet_rect, values }),
            match r {
                Ok(Some(inverse)) => {
                    &&& outcome(old(self)@, Operation::SetCellValues { sheet_rect, values }) is Applied
                    &&& inverse.wf()
                    &&& outcome(final(self)@, inverse) is Applied
                    &&& grid_effect(final(self)@, inverse) == old(self)@
                    &&& inverts(inverse, Operation::SetCellValues { sheet_rect, values }, old(self)@)
                },
                Ok(None) => outcome(old(self)@, Operation::SetCellValues { sheet_rect, values }) is Stale,
                Err(e) => outcome(old(self)@, Operation::SetCellValues { sheet_rect, values }) is Malformed,
            },
    {
        let ghost before = self@;
        match self.sheet_id_to_index(sheet_rect.sheet_id) {
            None => Ok(None),
            Some(i) => {
                let sheet = &mut self.sheets[i];
                let ghost v0 = sheet@;
                proof {
                    sheet.lemma_no_blank();
                }
                let prior = sheet.set_cell_values(sheet_rect.rect(), &values);
                proof {
                    assert(self@.sheets =~= before.sheets.update(i as int, self.sheets@[i as int]@));
                    self.lemma_kept_ids(before, i as int);
                }
                match prior {
                    Some(held) => {
                        proof {
                            lemma_sheet_index(self@, i as int);
                            lemma_values_undone(v0.values, sheet_rect.spec_rect(), values, held);
                            assert(self@.sheets.update(i as int, v0) =~= before.sheets);
                        }
                        Ok(Some(Operation::SetCellValues { sheet_rect, values: held }))
                    },
                    None => {
                        proof {
                            assert(self@.sheets =~= before.sheets);
                        }
                        Err(OperationError::SizeMismatch)
                    },
                }
            },
        }
    }

    /// Applies `SetCellFormats`.
    fn set_cell_formats(&mut self, sheet_rect: crate::position::SheetRect, attr: crate::formatting::CellFmtArray) -> (r:
        Result<Option<Operation>, OperationError>)
        requires
            old(self).wf(),
            (Operation::SetCellFormats { sheet_rect, attr }).wf(),
        ensures
            final(self).wf(),
            final(self)@ == grid_effect(old(self)@, Operation::SetCellFormats { sheet_rect, attr }),
            match r {
                Ok(Some(inverse)) => {
                    &&& outcome(old(self)@, Operation::SetCellFormats { sheet_rect, attr }) is Applied
                    &&& inverse.wf()
                    &&& outcome(final(self)@, inverse) is Applied
                    &&& grid_effect(final(self)@, inverse) == old(self)@
                    &&& inverts(inverse, Operation::SetCellFormats { sheet_rect, attr }, old(self)@)
                },
                Ok(None) => outcome(old(self)@, Operation::SetCellFormats { sheet_rect, attr }) is Stale,
                Err(e) => outcome(old(self)@, Operation::SetCellFormats { sheet_rect, attr }) is Malformed,
            },
    {
        let ghost before = self@;
        match self.sheet_id_to_index(sheet_rect.sheet_id) {
            None => Ok(None),
            Some(i) => {
                let sheet = &mut self.sheets[i];
                let ghost v0 = sheet@;
                let prior = sheet.set_cell_formats(sheet_rect.rect(), &attr);
                proof {
                    assert(self@.sheets =~= before.sheets.update(i as int, self.sheets@[i as int]@));
                    self.lemma_kept_ids(before, i as int);
                }
                match prior {
                    Some(held) => {
                        proof {
                            lemma_sheet_index(self@, i as int);
                            lemma_formats_undone(v0, sheet_rect.spec_rect(), attr, held);
                            lemma_formats_len(held, v0, sheet_rect.spec_rect());
                            assert(self@.sheets.update(i as int, v0) =~= before.sheets);
                        }
                        Ok(Some(Operation::SetCellFormats { sheet_rect, attr: held }))
                    },
                    None => {
                        proof {
                            assert(self@.sheets =~= before.sheets);
                        }
                        Err(OperationError::SizeMismatch)
                    },
                }
            },
        }
    }

    /// Applies `SetBorders`.
    fn set_borders(
        &mut self,
        sheet_rect: crate::position::SheetRect,
        horizontal: bool,
        borders: crate::rle::RunLengthEncoding<Option<crate::borders::CellBorder>>,
    ) -> (r: Result<Option<Operation>, OperationError>)
        requires
            old(self).wf(),
            (Operation::SetBorders { sheet_rect, horizontal, borders }).wf(),
        ensures
            final(self).wf(),
            final(self)@ == grid_effect(old(self)@, Operation::SetBorders { sheet_rect, horizontal, borders }),
            match r {
                Ok(Some(inverse)) => {
                    &&& outcome(old(self)@, Operation::SetBorders { sheet_rect, horizontal, borders }) is Applied
                    &&& inverse.wf()
                    &&& outcome(final(self)@, inverse) is Applied
                    &&& grid_effect(final(self)@, inverse) == old(self)@
                    &&& inverts(inverse, Operation::SetBorders { sheet_rect, horizontal, borders }, old(self)@)
                },
                Ok(None) => outcome(old(self)@, Operation::SetBorders { sheet_rect, horizontal, borders }) is Stale,
                Err(e) => outcome(old(self)@, Operation::SetBorders { sheet_rect, horizontal, borders }) is Malformed,
            },
    {
        let ghost before = self@;
        match self.sheet_id_to_index(sheet_rect.sheet_id) {
            None => Ok(None),
            Some(i) => {
                let sheet = &mut self.sheets[i];
                let ghost v0 = sheet@;
                let prior = sheet.set_border_lines(horizontal, sheet_rect.rect(), &borders);
                proof {
                    assert(self@.sheets =~= before.sheets.update(i as int, self.sheets@[i as int]@));
                    self.lemma_kept_ids(before, i as int);
                }
                match prior {
                    Some(held) => {
                        proof {
                            lemma_sheet_index(self@, i as int);
                            lemma_overwrite_undone(
                                lines_of(v0, horizontal),
                                horizontal,
                                sheet_rect.spec_rect(),
                                borders.expand(),
                                held.expand(),
                            );
                            assert(self@.sheets.update(i as int, v0) =~= before.sheets);
                        }
                        Ok(Some(Operation::SetBorders { sheet_rect, horizontal, borders: held }))
                    },
                    None => {
                        proof {
                            assert(self@.sheets =~= before.sheets);
                        }
                        Err(OperationError::SizeMismatch)
                    },
                }
            },
        }
    }

    /// Applies `SetCellCode`.
    fn set_cell_code(
        &mut self,
        sheet_pos: crate::position::SheetPos,
        code_cell_value: Option<crate::code::CodeCellValue>,
    ) -> (r: Result<Option<Operation>, OperationError>)
        requires
            old(self).wf(),
            (Operation::SetCellCode { sheet_pos, code_cell_value }).wf(),
        ensures
            final(self).wf(),
            final(self)@ == grid_effect(old(self)@, Operation::SetCellCode { sheet_pos, code_cell_value }),
            match r {
                Ok(Some(inverse)) => {
                    &&& outcome(old(self)@, Operation::SetCellCode { sheet_pos, code_cell_value }) is Applied
                    &&& inverse.wf()
                    &&& outcome(final(self)@, inverse) is Applied
                    &&& grid_effect(final(self)@, inverse) == old(self)@
                    &&& inverts(inverse, Operation::SetCellCode { sheet_pos, code_cell_value }, old(self)@)
                },
                Ok(None) => outcome(old(self)@, Operation::SetCellCode { sheet_pos, code_cell_value }) is Stale,
                Err(e) => outcome(old(self)@, Operation::SetCellCode { sheet_pos, code_cell_value }) is Malformed,
            },
    {
        let ghost before = self@;
        match self.sheet_id_to_index(sheet_pos.sheet_id) {
            None => Ok(None),
            Some(i) => {
                let sheet = &mut self.sheets[i];
                let ghost v0 = sheet@;
                let ghost fresh = option_model(code_cell_value);
                let held = sheet.set_code_cell(sheet_pos.pos(), code_cell_value);
                proof {
                    assert(self@.sheets =~= before.sheets.update(i as int, self.sheets@[i as int]@));
                    self.lemma_kept_ids(before, i as int);
                    lemma_sheet_index(self@, i as int);
                    lemma_code_undone(v0, sheet_pos.x as int, sheet_pos.y as int, fresh);
                    assert(self@.sheets.update(i as int, v0) =~= before.sheets);
                }
                Ok(Some(Operation::SetCellCode { sheet_pos, code_cell_value: held }))
            },
        }
    }

    /// Applies `SetSheetName`.
    fn set_sheet_name(&mut self, sheet_id: SheetId, name: String) -> (r: Result<
        Option<Operation>,
        OperationError,
    >)
        requires
            old(self).wf(),
            (Operation::SetSheetName { sheet_id, name }).wf(),
        ensures
            final(self).wf(),
            final(self)@ == grid_effect(old(self)@, Operation::SetSheetName { sheet_id, name }),
            match r {
                Ok(Some(inverse)) => {
                    &&& outcome(old(self)@, Operation::SetSheetName { sheet_id, name }) is Applied
                    &&& inverse.wf()
                    &&& outcome(final(self)@, inverse) is Applied
                    &&& grid_effect(final(self)@, inverse) == old(self)@
                    &&& inverts(inverse, Operation::SetSheetName { sheet_id, name }, old(self)@)
                },
                Ok(None) => outcome(old(self)@, Operation::SetSheetName { sheet_id, name }) is Stale,
                Err(e) => outcome(old(self)@, Operation::SetSheetName { sheet_id, name }) is Malformed,
            },
    {
        let ghost before = self@;
        match self.sheet_id_to_index(sheet_id) {
            None => Ok(None),
            Some(i) => {
                let sheet = &mut self.sheets[i];
                let ghost v0 = sheet@;
                let held = sheet.set_name(name);
                proof {
                    assert(self@.sheets =~= before.sheets.update(i as int, self.sheets@[i as int]@));
                    self.lemma_kept_ids(before, i as int);
                    lemma_sheet_index(self@, i as int);
                    assert(self@.sheets.update(i as int, v0) =~= before.sheets);
                }
                Ok(Some(Operation::SetSheetName { sheet_id, name: held }))
            },
        }
    }

    /// Applies `SetSheetColor`.
    fn set_sheet_color(&mut self, sheet_id: SheetId, color: Option<String>) -> (r: Result<
        Option<Operation>,
        OperationError,
    >)
        requires
            old(self).wf(),
            (Operation::SetSheetColor { sheet_id, color }).wf(),
        ensures
            final(self).wf(),
            final(self)@ == grid_effect(old(self)@, Operation::SetSheetColor { sheet_id, color }),
            match r {
                Ok(Some(inverse)) => {
                    &&& outcome(old(self)@, Operation::SetSheetColor { sheet_id, color }) is Applied
                    &&& inverse.wf()
                    &&& outcome(final(self)@, inverse) is Applied
                    &&& grid_effect(final(self)@, inverse) == old(self)@
                    &&& inverts(inverse, Operation::SetSheetColor { sheet_id, color }, old(self)@)
                },
                Ok(None) => outcome(old(self)@, Operation::SetSheetColor { sheet_id, color }) is Stale,
                Err(e) => outcome(old(self)@, Operation::SetSheetColor { sheet_id, color }) is Malformed,
            },
    {
        let ghost before = self@;
        match self.sheet_id_to_index(sheet_id) {
            None => Ok(None),
            Some(i) => {
                let sheet = &mut self.sheets[i];
                let ghost v0 = sheet@;
                let held = sheet.set_color(color);
                proof {
                    assert(self@.sheets =~= before.sheets.update(i as int, self.sheets@[i as int]@));
                    self.lemma_kept_ids(before, i as int);
                    lemma_sheet_index(self@, i as int);
                    assert(self@.sheets.update(i as int, v0) =~= before.sheets);
                }
                Ok(Some(Operation::SetSheetColor { sheet_id, color: held }))
            },
        }
    }

    /// A grid whose sheets are those of `before` but for the content of the
    /// sheet at `i` still has distinct identifiers.
    proof fn lemma_kept_ids(&self, before: GridView, i: int)
        requires
            distinct_ids(before),
            0 <= i < before.sheets.len(),
            self@.sheets.len() == before.sheets.len(),
            self@.sheets[i].id == before.sheets[i].id,
            forall|k: int| 0 <= k < before.sheets.len() && k != i ==> self@.sheets[k] == before.sheets[k],
        ensures
            distinct_ids(self@),
    {
        assert forall|a: int, b: int| 0 <= a < b < self@.sheets.len() implies (
        #[trigger] self@.sheets[a]).id != (#[trigger] self@.sheets[b]).id by {
            assert(before.sheets[a].id != before.sheets[b].id);
        }
    }
}

/// A list of formats that lists a rectangle has as many entries as the
/// rectangle has cells.
pub proof fn lemma_formats_len(attr: crate::formatting::CellFmtArray, v: SheetView, rect: crate::position::Rect)
    requires
        crate::sheet::formats_captured(attr, v, rect),
    ensures
        attr.spec_len() == rect.spec_width() * rect.spec_height(),
{
}

} // verus!
