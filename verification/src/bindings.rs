//! The controller as a platform binding sees it: sheets are named by the
//! text of their identifiers.

use vstd::prelude::*;
use crate::controller::GridController;
use crate::ids::uuid_parsed;
use crate::ids::uuid_text;
use crate::operation::has_sheet;
use crate::operation::sheet_index;
use crate::position::SheetId;

verus! {

/// Whether `id` spells the identifier of a sheet of the grid.
pub open spec fn names_sheet(c: crate::controller::ControllerView, id: Seq<char>) -> bool {
    uuid_parsed(id) is Some && has_sheet(c.grid, SheetId { id: uuid_parsed(id)->0 })
}

/// The sheet that `id` names.
pub open spec fn named_sheet(c: crate::controller::ControllerView, id: Seq<char>) -> crate::sheet::SheetView {
    c.grid.sheets[sheet_index(c.grid, SheetId { id: uuid_parsed(id)->0 })]
}

impl GridController {
    /// A controller over a grid with one empty sheet.
    pub fn js_new() -> (r: GridController)
        ensures
            r.wf(),
            r@.grid.sheets.len() == 1,
            r@.undo.len() == 0,
            r@.redo.len() == 0,
            r@.pending is None,
    {
        GridController::new()
    }

    /// Whether there is a transaction to undo.
    pub fn js_has_undo(&self) -> (r: bool)
        ensures
            r == (self@.undo.len() > 0),
    {
        self.has_undo()
    }

    /// Whether there is a transaction to redo.
    pub fn js_has_redo(&self) -> (r: bool)
        ensures
            r == (self@.redo.len() > 0),
    {
        self.has_redo()
    }

    /// The index of the sheet whose identifier `id` spells.
    pub fn js_sheet_id_to_index(&self, id: String) -> (r: Option<usize>)
        requires
            self.wf(),
            uuid_parsed(id@) is Some,
        ensures
            match r {
                Some(i) => names_sheet(self@, id@) && i == sheet_index(
                    self@.grid,
                    SheetId { id: uuid_parsed(id@)->0 },
                ),
                None => !names_sheet(self@, id@),
            },
    {
        match SheetId::parse(id.as_str()) {
            Some(sheet_id) => self.grid().sheet_id_to_index(sheet_id),
            None => None,
        }
    }

    /// The index of the sheet whose identifier `id` spells; `None` also where
    /// `id` spells no identifier.
    pub fn sheet_index_of(&self, id: String) -> (r: Option<usize>)
        requires
            self.wf(),
        ensures
            match r {
                Some(i) => names_sheet(self@, id@) && i == sheet_index(
                    self@.grid,
                    SheetId { id: uuid_parsed(id@)->0 },
                ),
                None => !names_sheet(self@, id@),
            },
    {
        match SheetId::parse(id.as_str()) {
            Some(_) => self.js_sheet_id_to_index(id),
            None => None,
        }
    }

    /// The identifier, as text, of the sheet at `index`; an error where
    /// there is no such sheet.
    pub fn js_sheet_index_to_id(&self, index: usize) -> (r: Result<String, ()>)
        ensures
            match r {
                Ok(t) => index < self@.grid.sheets.len() && t@ == uuid_text(self@.grid.sheets[index as int].id.id),
                Err(_) => index >= self@.grid.sheets.len(),
            },
    {
        match self.sheet_id_at(index) {
            Some(id) => Ok(id.to_text()),
            None => Err(()),
        }
    }

    /// The identifier of the sheet at `index`, if there is one.
    pub fn sheet_id_at(&self, index: usize) -> (r: Option<SheetId>)
        ensures
            r == if index < self@.grid.sheets.len() {
                Some(self@.grid.sheets[index as int].id)
            } else {
                None
            },
    {
        let ids = self.sheet_ids();
        if index < ids.len() {
            Some(ids[index])
        } else {
            None
        }
    }

    /// The name of the sheet whose identifier `sheet_id` spells.
    pub fn js_sheet_name(&self, sheet_id: String) -> (r: String)
        requires
            self.wf(),
            names_sheet(self@, sheet_id@),
        ensures
            r@ == named_sheet(self@, sheet_id@).name,
    {
        match SheetId::parse(sheet_id.as_str()) {
            Some(id) => match self.grid().try_sheet_from_id(id) {
                Some(sheet) => sheet.name(),
                None => String::new(),
            },
            None => String::new(),
        }
    }

    /// The colour of the sheet whose identifier `sheet_id` spells; the empty
    /// text for a sheet without colour.
    pub fn js_sheet_color(&self, sheet_id: String) -> (r: String)
        requires
            self.wf(),
            names_sheet(self@, sheet_id@),
        ensures
            r@ == match named_sheet(self@, sheet_id@).color {
                Some(c) => c,
                None => Seq::empty(),
            },
    {
        match SheetId::parse(sheet_id.as_str()) {
            Some(id) => match self.grid().try_sheet_from_id(id) {
                Some(sheet) => match sheet.color() {
                    Some(c) => c,
                    None => String::new(),
                },
                None => String::new(),
            },
            None => String::new(),
        }
    }

    /// The ordering key of the sheet whose identifier `sheet_id` spells.
    pub fn js_sheet_order(&self, sheet_id: String) -> (r: String)
        requires
            self.wf(),
            names_sheet(self@, sheet_id@),
        ensures
            r@ == named_sheet(self@, sheet_id@).order,
    {
        match SheetId::parse(sheet_id.as_str()) {
            Some(id) => match self.grid().try_sheet_from_id(id) {
                Some(sheet) => sheet.order(),
                None => String::new(),
            },
            None => String::new(),
        }
    }

    /// Whether `id` spells the identifier of a sheet of the grid.
    pub fn has_sheet_named(&self, id: &str) -> (r: bool)
        requires
            self.wf(),
        ensures
            r == names_sheet(self@, id@),
    {
        match SheetId::parse(id) {
            Some(sheet_id) => self.grid().sheet_id_to_index(sheet_id).is_some(),
            None => false,
        }
    }

    /// The name, the colour and the ordering key of the sheet whose
    /// identifier `id` spells, or `None` where it spells none.
    pub fn sheet_labels(&self, id: String) -> (r: Option<(String, String, String)>)
        requires
            self.wf(),
        ensures
            match r {
                Some((name, color, order)) => {
                    &&& names_sheet(self@, id@)
                    &&& name@ == named_sheet(self@, id@).name
                    &&& color@ == match named_sheet(self@, id@).color {
                        Some(c) => c,
                        None => Seq::empty(),
                    }
                    &&& order@ == named_sheet(self@, id@).order
                },
                None => !names_sheet(self@, id@),
            },
    {
        if self.has_sheet_named(id.as_str()) {
            let name = self.js_sheet_name(id.clone());
            let color = self.js_sheet_color(id.clone());
            let order = self.js_sheet_order(id);
            Some((name, color, order))
        } else {
            None
        }
    }
}

} // verus!
