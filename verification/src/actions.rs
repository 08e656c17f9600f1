//! What a user does to a grid: each action makes its operations and runs
//! them as one transaction.

use vstd::prelude::*;
use crate::content::Content;
use crate::borders::BorderSelection;
use crate::borders::CellBorder;
use crate::cell_value::clears_formats;
use crate::cell_value::deletes_cells;
use crate::cell_value::writes_text;
use crate::clipboard::copy_snapshot;
use crate::clipboard::copy_text;
use crate::clipboard::copyable;
use crate::clipboard::html_rows;
use crate::clipboard::plain_rows;
use crate::clipboard::snapshot_of;
use crate::clipboard::Clipboard;
use crate::clipboard::ClipboardCopy;
use crate::code::CodeCellLanguage;
use crate::code::CodeCellModel;
use crate::code::CodeCellRunOutput;
use crate::code::CodeCellValue;
use crate::content::option_model;
use crate::controller::acted;
use crate::controller::ControllerView;
use crate::controller::GridController;
use crate::controller::transacted;
use crate::formatting::filled_with;
use crate::formatting::CellFmtArray;
use crate::formatting::FormatValue;
use crate::operation::effect_all;
use crate::operation::has_sheet;
use crate::operation::sheet_index;
use crate::operation::Operation;
use crate::paste::pastes;
use crate::paste::rows_written;
use crate::paste::PasteOperations;
use crate::position::Pos;
use crate::position::SheetId;
use crate::position::SheetPos;
use crate::position::SheetRect;
use crate::selection::draws_borders;
use crate::selection::set_borders_operations;
use crate::text::split_spec;
use crate::text::trimmed;
use crate::transaction::all_shaped;
use crate::transaction::all_wf;
use crate::transaction::empty_summary;
use crate::transaction::TransactionSummary;
use crate::transaction::TransactionType;
use crate::values::Array;
use crate::values::CellValue;

verus! {

/// Whether `ops` is the one operation that gives every cell of `rect` the
/// format `value`, or nothing where `rect` has no size or more cells than a
/// list can hold.
pub open spec fn formats_cells(rect: SheetRect, value: FormatValue, ops: Seq<Operation>) -> bool {
    if !copyable(rect.spec_rect()) {
        ops.len() == 0
    } else {
        &&& ops.len() == 1
        &&& match ops[0] {
            Operation::SetCellFormats { sheet_rect, attr } => sheet_rect == rect && filled_with(
                attr,
                value,
                rect.spec_rect().spec_width() * rect.spec_rect().spec_height(),
            ),
            _ => false,
        }
    }
}

/// Whether `ops` put fresh code in the language `language` into the cell
/// `pos`: they clear the cell's value and put a code cell without output.
pub open spec fn codes_cell(
    pos: SheetPos,
    language: CodeCellLanguage,
    code: Seq<char>,
    last_modified: Seq<char>,
    ops: Seq<Operation>,
) -> bool {
    &&& ops.len() == 2
    &&& crate::cell_value::sets_value(ops[0], pos, crate::values::CellValueModel::Blank)
    &&& match ops[1] {
        Operation::SetCellCode { sheet_pos, code_cell_value } => sheet_pos == pos && code_cell_value is Some
            && code_cell_value->0.model() == (CodeCellModel {
            language,
            code_string: code,
            formatted_code_string: None,
            last_modified,
            output: None,
        }),
        _ => false,
    }
}

impl GridController {
    /// Writes the text `value` into the cell `sheet_pos`, as typed by the
    /// user.
    pub fn set_cell_value(&mut self, sheet_pos: SheetPos, value: String, cursor: Option<String>) -> (s:
        TransactionSummary)
        requires
            old(self).wf(),
            old(self)@.pending is None,
        ensures
            final(self).wf(),
            final(self)@.pending is None,
            exists|ops: Seq<Operation>|
                writes_text(old(self)@.grid, sheet_pos, trimmed(value@), ops) && #[trigger] transacted(
                    old(self)@,
                    final(self)@,
                    ops,
                    TransactionType::Normal,
                    option_model(cursor),
                    true,
                    s@,
                ),
    {
        let ops = self.set_cell_value_operations(sheet_pos, value);
        self.act_shaped(ops, cursor, true)
    }

    /// Runs shaped operations as one transaction of the user.
    pub fn act_shaped(&mut self, operations: Vec<Operation>, cursor: Option<String>, compute: bool) -> (s:
        TransactionSummary)
        requires
            old(self).wf(),
            old(self)@.pending is None,
            all_wf(operations@),
            all_shaped(operations@),
        ensures
            final(self).wf(),
            final(self)@.pending is None,
            transacted(
                old(self)@,
                final(self)@,
                operations@,
                TransactionType::Normal,
                option_model(cursor),
                compute,
                s@,
            ),
    {
        let ghost all = operations@;
        let ghost before = self@;
        let s = self.act(operations, cursor, compute);
        proof {
            let k = choose|k: int| #[trigger]
                crate::controller::stops_at(before.grid, all, k) && crate::controller::transacted_upto(
                    before,
                    self@,
                    all,
                    k,
                    TransactionType::Normal,
                    option_model(cursor),
                    compute,
                    s@,
                );
            crate::controller::lemma_shaped_run(before.grid, all, k);
            assert(all.take(all.len() as int) =~= all);
        }
        s
    }

    /// Deletes the values and the code cells of a rectangle.
    pub fn delete_cell_values(&mut self, sheet_rect: SheetRect, cursor: Option<String>) -> (s:
        TransactionSummary)
        requires
            old(self).wf(),
            old(self)@.pending is None,
        ensures
            final(self).wf(),
            final(self)@.pending is None,
            exists|ops: Seq<Operation>|
                deletes_cells(old(self)@.grid, sheet_rect, ops) && #[trigger] transacted(
                    old(self)@,
                    final(self)@,
                    ops,
                    TransactionType::Normal,
                    option_model(cursor),
                    false,
                    s@,
                ),
    {
        let ops = self.delete_cells_rect_operations(sheet_rect);
        self.act_shaped(ops, cursor, false)
    }

    /// Deletes the values, the code cells and the formats of a rectangle.
    pub fn delete_values_and_formatting(&mut self, sheet_rect: SheetRect, cursor: Option<String>) -> (s:
        TransactionSummary)
        requires
            old(self).wf(),
            old(self)@.pending is None,
        ensures
            final(self).wf(),
            final(self)@.pending is None,
            exists|ops: Seq<Operation>, k: int|
                0 <= k <= ops.len() && deletes_cells(old(self)@.grid, sheet_rect, ops.take(k))
                    && clears_formats(sheet_rect, ops.skip(k)) && #[trigger] transacted(
                    old(self)@,
                    final(self)@,
                    ops,
                    TransactionType::Normal,
                    option_model(cursor),
                    false,
                    s@,
                ) && #[trigger] ops.take(k).len() == k,
    {
        let ops = self.delete_values_and_formatting_operations(sheet_rect);
        let ghost all = ops@;
        let s = self.act_shaped(ops, cursor, false);
        proof {
            let k = choose|k: int|
                0 <= k <= all.len() && deletes_cells(old(self)@.grid, sheet_rect, #[trigger] all.take(k))
                    && clears_formats(sheet_rect, all.skip(k));
            assert(all.take(k).len() == k);
        }
        s
    }

    /// The operation that gives every cell of a rectangle one format.
    pub fn set_cell_format_operations(sheet_rect: SheetRect, value: FormatValue) -> (ops: Vec<Operation>)
        ensures
            formats_cells(sheet_rect, value, ops@),
            all_wf(ops@),
            all_shaped(ops@),
    {
        let mut ops: Vec<Operation> = Vec::new();
        let size = match sheet_rect.rect().size() {
            Some(s) => s,
            None => {
                return ops;
            },
        };
        if size.len() > usize::MAX as u64 {
            return ops;
        }
        let attr = CellFmtArray::filled(value, size.len() as usize);
        ops.push(Operation::SetCellFormats { sheet_rect, attr });
        ops
    }

    /// Gives every cell of a rectangle one format, or clears it.
    pub fn set_cell_format(&mut self, sheet_rect: SheetRect, value: FormatValue, cursor: Option<String>) -> (s:
        TransactionSummary)
        requires
            old(self).wf(),
            old(self)@.pending is None,
        ensures
            final(self).wf(),
            final(self)@.pending is None,
            exists|ops: Seq<Operation>|
                formats_cells(sheet_rect, value, ops) && #[trigger] transacted(
                    old(self)@,
                    final(self)@,
                    ops,
                    TransactionType::Normal,
                    option_model(cursor),
                    false,
                    s@,
                ),
    {
        let ops = GridController::set_cell_format_operations(sheet_rect, value);
        self.act_shaped(ops, cursor, false)
    }

    /// Sets every cell of a rectangle in bold, or not, or clears the choice.
    pub fn set_cell_bold(&mut self, sheet_rect: SheetRect, value: Option<bool>, cursor: Option<String>) -> (s:
        TransactionSummary)
        requires
            old(self).wf(),
            old(self)@.pending is None,
        ensures
            final(self).wf(),
            final(self)@.pending is None,
            exists|ops: Seq<Operation>|
                formats_cells(sheet_rect, FormatValue::Bold(value), ops) && #[trigger] transacted(
                    old(self)@,
                    final(self)@,
                    ops,
                    TransactionType::Normal,
                    option_model(cursor),
                    false,
                    s@,
                ),
    {
        self.set_cell_format(sheet_rect, FormatValue::Bold(value), cursor)
    }

    /// Sets every cell of a rectangle in italics, or not, or clears the
    /// choice.
    pub fn set_cell_italic(&mut self, sheet_rect: SheetRect, value: Option<bool>, cursor: Option<String>) -> (s:
        TransactionSummary)
        requires
            old(self).wf(),
            old(self)@.pending is None,
        ensures
            final(self).wf(),
            final(self)@.pending is None,
            exists|ops: Seq<Operation>|
                formats_cells(sheet_rect, FormatValue::Italic(value), ops) && #[trigger] transacted(
                    old(self)@,
                    final(self)@,
                    ops,
                    TransactionType::Normal,
                    option_model(cursor),
                    false,
                    s@,
                ),
    {
        self.set_cell_format(sheet_rect, FormatValue::Italic(value), cursor)
    }

    /// Puts fresh code into a cell: the cell's value is cleared and the code
    /// is listed for running.
    pub fn set_cell_code(
        &mut self,
        sheet_pos: SheetPos,
        language: CodeCellLanguage,
        code_string: String,
        last_modified: String,
        cursor: Option<String>,
    ) -> (s: TransactionSummary)
        requires
            old(self).wf(),
            old(self)@.pending is None,
        ensures
            final(self).wf(),
            final(self)@.pending is None,
            exists|ops: Seq<Operation>|
                codes_cell(sheet_pos, language, code_string@, last_modified@, ops) && #[trigger] transacted(
                    old(self)@,
                    final(self)@,
                    ops,
                    TransactionType::Normal,
                    option_model(cursor),
                    true,
                    s@,
                ),
    {
        let mut ops: Vec<Operation> = Vec::new();
        proof {
            assert(1 * 1 == 1) by (nonlinear_arith);
        }
        ops.push(
            Operation::SetCellValues {
                sheet_rect: SheetRect::single_pos(sheet_pos),
                values: Array::from_value(CellValue::Blank),
            },
        );
        ops.push(
            Operation::SetCellCode {
                sheet_pos,
                code_cell_value: Some(
                    CodeCellValue {
                        language,
                        code_string,
                        formatted_code_string: None,
                        last_modified,
                        output: None,
                    },
                ),
            },
        );
        self.act_shaped(ops, cursor, true)
    }

    /// Stores what a run of the code cell at `sheet_pos` gave. The history
    /// stays as it is. Without a code cell there, nothing changes.
    pub fn set_code_cell_output(&mut self, sheet_pos: SheetPos, output: CodeCellRunOutput) -> (s:
        TransactionSummary)
        requires
            old(self).wf(),
            old(self)@.pending is None,
        ensures
            final(self).wf(),
            final(self)@.pending is None,
            final(self)@.undo == old(self)@.undo,
            final(self)@.redo == old(self)@.redo,
            match code_in(old(self)@, sheet_pos) {
                Some(c) => exists|ops: Seq<Operation>|
                    stores_output(ops, sheet_pos, c, output.model()) && #[trigger] transacted(
                        old(self)@,
                        final(self)@,
                        ops,
                        TransactionType::Internal,
                        None,
                        false,
                        s@,
                    ),
                None => final(self)@ == old(self)@ && s@ == empty_summary(),
            },
    {
        let held = match self.grid().try_sheet_from_id(sheet_pos.sheet_id) {
            Some(sheet) => match sheet.get_code_cell(sheet_pos.pos()) {
                Some(c) => Some(
                    CodeCellValue {
                        language: c.language,
                        code_string: c.code_string.clone(),
                        formatted_code_string: c.formatted_code_string.duplicate(),
                        last_modified: c.last_modified.clone(),
                        output: Some(output),
                    },
                ),
                None => None,
            },
            None => None,
        };
        match held {
            Some(code) => {
                let mut ops: Vec<Operation> = Vec::new();
                ops.push(Operation::SetCellCode { sheet_pos, code_cell_value: Some(code) });
                let ghost all = ops@;
                let ghost before = self@;
                match self.set_in_progress_transaction(ops, None, false, TransactionType::Internal) {
                    Ok(s) => s,
                    Err(e) => {
                        proof {
                            crate::transaction::lemma_shaped(
                                effect_all(before.grid, all.take(e.index as int)),
                                all[e.index as int],
                            );
                        }
                        e.summary
                    },
                }
            },
            None => TransactionSummary::new(),
        }
    }

    /// Sets or clears border lines of a rectangle.
    pub fn set_borders(
        &mut self,
        sheet_rect: SheetRect,
        selections: Vec<BorderSelection>,
        style: Option<CellBorder>,
        cursor: Option<String>,
    ) -> (s: TransactionSummary)
        requires
            old(self).wf(),
            old(self)@.pending is None,
        ensures
            final(self).wf(),
            final(self)@.pending is None,
            exists|ops: Seq<Operation>|
                draws_borders(sheet_rect, selections@, option_model(style), ops) && #[trigger] transacted(
                    old(self)@,
                    final(self)@,
                    ops,
                    TransactionType::Normal,
                    option_model(cursor),
                    false,
                    s@,
                ),
    {
        let ops = set_borders_operations(sheet_rect, &selections, &style);
        self.act_shaped(ops, cursor, false)
    }

    /// Copies a rectangle: its plain text, the body of its table in markup,
    /// and its snapshot. Where the grid lacks the sheet, or the rectangle has
    /// no size or more cells than a list can hold, the texts are empty and
    /// the snapshot is one of nothing.
    pub fn copy_to_clipboard(&self, sheet_rect: SheetRect) -> (r: ClipboardCopy)
        requires
            self.wf(),
        ensures
            copied(self@, sheet_rect, r),
    {
        let rect = sheet_rect.rect();
        match self.grid().try_sheet_from_id(sheet_rect.sheet_id) {
            Some(sheet) => match copy_snapshot(sheet, rect) {
                Some(clipboard) => {
                    let (plain_text, html) = copy_text(sheet, rect);
                    ClipboardCopy { plain_text, html, clipboard }
                },
                None => ClipboardCopy {
                    plain_text: String::new(),
                    html: String::new(),
                    clipboard: Clipboard::empty(),
                },
            },
            None => ClipboardCopy {
                plain_text: String::new(),
                html: String::new(),
                clipboard: Clipboard::empty(),
            },
        }
    }

    /// Copies a rectangle and then deletes its values, code cells and
    /// formats.
    pub fn cut_to_clipboard(&mut self, sheet_rect: SheetRect, cursor: Option<String>) -> (r: (
        TransactionSummary,
        ClipboardCopy,
    ))
        requires
            old(self).wf(),
            old(self)@.pending is None,
        ensures
            final(self).wf(),
            final(self)@.pending is None,
            copied(old(self)@, sheet_rect, r.1),
            exists|ops: Seq<Operation>, k: int|
                0 <= k <= ops.len() && deletes_cells(old(self)@.grid, sheet_rect, ops.take(k))
                    && clears_formats(sheet_rect, ops.skip(k)) && #[trigger] transacted(
                    old(self)@,
                    final(self)@,
                    ops,
                    TransactionType::Normal,
                    option_model(cursor),
                    false,
                    r.0@,
                ) && #[trigger] ops.take(k).len() == k,
    {
        let copy = self.copy_to_clipboard(sheet_rect);
        let summary = self.delete_values_and_formatting(sheet_rect, cursor);
        (summary, copy)
    }

    /// Pastes a snapshot at `start_pos` into the sheet `sheet_id`.
    pub fn set_clipboard_cells(
        &mut self,
        sheet_id: SheetId,
        start_pos: Pos,
        clipboard: Clipboard,
        cursor: Option<String>,
    ) -> (s: TransactionSummary)
        requires
            old(self).wf(),
            old(self)@.pending is None,
            clipboard.wf(),
        ensures
            final(self).wf(),
            final(self)@.pending is None,
            exists|p: PasteOperations|
                pastes(old(self)@.grid, sheet_id, start_pos, clipboard, p) && #[trigger] acted(
                    old(self)@,
                    final(self)@,
                    p.ops@,
                    option_model(cursor),
                    p.compute,
                    s@,
                ),
    {
        let p = self.paste_operations(sheet_id, start_pos, clipboard);
        let ghost made = p;
        let PasteOperations { ops, values, removals, codes, formats, compute } = p;
        let s = self.act(ops, cursor, compute);
        proof {
            assert(acted(old(self)@, self@, made.ops@, option_model(cursor), made.compute, s@));
        }
        s
    }

    /// Pastes plain text at `start_pos` into the sheet `sheet_id`: lines go
    /// down, the fields of a line, parted by tabs, go to the right.
    pub fn paste_plain_text(&mut self, sheet_id: SheetId, start_pos: Pos, clipboard: String, cursor: Option<String>) -> (s:
        TransactionSummary)
        requires
            old(self).wf(),
            old(self)@.pending is None,
        ensures
            final(self).wf(),
            final(self)@.pending is None,
            exists|ops: Seq<Operation>|
                rows_written(
                    old(self)@.grid,
                    sheet_id,
                    start_pos,
                    split_spec(clipboard@, '\n'),
                    split_spec(clipboard@, '\n').len() as int,
                    ops,
                ) && #[trigger] transacted(
                    old(self)@,
                    final(self)@,
                    ops,
                    TransactionType::Normal,
                    option_model(cursor),
                    true,
                    s@,
                ),
    {
        let ops = self.plain_text_operations(sheet_id, start_pos, clipboard.as_str());
        self.act_shaped(ops, cursor, true)
    }

    /// Pastes what a clipboard holds: its snapshot where it has one, else its
    /// plain text; without either nothing happens and the summary is empty.
    pub fn paste_from_clipboard(
        &mut self,
        sheet_id: SheetId,
        pos: Pos,
        plain_text: Option<String>,
        clipboard: Option<Clipboard>,
        cursor: Option<String>,
    ) -> (s: TransactionSummary)
        requires
            old(self).wf(),
            old(self)@.pending is None,
            clipboard is Some ==> clipboard->0.wf(),
        ensures
            final(self).wf(),
            final(self)@.pending is None,
            match (clipboard, plain_text) {
                (Some(c), _) => exists|p: PasteOperations|
                    pastes(old(self)@.grid, sheet_id, pos, c, p) && #[trigger] acted(
                        old(self)@,
                        final(self)@,
                        p.ops@,
                        option_model(cursor),
                        p.compute,
                        s@,
                    ),
                (None, Some(text)) => exists|ops: Seq<Operation>|
                    rows_written(
                        old(self)@.grid,
                        sheet_id,
                        pos,
                        split_spec(text@, '\n'),
                        split_spec(text@, '\n').len() as int,
                        ops,
                    ) && #[trigger] transacted(
                        old(self)@,
                        final(self)@,
                        ops,
                        TransactionType::Normal,
                        option_model(cursor),
                        true,
                        s@,
                    ),
                (None, None) => final(self)@ == old(self)@ && s@ == empty_summary(),
            },
    {
        match clipboard {
            Some(c) => self.set_clipboard_cells(sheet_id, pos, c, cursor),
            None => match plain_text {
                Some(text) => self.paste_plain_text(sheet_id, pos, text, cursor),
                None => TransactionSummary::new(),
            },
        }
    }
}

/// Whether `r` is the copy of the rectangle `sheet_rect` of the controller's
/// grid: the plain text, the body of the table in markup and the snapshot of
/// the rectangle; or, where the grid lacks the sheet or the rectangle has no
/// size or more cells than a list can hold, empty texts and a snapshot of
/// nothing.
pub open spec fn copied(c: ControllerView, sheet_rect: SheetRect, r: ClipboardCopy) -> bool {
    &&& r.clipboard.wf()
    &&& if has_sheet(c.grid, sheet_rect.sheet_id) && copyable(sheet_rect.spec_rect()) {
        let v = c.grid.sheets[sheet_index(c.grid, sheet_rect.sheet_id)];
        &&& r.plain_text@ == plain_rows(v, sheet_rect.spec_rect(), sheet_rect.spec_rect().spec_height())
        &&& r.html@ == html_rows(v, sheet_rect.spec_rect(), sheet_rect.spec_rect().spec_height())
            + "</tr></tbody></table>"@
        &&& snapshot_of(r.clipboard, v, sheet_rect.spec_rect())
    } else {
        &&& r.plain_text@.len() == 0
        &&& r.html@.len() == 0
        &&& r.clipboard.w == 0
        &&& r.clipboard.h == 0
        &&& r.clipboard.cells@.len() == 0
        &&& r.clipboard.formats@.len() == 0
        &&& r.clipboard.borders@.len() == 0
        &&& r.clipboard.code@.len() == 0
    }
}

/// The code cell that the cell `pos` of the controller's grid holds.
pub open spec fn code_in(c: ControllerView, pos: SheetPos) -> Option<CodeCellModel> {
    if has_sheet(c.grid, pos.sheet_id) {
        let v = c.grid.sheets[sheet_index(c.grid, pos.sheet_id)];
        if v.code.dom().contains((pos.x as int, pos.y as int)) {
            Some(v.code[(pos.x as int, pos.y as int)])
        } else {
            None
        }
    } else {
        None
    }
}

/// Whether `ops` is the one operation that puts the code cell `c` back at
/// `pos` with the output `output`.
pub open spec fn stores_output(
    ops: Seq<Operation>,
    pos: SheetPos,
    c: CodeCellModel,
    output: crate::code::RunOutputModel,
) -> bool {
    &&& ops.len() == 1
    &&& match ops[0] {
        Operation::SetCellCode { sheet_pos, code_cell_value } => sheet_pos == pos && code_cell_value is Some
            && code_cell_value->0.model() == (CodeCellModel { output: Some(output), ..c }),
        _ => false,
    }
}

} // verus!
