//! Cells of the first file format and what they become in a grid.

use vstd::prelude::*;
use crate::content::Content;
use crate::borders::CellBorder;
use crate::borders::SheetBorders;
use crate::code::CodeCellLanguage;
use crate::code::CodeCellRunOutput;
use crate::code::CodeCellRunResult;
use crate::code::CodeCellValue;
use crate::code::RunError;
use crate::code::Span;
use crate::code::Value;
use crate::decimal::parsed_decimal;
use crate::decimal::Decimal;
use crate::position::ArraySize;
use crate::position::Pos;
use crate::position::Rect;
use crate::position::SheetId;
use crate::position::SheetPos;
use crate::values::Array;
use crate::values::CellValue;
use crate::values::CellValueModel;

verus! {

/// A position in the first file format.
#[derive(Clone, Copy, Debug, PartialEq, Eq, Hash, Structural)]
pub struct JsCoordinate {
    pub x: i64,
    pub y: i64,
}

/// A range of columns or rows in the first file format.
#[derive(Clone, Copy, Debug, PartialEq, Eq, Hash, Structural)]
pub struct JsMinMax {
    pub min: i64,
    pub max: i64,
}

/// A rectangle in the first file format.
#[derive(Clone, Copy, Debug, PartialEq, Eq, Hash, Structural)]
pub struct JsRectangle {
    pub x: i64,
    pub y: i64,
    pub width: i64,
    pub height: i64,
}

/// The border lines that belong to one cell in the first file format: the
/// line on its top edge and the line on its left edge.
#[derive(Clone, Debug, PartialEq, Eq)]
pub struct JsBorders {
    pub x: i64,
    pub y: i64,
    pub horizontal: Option<CellBorder>,
    pub vertical: Option<CellBorder>,
}

/// The kinds of cell in the first file format.
#[derive(Clone, Copy, Debug, PartialEq, Eq, Hash, Structural)]
pub enum JsCellType {
    Text,
    Formula,
    Javascript,
    Python,
    Sql,
    Computed,
}

/// What a run put out as a list or as a table.
#[derive(Clone, Debug, PartialEq, Eq)]
pub enum JsArrayOutput {
    Block(Vec<Vec<Option<CellValue>>>),
    Array(Vec<Option<CellValue>>),
}

/// The record of a run in the first file format.
#[derive(Clone, Debug, PartialEq, Eq)]
pub struct JsCellEvalResult {
    pub success: bool,
    pub std_out: Option<String>,
    pub std_err: Option<String>,
    pub output_value: Option<String>,
    pub cells_accessed: Vec<(i64, i64)>,
    pub array_output: Option<JsArrayOutput>,
    pub formatted_code: String,
    pub error_span: Option<(u32, u32)>,
}

/// A cell in the first file format.
#[derive(Clone, Debug, PartialEq, Eq)]
pub struct JsCell {
    pub x: i64,
    pub y: i64,
    pub cell_type: JsCellType,
    pub value: String,
    pub array_cells: Option<Vec<(i64, i64)>>,
    pub dependent_cells: Option<Vec<(i64, i64)>>,
    pub evaluation_result: Option<JsCellEvalResult>,
    pub formula_code: Option<String>,
    pub last_modified: Option<String>,
    pub ai_prompt: Option<String>,
    pub python_code: Option<String>,
}

/// The language of a cell of the first file format, if it is a code cell.
pub open spec fn legacy_language(t: JsCellType) -> Option<CodeCellLanguage> {
    match t {
        JsCellType::Text => None,
        JsCellType::Computed => None,
        JsCellType::Formula => Some(CodeCellLanguage::Formula),
        JsCellType::Javascript => Some(CodeCellLanguage::JavaScript),
        JsCellType::Python => Some(CodeCellLanguage::Python),
        JsCellType::Sql => Some(CodeCellLanguage::Sql),
    }
}

/// The text, or the empty text for none.
pub open spec fn text_or_empty(t: Option<String>) -> Seq<char> {
    match t {
        Some(s) => s@,
        None => Seq::empty(),
    }
}

/// The source of a code cell of the first file format.
pub open spec fn legacy_code(cell: JsCell, language: CodeCellLanguage) -> Seq<char> {
    match language {
        CodeCellLanguage::Python => text_or_empty(cell.python_code),
        CodeCellLanguage::Formula => text_or_empty(cell.formula_code),
        _ => Seq::empty(),
    }
}

/// The values of a list of optional values, with a blank for none.
pub open spec fn shown_values(values: Seq<Option<CellValue>>) -> Seq<CellValueModel> {
    Seq::new(
        values.len(),
        |i: int|
            match values[i] {
                Some(v) => v.model(),
                None => CellValueModel::Blank,
            },
    )
}

/// The values of the first `n` rows of a table, row after row.
pub open spec fn flat_values(rows: Seq<Vec<Option<CellValue>>>, n: int) -> Seq<CellValueModel>
    decreases n,
{
    if n <= 0 {
        Seq::empty()
    } else {
        flat_values(rows, n - 1) + shown_values(rows[n - 1]@)
    }
}

/// The width, the height and the values, row by row, that a list or a table
/// of the first file format stands for: a list is one column; a table is as
/// wide as its first row is long.
pub open spec fn legacy_block(out: JsArrayOutput) -> (int, int, Seq<CellValueModel>) {
    match out {
        JsArrayOutput::Array(values) => (1, values@.len() as int, shown_values(values@)),
        JsArrayOutput::Block(rows) => (
            if rows@.len() > 0 {
                rows@[0]@.len() as int
            } else {
                0
            },
            rows@.len() as int,
            flat_values(rows@, rows@.len() as int),
        ),
    }
}

/// Whether `a` is the block of `w` by `h` values that lists `values` row by
/// row.
pub open spec fn lists_block(a: Array, w: int, h: int, values: Seq<CellValueModel>) -> bool {
    &&& a.wf()
    &&& a.spec_width() == w
    &&& a.spec_height() == h
    &&& forall|x: int, y: int| 0 <= x < w && 0 <= y < h ==> #[trigger] a.at(x, y) == values[y * w + x]
}

/// Whether a list or a table of the first file format makes a block: both of
/// its sides are positive and fit in 32 bits, and it has as many values as
/// its sides ask for.
pub open spec fn makes_block(out: JsArrayOutput) -> bool {
    let (w, h, values) = legacy_block(out);
    0 < w <= u32::MAX && 0 < h <= u32::MAX && values.len() == w * h
}

/// The value that a text of the first file format stands for: a number where
/// it reads as one, else the text.
pub fn text_to_value(text: String) -> (r: CellValue)
    ensures
        r.model() == match parsed_decimal(text@) {
            Some(d) => CellValueModel::Number(d),
            None => CellValueModel::Text(text@),
        },
{
    match Decimal::parse(text.as_str()) {
        Some(d) => CellValue::Number(d),
        None => CellValue::Text(text),
    }
}

/// The values of a list of optional values, with a blank for none, appended
/// to `out`.
fn push_shown(out: &mut Vec<CellValue>, values: &Vec<Option<CellValue>>)
    ensures
        models(final(out)@) == models(old(out)@) + shown_values(values@),
{
    let ghost before = out@;
    let mut i: usize = 0;
    while i < values.len()
        invariant
            i <= values.len(),
            out@.len() == before.len() + i,
            forall|k: int| 0 <= k < before.len() ==> out@[k] == before[k],
            forall|k: int| 0 <= k < i ==> (#[trigger] out@[before.len() + k]).model() == shown_values(values@)[k],
        decreases values.len() - i,
    {
        let v = match &values[i] {
            Some(v) => v.duplicate(),
            None => CellValue::Blank,
        };
        out.push(v);
        i += 1;
    }
    proof {
        let joined = models(before) + shown_values(values@);
        assert(models(out@).len() == joined.len());
        assert forall|k: int| 0 <= k < out@.len() implies models(out@)[k] == joined[k] by {
            if k < before.len() {
                assert(out@[k] == before[k]);
            } else {
                assert(out@[before.len() + (k - before.len())].model() == shown_values(values@)[k - before.len()]);
            }
        }
        assert(models(out@) =~= joined);
    }
}

/// The models of a list of values.
pub open spec fn models(values: Seq<CellValue>) -> Seq<CellValueModel> {
    Seq::new(values.len(), |i: int| values[i].model())
}

/// The block that a list or a table of the first file format stands for, if
/// it makes one.
pub fn block_of(out: &JsArrayOutput) -> (r: Option<Array>)
    ensures
        match r {
            Some(a) => makes_block(*out) && lists_block(
                a,
                legacy_block(*out).0,
                legacy_block(*out).1,
                legacy_block(*out).2,
            ),
            None => !makes_block(*out),
        },
{
    let mut flat: Vec<CellValue> = Vec::new();
    let width: usize;
    let height: usize;
    match out {
        JsArrayOutput::Array(values) => {
            width = 1;
            height = values.len();
            push_shown(&mut flat, values);
            proof {
                assert(models(flat@) =~= shown_values(values@));
            }
        },
        JsArrayOutput::Block(rows) => {
            if rows.len() == 0 {
                return None;
            }
            width = rows[0].len();
            height = rows.len();
            let mut j: usize = 0;
            proof {
                assert(models(flat@) =~= flat_values(rows@, 0));
            }
            while j < rows.len()
                invariant
                    j <= rows.len(),
                    models(flat@) == flat_values(rows@, j as int),
                decreases rows.len() - j,
            {
                push_shown(&mut flat, &rows[j]);
                j += 1;
            }
        },
    }
    if width == 0 || height == 0 || width > u32::MAX as usize || height > u32::MAX as usize {
        return None;
    }
    let size = ArraySize { w: width as u32, h: height as u32 };
    match Array::new_row_major(size, &flat) {
        Some(a) => {
            proof {
                assert forall|x: int, y: int| 0 <= x < width && 0 <= y < height implies #[trigger] a.at(x, y)
                    == legacy_block(*out).2[y * width + x] by {
                    crate::position::lemma_index_bound(width as int, height as int, x, y);
                    assert(models(flat@)[y * width + x] == flat@[y * width + x].model());
                }
            }
            Some(a)
        },
        None => None,
    }
}

/// Whether `r` is what a record of a run of the first file format becomes on
/// the sheet `sheet_id`: for a run that succeeded, its block where it put out
/// a list or a table, else its text, else a blank, with the cells it read;
/// for one that failed, an error without message at the place the record
/// names. A list or table that makes no block leaves no output at all.
pub open spec fn converted_run(r: Option<CodeCellRunOutput>, run: JsCellEvalResult, sheet_id: SheetId) -> bool {
    if run.success && run.array_output is Some && !makes_block(run.array_output->0) {
        r is None
    } else {
        &&& r is Some
        &&& r->0.std_out.model() == run.std_out.model()
        &&& r->0.std_err.model() == run.std_err.model()
        &&& match r->0.result {
            CodeCellRunResult::Success { output_value, cells_accessed } => {
                &&& run.success
                &&& cells_accessed@.len() == run.cells_accessed@.len()
                &&& forall|i: int|
                    0 <= i < cells_accessed@.len() ==> #[trigger] cells_accessed@[i] == (SheetPos {
                        x: run.cells_accessed@[i].0,
                        y: run.cells_accessed@[i].1,
                        sheet_id,
                    })
                &&& match output_value {
                    Value::Array(a) => run.array_output is Some && lists_block(
                        a,
                        legacy_block(run.array_output->0).0,
                        legacy_block(run.array_output->0).1,
                        legacy_block(run.array_output->0).2,
                    ),
                    Value::Single(v) => run.array_output is None && v.model() == match run.output_value {
                        Some(s) => CellValueModel::Text(s@),
                        None => CellValueModel::Blank,
                    },
                }
            },
            CodeCellRunResult::Failure { error } => {
                &&& !run.success
                &&& error.msg@.len() == 0
                &&& error.span == match run.error_span {
                    Some((start, end)) => Some(Span { start, end }),
                    None => None,
                }
            },
        }
    }
}

impl JsBorders {
    /// Draws the lines of the cell into the borders of a sheet. A line that
    /// the cell does not have leaves what is there.
    pub fn draw(&self, borders: &mut SheetBorders)
        requires
            old(borders).wf(),
        ensures
            final(borders).wf(),
            forall|horizontal: bool, x: int, y: int|
                #[trigger] final(borders).line_at(horizontal, x, y) == if x == self.x && y == self.y && (
                if horizontal {
                    self.horizontal
                } else {
                    self.vertical
                }) is Some {
                    crate::content::option_model(
                        if horizontal {
                            self.horizontal
                        } else {
                            self.vertical
                        },
                    )
                } else {
                    old(borders).line_at(horizontal, x, y)
                },
    {
        let at = Rect::single_pos(Pos { x: self.x, y: self.y });
        let ghost before = *borders;
        match &self.horizontal {
            Some(line) => {
                borders.set_horizontal_border(at, line.duplicate());
            },
            None => {},
        }
        let ghost mid = *borders;
        proof {
            assert forall|x: int, y: int|
                mid.line_at(true, x, y) == if x == self.x && y == self.y && self.horizontal is Some {
                    crate::content::option_model(self.horizontal)
                } else {
                    before.line_at(true, x, y)
                } by {
                assert(at.holds(x, y) == (x == self.x && y == self.y));
            }
            assert forall|x: int, y: int| mid.line_at(false, x, y) == before.line_at(false, x, y) by {}
        }
        match &self.vertical {
            Some(line) => {
                borders.set_vertical_border(at, line.duplicate());
            },
            None => {},
        }
        proof {
            assert forall|horizontal: bool, x: int, y: int|
                #[trigger] borders.line_at(horizontal, x, y) == if x == self.x && y == self.y && (if horizontal {
                    self.horizontal
                } else {
                    self.vertical
                }) is Some {
                    crate::content::option_model(
                        if horizontal {
                            self.horizontal
                        } else {
                            self.vertical
                        },
                    )
                } else {
                    before.line_at(horizontal, x, y)
                } by {
                assert(at.holds(x, y) == (x == self.x && y == self.y));
                if horizontal {
                    assert(borders.line_at(true, x, y) == mid.line_at(true, x, y));
                    assert(mid.line_at(true, x, y) == if x == self.x && y == self.y && self.horizontal is Some {
                        crate::content::option_model(self.horizontal)
                    } else {
                        before.line_at(true, x, y)
                    });
                } else {
                    assert(mid.line_at(false, x, y) == before.line_at(false, x, y));
                }
            }
        }
    }
}

impl JsCellEvalResult {
    /// What the record becomes on the sheet `sheet_id`.
    pub fn to_run_output(&self, sheet_id: SheetId) -> (r: Option<CodeCellRunOutput>)
        ensures
            converted_run(r, *self, sheet_id),
    {
        let result = if self.success {
            let output_value = match &self.array_output {
                Some(out) => match block_of(out) {
                    Some(a) => Value::Array(a),
                    None => {
                        return None;
                    },
                },
                None => match &self.output_value {
                    Some(s) => Value::Single(CellValue::Text(s.clone())),
                    None => Value::Single(CellValue::Blank),
                },
            };
            let mut cells_accessed: Vec<SheetPos> = Vec::new();
            let mut i: usize = 0;
            while i < self.cells_accessed.len()
                invariant
                    i <= self.cells_accessed.len(),
                    cells_accessed@.len() == i,
                    forall|k: int|
                        0 <= k < i ==> #[trigger] cells_accessed@[k] == (SheetPos {
                            x: self.cells_accessed@[k].0,
                            y: self.cells_accessed@[k].1,
                            sheet_id,
                        }),
                decreases self.cells_accessed.len() - i,
            {
                let p = self.cells_accessed[i];
                cells_accessed.push(SheetPos { x: p.0, y: p.1, sheet_id });
                i += 1;
            }
            CodeCellRunResult::Success { output_value, cells_accessed }
        } else {
            CodeCellRunResult::Failure {
                error: RunError {
                    span: match self.error_span {
                        Some((start, end)) => Some(Span { start, end }),
                        None => None,
                    },
                    msg: String::new(),
                },
            }
        };
        Some(
            CodeCellRunOutput { std_out: self.std_out.duplicate(), std_err: self.std_err.duplicate(), result },
        )
    }
}

impl JsCell {
    /// The value of a text cell; other cells hold no value of their own.
    pub fn to_cell_value(&self) -> (r: Option<CellValue>)
        ensures
            match r {
                Some(v) => self.cell_type is Text && v.model() == CellValueModel::Text(self.value@),
                None => !(self.cell_type is Text),
            },
    {
        match self.cell_type {
            JsCellType::Text => Some(CellValue::Text(self.value.clone())),
            _ => None,
        }
    }

    /// The code cell that a cell with code becomes on the sheet `sheet_id`;
    /// `None` for a text cell and for a cell that a run filled.
    pub fn to_code_cell_value(&self, sheet_id: SheetId) -> (r: Option<CodeCellValue>)
        ensures
            match r {
                None => legacy_language(self.cell_type) is None,
                Some(c) => {
                    &&& legacy_language(self.cell_type) == Some(c.language)
                    &&& c.code_string@ == legacy_code(*self, c.language)
                    &&& c.formatted_code_string.model() == match self.evaluation_result {
                        Some(run) => Some(run.formatted_code@),
                        None => None,
                    }
                    &&& c.last_modified@ == text_or_empty(self.last_modified)
                    &&& match self.evaluation_result {
                        Some(run) => converted_run(c.output, run, sheet_id),
                        None => c.output is None,
                    }
                },
            },
    {
        let language = match self.cell_type {
            JsCellType::Text => {
                return None;
            },
            JsCellType::Computed => {
                return None;
            },
            JsCellType::Formula => CodeCellLanguage::Formula,
            JsCellType::Javascript => CodeCellLanguage::JavaScript,
            JsCellType::Python => CodeCellLanguage::Python,
            JsCellType::Sql => CodeCellLanguage::Sql,
        };
        let code_string = match language {
            CodeCellLanguage::Python => match &self.python_code {
                Some(s) => s.clone(),
                None => String::new(),
            },
            CodeCellLanguage::Formula => match &self.formula_code {
                Some(s) => s.clone(),
                None => String::new(),
            },
            _ => String::new(),
        };
        let formatted_code_string = match &self.evaluation_result {
            Some(run) => Some(run.formatted_code.clone()),
            None => None,
        };
        let last_modified = match &self.last_modified {
            Some(s) => s.clone(),
            None => String::new(),
        };
        let output = match &self.evaluation_result {
            Some(run) => run.to_run_output(sheet_id),
            None => None,
        };
        Some(CodeCellValue { language, code_string, formatted_code_string, last_modified, output })
    }
}

} // verus!
