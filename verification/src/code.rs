//! Code cells: source text in some language, and what its last run gave.
//!
//! The engine stores code and results; it never runs code.

use vstd::prelude::*;
use crate::content::Content;
use crate::position::SheetPos;
use crate::values::Array;
use crate::values::ArrayModel;
use crate::values::CellValue;
use crate::values::CellValueModel;

verus! {

/// The languages of code cells.
#[derive(Clone, Copy, Debug, PartialEq, Eq, Hash, Structural)]
pub enum CodeCellLanguage {
    Python,
    Formula,
    JavaScript,
    Sql,
}

/// A stretch of source text, by the offsets of its first character and of
/// the character after its last.
#[derive(Clone, Copy, Debug, PartialEq, Eq, Hash, Structural)]
pub struct Span {
    pub start: u32,
    pub end: u32,
}

/// Why a run failed, and where in the source.
#[derive(Clone, Debug, PartialEq, Eq)]
pub struct RunError {
    pub span: Option<Span>,
    pub msg: String,
}

/// What a successful run gave: one value or a block of values.
#[derive(Clone, Debug, PartialEq, Eq)]
pub enum Value {
    Single(CellValue),
    Array(Array),
}

/// The outcome of a run: the output and the cells that the code read, or the
/// error.
#[derive(Clone, Debug, PartialEq, Eq)]
pub enum CodeCellRunResult {
    Success { output_value: Value, cells_accessed: Vec<SheetPos> },
    Failure { error: RunError },
}

/// What a run printed and how it ended.
#[derive(Clone, Debug, PartialEq, Eq)]
pub struct CodeCellRunOutput {
    pub std_out: Option<String>,
    pub std_err: Option<String>,
    pub result: CodeCellRunResult,
}

/// A code cell. What the cell shows is derived from `output`; it is never
/// stored a second time as a plain value.
#[derive(Clone, Debug, PartialEq, Eq)]
pub struct CodeCellValue {
    pub language: CodeCellLanguage,
    pub code_string: String,
    pub formatted_code_string: Option<String>,
    pub last_modified: String,
    pub output: Option<CodeCellRunOutput>,
}

/// An output as contracts see it.
pub enum ValueModel {
    Single(CellValueModel),
    Array(ArrayModel),
}

/// The outcome of a run as contracts see it.
pub enum RunResultModel {
    Success { output_value: ValueModel, cells_accessed: Seq<SheetPos> },
    Failure { span: Option<Span>, msg: Seq<char> },
}

/// The record of a run as contracts see it.
pub struct RunOutputModel {
    pub std_out: Option<Seq<char>>,
    pub std_err: Option<Seq<char>>,
    pub result: RunResultModel,
}

/// A code cell as contracts see it.
pub struct CodeCellModel {
    pub language: CodeCellLanguage,
    pub code_string: Seq<char>,
    pub formatted_code_string: Option<Seq<char>>,
    pub last_modified: Seq<char>,
    pub output: Option<RunOutputModel>,
}

/// Whether two lists hold the same positions in the same order.
pub fn positions_same(a: &Vec<SheetPos>, b: &Vec<SheetPos>) -> (r: bool)
    ensures
        r == (a@ == b@),
{
    if a.len() != b.len() {
        return false;
    }
    let mut i: usize = 0;
    while i < a.len()
        invariant
            i <= a.len(),
            a.len() == b.len(),
            forall|k: int| 0 <= k < i ==> a@[k] == b@[k],
        decreases a.len() - i,
    {
        let p = a[i];
        let q = b[i];
        if !(p.x == q.x && p.y == q.y && p.sheet_id.id == q.sheet_id.id) {
            return false;
        }
        i += 1;
    }
    assert(a@ =~= b@);
    true
}

/// A second list with the same positions.
pub fn positions_duplicate(a: &Vec<SheetPos>) -> (r: Vec<SheetPos>)
    ensures
        r@ == a@,
{
    let mut out: Vec<SheetPos> = Vec::new();
    let mut i: usize = 0;
    while i < a.len()
        invariant
            i <= a.len(),
            out@ == a@.take(i as int),
        decreases a.len() - i,
    {
        out.push(a[i]);
        proof {
            assert(a@.take(i + 1) =~= a@.take(i as int).push(a@[i as int]));
        }
        i += 1;
    }
    proof {
        assert(a@.take(a.len() as int) =~= a@);
    }
    out
}

impl Content for Value {
    type Model = ValueModel;

    open spec fn model(&self) -> ValueModel {
        match self {
            Value::Single(v) => ValueModel::Single(v.model()),
            Value::Array(a) => ValueModel::Array(a.model()),
        }
    }

    fn same(&self, other: &Self) -> (r: bool) {
        match (self, other) {
            (Value::Single(a), Value::Single(b)) => a.same(b),
            (Value::Array(a), Value::Array(b)) => a.same(b),
            _ => false,
        }
    }

    fn duplicate(&self) -> (r: Self) {
        match self {
            Value::Single(v) => Value::Single(v.duplicate()),
            Value::Array(a) => Value::Array(a.duplicate()),
        }
    }
}

impl Value {
    /// A block inside the output is well formed.
    pub open spec fn wf(&self) -> bool {
        match self {
            Value::Single(_) => true,
            Value::Array(a) => a.wf(),
        }
    }
}

impl Content for CodeCellRunResult {
    type Model = RunResultModel;

    open spec fn model(&self) -> RunResultModel {
        match self {
            CodeCellRunResult::Success { output_value, cells_accessed } => RunResultModel::Success {
                output_value: output_value.model(),
                cells_accessed: cells_accessed@,
            },
            CodeCellRunResult::Failure { error } => RunResultModel::Failure {
                span: error.span,
                msg: error.msg@,
            },
        }
    }

    fn same(&self, other: &Self) -> (r: bool) {
        match (self, other) {
            (
                CodeCellRunResult::Success { output_value: a, cells_accessed: p },
                CodeCellRunResult::Success { output_value: b, cells_accessed: q },
            ) => a.same(b) && positions_same(p, q),
            (CodeCellRunResult::Failure { error: a }, CodeCellRunResult::Failure { error: b }) => {
                let spans = match (a.span, b.span) {
                    (Some(s), Some(t)) => s.start == t.start && s.end == t.end,
                    (None, None) => true,
                    _ => false,
                };
                spans && a.msg == b.msg
            },
            _ => false,
        }
    }

    fn duplicate(&self) -> (r: Self) {
        match self {
            CodeCellRunResult::Success { output_value, cells_accessed } => CodeCellRunResult::Success {
                output_value: output_value.duplicate(),
                cells_accessed: positions_duplicate(cells_accessed),
            },
            CodeCellRunResult::Failure { error } => CodeCellRunResult::Failure {
                error: RunError { span: error.span, msg: error.msg.clone() },
            },
        }
    }
}

impl CodeCellRunResult {
    /// A block inside the outcome is well formed.
    pub open spec fn wf(&self) -> bool {
        match self {
            CodeCellRunResult::Success { output_value, cells_accessed } => output_value.wf(),
            CodeCellRunResult::Failure { error } => true,
        }
    }
}

impl Content for CodeCellRunOutput {
    type Model = RunOutputModel;

    open spec fn model(&self) -> RunOutputModel {
        RunOutputModel {
            std_out: self.std_out.model(),
            std_err: self.std_err.model(),
            result: self.result.model(),
        }
    }

    fn same(&self, other: &Self) -> (r: bool) {
        self.std_out.same(&other.std_out) && self.std_err.same(&other.std_err) && self.result.same(
            &other.result,
        )
    }

    fn duplicate(&self) -> (r: Self) {
        CodeCellRunOutput {
            std_out: self.std_out.duplicate(),
            std_err: self.std_err.duplicate(),
            result: self.result.duplicate(),
        }
    }
}

impl Content for CodeCellValue {
    type Model = CodeCellModel;

    open spec fn model(&self) -> CodeCellModel {
        CodeCellModel {
            language: self.language,
            code_string: self.code_string@,
            formatted_code_string: self.formatted_code_string.model(),
            last_modified: self.last_modified@,
            output: self.output.model(),
        }
    }

    fn same(&self, other: &Self) -> (r: bool) {
        self.language == other.language && self.code_string == other.code_string
            && self.formatted_code_string.same(&other.formatted_code_string) && self.last_modified
            == other.last_modified && self.output.same(&other.output)
    }

    fn duplicate(&self) -> (r: Self) {
        CodeCellValue {
            language: self.language,
            code_string: self.code_string.clone(),
            formatted_code_string: self.formatted_code_string.duplicate(),
            last_modified: self.last_modified.clone(),
            output: self.output.duplicate(),
        }
    }
}

impl CodeCellValue {
    /// The cell without what its last run gave and without formatted source:
    /// language, source and time of change only.
    pub fn stripped(&self) -> (r: CodeCellValue)
        ensures
            r.model() == stripped_model(self.model()),
    {
        CodeCellValue {
            language: self.language,
            code_string: self.code_string.clone(),
            formatted_code_string: None,
            last_modified: self.last_modified.clone(),
            output: None,
        }
    }
}

/// A code cell without output and formatted source.
pub open spec fn stripped_model(c: CodeCellModel) -> CodeCellModel {
    CodeCellModel {
        language: c.language,
        code_string: c.code_string,
        formatted_code_string: None,
        last_modified: c.last_modified,
        output: None,
    }
}

} // verus!
