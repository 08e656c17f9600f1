//! Cell formatting: the attributes a cell can carry and the run-length lists
//! in which operations carry them.

use vstd::prelude::*;
use crate::content::Content;
use crate::rle::RunLengthEncoding;

verus! {

/// Horizontal alignment of a cell's text.
#[derive(Clone, Copy, Debug, PartialEq, Eq, Hash, Structural)]
pub enum CellAlign {
    Center,
    Left,
    Right,
}

/// What happens to text that is wider than its cell.
#[derive(Clone, Copy, Debug, PartialEq, Eq, Hash, Structural)]
pub enum CellWrap {
    Overflow,
    Wrap,
    Clip,
}

/// The kinds of number format.
#[derive(Clone, Copy, Debug, PartialEq, Eq, Hash, Structural)]
pub enum NumericFormatKind {
    Number,
    Currency,
    Percentage,
    Exponential,
}

/// How a number is shown: its kind and, for a currency, the symbol.
#[derive(Clone, Debug, PartialEq, Eq)]
pub struct NumericFormat {
    pub kind: NumericFormatKind,
    pub symbol: Option<String>,
}

/// A number format as contracts see it.
pub struct NumericFormatModel {
    pub kind: NumericFormatKind,
    pub symbol: Option<Seq<char>>,
}

impl Content for CellAlign {
    type Model = CellAlign;

    open spec fn model(&self) -> CellAlign {
        *self
    }

    fn same(&self, other: &Self) -> (r: bool) {
        *self == *other
    }

    fn duplicate(&self) -> (r: Self) {
        *self
    }
}

impl Content for CellWrap {
    type Model = CellWrap;

    open spec fn model(&self) -> CellWrap {
        *self
    }

    fn same(&self, other: &Self) -> (r: bool) {
        *self == *other
    }

    fn duplicate(&self) -> (r: Self) {
        *self
    }
}

impl Content for NumericFormat {
    type Model = NumericFormatModel;

    open spec fn model(&self) -> NumericFormatModel {
        NumericFormatModel { kind: self.kind, symbol: self.symbol.model() }
    }

    fn same(&self, other: &Self) -> (r: bool) {
        self.kind == other.kind && self.symbol.same(&other.symbol)
    }

    fn duplicate(&self) -> (r: Self) {
        NumericFormat { kind: self.kind, symbol: self.symbol.duplicate() }
    }
}

/// The formatting attributes.
#[derive(Clone, Copy, Debug, PartialEq, Eq, Hash, Structural)]
pub enum CellFmtAttr {
    Align,
    Wrap,
    NumericFormat,
    NumericDecimals,
    Bold,
    Italic,
    TextColor,
    FillColor,
}

/// The values of one formatting attribute over the cells of a rectangle,
/// listed row by row; `None` stands for a cell without the attribute.
#[derive(Clone, Debug, PartialEq, Eq)]
pub enum CellFmtArray {
    Align(RunLengthEncoding<Option<CellAlign>>),
    Wrap(RunLengthEncoding<Option<CellWrap>>),
    NumericFormat(RunLengthEncoding<Option<NumericFormat>>),
    NumericDecimals(RunLengthEncoding<Option<i16>>),
    Bold(RunLengthEncoding<Option<bool>>),
    Italic(RunLengthEncoding<Option<bool>>),
    TextColor(RunLengthEncoding<Option<String>>),
    FillColor(RunLengthEncoding<Option<String>>),
}

impl CellFmtArray {
    /// The list is a well-formed run-length encoding.
    pub open spec fn wf(&self) -> bool {
        match self {
            CellFmtArray::Align(r) => r.wf(),
            CellFmtArray::Wrap(r) => r.wf(),
            CellFmtArray::NumericFormat(r) => r.wf(),
            CellFmtArray::NumericDecimals(r) => r.wf(),
            CellFmtArray::Bold(r) => r.wf(),
            CellFmtArray::Italic(r) => r.wf(),
            CellFmtArray::TextColor(r) => r.wf(),
            CellFmtArray::FillColor(r) => r.wf(),
        }
    }

    /// The attribute that the list speaks of.
    pub open spec fn spec_attr(&self) -> CellFmtAttr {
        match self {
            CellFmtArray::Align(_) => CellFmtAttr::Align,
            CellFmtArray::Wrap(_) => CellFmtAttr::Wrap,
            CellFmtArray::NumericFormat(_) => CellFmtAttr::NumericFormat,
            CellFmtArray::NumericDecimals(_) => CellFmtAttr::NumericDecimals,
            CellFmtArray::Bold(_) => CellFmtAttr::Bold,
            CellFmtArray::Italic(_) => CellFmtAttr::Italic,
            CellFmtArray::TextColor(_) => CellFmtAttr::TextColor,
            CellFmtArray::FillColor(_) => CellFmtAttr::FillColor,
        }
    }

    /// The number of cells that the list speaks of.
    pub open spec fn spec_len(&self) -> int {
        match self {
            CellFmtArray::Align(r) => r.expand().len() as int,
            CellFmtArray::Wrap(r) => r.expand().len() as int,
            CellFmtArray::NumericFormat(r) => r.expand().len() as int,
            CellFmtArray::NumericDecimals(r) => r.expand().len() as int,
            CellFmtArray::Bold(r) => r.expand().len() as int,
            CellFmtArray::Italic(r) => r.expand().len() as int,
            CellFmtArray::TextColor(r) => r.expand().len() as int,
            CellFmtArray::FillColor(r) => r.expand().len() as int,
        }
    }

    /// The attribute that the list speaks of.
    pub fn attr(&self) -> (a: CellFmtAttr)
        ensures
            a == self.spec_attr(),
    {
        match self {
            CellFmtArray::Align(_) => CellFmtAttr::Align,
            CellFmtArray::Wrap(_) => CellFmtAttr::Wrap,
            CellFmtArray::NumericFormat(_) => CellFmtAttr::NumericFormat,
            CellFmtArray::NumericDecimals(_) => CellFmtAttr::NumericDecimals,
            CellFmtArray::Bold(_) => CellFmtAttr::Bold,
            CellFmtArray::Italic(_) => CellFmtAttr::Italic,
            CellFmtArray::TextColor(_) => CellFmtAttr::TextColor,
            CellFmtArray::FillColor(_) => CellFmtAttr::FillColor,
        }
    }
}

/// The formats of one cell that a renderer asks for.
#[derive(Clone, Debug, PartialEq, Eq)]
pub struct CellFormatSummary {
    pub bold: Option<bool>,
    pub italic: Option<bool>,
    pub text_color: Option<String>,
    pub fill_color: Option<String>,
}

/// One value of one formatting attribute, or `None` inside to clear the
/// attribute.
#[derive(Clone, Debug, PartialEq, Eq)]
pub enum FormatValue {
    Align(Option<CellAlign>),
    Wrap(Option<CellWrap>),
    NumericFormat(Option<NumericFormat>),
    NumericDecimals(Option<i16>),
    Bold(Option<bool>),
    Italic(Option<bool>),
    TextColor(Option<String>),
    FillColor(Option<String>),
}

/// Whether `attr` gives each of `n` cells the value `value`.
pub open spec fn filled_with(attr: CellFmtArray, value: FormatValue, n: int) -> bool {
    match (attr, value) {
        (CellFmtArray::Align(r), FormatValue::Align(v)) => r.wf() && r.expand() == Seq::new(
            n as nat,
            |i: int| v.model(),
        ),
        (CellFmtArray::Wrap(r), FormatValue::Wrap(v)) => r.wf() && r.expand() == Seq::new(
            n as nat,
            |i: int| v.model(),
        ),
        (CellFmtArray::NumericFormat(r), FormatValue::NumericFormat(v)) => r.wf() && r.expand()
            == Seq::new(n as nat, |i: int| v.model()),
        (CellFmtArray::NumericDecimals(r), FormatValue::NumericDecimals(v)) => r.wf() && r.expand()
            == Seq::new(n as nat, |i: int| v.model()),
        (CellFmtArray::Bold(r), FormatValue::Bold(v)) => r.wf() && r.expand() == Seq::new(
            n as nat,
            |i: int| v.model(),
        ),
        (CellFmtArray::Italic(r), FormatValue::Italic(v)) => r.wf() && r.expand() == Seq::new(
            n as nat,
            |i: int| v.model(),
        ),
        (CellFmtArray::TextColor(r), FormatValue::TextColor(v)) => r.wf() && r.expand() == Seq::new(
            n as nat,
            |i: int| v.model(),
        ),
        (CellFmtArray::FillColor(r), FormatValue::FillColor(v)) => r.wf() && r.expand() == Seq::new(
            n as nat,
            |i: int| v.model(),
        ),
        _ => false,
    }
}

impl CellFmtArray {
    /// The list that gives each of `n` cells the value `value`.
    pub fn filled(value: FormatValue, n: usize) -> (r: CellFmtArray)
        ensures
            filled_with(r, value, n as int),
            r.wf(),
            r.spec_len() == n,
    {
        match value {
            FormatValue::Align(v) => CellFmtArray::Align(RunLengthEncoding::repeat(v, n)),
            FormatValue::Wrap(v) => CellFmtArray::Wrap(RunLengthEncoding::repeat(v, n)),
            FormatValue::NumericFormat(v) => CellFmtArray::NumericFormat(RunLengthEncoding::repeat(v, n)),
            FormatValue::NumericDecimals(v) => CellFmtArray::NumericDecimals(RunLengthEncoding::repeat(v, n)),
            FormatValue::Bold(v) => CellFmtArray::Bold(RunLengthEncoding::repeat(v, n)),
            FormatValue::Italic(v) => CellFmtArray::Italic(RunLengthEncoding::repeat(v, n)),
            FormatValue::TextColor(v) => CellFmtArray::TextColor(RunLengthEncoding::repeat(v, n)),
            FormatValue::FillColor(v) => CellFmtArray::FillColor(RunLengthEncoding::repeat(v, n)),
        }
    }
}

} // verus!
