//! The operations behind editing and deleting cells.

use vstd::prelude::*;
use crate::content::Content;
use crate::controller::GridController;
use crate::decimal::parsed_decimal;
use crate::decimal::Decimal;
use crate::decimal::DecimalModel;
use crate::formatting::CellFmtArray;
use crate::formatting::NumericFormat;
use crate::formatting::NumericFormatKind;
use crate::formatting::NumericFormatModel;
use crate::operation::has_sheet;
use crate::operation::sheet_index;
use crate::operation::GridView;
use crate::operation::Operation;
use crate::plane::cell_before;
use crate::plane::lists_cell;
use crate::position::Pos;
use crate::position::SheetPos;
use crate::position::SheetRect;
use crate::rle::RunLengthEncoding;
use crate::text::spec_unpack_currency;
use crate::text::spec_unpack_percentage;
use crate::text::trim_text;
use crate::text::trimmed;
use crate::text::unpack_currency;
use crate::text::unpack_percentage;
use crate::transaction::all_shaped;
use crate::transaction::all_wf;
use crate::transaction::shaped;
use crate::values::Array;
use crate::values::CellValue;
use crate::values::CellValueModel;

verus! {

/// The rectangle of the one cell `pos`.
pub open spec fn single(pos: SheetPos) -> SheetRect {
    SheetRect {
        min: Pos { x: pos.x, y: pos.y },
        max: Pos { x: pos.x, y: pos.y },
        sheet_id: pos.sheet_id,
    }
}

/// Whether `op` gives the cell `pos` the number format `format`.
pub open spec fn sets_numeric_format(op: Operation, pos: SheetPos, format: NumericFormatModel) -> bool {
    match op {
        Operation::SetCellFormats { sheet_rect, attr: CellFmtArray::NumericFormat(r) } => sheet_rect
            == single(pos) && r.wf() && r.expand() == seq![Some(format)],
        _ => false,
    }
}

/// Whether `op` gives the cell `pos` `places` decimal places.
pub open spec fn sets_numeric_decimals(op: Operation, pos: SheetPos, places: i16) -> bool {
    match op {
        Operation::SetCellFormats { sheet_rect, attr: CellFmtArray::NumericDecimals(r) } => sheet_rect
            == single(pos) && r.wf() && r.expand() == seq![Some(places)],
        _ => false,
    }
}

/// Whether `op` gives the cell `pos` the value `value`.
pub open spec fn sets_value(op: Operation, pos: SheetPos, value: CellValueModel) -> bool {
    match op {
        Operation::SetCellValues { sheet_rect, values } => sheet_rect == single(pos) && values.wf()
            && values.spec_width() == 1 && values.spec_height() == 1 && values.at(0, 0) == value,
        _ => false,
    }
}

/// Whether `op` takes the code cell at `pos` away.
pub open spec fn clears_code(op: Operation, pos: SheetPos) -> bool {
    match op {
        Operation::SetCellCode { sheet_pos, code_cell_value } => sheet_pos == pos && code_cell_value is None,
        _ => false,
    }
}

/// Whether `value` and the format operations `ops` are what the text `text`
/// reads as in the cell `pos`, given what it reads as an amount of money, as
/// a plain number and as a percentage, and whether the cell already has
/// decimal places set. The order is fixed: nothing for the empty text; else
/// money, with the currency format and, where no decimal places are set, two
/// decimal places; else a plain number; else a percentage, with the
/// percentage format; else text.
pub open spec fn value_read(
    ops: Seq<Operation>,
    value: CellValueModel,
    pos: SheetPos,
    text: Seq<char>,
    currency: Option<(Seq<char>, DecimalModel)>,
    number: Option<DecimalModel>,
    percent: Option<DecimalModel>,
    has_decimals: bool,
) -> bool {
    if text.len() == 0 {
        ops.len() == 0 && value is Blank
    } else if currency is Some {
        &&& value == CellValueModel::Number((currency->0).1)
        &&& ops.len() == if has_decimals { 1int } else { 2int }
        &&& sets_numeric_format(
            ops[0],
            pos,
            NumericFormatModel { kind: NumericFormatKind::Currency, symbol: Some((currency->0).0) },
        )
        &&& !has_decimals ==> sets_numeric_decimals(ops[1], pos, 2)
    } else if number is Some {
        ops.len() == 0 && value == CellValueModel::Number(number->0)
    } else if percent is Some {
        &&& value == CellValueModel::Number(percent->0)
        &&& ops.len() == 1
        &&& sets_numeric_format(
            ops[0],
            pos,
            NumericFormatModel { kind: NumericFormatKind::Percentage, symbol: None },
        )
    } else {
        ops.len() == 0 && value == CellValueModel::Text(text)
    }
}

/// The models of what a text reads as an amount of money.
pub open spec fn currency_model(c: Option<(String, Decimal)>) -> Option<(Seq<char>, DecimalModel)> {
    match c {
        Some((s, d)) => Some((s@, d@)),
        None => None,
    }
}

/// The model of an optional number.
pub open spec fn number_model(n: Option<Decimal>) -> Option<DecimalModel> {
    match n {
        Some(d) => Some(d@),
        None => None,
    }
}

/// The operation that gives the cell `pos` the number format `format`.
fn numeric_format_op(pos: SheetPos, format: NumericFormat) -> (op: Operation)
    ensures
        sets_numeric_format(op, pos, format.model()),
        op.wf(),
        shaped(op),
{
    let ghost m = format.model();
    let r = RunLengthEncoding::repeat(Some(format), 1);
    proof {
        assert(r.expand() =~= seq![Some(m)]);
        assert(1 * 1 == 1) by (nonlinear_arith);
    }
    Operation::SetCellFormats { sheet_rect: SheetRect::single_pos(pos), attr: CellFmtArray::NumericFormat(r) }
}

/// The value and the format operations that a text stands for in the cell
/// `sheet_pos`, given what the text reads as an amount of money, as a plain
/// number and as a percentage, and whether the cell has decimal places set.
pub fn value_from_parts(
    sheet_pos: SheetPos,
    text: &str,
    currency: Option<(String, Decimal)>,
    number: Option<Decimal>,
    percent: Option<Decimal>,
    has_decimals: bool,
) -> (r: (Vec<Operation>, CellValue))
    ensures
        value_read(
            r.0@,
            r.1.model(),
            sheet_pos,
            text@,
            currency_model(currency),
            number_model(number),
            number_model(percent),
            has_decimals,
        ),
        all_wf(r.0@),
        all_shaped(r.0@),
{
    let mut ops: Vec<Operation> = Vec::new();
    if text.unicode_len() == 0 {
        return (ops, CellValue::Blank);
    }
    match currency {
        Some((symbol, amount)) => {
            ops.push(
                numeric_format_op(
                    sheet_pos,
                    NumericFormat { kind: NumericFormatKind::Currency, symbol: Some(symbol) },
                ),
            );
            if !has_decimals {
                let r = RunLengthEncoding::repeat(Some(2i16), 1);
                proof {
                    assert(r.expand() =~= seq![Some(2i16)]);
                    assert(1 * 1 == 1) by (nonlinear_arith);
                }
                ops.push(
                    Operation::SetCellFormats {
                        sheet_rect: SheetRect::single_pos(sheet_pos),
                        attr: CellFmtArray::NumericDecimals(r),
                    },
                );
            }
            (ops, CellValue::Number(amount))
        },
        None => match number {
            Some(n) => (ops, CellValue::Number(n)),
            None => match percent {
                Some(p) => {
                    ops.push(
                        numeric_format_op(
                            sheet_pos,
                            NumericFormat { kind: NumericFormatKind::Percentage, symbol: None },
                        ),
                    );
                    (ops, CellValue::Number(p))
                },
                None => (ops, CellValue::Text(String::from_str(text))),
            },
        },
    }
}

/// Whether the cell `pos` of the grid `g` has decimal places set.
pub open spec fn decimals_set(g: GridView, pos: SheetPos) -> bool {
    has_sheet(g, pos.sheet_id) && g.sheets[sheet_index(g, pos.sheet_id)].numeric_decimals.dom().contains(
        (pos.x as int, pos.y as int),
    )
}

/// Whether the cell `pos` of the grid `g` holds a code cell.
pub open spec fn code_at(g: GridView, pos: SheetPos) -> bool {
    has_sheet(g, pos.sheet_id) && g.sheets[sheet_index(g, pos.sheet_id)].code.dom().contains(
        (pos.x as int, pos.y as int),
    )
}

/// Whether `ops` are the operations that write the text `text` into the cell
/// `pos` of the grid `g`: none where the grid lacks the sheet; else the
/// removal of a code cell at `pos`, if there is one, then the format
/// operations that the text asks for, then the writing of the value that
/// the text reads as.
pub open spec fn writes_text(g: GridView, pos: SheetPos, text: Seq<char>, ops: Seq<Operation>) -> bool {
    if !has_sheet(g, pos.sheet_id) {
        ops.len() == 0
    } else {
        let k = if code_at(g, pos) { 1int } else { 0int };
        &&& ops.len() >= k + 1
        &&& code_at(g, pos) ==> clears_code(ops[0], pos)
        &&& exists|value: CellValueModel|
            {
                &&& #[trigger] sets_value(ops.last(), pos, value)
                &&& value_read(
                    ops.subrange(k, ops.len() - 1),
                    value,
                    pos,
                    text,
                    spec_unpack_currency(text),
                    parsed_decimal(text),
                    spec_unpack_percentage(text),
                    decimals_set(g, pos),
                )
            }
    }
}

/// Whether `ops` are the operations that delete the values and the code of
/// the rectangle `rect` of the grid `g`: none where the grid lacks the sheet;
/// else the overwriting of the rectangle with blanks, where the rectangle has
/// a size, then the removal of each code cell in it, by column and then by
/// row.
pub open spec fn deletes_cells(g: GridView, rect: SheetRect, ops: Seq<Operation>) -> bool {
    if !has_sheet(g, rect.sheet_id) {
        ops.len() == 0
    } else {
        let sized = rect.spec_rect().nonempty() && rect.spec_rect().spec_width() <= u32::MAX
            && rect.spec_rect().spec_height() <= u32::MAX;
        let k = if sized { 1int } else { 0int };
        let code = g.sheets[sheet_index(g, rect.sheet_id)].code;
        &&& ops.len() >= k
        &&& sized ==> blanks(ops[0], rect)
        &&& forall|i: int| k <= i < ops.len() ==> code_removal_in(#[trigger] ops[i], rect, code)
        &&& forall|i: int, j: int| k <= i < j < ops.len() ==> removal_before(#[trigger] ops[i], #[trigger] ops[j])
        &&& forall|x: int, y: int|
            rect.spec_rect().holds(x, y) && code.dom().contains((x, y)) ==> exists|i: int|
                k <= i < ops.len() && #[trigger] removes_code_at(ops[i], x, y)
    }
}

/// Whether `op` overwrites the rectangle `rect` with blanks.
pub open spec fn blanks(op: Operation, rect: SheetRect) -> bool {
    match op {
        Operation::SetCellValues { sheet_rect, values } => {
            &&& sheet_rect == rect
            &&& values.wf()
            &&& values.spec_width() == rect.spec_rect().spec_width()
            &&& values.spec_height() == rect.spec_rect().spec_height()
            &&& forall|x: int, y: int|
                0 <= x < values.spec_width() && 0 <= y < values.spec_height() ==> values.at(x, y) is Blank
        },
        _ => false,
    }
}

/// Whether `op` takes away a code cell that lies in `rect` and that the map
/// `code` holds.
pub open spec fn code_removal_in(
    op: Operation,
    rect: SheetRect,
    code: Map<(int, int), crate::code::CodeCellModel>,
) -> bool {
    match op {
        Operation::SetCellCode { sheet_pos, code_cell_value } => {
            &&& code_cell_value is None
            &&& sheet_pos.sheet_id == rect.sheet_id
            &&& rect.spec_rect().holds(sheet_pos.x as int, sheet_pos.y as int)
            &&& code.dom().contains((sheet_pos.x as int, sheet_pos.y as int))
        },
        _ => false,
    }
}

/// Whether `op` takes away the code cell at `(x, y)`.
pub open spec fn removes_code_at(op: Operation, x: int, y: int) -> bool {
    match op {
        Operation::SetCellCode { sheet_pos, code_cell_value } => sheet_pos.x == x && sheet_pos.y == y,
        _ => false,
    }
}

/// Whether both operations take code cells away and the cell of the first
/// comes before the cell of the second, by column and then by row.
pub open spec fn removal_before(a: Operation, b: Operation) -> bool {
    match (a, b) {
        (
            Operation::SetCellCode { sheet_pos: p, code_cell_value: _ },
            Operation::SetCellCode { sheet_pos: q, code_cell_value: _ },
        ) => cell_before((p.x, p.y), (q.x, q.y)),
        _ => false,
    }
}

/// Whether `ops` are the operations that clear every format of the
/// rectangle `rect`: one for each formatting attribute, in the order
/// alignment, wrapping, number format, decimal places, bold, italic, text
/// colour, fill colour, each with `None` for every cell; or none where the
/// rectangle has no size or more cells than a list can hold.
pub open spec fn clears_formats(rect: SheetRect, ops: Seq<Operation>) -> bool {
    let r = rect.spec_rect();
    if r.nonempty() && r.spec_width() <= u32::MAX && r.spec_height() <= u32::MAX && r.spec_width()
        * r.spec_height() <= usize::MAX {
        &&& ops.len() == 8
        &&& forall|i: int| 0 <= i < 8 ==> clears_format(#[trigger] ops[i], rect, i)
    } else {
        ops.len() == 0
    }
}

/// Whether `op` gives every cell of `rect` no value for the formatting
/// attribute with the index `i`.
pub open spec fn clears_format(op: Operation, rect: SheetRect, i: int) -> bool {
    match op {
        Operation::SetCellFormats { sheet_rect, attr } => {
            &&& sheet_rect == rect
            &&& attr.wf()
            &&& attr.spec_len() == rect.spec_rect().spec_width() * rect.spec_rect().spec_height()
            &&& match attr {
                CellFmtArray::Align(r) => i == 0 && forall|k: int| 0 <= k < r.expand().len() ==> r.expand()[k] is None,
                CellFmtArray::Wrap(r) => i == 1 && forall|k: int| 0 <= k < r.expand().len() ==> r.expand()[k] is None,
                CellFmtArray::NumericFormat(r) => i == 2 && forall|k: int|
                    0 <= k < r.expand().len() ==> r.expand()[k] is None,
                CellFmtArray::NumericDecimals(r) => i == 3 && forall|k: int|
                    0 <= k < r.expand().len() ==> r.expand()[k] is None,
                CellFmtArray::Bold(r) => i == 4 && forall|k: int| 0 <= k < r.expand().len() ==> r.expand()[k] is None,
                CellFmtArray::Italic(r) => i == 5 && forall|k: int|
                    0 <= k < r.expand().len() ==> r.expand()[k] is None,
                CellFmtArray::TextColor(r) => i == 6 && forall|k: int|
                    0 <= k < r.expand().len() ==> r.expand()[k] is None,
                CellFmtArray::FillColor(r) => i == 7 && forall|k: int|
                    0 <= k < r.expand().len() ==> r.expand()[k] is None,
            }
        },
        _ => false,
    }
}

impl GridController {
    /// The value that `value` reads as in the cell `sheet_pos`, with the
    /// format operations that it asks for.
    pub fn string_to_cell_value(&self, sheet_pos: SheetPos, value: &str) -> (r: (Vec<Operation>, CellValue))
        requires
            self.wf(),
        ensures
            value_read(
                r.0@,
                r.1.model(),
                sheet_pos,
                value@,
                spec_unpack_currency(value@),
                parsed_decimal(value@),
                spec_unpack_percentage(value@),
                decimals_set(self@.grid, sheet_pos),
            ),
            all_wf(r.0@),
            all_shaped(r.0@),
    {
        let has_decimals = match self.grid().try_sheet_from_id(sheet_pos.sheet_id) {
            Some(sheet) => sheet.get_numeric_decimals(sheet_pos.pos()).is_some(),
            None => false,
        };
        value_from_parts(
            sheet_pos,
            value,
            unpack_currency(value),
            Decimal::parse(value),
            unpack_percentage(value),
            has_decimals,
        )
    }

    /// The operations that write the text `value`, without the white space
    /// around it, into the cell `sheet_pos`.
    pub fn set_cell_value_operations(&self, sheet_pos: SheetPos, value: String) -> (ops: Vec<Operation>)
        requires
            self.wf(),
        ensures
            writes_text(self@.grid, sheet_pos, trimmed(value@), ops@),
            all_wf(ops@),
            all_shaped(ops@),
    {
        let mut ops: Vec<Operation> = Vec::new();
        let text = trim_text(value.as_str());
        let sheet = match self.grid().try_sheet_from_id(sheet_pos.sheet_id) {
            None => {
                return ops;
            },
            Some(sheet) => sheet,
        };
        let coded = sheet.get_code_cell(sheet_pos.pos()).is_some();
        if coded {
            ops.push(Operation::SetCellCode { sheet_pos, code_cell_value: None });
        }
        let ghost k = ops@.len() as int;
        let (formats, cell_value) = self.string_to_cell_value(sheet_pos, text.as_str());
        let ghost read = formats@;
        let ghost value_model = cell_value.model();
        let mut formats = formats;
        ops.append(&mut formats);
        let values = Array::from_value(cell_value);
        proof {
            assert(1 * 1 == 1) by (nonlinear_arith);
        }
        ops.push(Operation::SetCellValues { sheet_rect: SheetRect::single_pos(sheet_pos), values });
        proof {
            assert(ops@.subrange(k, ops@.len() - 1) =~= read);
            assert(sets_value(ops@.last(), sheet_pos, value_model));
            assert forall|i: int| 0 <= i < ops@.len() implies (#[trigger] ops@[i]).wf() && shaped(ops@[i]) by {
                if k <= i < ops@.len() - 1 {
                    assert(ops@[i] == read[i - k]);
                }
            }
        }
        ops
    }

    /// The operations that delete the values and the code cells of a
    /// rectangle. They are only made, not applied.
    #[verifier::loop_isolation(false)]
    pub fn delete_cells_rect_operations(&self, sheet_rect: SheetRect) -> (ops: Vec<Operation>)
        requires
            self.wf(),
        ensures
            deletes_cells(self@.grid, sheet_rect, ops@),
            all_wf(ops@),
            all_shaped(ops@),
    {
        let mut ops: Vec<Operation> = Vec::new();
        let sheet = match self.grid().try_sheet_from_id(sheet_rect.sheet_id) {
            None => {
                return ops;
            },
            Some(sheet) => sheet,
        };
        match sheet_rect.rect().size() {
            Some(size) => {
                let values = Array::new_empty(size);
                ops.push(Operation::SetCellValues { sheet_rect, values });
            },
            None => {},
        }
        let ghost k = ops@.len() as int;
        let ghost code = sheet@.code;
        let coded = sheet.code_positions_in(sheet_rect.rect());
        let mut i: usize = 0;
        while i < coded.len()
            invariant
                i <= coded.len(),
                ops@.len() == k + i,
                0 <= k <= 1,
                k == 1 ==> blanks(ops@[0], sheet_rect) && ops@[0].wf() && shaped(ops@[0]),
                forall|a: int|
                    0 <= a < coded.len() ==> sheet_rect.spec_rect().holds(
                        (#[trigger] coded@[a]).0 as int,
                        coded@[a].1 as int,
                    ) && code.dom().contains((coded@[a].0 as int, coded@[a].1 as int)),
                forall|a: int|
                    0 <= a < i ==> #[trigger] ops@[k + a] == (Operation::SetCellCode {
                        sheet_pos: SheetPos { x: coded@[a].0, y: coded@[a].1, sheet_id: sheet_rect.sheet_id },
                        code_cell_value: None,
                    }),
            decreases coded.len() - i,
        {
            let p = coded[i];
            ops.push(
                Operation::SetCellCode {
                    sheet_pos: SheetPos { x: p.0, y: p.1, sheet_id: sheet_rect.sheet_id },
                    code_cell_value: None,
                },
            );
            i += 1;
        }
        proof {
            assert forall|a: int| k <= a < ops@.len() implies code_removal_in(#[trigger] ops@[a], sheet_rect, code) by {
                assert(ops@[k + (a - k)] == ops@[a]);
            }
            assert forall|a: int, b: int| k <= a < b < ops@.len() implies removal_before(
                #[trigger] ops@[a],
                #[trigger] ops@[b],
            ) by {
                assert(ops@[k + (a - k)] == ops@[a]);
                assert(ops@[k + (b - k)] == ops@[b]);
                assert(cell_before(coded@[a - k], coded@[b - k]));
            }
            assert forall|x: int, y: int|
                sheet_rect.spec_rect().holds(x, y) && code.dom().contains((x, y)) implies exists|a: int|
                k <= a < ops@.len() && #[trigger] removes_code_at(ops@[a], x, y) by {
                assert(lists_cell(coded@, x, y));
                let a = choose|a: int| 0 <= a < coded@.len() && (#[trigger] coded@[a]).0 == x && coded@[a].1 == y;
                assert(removes_code_at(ops@[k + a], x, y));
            }
            assert forall|a: int| 0 <= a < ops@.len() implies (#[trigger] ops@[a]).wf() && shaped(ops@[a]) by {
                if a >= k {
                    assert(ops@[k + (a - k)] == ops@[a]);
                }
            }
        }
        ops
    }

    /// The operations that clear every format of a rectangle.
    pub fn clear_formatting_operations(&self, sheet_rect: SheetRect) -> (ops: Vec<Operation>)
        ensures
            clears_formats(sheet_rect, ops@),
            all_wf(ops@),
            all_shaped(ops@),
    {
        let mut ops: Vec<Operation> = Vec::new();
        let size = match sheet_rect.rect().size() {
            Some(s) => s,
            None => {
                return ops;
            },
        };
        if size.len() > usize::MAX as u64 {
            return ops;
        }
        let n = size.len() as usize;
        let ghost cells = sheet_rect.spec_rect().spec_width() * sheet_rect.spec_rect().spec_height();
        assert(n == cells);
        ops.push(
            Operation::SetCellFormats { sheet_rect, attr: CellFmtArray::Align(RunLengthEncoding::repeat(None, n)) },
        );
        ops.push(
            Operation::SetCellFormats { sheet_rect, attr: CellFmtArray::Wrap(RunLengthEncoding::repeat(None, n)) },
        );
        ops.push(
            Operation::SetCellFormats {
                sheet_rect,
                attr: CellFmtArray::NumericFormat(RunLengthEncoding::repeat(None, n)),
            },
        );
        ops.push(
            Operation::SetCellFormats {
                sheet_rect,
                attr: CellFmtArray::NumericDecimals(RunLengthEncoding::repeat(None, n)),
            },
        );
        ops.push(
            Operation::SetCellFormats { sheet_rect, attr: CellFmtArray::Bold(RunLengthEncoding::repeat(None, n)) },
        );
        ops.push(
            Operation::SetCellFormats { sheet_rect, attr: CellFmtArray::Italic(RunLengthEncoding::repeat(None, n)) },
        );
        ops.push(
            Operation::SetCellFormats {
                sheet_rect,
                attr: CellFmtArray::TextColor(RunLengthEncoding::repeat(None, n)),
            },
        );
        ops.push(
            Operation::SetCellFormats {
                sheet_rect,
                attr: CellFmtArray::FillColor(RunLengthEncoding::repeat(None, n)),
            },
        );
        ops
    }

    /// The operations that delete the values, the code cells and the formats
    /// of a rectangle: those of `delete_cells_rect_operations`, then those
    /// of `clear_formatting_operations`.
    pub fn delete_values_and_formatting_operations(&self, sheet_rect: SheetRect) -> (ops: Vec<Operation>)
        requires
            self.wf(),
        ensures
            exists|k: int|
                0 <= k <= ops@.len() && deletes_cells(self@.grid, sheet_rect, #[trigger] ops@.take(k))
                    && clears_formats(sheet_rect, ops@.skip(k)),
            all_wf(ops@),
            all_shaped(ops@),
    {
        let mut ops = self.delete_cells_rect_operations(sheet_rect);
        let mut formats = self.clear_formatting_operations(sheet_rect);
        let ghost first = ops@;
        let ghost second = formats@;
        ops.append(&mut formats);
        proof {
            assert(ops@.take(first.len() as int) =~= first);
            assert(ops@.skip(first.len() as int) =~= second);
            assert forall|i: int| 0 <= i < ops@.len() implies (#[trigger] ops@[i]).wf() && shaped(ops@[i]) by {
                if i < first.len() {
                    assert(ops@[i] == first[i]);
                } else {
                    assert(ops@[i] == second[i - first.len()]);
                }
            }
        }
        ops
    }
}

} // verus!
