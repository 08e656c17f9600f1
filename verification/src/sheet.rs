//! A sheet: sparse planes of values, of each formatting attribute and of code
//! cells, and the borders.

use vstd::prelude::*;
use crate::borders::BorderSides;
use crate::borders::CellBorder;
use crate::borders::CellBorderModel;
use crate::borders::SheetBorders;
use crate::borders::sides_model;
use crate::borders::BorderSidesModel;
use crate::code::CodeCellModel;
use crate::code::CodeCellRunResult;
use crate::code::RunResultModel;
use crate::code::Value;
use crate::code::ValueModel;
use crate::plane::cell_before;
use crate::plane::lists_cell;
use crate::code::CodeCellValue;
use crate::content::option_model;
use crate::content::Content;
use crate::formatting::CellAlign;
use crate::formatting::CellFmtArray;
use crate::formatting::CellFormatSummary;
use crate::formatting::CellWrap;
use crate::formatting::NumericFormat;
use crate::formatting::NumericFormatModel;
use crate::plane::Bounds;
use crate::runs::Run;
use crate::plane::Plane;
use crate::position::Pos;
use crate::position::Rect;
use crate::position::SheetId;
use crate::region::capture;
use crate::region::fits;
use crate::region::lemma_captures_view;
use crate::region::lemma_overwrite_undone;
use crate::region::lemma_overwritten_view;
use crate::region::lemma_values_captured_view;
use crate::region::lemma_values_written_view;
use crate::region::map_captures;
use crate::region::map_cell;
use crate::region::map_overwritten;
use crate::region::map_values_captured;
use crate::region::map_values_written;
use crate::region::matches_array;
use crate::region::overlay;
use crate::region::overlay_values;
use crate::rle::RunLengthEncoding;
use crate::values::Array;
use crate::values::CellValue;
use crate::values::CellValueModel;

verus! {

/// One sheet of a grid.
#[derive(Clone, Debug, PartialEq, Eq)]
pub struct Sheet {
    id: SheetId,
    name: String,
    color: Option<String>,
    order: String,
    values: Plane<CellValue>,
    align: Plane<CellAlign>,
    wrap: Plane<CellWrap>,
    numeric_format: Plane<NumericFormat>,
    numeric_decimals: Plane<i16>,
    bold: Plane<bool>,
    italic: Plane<bool>,
    text_color: Plane<String>,
    fill_color: Plane<String>,
    code_cells: Plane<CodeCellValue>,
    borders: SheetBorders,
}

/// A sheet as contracts see it. Every map goes from a cell `(x, y)` to what
/// the cell holds, except `horizontal`, which goes from `(y, x)` to the line
/// on the top edge of the cell `(x, y)`.
pub struct SheetView {
    pub id: SheetId,
    pub name: Seq<char>,
    pub color: Option<Seq<char>>,
    pub order: Seq<char>,
    pub values: Map<(int, int), CellValueModel>,
    pub align: Map<(int, int), CellAlign>,
    pub wrap: Map<(int, int), CellWrap>,
    pub numeric_format: Map<(int, int), NumericFormatModel>,
    pub numeric_decimals: Map<(int, int), i16>,
    pub bold: Map<(int, int), bool>,
    pub italic: Map<(int, int), bool>,
    pub text_color: Map<(int, int), Seq<char>>,
    pub fill_color: Map<(int, int), Seq<char>>,
    pub code: Map<(int, int), CodeCellModel>,
    pub horizontal: Map<(int, int), CellBorderModel>,
    pub vertical: Map<(int, int), CellBorderModel>,
}

/// The sheet `v` with the formats of one attribute over `rect` overwritten by
/// `attr`.
pub open spec fn formats_written(v: SheetView, rect: Rect, attr: CellFmtArray) -> SheetView {
    match attr {
        CellFmtArray::Align(r) => SheetView {
            align: map_overwritten(v.align, false, rect, r.expand()),
            ..v
        },
        CellFmtArray::Wrap(r) => SheetView { wrap: map_overwritten(v.wrap, false, rect, r.expand()), ..v },
        CellFmtArray::NumericFormat(r) => SheetView {
            numeric_format: map_overwritten(v.numeric_format, false, rect, r.expand()),
            ..v
        },
        CellFmtArray::NumericDecimals(r) => SheetView {
            numeric_decimals: map_overwritten(v.numeric_decimals, false, rect, r.expand()),
            ..v
        },
        CellFmtArray::Bold(r) => SheetView { bold: map_overwritten(v.bold, false, rect, r.expand()), ..v },
        CellFmtArray::Italic(r) => SheetView {
            italic: map_overwritten(v.italic, false, rect, r.expand()),
            ..v
        },
        CellFmtArray::TextColor(r) => SheetView {
            text_color: map_overwritten(v.text_color, false, rect, r.expand()),
            ..v
        },
        CellFmtArray::FillColor(r) => SheetView {
            fill_color: map_overwritten(v.fill_color, false, rect, r.expand()),
            ..v
        },
    }
}

/// Whether `attr` lists, row by row, the formats of its attribute that the
/// sheet `v` holds over `rect`.
pub open spec fn formats_captured(attr: CellFmtArray, v: SheetView, rect: Rect) -> bool {
    match attr {
        CellFmtArray::Align(r) => map_captures(r.expand(), v.align, false, rect),
        CellFmtArray::Wrap(r) => map_captures(r.expand(), v.wrap, false, rect),
        CellFmtArray::NumericFormat(r) => map_captures(r.expand(), v.numeric_format, false, rect),
        CellFmtArray::NumericDecimals(r) => map_captures(r.expand(), v.numeric_decimals, false, rect),
        CellFmtArray::Bold(r) => map_captures(r.expand(), v.bold, false, rect),
        CellFmtArray::Italic(r) => map_captures(r.expand(), v.italic, false, rect),
        CellFmtArray::TextColor(r) => map_captures(r.expand(), v.text_color, false, rect),
        CellFmtArray::FillColor(r) => map_captures(r.expand(), v.fill_color, false, rect),
    }
}

/// The sheet `v` with the values over `rect` overwritten by `values`.
pub open spec fn values_set(v: SheetView, rect: Rect, values: Array) -> SheetView {
    SheetView { values: map_values_written(v.values, rect, values), ..v }
}

/// The sheet `v` with the code cell at `(x, y)` replaced by `code`, or taken
/// away for `None`.
pub open spec fn code_set(v: SheetView, x: int, y: int, code: Option<CodeCellModel>) -> SheetView {
    SheetView {
        code: match code {
            Some(c) => v.code.insert((x, y), c),
            None => v.code.remove((x, y)),
        },
        ..v
    }
}

/// The sheet `v` with the lines of one direction over `rect` overwritten by
/// `lines`.
pub open spec fn lines_set(
    v: SheetView,
    horizontal: bool,
    rect: Rect,
    lines: Seq<Option<CellBorderModel>>,
) -> SheetView {
    if horizontal {
        SheetView { horizontal: map_overwritten(v.horizontal, true, rect, lines), ..v }
    } else {
        SheetView { vertical: map_overwritten(v.vertical, false, rect, lines), ..v }
    }
}

/// The lines of one direction of the sheet `v`.
pub open spec fn lines_of(v: SheetView, horizontal: bool) -> Map<(int, int), CellBorderModel> {
    if horizontal {
        v.horizontal
    } else {
        v.vertical
    }
}

/// Overwriting the formats of a rectangle and then overwriting them with
/// what the rectangle held before gives the first sheet back.
pub proof fn lemma_formats_undone(v: SheetView, rect: Rect, attr: CellFmtArray, prior: CellFmtArray)
    requires
        formats_captured(prior, v, rect),
        prior.spec_attr() == attr.spec_attr(),
    ensures
        formats_written(formats_written(v, rect, attr), rect, prior) == v,
{
    match (attr, prior) {
        (CellFmtArray::Align(a), CellFmtArray::Align(p)) => {
            lemma_overwrite_undone(v.align, false, rect, a.expand(), p.expand());
        },
        (CellFmtArray::Wrap(a), CellFmtArray::Wrap(p)) => {
            lemma_overwrite_undone(v.wrap, false, rect, a.expand(), p.expand());
        },
        (CellFmtArray::NumericFormat(a), CellFmtArray::NumericFormat(p)) => {
            lemma_overwrite_undone(v.numeric_format, false, rect, a.expand(), p.expand());
        },
        (CellFmtArray::NumericDecimals(a), CellFmtArray::NumericDecimals(p)) => {
            lemma_overwrite_undone(v.numeric_decimals, false, rect, a.expand(), p.expand());
        },
        (CellFmtArray::Bold(a), CellFmtArray::Bold(p)) => {
            lemma_overwrite_undone(v.bold, false, rect, a.expand(), p.expand());
        },
        (CellFmtArray::Italic(a), CellFmtArray::Italic(p)) => {
            lemma_overwrite_undone(v.italic, false, rect, a.expand(), p.expand());
        },
        (CellFmtArray::TextColor(a), CellFmtArray::TextColor(p)) => {
            lemma_overwrite_undone(v.text_color, false, rect, a.expand(), p.expand());
        },
        (CellFmtArray::FillColor(a), CellFmtArray::FillColor(p)) => {
            lemma_overwrite_undone(v.fill_color, false, rect, a.expand(), p.expand());
        },
        _ => {},
    }
}

/// Replacing a code cell and then putting back what the cell held before
/// gives the first sheet back.
pub proof fn lemma_code_undone(v: SheetView, x: int, y: int, code: Option<CodeCellModel>)
    ensures
        code_set(code_set(v, x, y, code), x, y, map_cell(v.code, false, x, y)) == v,
{
    let back = code_set(code_set(v, x, y, code), x, y, map_cell(v.code, false, x, y));
    assert(back.code =~= v.code);
}

/// The width and height of what a code cell puts out: those of its block of
/// values, or one cell.
pub open spec fn output_size(c: CodeCellModel) -> (int, int) {
    match c.output {
        Some(o) => match o.result {
            RunResultModel::Success { output_value: ValueModel::Array(a), cells_accessed } => (a.w, a.h),
            _ => (1, 1),
        },
        None => (1, 1),
    }
}

/// What a code cell puts out at the offset `(dx, dy)` from its own cell: its
/// value or the cell of its block there, or its error in its own cell.
pub open spec fn output_at(c: CodeCellModel, dx: int, dy: int) -> Option<CellValueModel> {
    match c.output {
        None => None,
        Some(o) => match o.result {
            RunResultModel::Success { output_value: ValueModel::Single(v), cells_accessed } => if dx == 0
                && dy == 0 {
                Some(v)
            } else {
                None
            },
            RunResultModel::Success { output_value: ValueModel::Array(a), cells_accessed } => if 0 <= dx
                < a.w && 0 <= dy < a.h && dy < a.rows.len() && dx < a.rows[dy].len() {
                Some(a.rows[dy][dx])
            } else {
                None
            },
            RunResultModel::Failure { span, msg } => if dx == 0 && dy == 0 {
                Some(CellValueModel::Error(msg))
            } else {
                None
            },
        },
    }
}

/// Whether the cell `(x, y)` is in the way of the output of the code cell at
/// `(ax, ay)`: it lies in the output's rectangle, is not the code cell's own
/// cell, and holds a value or a code cell.
pub open spec fn obstructs(v: SheetView, ax: int, ay: int, x: int, y: int) -> bool {
    &&& v.code.dom().contains((ax, ay))
    &&& ax <= x < ax + output_size(v.code[(ax, ay)]).0
    &&& ay <= y < ay + output_size(v.code[(ax, ay)]).1
    &&& !(x == ax && y == ay)
    &&& (v.values.dom().contains((x, y)) || v.code.dom().contains((x, y)))
}

/// Whether the output of the code cell at `(ax, ay)` is spilled: some cell is
/// in its way. The mark is a function of what the sheet holds, so it comes
/// and goes with the obstruction and no code has to run again.
pub open spec fn spilled(v: SheetView, ax: int, ay: int) -> bool {
    exists|x: int, y: int| #[trigger] obstructs(v, ax, ay, x, y)
}

/// The text of the error that a spilled code cell shows.
pub open spec fn spill_message() -> Seq<char> {
    "spill"@
}

/// What the code cell at `(ax, ay)` shows in the cell `(x, y)`: its output
/// there, or, where the output is spilled, an error in its own cell and
/// nothing elsewhere.
pub open spec fn shown_by(v: SheetView, ax: int, ay: int, x: int, y: int) -> Option<CellValueModel> {
    if !v.code.dom().contains((ax, ay)) {
        None
    } else if spilled(v, ax, ay) {
        if x == ax && y == ay {
            Some(CellValueModel::Error(spill_message()))
        } else {
            None
        }
    } else {
        output_at(v.code[(ax, ay)], x - ax, y - ay)
    }
}

/// Whether the code cell at `(ax, ay)` is the first, by column and then by
/// row, that shows something in the cell `(x, y)`.
pub open spec fn first_showing(v: SheetView, ax: int, ay: int, x: int, y: int) -> bool {
    &&& shown_by(v, ax, ay, x, y) is Some
    &&& forall|bx: int, by: int|
        (bx < ax || (bx == ax && by < ay)) ==> #[trigger] shown_by(v, bx, by, x, y) is None
}

/// Whether `value` is what the code cells of the sheet show in the cell
/// `(x, y)`: what the first code cell that shows something there shows, or
/// nothing where none does.
pub open spec fn code_shows(v: SheetView, x: int, y: int, value: Option<CellValueModel>) -> bool {
    match value {
        Some(m) => exists|ax: int, ay: int| #[trigger]
            first_showing(v, ax, ay, x, y) && shown_by(v, ax, ay, x, y) == Some(m),
        None => forall|ax: int, ay: int| #[trigger] shown_by(v, ax, ay, x, y) is None,
    }
}

/// Whether `value` is what the cell `(x, y)` shows: the value it holds, or
/// else what the code cells show there.
pub open spec fn cell_shows(v: SheetView, x: int, y: int, value: Option<CellValueModel>) -> bool {
    if v.values.dom().contains((x, y)) {
        value == Some(v.values[(x, y)])
    } else {
        code_shows(v, x, y, value)
    }
}

/// What the code cells of the sheet show in one cell is determined.
pub proof fn lemma_code_shows_one(
    v: SheetView,
    x: int,
    y: int,
    a: Option<CellValueModel>,
    b: Option<CellValueModel>,
)
    requires
        code_shows(v, x, y, a),
        code_shows(v, x, y, b),
    ensures
        a == b,
{
    match (a, b) {
        (Some(m), Some(n)) => {
            let (ax, ay) = choose|ax: int, ay: int| #[trigger]
                first_showing(v, ax, ay, x, y) && shown_by(v, ax, ay, x, y) == Some(m);
            let (bx, by) = choose|bx: int, by: int| #[trigger]
                first_showing(v, bx, by, x, y) && shown_by(v, bx, by, x, y) == Some(n);
            if bx < ax || (bx == ax && by < ay) {
                assert(shown_by(v, bx, by, x, y) is None);
            } else if ax < bx || (ax == bx && ay < by) {
                assert(shown_by(v, ax, ay, x, y) is None);
            }
        },
        (Some(m), None) => {
            let (ax, ay) = choose|ax: int, ay: int| #[trigger]
                first_showing(v, ax, ay, x, y) && shown_by(v, ax, ay, x, y) == Some(m);
            assert(shown_by(v, ax, ay, x, y) is None);
        },
        (None, Some(n)) => {
            let (bx, by) = choose|bx: int, by: int| #[trigger]
                first_showing(v, bx, by, x, y) && shown_by(v, bx, by, x, y) == Some(n);
            assert(shown_by(v, bx, by, x, y) is None);
        },
        (None, None) => {},
    }
}

/// What the code cells of the sheet show in the cell `(x, y)`.
pub open spec fn code_value(v: SheetView, x: int, y: int) -> Option<CellValueModel> {
    choose|m: Option<CellValueModel>| code_shows(v, x, y, m)
}

/// What `code_shows` holds of is the code value.
pub proof fn lemma_code_value(v: SheetView, x: int, y: int, m: Option<CellValueModel>)
    requires
        code_shows(v, x, y, m),
    ensures
        m == code_value(v, x, y),
{
    lemma_code_shows_one(v, x, y, m, code_value(v, x, y));
}

/// Whether the cell `(x, y)` holds a value or a code cell or, unless
/// formatting is left aside, a format.
pub open spec fn occupied(v: SheetView, ignore_formatting: bool, x: int, y: int) -> bool {
    ||| v.values.dom().contains((x, y))
    ||| v.code.dom().contains((x, y))
    ||| !ignore_formatting && {
        ||| v.align.dom().contains((x, y))
        ||| v.wrap.dom().contains((x, y))
        ||| v.numeric_format.dom().contains((x, y))
        ||| v.numeric_decimals.dom().contains((x, y))
        ||| v.bold.dom().contains((x, y))
        ||| v.italic.dom().contains((x, y))
        ||| v.text_color.dom().contains((x, y))
        ||| v.fill_color.dom().contains((x, y))
    }
}

/// Whether `b` holds every cell of which `occ` holds and each of its four
/// edges touches such a cell.
pub open spec fn tight(b: Bounds, occ: spec_fn(int, int) -> bool) -> bool {
    &&& forall|x: int, y: int| #[trigger]
        occ(x, y) ==> b.min_key <= x && x <= b.max_key && b.min_row <= y && y <= b.max_row
    &&& exists|y: int| #[trigger] occ(b.min_key as int, y)
    &&& exists|y: int| #[trigger] occ(b.max_key as int, y)
    &&& exists|x: int| #[trigger] occ(x, b.min_row as int)
    &&& exists|x: int| #[trigger] occ(x, b.max_row as int)
}

/// Whether `occ` holds of no cell.
pub open spec fn vacant(occ: spec_fn(int, int) -> bool) -> bool {
    forall|x: int, y: int| !#[trigger] occ(x, y)
}

/// Whether `b` is tight for `occ`; for `None`, whether `occ` holds of no
/// cell.
pub open spec fn tight_for(b: Option<Bounds>, occ: spec_fn(int, int) -> bool) -> bool {
    match b {
        None => vacant(occ),
        Some(b) => tight(b, occ),
    }
}

/// Whether `occ` holds of a cell or the plane has a value there.
pub open spec fn either<T: Content>(occ: spec_fn(int, int) -> bool, plane: Plane<T>) -> spec_fn(int, int) -> bool {
    |x: int, y: int| occ(x, y) || plane.at(x, y) is Some
}

/// Whether a cell of the sheet is occupied.
pub open spec fn occupancy(v: SheetView, ignore_formatting: bool) -> spec_fn(int, int) -> bool {
    |x: int, y: int| occupied(v, ignore_formatting, x, y)
}

/// Of no cell.
pub open spec fn nowhere() -> spec_fn(int, int) -> bool {
    |x: int, y: int| false
}

/// Whether the plane has a value in a cell.
pub open spec fn filled<T: Content>(plane: Plane<T>) -> spec_fn(int, int) -> bool {
    |x: int, y: int| plane.at(x, y) is Some
}

/// The bounds around two bounds.
pub open spec fn joined_bounds(a: Option<Bounds>, b: Option<Bounds>) -> Option<Bounds> {
    match (a, b) {
        (None, None) => None,
        (Some(a), None) => Some(a),
        (None, Some(b)) => Some(b),
        (Some(a), Some(b)) => Some(
            Bounds {
                min_key: if a.min_key <= b.min_key { a.min_key } else { b.min_key },
                max_key: if a.max_key >= b.max_key { a.max_key } else { b.max_key },
                min_row: if a.min_row <= b.min_row { a.min_row } else { b.min_row },
                max_row: if a.max_row >= b.max_row { a.max_row } else { b.max_row },
            },
        ),
    }
}

/// A cell of which `p` holds lies in bounds that are tight for `p`.
proof fn lemma_tight_holds(b: Bounds, p: spec_fn(int, int) -> bool, x: int, y: int)
    requires
        tight_for(Some(b), p),
        p(x, y),
    ensures
        b.min_key <= x <= b.max_key,
        b.min_row <= y <= b.max_row,
{
}

/// Bounds that hold every cell of `p` and touch one on each edge are tight.
proof fn lemma_tight_from(b: Bounds, p: spec_fn(int, int) -> bool, y1: int, y2: int, x1: int, x2: int)
    requires
        forall|x: int, y: int| #[trigger] p(x, y) ==> b.min_key <= x <= b.max_key && b.min_row <= y <= b.max_row,
        p(b.min_key as int, y1),
        p(b.max_key as int, y2),
        p(x1, b.min_row as int),
        p(x2, b.max_row as int),
    ensures
        tight_for(Some(b), p),
{
}

/// The bounds around two tight bounds are tight for what either bounds.
proof fn lemma_joined_tight(
    a: Option<Bounds>,
    b: Option<Bounds>,
    p: spec_fn(int, int) -> bool,
    q: spec_fn(int, int) -> bool,
    both: spec_fn(int, int) -> bool,
)
    requires
        tight_for(a, p),
        tight_for(b, q),
        forall|x: int, y: int| #[trigger] both(x, y) == (p(x, y) || q(x, y)),
    ensures
        tight_for(joined_bounds(a, b), both),
{
    match (a, b) {
        (None, None) => {
            assert forall|x: int, y: int| !#[trigger] both(x, y) by {
                assert(!p(x, y) && !q(x, y));
            }
        },
        (Some(a), None) => {
            assert forall|x: int, y: int| #[trigger] both(x, y) implies a.min_key <= x <= a.max_key
                && a.min_row <= y <= a.max_row by {
                assert(!q(x, y));
            }
            let y1 = choose|y: int| #[trigger] p(a.min_key as int, y);
            let y2 = choose|y: int| #[trigger] p(a.max_key as int, y);
            let x1 = choose|x: int| #[trigger] p(x, a.min_row as int);
            let x2 = choose|x: int| #[trigger] p(x, a.max_row as int);
            assert(both(a.min_key as int, y1));
            assert(both(a.max_key as int, y2));
            assert(both(x1, a.min_row as int));
            assert(both(x2, a.max_row as int));
            lemma_tight_from(a, both, y1, y2, x1, x2);
        },
        (None, Some(b)) => {
            assert forall|x: int, y: int| #[trigger] both(x, y) implies b.min_key <= x <= b.max_key
                && b.min_row <= y <= b.max_row by {
                assert(!p(x, y));
            }
            let y1 = choose|y: int| #[trigger] q(b.min_key as int, y);
            let y2 = choose|y: int| #[trigger] q(b.max_key as int, y);
            let x1 = choose|x: int| #[trigger] q(x, b.min_row as int);
            let x2 = choose|x: int| #[trigger] q(x, b.max_row as int);
            assert(both(b.min_key as int, y1));
            assert(both(b.max_key as int, y2));
            assert(both(x1, b.min_row as int));
            assert(both(x2, b.max_row as int));
            lemma_tight_from(b, both, y1, y2, x1, x2);
        },
        (Some(a), Some(b)) => {
            let r = joined_bounds(Some(a), Some(b))->0;
            assert forall|x: int, y: int| #[trigger] both(x, y) implies r.min_key <= x <= r.max_key
                && r.min_row <= y <= r.max_row by {
                if p(x, y) {
                    lemma_tight_holds(a, p, x, y);
                } else {
                    lemma_tight_holds(b, q, x, y);
                }
            }
            let ay1 = choose|y: int| #[trigger] p(a.min_key as int, y);
            let ay2 = choose|y: int| #[trigger] p(a.max_key as int, y);
            let ax1 = choose|x: int| #[trigger] p(x, a.min_row as int);
            let ax2 = choose|x: int| #[trigger] p(x, a.max_row as int);
            let by1 = choose|y: int| #[trigger] q(b.min_key as int, y);
            let by2 = choose|y: int| #[trigger] q(b.max_key as int, y);
            let bx1 = choose|x: int| #[trigger] q(x, b.min_row as int);
            let bx2 = choose|x: int| #[trigger] q(x, b.max_row as int);
            assert(both(a.min_key as int, ay1) && both(b.min_key as int, by1));
            assert(both(a.max_key as int, ay2) && both(b.max_key as int, by2));
            assert(both(ax1, a.min_row as int) && both(bx1, b.min_row as int));
            assert(both(ax2, a.max_row as int) && both(bx2, b.max_row as int));
            let y1 = if a.min_key <= b.min_key { ay1 } else { by1 };
            let y2 = if a.max_key >= b.max_key { ay2 } else { by2 };
            let x1 = if a.min_row <= b.min_row { ax1 } else { bx1 };
            let x2 = if a.max_row >= b.max_row { ax2 } else { bx2 };
            lemma_tight_from(r, both, y1, y2, x1, x2);
        },
    }
}

/// The bounds around what `acc` bounds and the cells of `plane`.
fn widen<T: Content>(acc: Option<Bounds>, plane: &Plane<T>, Ghost(occ): Ghost<spec_fn(int, int) -> bool>) -> (r:
    Option<Bounds>)
    requires
        plane.wf(),
        tight_for(acc, occ),
    ensures
        tight_for(r, either(occ, *plane)),
{
    let more = plane.bounds();
    proof {
        let q = filled(*plane);
        match more {
            Some(b) => {
                let y1 = choose|y: int| #[trigger] plane.at(b.min_key as int, y) is Some;
                let y2 = choose|y: int| #[trigger] plane.at(b.max_key as int, y) is Some;
                let x1 = choose|x: int| #[trigger] plane.at(x, b.min_row as int) is Some;
                let x2 = choose|x: int| #[trigger] plane.at(x, b.max_row as int) is Some;
                assert forall|x: int, y: int| #[trigger] q(x, y) implies b.min_key <= x <= b.max_key
                    && b.min_row <= y <= b.max_row by {
                    assert(plane.at(x, y) is Some);
                }
                assert(q(b.min_key as int, y1));
                assert(q(b.max_key as int, y2));
                assert(q(x1, b.min_row as int));
                assert(q(x2, b.max_row as int));
                lemma_tight_from(b, q, y1, y2, x1, x2);
            },
            None => {
                assert forall|x: int, y: int| !#[trigger] q(x, y) by {
                    assert(plane.at(x, y) is None);
                }
            },
        }
        lemma_joined_tight(acc, more, occ, q, either(occ, *plane));
    }
    match (acc, more) {
        (None, None) => None,
        (Some(a), None) => Some(a),
        (None, Some(b)) => Some(b),
        (Some(a), Some(b)) => Some(
            Bounds {
                min_key: if a.min_key <= b.min_key { a.min_key } else { b.min_key },
                max_key: if a.max_key >= b.max_key { a.max_key } else { b.max_key },
                min_row: if a.min_row <= b.min_row { a.min_row } else { b.min_row },
                max_row: if a.max_row >= b.max_row { a.max_row } else { b.max_row },
            },
        ),
    }
}

/// Bounds that are tight for one way of saying which cells are occupied are
/// tight for every other way that says the same of each cell.
proof fn lemma_tight_same(b: Option<Bounds>, p: spec_fn(int, int) -> bool, q: spec_fn(int, int) -> bool)
    requires
        tight_for(b, p),
        forall|x: int, y: int| #[trigger] p(x, y) == q(x, y),
    ensures
        tight_for(b, q),
{
    match b {
        None => {
            assert forall|x: int, y: int| !#[trigger] q(x, y) by {
                assert(p(x, y) == q(x, y));
            }
        },
        Some(b) => {
            assert forall|x: int, y: int| #[trigger] q(x, y) implies b.min_key <= x <= b.max_key && b.min_row
                <= y <= b.max_row by {
                assert(p(x, y) == q(x, y));
            }
            let y1 = choose|y: int| #[trigger] p(b.min_key as int, y);
            assert(q(b.min_key as int, y1));
            let y2 = choose|y: int| #[trigger] p(b.max_key as int, y);
            assert(q(b.max_key as int, y2));
            let x1 = choose|x: int| #[trigger] p(x, b.min_row as int);
            assert(q(x1, b.min_row as int));
            let x2 = choose|x: int| #[trigger] p(x, b.max_row as int);
            assert(q(x2, b.max_row as int));
        },
    }
}

/// How a sheet is laid out in runs: for each kind of content the strips in
/// ascending key order, each with its runs in ascending order.
pub struct SheetLayout {
    pub values: Seq<(int, Seq<Run<CellValueModel>>)>,
    pub align: Seq<(int, Seq<Run<CellAlign>>)>,
    pub wrap: Seq<(int, Seq<Run<CellWrap>>)>,
    pub numeric_format: Seq<(int, Seq<Run<NumericFormatModel>>)>,
    pub numeric_decimals: Seq<(int, Seq<Run<i16>>)>,
    pub bold: Seq<(int, Seq<Run<bool>>)>,
    pub italic: Seq<(int, Seq<Run<bool>>)>,
    pub text_color: Seq<(int, Seq<Run<Seq<char>>>)>,
    pub fill_color: Seq<(int, Seq<Run<Seq<char>>>)>,
    pub code: Seq<(int, Seq<Run<CodeCellModel>>)>,
    pub horizontal: Seq<(int, Seq<Run<CellBorderModel>>)>,
    pub vertical: Seq<(int, Seq<Run<CellBorderModel>>)>,
}

impl Sheet {
    /// Every plane is well formed and no cell stores a blank.
    pub closed spec fn wf(&self) -> bool {
        &&& self.values.wf()
        &&& self.align.wf()
        &&& self.wrap.wf()
        &&& self.numeric_format.wf()
        &&& self.numeric_decimals.wf()
        &&& self.bold.wf()
        &&& self.italic.wf()
        &&& self.text_color.wf()
        &&& self.fill_color.wf()
        &&& self.code_cells.wf()
        &&& self.borders.wf()
        &&& forall|x: int, y: int| !(#[trigger] self.values.at(x, y) == Some(CellValueModel::Blank))
    }

    /// The sheet as contracts see it.
    pub closed spec fn view(&self) -> SheetView {
        SheetView {
            id: self.id,
            name: self.name@,
            color: self.color.model(),
            order: self.order@,
            values: self.values@,
            align: self.align@,
            wrap: self.wrap@,
            numeric_format: self.numeric_format@,
            numeric_decimals: self.numeric_decimals@,
            bold: self.bold@,
            italic: self.italic@,
            text_color: self.text_color@,
            fill_color: self.fill_color@,
            code: self.code_cells@,
            horizontal: self.borders.lines(true)@,
            vertical: self.borders.lines(false)@,
        }
    }

    /// How the sheet is laid out in runs.
    pub closed spec fn layout(&self) -> SheetLayout {
        SheetLayout {
            values: self.values.layout(),
            align: self.align.layout(),
            wrap: self.wrap.layout(),
            numeric_format: self.numeric_format.layout(),
            numeric_decimals: self.numeric_decimals.layout(),
            bold: self.bold.layout(),
            italic: self.italic.layout(),
            text_color: self.text_color.layout(),
            fill_color: self.fill_color.layout(),
            code: self.code_cells.layout(),
            horizontal: self.borders.lines(true).layout(),
            vertical: self.borders.lines(false).layout(),
        }
    }

    /// Canonical form: two well-formed sheets that hold the same in every
    /// cell are laid out in the same runs.
    pub proof fn lemma_canonical(&self, other: &Sheet)
        requires
            self.wf(),
            other.wf(),
            self@ == other@,
        ensures
            self.layout() == other.layout(),
    {
        self.borders.lemma_planes();
        other.borders.lemma_planes();
        self.values.lemma_canonical(&other.values);
        self.align.lemma_canonical(&other.align);
        self.wrap.lemma_canonical(&other.wrap);
        self.numeric_format.lemma_canonical(&other.numeric_format);
        self.numeric_decimals.lemma_canonical(&other.numeric_decimals);
        self.bold.lemma_canonical(&other.bold);
        self.italic.lemma_canonical(&other.italic);
        self.text_color.lemma_canonical(&other.text_color);
        self.fill_color.lemma_canonical(&other.fill_color);
        self.code_cells.lemma_canonical(&other.code_cells);
        self.borders.lines(true).lemma_canonical(&other.borders.lines(true));
        self.borders.lines(false).lemma_canonical(&other.borders.lines(false));
    }

    /// No cell of a well-formed sheet holds a blank as its value.
    pub proof fn lemma_no_blank(&self)
        requires
            self.wf(),
        ensures
            forall|k: (int, int)| self@.values.dom().contains(k) ==> !(#[trigger] self@.values[k] is Blank),
    {
        assert forall|k: (int, int)| self@.values.dom().contains(k) implies !(
        #[trigger] self@.values[k] is Blank) by {
            assert(self.values.at(k.0, k.1) != Some(CellValueModel::Blank));
        }
    }

    /// An empty sheet.
    pub fn new(id: SheetId, name: String, order: String) -> (r: Sheet)
        ensures
            r.wf(),
            r@ == empty_sheet(id, name@, order@),
    {
        let r = Sheet {
            id,
            name,
            color: None,
            order,
            values: Plane::new(),
            align: Plane::new(),
            wrap: Plane::new(),
            numeric_format: Plane::new(),
            numeric_decimals: Plane::new(),
            bold: Plane::new(),
            italic: Plane::new(),
            text_color: Plane::new(),
            fill_color: Plane::new(),
            code_cells: Plane::new(),
            borders: SheetBorders::new(),
        };
        proof {
            let e = empty_sheet(id, name@, order@);
            assert(r@.values =~= e.values);
            assert(r@.align =~= e.align);
            assert(r@.wrap =~= e.wrap);
            assert(r@.numeric_format =~= e.numeric_format);
            assert(r@.numeric_decimals =~= e.numeric_decimals);
            assert(r@.bold =~= e.bold);
            assert(r@.italic =~= e.italic);
            assert(r@.text_color =~= e.text_color);
            assert(r@.fill_color =~= e.fill_color);
            assert(r@.code =~= e.code);
            assert(r@.horizontal =~= e.horizontal) by {
                assert forall|k: (int, int)| !r@.horizontal.dom().contains(k) by {
                    assert(r.borders.line_at(true, k.1, k.0) is None);
                }
            }
            assert(r@.vertical =~= e.vertical) by {
                assert forall|k: (int, int)| !r@.vertical.dom().contains(k) by {
                    assert(r.borders.line_at(false, k.0, k.1) is None);
                }
            }
        }
        r
    }

    /// A second sheet that holds in every cell what this one holds, under
    /// the identifier `id` and the name `name`.
    pub fn copy_as(&self, id: SheetId, name: String) -> (r: Sheet)
        requires
            self.wf(),
        ensures
            r.wf(),
            r@ == (SheetView { id, name: name@, ..self@ }),
    {
        let r = Sheet {
            id,
            name,
            color: self.color.duplicate(),
            order: self.order.duplicate(),
            values: self.values.duplicate(),
            align: self.align.duplicate(),
            wrap: self.wrap.duplicate(),
            numeric_format: self.numeric_format.duplicate(),
            numeric_decimals: self.numeric_decimals.duplicate(),
            bold: self.bold.duplicate(),
            italic: self.italic.duplicate(),
            text_color: self.text_color.duplicate(),
            fill_color: self.fill_color.duplicate(),
            code_cells: self.code_cells.duplicate(),
            borders: self.borders.duplicate(),
        };
        proof {
            assert forall|x: int, y: int| !(#[trigger] r.values.at(x, y) == Some(CellValueModel::Blank)) by {
                assert(!(self.values.at(x, y) == Some(CellValueModel::Blank)));
            }
        }
        r
    }

    /// The identifier of the sheet.
    pub fn id(&self) -> (r: SheetId)
        ensures
            r == self@.id,
    {
        self.id
    }

    /// The name of the sheet.
    pub fn name(&self) -> (r: String)
        ensures
            r@ == self@.name,
    {
        self.name.clone()
    }

    /// The colour of the sheet's tab, if it has one.
    pub fn color(&self) -> (r: Option<String>)
        ensures
            option_model(r) == self@.color,
    {
        self.color.duplicate()
    }

    /// The key by which sheets are put in order.
    pub fn order(&self) -> (r: String)
        ensures
            r@ == self@.order,
    {
        self.order.clone()
    }

    /// Renames the sheet and hands back the old name.
    pub fn set_name(&mut self, name: String) -> (r: String)
        requires
            old(self).wf(),
        ensures
            final(self).wf(),
            r@ == old(self)@.name,
            final(self)@ == (SheetView { name: name@, ..old(self)@ }),
    {
        let before = self.name.clone();
        self.name = name;
        before
    }

    /// Sets or clears the colour of the sheet's tab and hands back the old
    /// one.
    pub fn set_color(&mut self, color: Option<String>) -> (r: Option<String>)
        requires
            old(self).wf(),
        ensures
            final(self).wf(),
            option_model(r) == old(self)@.color,
            final(self)@ == (SheetView { color: option_model(color), ..old(self)@ }),
    {
        let before = self.color.duplicate();
        self.color = color;
        before
    }

    /// The value that the cell itself holds, leaving code output aside.
    pub fn get_cell_value_only(&self, pos: Pos) -> (r: Option<CellValue>)
        requires
            self.wf(),
        ensures
            option_model(r) == map_cell(self@.values, false, pos.x as int, pos.y as int),
    {
        match self.values.get(pos.x, pos.y) {
            Some(v) => Some(v.duplicate()),
            None => None,
        }
    }

    /// The code cell at `pos`, if there is one.
    pub fn get_code_cell(&self, pos: Pos) -> (r: Option<&CodeCellValue>)
        requires
            self.wf(),
        ensures
            match r {
                Some(c) => map_cell(self@.code, false, pos.x as int, pos.y as int) == Some(c.model()),
                None => map_cell(self@.code, false, pos.x as int, pos.y as int) is None,
            },
    {
        self.code_cells.get(pos.x, pos.y)
    }

    /// The number of decimal places set for the cell at `pos`, if any is.
    pub fn get_numeric_decimals(&self, pos: Pos) -> (r: Option<i16>)
        requires
            self.wf(),
        ensures
            r == map_cell(self@.numeric_decimals, false, pos.x as int, pos.y as int),
    {
        match self.numeric_decimals.get(pos.x, pos.y) {
            Some(v) => Some(*v),
            None => None,
        }
    }

    /// The formats of the cell at `pos` that a renderer asks for.
    pub fn get_cell_format_summary(&self, pos: Pos) -> (r: CellFormatSummary)
        requires
            self.wf(),
        ensures
            r.bold == map_cell(self@.bold, false, pos.x as int, pos.y as int),
            r.italic == map_cell(self@.italic, false, pos.x as int, pos.y as int),
            option_model(r.text_color) == map_cell(self@.text_color, false, pos.x as int, pos.y as int),
            option_model(r.fill_color) == map_cell(self@.fill_color, false, pos.x as int, pos.y as int),
    {
        CellFormatSummary {
            bold: match self.bold.get(pos.x, pos.y) {
                Some(v) => Some(*v),
                None => None,
            },
            italic: match self.italic.get(pos.x, pos.y) {
                Some(v) => Some(*v),
                None => None,
            },
            text_color: match self.text_color.get(pos.x, pos.y) {
                Some(v) => Some(v.clone()),
                None => None,
            },
            fill_color: match self.fill_color.get(pos.x, pos.y) {
                Some(v) => Some(v.clone()),
                None => None,
            },
        }
    }

    /// The width and height of what a code cell puts out.
    fn output_extent(c: &CodeCellValue) -> (r: (u32, u32))
        ensures
            r.0 == output_size(c.model()).0,
            r.1 == output_size(c.model()).1,
    {
        match &c.output {
            Some(o) => match &o.result {
                CodeCellRunResult::Success { output_value, cells_accessed } => match output_value {
                    Value::Array(a) => {
                        proof {
                            a.lemma_model_sides();
                        }
                        (a.width(), a.height())
                    },
                    Value::Single(_) => (1, 1),
                },
                CodeCellRunResult::Failure { error } => (1, 1),
            },
            None => (1, 1),
        }
    }

    /// What a code cell puts out at the offset `(dx, dy)` from its own cell.
    fn output_cell(c: &CodeCellValue, dx: u64, dy: u64) -> (r: Option<CellValue>)
        ensures
            option_model(r) == output_at(c.model(), dx as int, dy as int),
    {
        match &c.output {
            None => None,
            Some(o) => match &o.result {
                CodeCellRunResult::Success { output_value, cells_accessed } => match output_value {
                    Value::Single(v) => if dx == 0 && dy == 0 {
                        Some(v.duplicate())
                    } else {
                        None
                    },
                    Value::Array(a) => {
                        proof {
                            a.lemma_model_sides();
                        }
                        if dx < a.width() as u64 && dy < a.height() as u64 {
                            match a.cell(dx as u32, dy as u32) {
                                Some(v) => Some(v.duplicate()),
                                None => None,
                            }
                        } else {
                            None
                        }
                    },
                },
                CodeCellRunResult::Failure { error } => if dx == 0 && dy == 0 {
                    Some(CellValue::Error(error.msg.clone()))
                } else {
                    None
                },
            },
        }
    }

    /// Whether the output of the code cell at `pos` is spilled: a cell of its
    /// output's rectangle other than its own holds a value or a code cell.
    /// Where `pos` holds no code cell the result is `false`.
    #[verifier::loop_isolation(false)]
    pub fn code_cell_spilled(&self, pos: Pos) -> (r: bool)
        requires
            self.wf(),
        ensures
            r == spilled(self@, pos.x as int, pos.y as int),
    {
        let ghost v = self@;
        let ghost ax = pos.x as int;
        let ghost ay = pos.y as int;
        let c = match self.code_cells.get(pos.x, pos.y) {
            Some(c) => c,
            None => {
                proof {
                    assert(!v.code.dom().contains((ax, ay)));
                    assert forall|x: int, y: int| !#[trigger] obstructs(v, ax, ay, x, y) by {}
                }
                return false;
            },
        };
        let (w, h) = Sheet::output_extent(c);
        proof {
            assert(v.code.dom().contains((ax, ay)));
            assert(v.code[(ax, ay)] == c.model());
        }
        if w == 0 || h == 0 {
            proof {
                assert forall|x: int, y: int| !#[trigger] obstructs(v, ax, ay, x, y) by {}
            }
            return false;
        }
        let far_x: i128 = pos.x as i128 + w as i128 - 1;
        let far_y: i128 = pos.y as i128 + h as i128 - 1;
        let last_x: i64 = if far_x > i64::MAX as i128 {
            i64::MAX
        } else {
            far_x as i64
        };
        let last_y: i64 = if far_y > i64::MAX as i128 {
            i64::MAX
        } else {
            far_y as i64
        };
        let held = self.values.positions_in(pos.x, last_x, pos.y, last_y);
        let mut i: usize = 0;
        while i < held.len()
            invariant
                i <= held.len(),
                forall|k: int| 0 <= k < i ==> held@[k] == (pos.x, pos.y),
            decreases held.len() - i,
        {
            let p = held[i];
            if !(p.0 == pos.x && p.1 == pos.y) {
                proof {
                    assert(self.values.at(p.0 as int, p.1 as int) is Some);
                    assert(v.values.dom().contains((p.0 as int, p.1 as int)));
                    assert(obstructs(v, ax, ay, p.0 as int, p.1 as int));
                }
                return true;
            }
            i += 1;
        }
        let coded = self.code_cells.positions_in(pos.x, last_x, pos.y, last_y);
        let mut j: usize = 0;
        while j < coded.len()
            invariant
                j <= coded.len(),
                forall|k: int| 0 <= k < j ==> coded@[k] == (pos.x, pos.y),
            decreases coded.len() - j,
        {
            let p = coded[j];
            if !(p.0 == pos.x && p.1 == pos.y) {
                proof {
                    assert(self.code_cells.at(p.0 as int, p.1 as int) is Some);
                    assert(v.code.dom().contains((p.0 as int, p.1 as int)));
                    assert(obstructs(v, ax, ay, p.0 as int, p.1 as int));
                }
                return true;
            }
            j += 1;
        }
        proof {
            self.values.lemma_strips();
            self.code_cells.lemma_strips();
            assert forall|x: int, y: int| !#[trigger] obstructs(v, ax, ay, x, y) by {
                if obstructs(v, ax, ay, x, y) {
                    if v.values.dom().contains((x, y)) {
                        assert(self.values.at(x, y) is Some);
                        assert(i64::MIN <= x <= i64::MAX && i64::MIN <= y <= i64::MAX);
                        assert(lists_cell(held@, x, y));
                        let k = choose|k: int|
                            0 <= k < held@.len() && (#[trigger] held@[k]).0 == x && held@[k].1 == y;
                        assert(held@[k] == (pos.x, pos.y));
                    } else {
                        assert(self.code_cells.at(x, y) is Some);
                        assert(i64::MIN <= x <= i64::MAX && i64::MIN <= y <= i64::MAX);
                        assert(lists_cell(coded@, x, y));
                        let k = choose|k: int|
                            0 <= k < coded@.len() && (#[trigger] coded@[k]).0 == x && coded@[k].1 == y;
                        assert(coded@[k] == (pos.x, pos.y));
                    }
                }
            }
        }
        false
    }

    /// What the code cell at `anchor` shows in the cell `pos`.
    fn shown_from(&self, anchor: Pos, pos: Pos) -> (r: Option<CellValue>)
        requires
            self.wf(),
        ensures
            option_model(r) == shown_by(self@, anchor.x as int, anchor.y as int, pos.x as int, pos.y as int),
    {
        let c = match self.code_cells.get(anchor.x, anchor.y) {
            Some(c) => c,
            None => {
                return None;
            },
        };
        if self.code_cell_spilled(anchor) {
            if pos.x == anchor.x && pos.y == anchor.y {
                return Some(CellValue::Error(String::from_str("spill")));
            }
            return None;
        }
        if pos.x < anchor.x || pos.y < anchor.y {
            proof {
                assert(output_at(c.model(), pos.x - anchor.x, pos.y - anchor.y) is None);
            }
            return None;
        }
        let dx: i128 = pos.x as i128 - anchor.x as i128;
        let dy: i128 = pos.y as i128 - anchor.y as i128;
        if dx > u32::MAX as i128 || dy > u32::MAX as i128 {
            proof {
                Sheet::lemma_extent_bound(c);
            }
            return None;
        }
        Sheet::output_cell(c, dx as u64, dy as u64)
    }

    /// The sides of an output fit in 32 bits.
    proof fn lemma_extent_bound(c: &CodeCellValue)
        ensures
            output_size(c.model()).0 <= u32::MAX,
            output_size(c.model()).1 <= u32::MAX,
    {
        match c.output {
            Some(o) => match o.result {
                CodeCellRunResult::Success { output_value: Value::Array(a), cells_accessed } => {
                    a.lemma_model_sides();
                },
                _ => {},
            },
            None => {},
        }
    }

    /// What the code cells of the sheet show in the cell `pos`: what the
    /// first code cell, by column and then by row, that shows something there
    /// shows.
    #[verifier::loop_isolation(false)]
    pub fn get_code_cell_value(&self, pos: Pos) -> (r: Option<CellValue>)
        requires
            self.wf(),
        ensures
            code_shows(self@, pos.x as int, pos.y as int, option_model(r)),
    {
        let ghost v = self@;
        let ghost x = pos.x as int;
        let ghost y = pos.y as int;
        let anchors = self.code_cells.positions_in(i64::MIN, pos.x, i64::MIN, pos.y);
        let mut i: usize = 0;
        while i < anchors.len()
            invariant
                i <= anchors.len(),
                self.wf(),
                v == self@,
                x == pos.x,
                y == pos.y,
                forall|k: int|
                    0 <= k < i ==> shown_by(v, (#[trigger] anchors@[k]).0 as int, anchors@[k].1 as int, x, y) is None,
            decreases anchors.len() - i,
        {
            let a = anchors[i];
            let found = self.shown_from(Pos { x: a.0, y: a.1 }, pos);
            if found.is_some() {
                proof {
                    let ax = a.0 as int;
                    let ay = a.1 as int;
                    assert forall|bx: int, by: int| (bx < ax || (bx == ax && by < ay)) implies #[trigger] shown_by(
                        v,
                        bx,
                        by,
                        x,
                        y,
                    ) is None by {
                        self.lemma_unlisted(anchors@, pos, bx, by);
                        if lists_cell(anchors@, bx, by) {
                            let k = choose|k: int|
                                0 <= k < anchors@.len() && (#[trigger] anchors@[k]).0 == bx && anchors@[k].1 == by;
                            if k >= i {
                                if k > i {
                                    assert(cell_before(anchors@[i as int], anchors@[k]));
                                }
                            }
                        }
                    }
                    assert(first_showing(v, ax, ay, x, y));
                }
                return found;
            }
            i += 1;
        }
        proof {
            assert forall|ax: int, ay: int| #[trigger] shown_by(v, ax, ay, x, y) is None by {
                self.lemma_unlisted(anchors@, pos, ax, ay);
                if lists_cell(anchors@, ax, ay) {
                    let k = choose|k: int|
                        0 <= k < anchors@.len() && (#[trigger] anchors@[k]).0 == ax && anchors@[k].1 == ay;
                    assert(shown_by(v, anchors@[k].0 as int, anchors@[k].1 as int, x, y) is None);
                }
            }
        }
        None
    }

    /// A cell that is not among the code cells up to and left of `pos` shows
    /// nothing in `pos`.
    proof fn lemma_unlisted(&self, anchors: Seq<(i64, i64)>, pos: Pos, ax: int, ay: int)
        requires
            self.wf(),
            forall|key: int, row: int|
                i64::MIN <= key <= pos.x && i64::MIN <= row <= pos.y && self.code_cells.at(key, row) is Some
                    ==> #[trigger] lists_cell(anchors, key, row),
        ensures
            !lists_cell(anchors, ax, ay) ==> shown_by(self@, ax, ay, pos.x as int, pos.y as int) is None,
    {
        let v = self@;
        if !lists_cell(anchors, ax, ay) && v.code.dom().contains((ax, ay)) {
            self.code_cells.lemma_strips();
            assert(self.code_cells.at(ax, ay) is Some);
            assert(i64::MIN <= ax <= i64::MAX && i64::MIN <= ay <= i64::MAX);
            assert(ax > pos.x || ay > pos.y);
        }
    }

    /// What the cell `pos` shows: the value it holds, or else what the code
    /// cells show there.
    pub fn get_cell_value(&self, pos: Pos) -> (r: Option<CellValue>)
        requires
            self.wf(),
        ensures
            cell_shows(self@, pos.x as int, pos.y as int, option_model(r)),
    {
        match self.values.get(pos.x, pos.y) {
            Some(v) => Some(v.duplicate()),
            None => self.get_code_cell_value(pos),
        }
    }

    /// The cells of `rect` that hold a code cell, by column and then by row.
    pub fn code_positions_in(&self, rect: Rect) -> (out: Vec<(i64, i64)>)
        requires
            self.wf(),
        ensures
            forall|a: int, b: int| 0 <= a < b < out.len() ==> cell_before(out@[a], out@[b]),
            forall|a: int|
                0 <= a < out.len() ==> rect.holds((#[trigger] out@[a]).0 as int, out@[a].1 as int)
                    && self@.code.dom().contains((out@[a].0 as int, out@[a].1 as int)),
            forall|x: int, y: int|
                rect.holds(x, y) && self@.code.dom().contains((x, y)) ==> #[trigger] lists_cell(out@, x, y),
    {
        let out = self.code_cells.positions_in(rect.min.x, rect.max.x, rect.min.y, rect.max.y);
        proof {
            assert forall|a: int| 0 <= a < out.len() implies rect.holds(
                (#[trigger] out@[a]).0 as int,
                out@[a].1 as int,
            ) && self@.code.dom().contains((out@[a].0 as int, out@[a].1 as int)) by {
                assert(self.code_cells.at(out@[a].0 as int, out@[a].1 as int) is Some);
            }
            assert forall|x: int, y: int|
                rect.holds(x, y) && self@.code.dom().contains((x, y)) implies #[trigger] lists_cell(out@, x, y) by {
                assert(self.code_cells.at(x, y) is Some);
            }
        }
        out
    }

    /// The tightest rectangle around the cells that hold a value or a code
    /// cell or, unless `ignore_formatting` is set, a format; `None` where no
    /// cell does.
    pub fn bounds(&self, ignore_formatting: bool) -> (r: Option<Rect>)
        requires
            self.wf(),
        ensures
            match r {
                Some(rect) => tight_for(
                    Some(
                        Bounds {
                            min_key: rect.min.x,
                            max_key: rect.max.x,
                            min_row: rect.min.y,
                            max_row: rect.max.y,
                        },
                    ),
                    occupancy(self@, ignore_formatting),
                ),
                None => tight_for(None, occupancy(self@, ignore_formatting)),
            },
    {
        let ghost v = self@;
        let ghost seen0 = nowhere();
        let around1 = widen(None, &self.values, Ghost(seen0));
        let ghost seen1 = either(seen0, self.values);
        let around2 = widen(around1, &self.code_cells, Ghost(seen1));
        let ghost seen2 = either(seen1, self.code_cells);
        let ghost target = occupancy(v, ignore_formatting);
        if ignore_formatting {
            proof {
                assert forall|x: int, y: int| #[trigger] seen2(x, y) == target(x, y) by {
                    assert(v.values.dom().contains((x, y)) == self.values.at(x, y) is Some);
                    assert(v.code.dom().contains((x, y)) == self.code_cells.at(x, y) is Some);
                }
                lemma_tight_same(around2, seen2, target);
            }
            return match around2 {
                Some(b) => Some(
                    Rect { min: Pos { x: b.min_key, y: b.min_row }, max: Pos { x: b.max_key, y: b.max_row } },
                ),
                None => None,
            };
        }
        let around3 = widen(around2, &self.align, Ghost(seen2));
        let ghost seen3 = either(seen2, self.align);
        let around4 = widen(around3, &self.wrap, Ghost(seen3));
        let ghost seen4 = either(seen3, self.wrap);
        let around5 = widen(around4, &self.numeric_format, Ghost(seen4));
        let ghost seen5 = either(seen4, self.numeric_format);
        let around6 = widen(around5, &self.numeric_decimals, Ghost(seen5));
        let ghost seen6 = either(seen5, self.numeric_decimals);
        let around7 = widen(around6, &self.bold, Ghost(seen6));
        let ghost seen7 = either(seen6, self.bold);
        let around8 = widen(around7, &self.italic, Ghost(seen7));
        let ghost seen8 = either(seen7, self.italic);
        let around9 = widen(around8, &self.text_color, Ghost(seen8));
        let ghost seen9 = either(seen8, self.text_color);
        let around10 = widen(around9, &self.fill_color, Ghost(seen9));
        let ghost seen10 = either(seen9, self.fill_color);
        proof {
            assert forall|x: int, y: int| #[trigger] seen10(x, y) == target(x, y) by {
                assert(v.values.dom().contains((x, y)) == self.values.at(x, y) is Some);
                assert(v.code.dom().contains((x, y)) == self.code_cells.at(x, y) is Some);
                assert(v.align.dom().contains((x, y)) == self.align.at(x, y) is Some);
                assert(v.wrap.dom().contains((x, y)) == self.wrap.at(x, y) is Some);
                assert(v.numeric_format.dom().contains((x, y)) == self.numeric_format.at(x, y) is Some);
                assert(v.numeric_decimals.dom().contains((x, y)) == self.numeric_decimals.at(x, y) is Some);
                assert(v.bold.dom().contains((x, y)) == self.bold.at(x, y) is Some);
                assert(v.italic.dom().contains((x, y)) == self.italic.at(x, y) is Some);
                assert(v.text_color.dom().contains((x, y)) == self.text_color.at(x, y) is Some);
                assert(v.fill_color.dom().contains((x, y)) == self.fill_color.at(x, y) is Some);
            }
            lemma_tight_same(around10, seen10, target);
        }
        match around10 {
            Some(b) => Some(
                Rect { min: Pos { x: b.min_key, y: b.min_row }, max: Pos { x: b.max_key, y: b.max_row } },
            ),
            None => None,
        }
    }

    /// The lines on the four edges of the cell at `pos`.
    pub fn border_sides(&self, pos: Pos) -> (r: BorderSides)
        requires
            self.wf(),
        ensures
            sides_model(r) == sides_in(self@, pos.x as int, pos.y as int),
    {
        let r = self.borders.sides(pos);
        proof {
            let x = pos.x as int;
            let y = pos.y as int;
            assert(self.borders.line_at(false, x, y) == map_cell(self@.vertical, false, x, y));
            assert(self.borders.line_at(true, x, y) == map_cell(self@.horizontal, true, x, y));
            assert(self.borders.line_at(false, x + 1, y) == map_cell(self@.vertical, false, x + 1, y));
            assert(self.borders.line_at(true, x, y + 1) == map_cell(self@.horizontal, true, x, y + 1));
        }
        r
    }

    /// The borders of the sheet.
    pub fn borders(&self) -> (r: &SheetBorders)
        requires
            self.wf(),
        ensures
            r.wf(),
            r.lines(true)@ == self@.horizontal,
            r.lines(false)@ == self@.vertical,
    {
        &self.borders
    }

    /// Overwrites the values over `rect` with `values`, a blank clearing its
    /// cell, and hands back what the rectangle held. Where `values` has other
    /// sides than `rect`, nothing changes and the result is `None`.
    pub fn set_cell_values(&mut self, rect: Rect, values: &Array) -> (r: Option<Array>)
        requires
            old(self).wf(),
            values.wf(),
        ensures
            final(self).wf(),
            match r {
                Some(prior) => {
                    &&& matches_array(rect, *values)
                    &&& map_values_captured(prior, old(self)@.values, rect)
                    &&& final(self)@ == values_set(old(self)@, rect, *values)
                },
                None => !matches_array(rect, *values) && final(self)@ == old(self)@,
            },
    {
        let ghost before = self.values;
        let r = overlay_values(&mut self.values, rect, values);
        proof {
            match &r {
                Some(prior) => {
                    lemma_values_written_view(self.values, before, rect, *values);
                    lemma_values_captured_view(*prior, before, rect);
                    assert forall|x: int, y: int| !(#[trigger] self.values.at(x, y) == Some(
                        CellValueModel::Blank,
                    )) by {
                        assert(before.at(x, y) != Some(CellValueModel::Blank));
                    }
                },
                None => {},
            }
        }
        r
    }

    /// Overwrites the formats of one attribute over `rect` with `attr`,
    /// listed row by row, and hands back what the rectangle held; `None`,
    /// and no change, where `attr` has another length than `rect` has cells.
    pub fn set_cell_formats(&mut self, rect: Rect, attr: &CellFmtArray) -> (r: Option<CellFmtArray>)
        requires
            old(self).wf(),
            attr.wf(),
        ensures
            final(self).wf(),
            match r {
                Some(prior) => {
                    &&& fits(rect, attr.spec_len())
                    &&& prior.wf()
                    &&& prior.spec_attr() == attr.spec_attr()
                    &&& formats_captured(prior, old(self)@, rect)
                    &&& final(self)@ == formats_written(old(self)@, rect, *attr)
                },
                None => !fits(rect, attr.spec_len()) && final(self)@ == old(self)@,
            },
    {
        match attr {
            CellFmtArray::Align(values) => {
                let ghost before = self.align;
                match overlay(&mut self.align, false, rect, values) {
                    Some(prior) => {
                        proof {
                            lemma_overwritten_view(self.align, before, false, rect, values.expand());
                            lemma_captures_view(prior.expand(), before, false, rect);
                        }
                        Some(CellFmtArray::Align(prior))
                    },
                    None => None,
                }
            },
            CellFmtArray::Wrap(values) => {
                let ghost before = self.wrap;
                match overlay(&mut self.wrap, false, rect, values) {
                    Some(prior) => {
                        proof {
                            lemma_overwritten_view(self.wrap, before, false, rect, values.expand());
                            lemma_captures_view(prior.expand(), before, false, rect);
                        }
                        Some(CellFmtArray::Wrap(prior))
                    },
                    None => None,
                }
            },
            CellFmtArray::NumericFormat(values) => {
                let ghost before = self.numeric_format;
                match overlay(&mut self.numeric_format, false, rect, values) {
                    Some(prior) => {
                        proof {
                            lemma_overwritten_view(self.numeric_format, before, false, rect, values.expand());
                            lemma_captures_view(prior.expand(), before, false, rect);
                        }
                        Some(CellFmtArray::NumericFormat(prior))
                    },
                    None => None,
                }
            },
            CellFmtArray::NumericDecimals(values) => {
                let ghost before = self.numeric_decimals;
                match overlay(&mut self.numeric_decimals, false, rect, values) {
                    Some(prior) => {
                        proof {
                            lemma_overwritten_view(self.numeric_decimals, before, false, rect, values.expand());
                            lemma_captures_view(prior.expand(), before, false, rect);
                        }
                        Some(CellFmtArray::NumericDecimals(prior))
                    },
                    None => None,
                }
            },
            CellFmtArray::Bold(values) => {
                let ghost before = self.bold;
                match overlay(&mut self.bold, false, rect, values) {
                    Some(prior) => {
                        proof {
                            lemma_overwritten_view(self.bold, before, false, rect, values.expand());
                            lemma_captures_view(prior.expand(), before, false, rect);
                        }
                        Some(CellFmtArray::Bold(prior))
                    },
                    None => None,
                }
            },
            CellFmtArray::Italic(values) => {
                let ghost before = self.italic;
                match overlay(&mut self.italic, false, rect, values) {
                    Some(prior) => {
                        proof {
                            lemma_overwritten_view(self.italic, before, false, rect, values.expand());
                            lemma_captures_view(prior.expand(), before, false, rect);
                        }
                        Some(CellFmtArray::Italic(prior))
                    },
                    None => None,
                }
            },
            CellFmtArray::TextColor(values) => {
                let ghost before = self.text_color;
                match overlay(&mut self.text_color, false, rect, values) {
                    Some(prior) => {
                        proof {
                            lemma_overwritten_view(self.text_color, before, false, rect, values.expand());
                            lemma_captures_view(prior.expand(), before, false, rect);
                        }
                        Some(CellFmtArray::TextColor(prior))
                    },
                    None => None,
                }
            },
            CellFmtArray::FillColor(values) => {
                let ghost before = self.fill_color;
                match overlay(&mut self.fill_color, false, rect, values) {
                    Some(prior) => {
                        proof {
                            lemma_overwritten_view(self.fill_color, before, false, rect, values.expand());
                            lemma_captures_view(prior.expand(), before, false, rect);
                        }
                        Some(CellFmtArray::FillColor(prior))
                    },
                    None => None,
                }
            },
        }
    }

    /// The formats of every attribute over `rect`, each listed row by row,
    /// in the order alignment, wrapping, number format, decimal places, bold,
    /// italic, text colour, fill colour. The list is empty where `rect` is
    /// empty or too large to list.
    pub fn get_all_cell_formats(&self, rect: Rect) -> (out: Vec<CellFmtArray>)
        requires
            self.wf(),
        ensures
            out.len() == 0 || out.len() == 8,
            out.len() == 0 ==> forall|n: int| n <= usize::MAX ==> !fits(rect, n),
            out.len() == 8 ==> {
                &&& out@[0] is Align
                &&& out@[1] is Wrap
                &&& out@[2] is NumericFormat
                &&& out@[3] is NumericDecimals
                &&& out@[4] is Bold
                &&& out@[5] is Italic
                &&& out@[6] is TextColor
                &&& out@[7] is FillColor
            },
            forall|i: int|
                0 <= i < out.len() ==> {
                    &&& (#[trigger] out@[i]).wf()
                    &&& fits(rect, out@[i].spec_len())
                    &&& formats_captured(out@[i], self@, rect)
                },
    {
        let mut out: Vec<CellFmtArray> = Vec::new();
        match capture(&self.align, false, rect) {
            Some(cells) => {
                proof {
                    lemma_captures_view(cells.expand(), self.align, false, rect);
                }
                out.push(CellFmtArray::Align(cells));
            },
            None => {
                return Vec::new();
            },
        }
        match capture(&self.wrap, false, rect) {
            Some(cells) => {
                proof {
                    lemma_captures_view(cells.expand(), self.wrap, false, rect);
                }
                out.push(CellFmtArray::Wrap(cells));
            },
            None => {
                return Vec::new();
            },
        }
        match capture(&self.numeric_format, false, rect) {
            Some(cells) => {
                proof {
                    lemma_captures_view(cells.expand(), self.numeric_format, false, rect);
                }
                out.push(CellFmtArray::NumericFormat(cells));
            },
            None => {
                return Vec::new();
            },
        }
        match capture(&self.numeric_decimals, false, rect) {
            Some(cells) => {
                proof {
                    lemma_captures_view(cells.expand(), self.numeric_decimals, false, rect);
                }
                out.push(CellFmtArray::NumericDecimals(cells));
            },
            None => {
                return Vec::new();
            },
        }
        match capture(&self.bold, false, rect) {
            Some(cells) => {
                proof {
                    lemma_captures_view(cells.expand(), self.bold, false, rect);
                }
                out.push(CellFmtArray::Bold(cells));
            },
            None => {
                return Vec::new();
            },
        }
        match capture(&self.italic, false, rect) {
            Some(cells) => {
                proof {
                    lemma_captures_view(cells.expand(), self.italic, false, rect);
                }
                out.push(CellFmtArray::Italic(cells));
            },
            None => {
                return Vec::new();
            },
        }
        match capture(&self.text_color, false, rect) {
            Some(cells) => {
                proof {
                    lemma_captures_view(cells.expand(), self.text_color, false, rect);
                }
                out.push(CellFmtArray::TextColor(cells));
            },
            None => {
                return Vec::new();
            },
        }
        match capture(&self.fill_color, false, rect) {
            Some(cells) => {
                proof {
                    lemma_captures_view(cells.expand(), self.fill_color, false, rect);
                }
                out.push(CellFmtArray::FillColor(cells));
            },
            None => {
                return Vec::new();
            },
        }
        out
    }

    /// Replaces the code cell at `pos` by `code`, or takes it away for
    /// `None`, and hands back the code cell that was there.
    pub fn set_code_cell(&mut self, pos: Pos, code: Option<CodeCellValue>) -> (r: Option<CodeCellValue>)
        requires
            old(self).wf(),
        ensures
            final(self).wf(),
            option_model(r) == map_cell(old(self)@.code, false, pos.x as int, pos.y as int),
            final(self)@ == code_set(old(self)@, pos.x as int, pos.y as int, option_model(code)),
    {
        let ghost before = self.code_cells;
        let held = match self.code_cells.get(pos.x, pos.y) {
            Some(c) => Some(c.duplicate()),
            None => None,
        };
        self.code_cells.set(pos.x, pos.y, code);
        proof {
            let target = code_set(old(self)@, pos.x as int, pos.y as int, option_model(code)).code;
            assert forall|k: (int, int)| #[trigger] self.code_cells@.dom().contains(k) == target.dom().contains(
                k,
            ) by {
                assert(before@.dom().contains(k) == before.at(k.0, k.1) is Some);
            }
            assert forall|k: (int, int)| #[trigger] self.code_cells@.dom().contains(k) implies self.code_cells@[k]
                == target[k] by {
                assert(before@.dom().contains(k) == before.at(k.0, k.1) is Some);
            }
            assert(self.code_cells@ =~= target);
        }
        held
    }

    /// Overwrites the lines of one direction over `rect` with `lines`,
    /// listed row by row, and hands back what the rectangle held; `None`,
    /// and no change, where `lines` has another length than `rect` has
    /// cells.
    pub fn set_border_lines(
        &mut self,
        horizontal: bool,
        rect: Rect,
        lines: &RunLengthEncoding<Option<CellBorder>>,
    ) -> (r: Option<RunLengthEncoding<Option<CellBorder>>>)
        requires
            old(self).wf(),
            lines.wf(),
        ensures
            final(self).wf(),
            match r {
                Some(prior) => {
                    &&& fits(rect, lines.expand().len() as int)
                    &&& prior.wf()
                    &&& map_captures(prior.expand(), lines_of(old(self)@, horizontal), horizontal, rect)
                    &&& final(self)@ == lines_set(old(self)@, horizontal, rect, lines.expand())
                },
                None => !fits(rect, lines.expand().len() as int) && final(self)@ == old(self)@,
            },
    {
        let ghost before = self.borders;
        let r = self.borders.overlay_lines(horizontal, rect, lines);
        proof {
            match &r {
                Some(prior) => {
                    lemma_overwritten_view(
                        self.borders.lines(horizontal),
                        before.lines(horizontal),
                        horizontal,
                        rect,
                        lines.expand(),
                    );
                    lemma_captures_view(prior.expand(), before.lines(horizontal), horizontal, rect);
                },
                None => {},
            }
        }
        r
    }
}

/// The lines on the four edges of the cell `(x, y)` of the sheet `v`.
pub open spec fn sides_in(v: SheetView, x: int, y: int) -> BorderSidesModel {
    BorderSidesModel {
        left: map_cell(v.vertical, false, x, y),
        top: map_cell(v.horizontal, true, x, y),
        right: if x < i64::MAX {
            map_cell(v.vertical, false, x + 1, y)
        } else {
            None
        },
        bottom: if y < i64::MAX {
            map_cell(v.horizontal, true, x, y + 1)
        } else {
            None
        },
    }
}

/// The sheet without any cell content.
pub open spec fn empty_sheet(id: SheetId, name: Seq<char>, order: Seq<char>) -> SheetView {
    SheetView {
        id,
        name,
        color: None,
        order,
        values: Map::empty(),
        align: Map::empty(),
        wrap: Map::empty(),
        numeric_format: Map::empty(),
        numeric_decimals: Map::empty(),
        bold: Map::empty(),
        italic: Map::empty(),
        text_color: Map::empty(),
        fill_color: Map::empty(),
        code: Map::empty(),
        horizontal: Map::empty(),
        vertical: Map::empty(),
    }
}

} // verus!
