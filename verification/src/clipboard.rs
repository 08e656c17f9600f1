//! The clipboard: a rectangle of a sheet as a snapshot that can be pasted
//! elsewhere, as plain text, and as the body of a table in markup.

use vstd::prelude::*;
use crate::content::Content;
use crate::borders::BorderSides;
use crate::borders::BorderSidesModel;
use crate::borders::sides_model;
use crate::code::stripped_model;
use crate::code::CodeCellValue;
use crate::content::option_model;
use crate::formatting::CellFmtArray;
use crate::plane::cell_before;
use crate::plane::lists_cell;
use crate::position::lemma_index_bound;
use crate::position::lemma_index_order;
use crate::position::Pos;
use crate::position::Rect;
use crate::region::earlier;
use crate::region::fits;
use crate::region::map_cell;
use crate::sheet::code_value;
use crate::sheet::formats_captured;
use crate::sheet::lemma_code_value;
use crate::sheet::sides_in;
use crate::sheet::Sheet;
use crate::sheet::SheetView;
use crate::values::display_text;
use crate::values::CellValue;
use crate::values::CellValueModel;

verus! {

/// One cell of a snapshot.
#[derive(Clone, Debug, PartialEq, Eq)]
pub struct ClipboardCell {
    /// The value that the cell itself held.
    pub value: Option<CellValue>,
    /// What a code cell showed in the cell, where the cell held no value.
    pub spill: Option<CellValue>,
}

/// A snapshot of a rectangle: `w` by `h` cells listed row by row, the formats
/// of the rectangle, the borders of its cells and the code cells in it, with
/// every position counted from the rectangle's first cell.
#[derive(Clone, Debug, PartialEq, Eq)]
pub struct Clipboard {
    pub w: u32,
    pub h: u32,
    pub cells: Vec<ClipboardCell>,
    pub formats: Vec<CellFmtArray>,
    pub borders: Vec<(i64, i64, Option<BorderSides>)>,
    pub code: Vec<(Pos, CodeCellValue)>,
}

/// What copying a rectangle gives: the plain text, the body of the table in
/// markup, and the snapshot.
pub struct ClipboardCopy {
    pub plain_text: String,
    pub html: String,
    pub clipboard: Clipboard,
}

/// Whether the rectangle has a size and no more cells than a list can hold.
pub open spec fn copyable(rect: Rect) -> bool {
    &&& rect.nonempty()
    &&& rect.spec_width() <= u32::MAX
    &&& rect.spec_height() <= u32::MAX
    &&& rect.spec_width() * rect.spec_height() <= usize::MAX
}

/// The value that the cell `(x, y)` shows: the one it holds, or else what a
/// code cell shows there.
pub open spec fn visible(v: SheetView, x: int, y: int) -> Option<CellValueModel> {
    if v.values.dom().contains((x, y)) {
        Some(v.values[(x, y)])
    } else {
        code_value(v, x, y)
    }
}

/// The text of the cell `(x, y)`.
pub open spec fn cell_text(v: SheetView, x: int, y: int) -> Seq<char> {
    match visible(v, x, y) {
        Some(m) => display_text(m),
        None => Seq::empty(),
    }
}

/// The plain text of the first `k` cells of row `y` of the rectangle: the
/// texts of the cells with a tab between them.
pub open spec fn plain_row(v: SheetView, rect: Rect, y: int, k: int) -> Seq<char>
    decreases k,
{
    if k <= 0 {
        Seq::empty()
    } else {
        plain_row(v, rect, y, k - 1) + (if k > 1 {
            "\t"@
        } else {
            Seq::empty()
        }) + cell_text(v, rect.min.x + k - 1, y)
    }
}

/// The plain text of the first `j` rows of the rectangle: the rows with a
/// line break between them.
pub open spec fn plain_rows(v: SheetView, rect: Rect, j: int) -> Seq<char>
    decreases j,
{
    if j <= 0 {
        Seq::empty()
    } else {
        plain_rows(v, rect, j - 1) + (if j > 1 {
            "\n"@
        } else {
            Seq::empty()
        }) + plain_row(v, rect, rect.min.y + j - 1, rect.spec_width())
    }
}

/// Whether the cell `(x, y)` is set in bold.
pub open spec fn is_bold(v: SheetView, x: int, y: int) -> bool {
    v.bold.dom().contains((x, y)) && v.bold[(x, y)]
}

/// Whether the cell `(x, y)` is set in italics.
pub open spec fn is_italic(v: SheetView, x: int, y: int) -> bool {
    v.italic.dom().contains((x, y)) && v.italic[(x, y)]
}

/// The markup of the cell `(x, y)`: its text, inside a span that carries
/// bold and italics where the cell has either.
pub open spec fn cell_html(v: SheetView, x: int, y: int) -> Seq<char> {
    let bold = is_bold(v, x, y);
    let italic = is_italic(v, x, y);
    if bold || italic {
        "<td>"@ + "<span style={"@ + (if bold {
            "font-weight:bold;"@
        } else {
            Seq::empty()
        }) + (if italic {
            "font-style:italic;"@
        } else {
            Seq::empty()
        }) + "}>"@ + cell_text(v, x, y) + "</span>"@
    } else {
        "<td>"@ + cell_text(v, x, y)
    }
}

/// The markup of the first `k` cells of row `y` of the rectangle. A cell is
/// closed when the next one opens; the last cell of a row stays open.
pub open spec fn html_row(v: SheetView, rect: Rect, y: int, k: int) -> Seq<char>
    decreases k,
{
    if k <= 0 {
        Seq::empty()
    } else {
        html_row(v, rect, y, k - 1) + (if k > 1 {
            "</td>"@
        } else {
            Seq::empty()
        }) + cell_html(v, rect.min.x + k - 1, y)
    }
}

/// The markup of the first `j` rows of the rectangle, after the opening of
/// the table's body. A row is closed when the next one opens.
pub open spec fn html_rows(v: SheetView, rect: Rect, j: int) -> Seq<char>
    decreases j,
{
    if j <= 0 {
        "<tbody>"@
    } else {
        html_rows(v, rect, j - 1) + (if j > 1 {
            "</tr>"@
        } else {
            Seq::empty()
        }) + "<tr>"@ + html_row(v, rect, rect.min.y + j - 1, rect.spec_width())
    }
}

/// The model of one cell of a snapshot.
pub struct ClipboardCellModel {
    pub value: Option<CellValueModel>,
    pub spill: Option<CellValueModel>,
}

impl ClipboardCell {
    /// The model of the cell.
    pub open spec fn model(&self) -> ClipboardCellModel {
        ClipboardCellModel { value: option_model(self.value), spill: option_model(self.spill) }
    }
}

/// What a snapshot holds for the cell `(x, y)`: the value of the cell, and
/// what a code cell shows there where the cell has no value.
pub open spec fn snapshot_cell(v: SheetView, x: int, y: int) -> ClipboardCellModel {
    ClipboardCellModel {
        value: map_cell(v.values, false, x, y),
        spill: if v.values.dom().contains((x, y)) {
            None
        } else {
            code_value(v, x, y)
        },
    }
}

/// Whether `cells` lists, row by row, the snapshot cells of the rectangle.
pub open spec fn cells_copied(cells: Seq<ClipboardCell>, v: SheetView, rect: Rect) -> bool {
    &&& cells.len() == rect.spec_width() * rect.spec_height()
    &&& forall|x: int, y: int| #[trigger]
        rect.holds(x, y) ==> cells[rect.index_of(x, y)].model() == snapshot_cell(v, x, y)
}

/// Whether a cell has a line on any of its four edges.
pub open spec fn any_side(s: BorderSidesModel) -> bool {
    s.left is Some || s.top is Some || s.right is Some || s.bottom is Some
}

/// Whether `borders` lists, row by row, the offset of each cell of the
/// rectangle with the lines on its edges, or `None` for a cell without any.
pub open spec fn borders_copied(
    borders: Seq<(i64, i64, Option<BorderSides>)>,
    v: SheetView,
    rect: Rect,
) -> bool {
    &&& borders.len() == rect.spec_width() * rect.spec_height()
    &&& forall|x: int, y: int| #[trigger]
        rect.holds(x, y) ==> border_entry(borders[rect.index_of(x, y)], v, rect, x, y)
    &&& forall|e: int| 0 <= e < borders.len() ==> entry_in(#[trigger] borders[e], v, rect)
}

/// Whether `b` is the entry of a snapshot for the borders of the cell of
/// `rect` at the offset that `b` names.
pub open spec fn entry_in(b: (i64, i64, Option<BorderSides>), v: SheetView, rect: Rect) -> bool {
    rect.holds(rect.min.x + b.0, rect.min.y + b.1) && border_entry(
        b,
        v,
        rect,
        rect.min.x + b.0,
        rect.min.y + b.1,
    )
}

/// Whether `code` lists the code cells of the rectangle, by column and then
/// by row, each at its offset from the rectangle's first cell and without
/// what its last run gave.
pub open spec fn code_copied(code: Seq<(Pos, CodeCellValue)>, v: SheetView, rect: Rect) -> bool {
    &&& forall|a: int, b: int|
        0 <= a < b < code.len() ==> cell_before(
            ((#[trigger] code[a]).0.x, code[a].0.y),
            ((#[trigger] code[b]).0.x, code[b].0.y),
        )
    &&& forall|a: int|
        0 <= a < code.len() ==> {
            let x = rect.min.x + (#[trigger] code[a]).0.x;
            let y = rect.min.y + code[a].0.y;
            &&& rect.holds(x, y)
            &&& v.code.dom().contains((x, y))
            &&& code[a].1.model() == stripped_model(v.code[(x, y)])
        }
    &&& forall|x: int, y: int|
        rect.holds(x, y) && v.code.dom().contains((x, y)) ==> exists|a: int|
            0 <= a < code.len() && (#[trigger] code[a]).0.x == x - rect.min.x && code[a].0.y == y
                - rect.min.y
}

/// Whether `formats` lists the formats of every attribute over the
/// rectangle.
pub open spec fn formats_copied(formats: Seq<CellFmtArray>, v: SheetView, rect: Rect) -> bool {
    &&& formats.len() == 8
    &&& formats[0] is Align
    &&& formats[1] is Wrap
    &&& formats[2] is NumericFormat
    &&& formats[3] is NumericDecimals
    &&& formats[4] is Bold
    &&& formats[5] is Italic
    &&& formats[6] is TextColor
    &&& formats[7] is FillColor
    &&& forall|i: int|
        0 <= i < 8 ==> {
            &&& (#[trigger] formats[i]).wf()
            &&& fits(rect, formats[i].spec_len())
            &&& formats_captured(formats[i], v, rect)
        }
}

impl Clipboard {
    /// Every list of formats is well formed.
    pub open spec fn wf(&self) -> bool {
        forall|i: int| 0 <= i < self.formats@.len() ==> (#[trigger] self.formats@[i]).wf()
    }

    /// A snapshot of nothing.
    pub fn empty() -> (r: Clipboard)
        ensures
            r.wf(),
            r.w == 0,
            r.h == 0,
            r.cells@.len() == 0,
            r.formats@.len() == 0,
            r.borders@.len() == 0,
            r.code@.len() == 0,
    {
        Clipboard {
            w: 0,
            h: 0,
            cells: Vec::new(),
            formats: Vec::new(),
            borders: Vec::new(),
            code: Vec::new(),
        }
    }
}

/// Whether `c` is the snapshot of the rectangle `rect` of the sheet `v`.
pub open spec fn snapshot_of(c: Clipboard, v: SheetView, rect: Rect) -> bool {
    &&& c.w == rect.spec_width()
    &&& c.h == rect.spec_height()
    &&& cells_copied(c.cells@, v, rect)
    &&& formats_copied(c.formats@, v, rect)
    &&& borders_copied(c.borders@, v, rect)
    &&& code_copied(c.code@, v, rect)
}

/// The snapshot cells of the rectangle, row by row.
fn copy_cells(sheet: &Sheet, rect: Rect, w: u32, h: u32) -> (cells: Vec<ClipboardCell>)
    requires
        sheet.wf(),
        copyable(rect),
        w == rect.spec_width(),
        h == rect.spec_height(),
    ensures
        cells_copied(cells@, sheet@, rect),
{
    let ghost v = sheet@;
    let mut cells: Vec<ClipboardCell> = Vec::new();
    let mut dy: u32 = 0;
    while dy < h
        invariant
            dy <= h,
            sheet.wf(),
            v == sheet@,
            copyable(rect),
            w == rect.spec_width(),
            h == rect.spec_height(),
            cells@.len() == dy * w,
            forall|x: int, y: int| #[trigger]
                rect.holds(x, y) && y - rect.min.y < dy ==> cells@[rect.index_of(x, y)].model()
                    == snapshot_cell(v, x, y),
        decreases h - dy,
    {
        let mut dx: u32 = 0;
        while dx < w
            invariant
                dx <= w,
                dy < h,
                sheet.wf(),
                v == sheet@,
                copyable(rect),
                w == rect.spec_width(),
                h == rect.spec_height(),
                cells@.len() == dy * w + dx,
                forall|x: int, y: int| #[trigger]
                    rect.holds(x, y) && earlier(x - rect.min.x, y - rect.min.y, dx as int, dy as int)
                        ==> cells@[rect.index_of(x, y)].model() == snapshot_cell(v, x, y),
            decreases w - dx,
        {
            let x: i64 = (rect.min.x as i128 + dx as i128) as i64;
            let y: i64 = (rect.min.y as i128 + dy as i128) as i64;
            let pos = Pos { x, y };
            proof {
                lemma_index_bound(w as int, h as int, dx as int, dy as int);
            }
            let value = sheet.get_cell_value_only(pos);
            let spill = if value.is_none() {
                let s = sheet.get_code_cell_value(pos);
                proof {
                    lemma_code_value(v, x as int, y as int, option_model(s));
                }
                s
            } else {
                None
            };
            let ghost seen = cells@;
            cells.push(ClipboardCell { value, spill });
            proof {
                assert forall|a: int, b: int| #[trigger]
                    rect.holds(a, b) && earlier(a - rect.min.x, b - rect.min.y, dx + 1, dy as int) implies cells@[rect.index_of(
                    a,
                    b,
                )].model() == snapshot_cell(v, a, b) by {
                    if a == x && b == y {
                    } else {
                        lemma_index_order(w as int, a - rect.min.x, b - rect.min.y, dx as int, dy as int);
                        assert(cells@[rect.index_of(a, b)] == seen[rect.index_of(a, b)]);
                    }
                }
            }
            dx += 1;
        }
        proof {
            assert((dy + 1) * w == dy * w + w) by (nonlinear_arith);
            assert forall|x: int, y: int| #[trigger]
                rect.holds(x, y) && y - rect.min.y < dy + 1 implies cells@[rect.index_of(x, y)].model()
                == snapshot_cell(v, x, y) by {
                assert(earlier(x - rect.min.x, y - rect.min.y, w as int, dy as int));
            }
        }
        dy += 1;
    }
    proof {
        assert(h * w == w * h) by (nonlinear_arith);
    }
    cells
}

/// The borders of the cells of the rectangle, row by row.
fn copy_borders(sheet: &Sheet, rect: Rect, w: u32, h: u32) -> (borders: Vec<(i64, i64, Option<BorderSides>)>)
    requires
        sheet.wf(),
        copyable(rect),
        w == rect.spec_width(),
        h == rect.spec_height(),
    ensures
        borders_copied(borders@, sheet@, rect),
{
    let ghost v = sheet@;
    let mut borders: Vec<(i64, i64, Option<BorderSides>)> = Vec::new();
    let mut dy: u32 = 0;
    while dy < h
        invariant
            dy <= h,
            sheet.wf(),
            v == sheet@,
            copyable(rect),
            w == rect.spec_width(),
            h == rect.spec_height(),
            borders@.len() == dy * w,
            forall|e: int| 0 <= e < borders@.len() ==> entry_in(#[trigger] borders@[e], v, rect),
            forall|x: int, y: int| #[trigger]
                rect.holds(x, y) && y - rect.min.y < dy ==> border_entry(borders@[rect.index_of(x, y)], v, rect, x, y),
        decreases h - dy,
    {
        let mut dx: u32 = 0;
        while dx < w
            invariant
                dx <= w,
                dy < h,
                sheet.wf(),
                v == sheet@,
                copyable(rect),
                w == rect.spec_width(),
                h == rect.spec_height(),
                borders@.len() == dy * w + dx,
                forall|e: int| 0 <= e < borders@.len() ==> entry_in(#[trigger] borders@[e], v, rect),
                forall|x: int, y: int| #[trigger]
                    rect.holds(x, y) && earlier(x - rect.min.x, y - rect.min.y, dx as int, dy as int)
                        ==> border_entry(borders@[rect.index_of(x, y)], v, rect, x, y),
            decreases w - dx,
        {
            let x: i64 = (rect.min.x as i128 + dx as i128) as i64;
            let y: i64 = (rect.min.y as i128 + dy as i128) as i64;
            proof {
                lemma_index_bound(w as int, h as int, dx as int, dy as int);
            }
            let sides = sheet.border_sides(Pos { x, y });
            let any = sides.left.is_some() || sides.top.is_some() || sides.right.is_some()
                || sides.bottom.is_some();
            let entry = if any {
                Some(sides)
            } else {
                None
            };
            let ghost seen = borders@;
            borders.push((dx as i64, dy as i64, entry));
            proof {
                assert forall|e: int| 0 <= e < borders@.len() implies entry_in(#[trigger] borders@[e], v, rect) by {
                    if e < seen.len() {
                        assert(borders@[e] == seen[e]);
                    }
                }
                assert forall|a: int, b: int| #[trigger]
                    rect.holds(a, b) && earlier(a - rect.min.x, b - rect.min.y, dx + 1, dy as int) implies border_entry(
                    borders@[rect.index_of(a, b)],
                    v,
                    rect,
                    a,
                    b,
                ) by {
                    if a == x && b == y {
                    } else {
                        lemma_index_order(w as int, a - rect.min.x, b - rect.min.y, dx as int, dy as int);
                        assert(borders@[rect.index_of(a, b)] == seen[rect.index_of(a, b)]);
                    }
                }
            }
            dx += 1;
        }
        proof {
            assert((dy + 1) * w == dy * w + w) by (nonlinear_arith);
            assert forall|x: int, y: int| #[trigger]
                rect.holds(x, y) && y - rect.min.y < dy + 1 implies border_entry(
                borders@[rect.index_of(x, y)],
                v,
                rect,
                x,
                y,
            ) by {
                assert(earlier(x - rect.min.x, y - rect.min.y, w as int, dy as int));
            }
        }
        dy += 1;
    }
    proof {
        assert(h * w == w * h) by (nonlinear_arith);
        assert forall|x: int, y: int| #[trigger] rect.holds(x, y) implies border_entry(
            borders@[rect.index_of(x, y)],
            v,
            rect,
            x,
            y,
        ) by {}
    }
    borders
}

/// Whether `b` is the entry of a snapshot for the borders of the cell
/// `(x, y)`.
pub open spec fn border_entry(
    b: (i64, i64, Option<BorderSides>),
    v: SheetView,
    rect: Rect,
    x: int,
    y: int,
) -> bool {
    &&& b.0 == x - rect.min.x
    &&& b.1 == y - rect.min.y
    &&& match b.2 {
        Some(s) => sides_model(s) == sides_in(v, x, y) && any_side(sides_in(v, x, y)),
        None => !any_side(sides_in(v, x, y)),
    }
}

/// The code cells of the rectangle, each at its offset and without output.
#[verifier::loop_isolation(false)]
fn copy_code(sheet: &Sheet, rect: Rect) -> (code: Vec<(Pos, CodeCellValue)>)
    requires
        sheet.wf(),
        copyable(rect),
    ensures
        code_copied(code@, sheet@, rect),
{
    let ghost v = sheet@;
    let coded = sheet.code_positions_in(rect);
    let mut code: Vec<(Pos, CodeCellValue)> = Vec::new();
    let mut i: usize = 0;
    while i < coded.len()
        invariant
            i <= coded.len(),
            code@.len() == i,
            forall|a: int|
                0 <= a < i ==> {
                    &&& (#[trigger] code@[a]).0.x == coded@[a].0 - rect.min.x
                    &&& code@[a].0.y == coded@[a].1 - rect.min.y
                    &&& code@[a].1.model() == stripped_model(v.code[(coded@[a].0 as int, coded@[a].1 as int)])
                },
        decreases coded.len() - i,
    {
        let p = coded[i];
        let at = Pos { x: p.0, y: p.1 };
        match sheet.get_code_cell(at) {
            Some(c) => {
                let offset = Pos {
                    x: (p.0 as i128 - rect.min.x as i128) as i64,
                    y: (p.1 as i128 - rect.min.y as i128) as i64,
                };
                code.push((offset, c.stripped()));
            },
            None => {
                proof {
                    assert(false);
                }
            },
        }
        i += 1;
    }
    proof {
        assert forall|a: int, b: int| 0 <= a < b < code@.len() implies cell_before(
            ((#[trigger] code@[a]).0.x, code@[a].0.y),
            ((#[trigger] code@[b]).0.x, code@[b].0.y),
        ) by {
            assert(cell_before(coded@[a], coded@[b]));
        }
        assert forall|x: int, y: int| rect.holds(x, y) && v.code.dom().contains((x, y)) implies exists|a: int|
            0 <= a < code@.len() && (#[trigger] code@[a]).0.x == x - rect.min.x && code@[a].0.y == y
                - rect.min.y by {
            assert(lists_cell(coded@, x, y));
            let a = choose|a: int| 0 <= a < coded@.len() && (#[trigger] coded@[a]).0 == x && coded@[a].1 == y;
            assert(code@[a].0.x == x - rect.min.x);
        }
    }
    code
}

/// The snapshot of the rectangle `rect` of the sheet.
pub fn copy_snapshot(sheet: &Sheet, rect: Rect) -> (r: Option<Clipboard>)
    requires
        sheet.wf(),
    ensures
        match r {
            Some(c) => copyable(rect) && c.wf() && snapshot_of(c, sheet@, rect),
            None => !copyable(rect),
        },
{
    let size = match rect.size() {
        Some(s) => s,
        None => {
            return None;
        },
    };
    if size.len() > usize::MAX as u64 {
        return None;
    }
    let cells = copy_cells(sheet, rect, size.w, size.h);
    let formats = sheet.get_all_cell_formats(rect);
    let borders = copy_borders(sheet, rect, size.w, size.h);
    let code = copy_code(sheet, rect);
    proof {
        if formats@.len() == 0 {
            assert(fits(rect, rect.spec_width() * rect.spec_height()));
        }
    }
    Some(Clipboard { w: size.w, h: size.h, cells, formats, borders, code })
}

/// The plain text and the markup of the rectangle `rect` of the sheet.
pub fn copy_text(sheet: &Sheet, rect: Rect) -> (r: (String, String))
    requires
        sheet.wf(),
        copyable(rect),
    ensures
        r.0@ == plain_rows(sheet@, rect, rect.spec_height()),
        r.1@ == html_rows(sheet@, rect, rect.spec_height()) + "</tr></tbody></table>"@,
{
    let ghost v = sheet@;
    let size = match rect.size() {
        Some(s) => s,
        None => {
            proof {
                assert(false);
            }
            crate::position::ArraySize { w: 1, h: 1 }
        },
    };
    let w = size.w;
    let h = size.h;
    let mut plain = String::new();
    let mut html = String::from_str("<tbody>");
    let mut dy: u32 = 0;
    while dy < h
        invariant
            dy <= h,
            sheet.wf(),
            v == sheet@,
            copyable(rect),
            w == rect.spec_width(),
            h == rect.spec_height(),
            plain@ == plain_rows(v, rect, dy as int),
            html@ == html_rows(v, rect, dy as int),
        decreases h - dy,
    {
        let y: i64 = (rect.min.y as i128 + dy as i128) as i64;
        let mut row_plain = String::new();
        let mut row_html = String::new();
        let mut dx: u32 = 0;
        while dx < w
            invariant
                dx <= w,
                dy < h,
                sheet.wf(),
                v == sheet@,
                copyable(rect),
                w == rect.spec_width(),
                h == rect.spec_height(),
                y == rect.min.y + dy,
                row_plain@ == plain_row(v, rect, y as int, dx as int),
                row_html@ == html_row(v, rect, y as int, dx as int),
            decreases w - dx,
        {
            let x: i64 = (rect.min.x as i128 + dx as i128) as i64;
            let pos = Pos { x, y };
            let shown = sheet.get_cell_value(pos);
            proof {
                if !v.values.dom().contains((x as int, y as int)) {
                    lemma_code_value(v, x as int, y as int, option_model(shown));
                }
                assert(option_model(shown) == visible(v, x as int, y as int));
            }
            let text = match &shown {
                Some(value) => value.to_display(),
                None => String::new(),
            };
            if dx > 0 {
                row_plain.append("\t");
                row_html.append("</td>");
            } else {
                proof {
                    assert(row_plain@ + Seq::<char>::empty() =~= row_plain@);
                    assert(row_html@ + Seq::<char>::empty() =~= row_html@);
                }
            }
            row_plain.append(text.as_str());
            let summary = sheet.get_cell_format_summary(pos);
            let bold = match summary.bold {
                Some(b) => b,
                None => false,
            };
            let italic = match summary.italic {
                Some(b) => b,
                None => false,
            };
            let mut cell = String::from_str("<td>");
            if bold || italic {
                cell.append("<span style={");
                if bold {
                    cell.append("font-weight:bold;");
                } else {
                    proof {
                        assert(cell@ + Seq::<char>::empty() =~= cell@);
                    }
                }
                if italic {
                    cell.append("font-style:italic;");
                } else {
                    proof {
                        assert(cell@ + Seq::<char>::empty() =~= cell@);
                    }
                }
                cell.append("}>");
                cell.append(text.as_str());
                cell.append("</span>");
            } else {
                cell.append(text.as_str());
            }
            proof {
                assert(cell@ == cell_html(v, x as int, y as int));
            }
            row_html.append(cell.as_str());
            dx += 1;
        }
        if dy > 0 {
            plain.append("\n");
            html.append("</tr>");
        } else {
            proof {
                assert(plain@ + Seq::<char>::empty() =~= plain@);
                assert(html@ + Seq::<char>::empty() =~= html@);
            }
        }
        plain.append(row_plain.as_str());
        html.append("<tr>");
        html.append(row_html.as_str());
        dy += 1;
    }
    html.append("</tr></tbody></table>");
    (plain, html)
}

} // verus!
