//! Cell borders.
//!
//! A border is a line on the top or the left edge of a cell. Horizontal
//! lines are kept by row and vertical lines by column, so that a line along
//! many cells is one run.

use vstd::prelude::*;
use crate::content::Content;
use crate::plane::Plane;
use crate::plane::canonical_layout;
use crate::plane::layout_covers;
use crate::plane::layout_gives;
use crate::position::Pos;
use crate::position::Rect;
use crate::region::captures;
use crate::region::cell_at;
use crate::region::fits;
use crate::region::overlay;
use crate::region::overwritten;
use crate::rle::RunLengthEncoding;
use crate::runs::Run;

verus! {

/// The styles of a border line.
#[derive(Clone, Copy, Debug, PartialEq, Eq, Hash, Structural)]
pub enum CellBorderStyle {
    Line1,
    Line2,
    Line3,
    Dotted,
    Dashed,
    Double,
}

/// One border line: its colour and its style.
#[derive(Clone, Debug, PartialEq, Eq)]
pub struct CellBorder {
    pub color: Option<String>,
    pub style: Option<CellBorderStyle>,
}

/// A border line as contracts see it.
pub struct CellBorderModel {
    pub color: Option<Seq<char>>,
    pub style: Option<CellBorderStyle>,
}

/// The two lines that belong to a cell: `h` on its top edge and `v` on its
/// left edge.
#[derive(Clone, Debug, PartialEq, Eq)]
pub struct CellBorders {
    pub h: Option<CellBorder>,
    pub v: Option<CellBorder>,
}

/// The lines on the four edges of a cell.
#[derive(Clone, Debug, PartialEq, Eq)]
pub struct BorderSides {
    pub left: Option<CellBorder>,
    pub top: Option<CellBorder>,
    pub right: Option<CellBorder>,
    pub bottom: Option<CellBorder>,
}

/// Which lines of a rectangle a border command speaks of.
#[derive(Clone, Copy, Debug, PartialEq, Eq, Hash, Structural)]
pub enum BorderSelection {
    All,
    Inner,
    Outer,
    Horizontal,
    Vertical,
    Left,
    Top,
    Right,
    Bottom,
    Clear,
}

/// A line as a renderer draws it: from `(x, y)`, `w` cells to the right or
/// `h` cells down.
#[derive(Clone, Debug, PartialEq, Eq)]
pub struct JsRenderBorder {
    pub x: i64,
    pub y: i64,
    pub w: Option<u64>,
    pub h: Option<u64>,
    pub style: CellBorder,
}

/// A drawn line as contracts see it.
pub struct JsRenderBorderModel {
    pub x: int,
    pub y: int,
    pub w: Option<int>,
    pub h: Option<int>,
    pub style: CellBorderModel,
}

/// The borders of a sheet.
#[derive(Clone, Debug, PartialEq, Eq)]
pub struct SheetBorders {
    /// Horizontal lines, transposed: one strip per row `y`, runs along `x`.
    horizontal: Plane<CellBorder>,
    /// Vertical lines: one strip per column `x`, runs along `y`.
    vertical: Plane<CellBorder>,
}

impl Content for CellBorderStyle {
    type Model = CellBorderStyle;

    open spec fn model(&self) -> CellBorderStyle {
        *self
    }

    fn same(&self, other: &Self) -> (r: bool) {
        *self == *other
    }

    fn duplicate(&self) -> (r: Self) {
        *self
    }
}

impl Content for CellBorder {
    type Model = CellBorderModel;

    open spec fn model(&self) -> CellBorderModel {
        CellBorderModel { color: self.color.model(), style: self.style.model() }
    }

    fn same(&self, other: &Self) -> (r: bool) {
        self.color.same(&other.color) && self.style.same(&other.style)
    }

    fn duplicate(&self) -> (r: Self) {
        CellBorder { color: self.color.duplicate(), style: self.style.duplicate() }
    }
}

impl JsRenderBorder {
    /// The model of the drawn line.
    pub open spec fn model(&self) -> JsRenderBorderModel {
        JsRenderBorderModel {
            x: self.x as int,
            y: self.y as int,
            w: match self.w {
                Some(n) => Some(n as int),
                None => None,
            },
            h: match self.h {
                Some(n) => Some(n as int),
                None => None,
            },
            style: self.style.model(),
        }
    }
}

/// The number of cells in a run, capped at the greatest `u64`.
pub open spec fn run_cells(start: int, last: int) -> int {
    if last - start + 1 > u64::MAX {
        u64::MAX as int
    } else {
        last - start + 1
    }
}

/// The drawn line that stands for one run of the strip with key `key`.
pub open spec fn line_model(horizontal: bool, key: int, run: Run<CellBorderModel>) -> JsRenderBorderModel {
    if horizontal {
        JsRenderBorderModel {
            x: run.start,
            y: key,
            w: Some(run_cells(run.start, run.last)),
            h: None,
            style: run.value,
        }
    } else {
        JsRenderBorderModel {
            x: key,
            y: run.start,
            w: None,
            h: Some(run_cells(run.start, run.last)),
            style: run.value,
        }
    }
}

/// The drawn lines of one strip, in ascending order.
pub open spec fn strip_lines(plane: Plane<CellBorder>, horizontal: bool, i: int) -> Seq<
    JsRenderBorderModel,
> {
    Seq::new(
        plane.strip_runs(i).len(),
        |a: int| line_model(horizontal, plane.keys()[i], plane.strip_runs(i)[a]),
    )
}

/// The drawn lines of the first `n` strips: strip after strip in ascending
/// key order, and within a strip run after run.
pub open spec fn rendered_upto(plane: Plane<CellBorder>, horizontal: bool, n: int) -> Seq<
    JsRenderBorderModel,
>
    decreases n,
{
    if n <= 0 {
        Seq::empty()
    } else {
        rendered_upto(plane, horizontal, n - 1) + strip_lines(plane, horizontal, n - 1)
    }
}

/// Planes with the same keys and the same runs are drawn alike.
proof fn lemma_rendered_same(a: Plane<CellBorder>, b: Plane<CellBorder>, horizontal: bool, n: int)
    requires
        a.keys() == b.keys(),
        forall|i: int| 0 <= i < a.keys().len() ==> a.strip_runs(i) == b.strip_runs(i),
        0 <= n <= a.keys().len(),
    ensures
        rendered_upto(a, horizontal, n) == rendered_upto(b, horizontal, n),
    decreases n,
{
    if n > 0 {
        lemma_rendered_same(a, b, horizontal, n - 1);
        assert(a.strip_runs(n - 1) == b.strip_runs(n - 1));
        assert(strip_lines(a, horizontal, n - 1) =~= strip_lines(b, horizontal, n - 1));
    }
}

/// The drawn lines of one strip of a layout, in ascending order.
pub open spec fn layout_strip_lines(strip: (int, Seq<Run<CellBorderModel>>), horizontal: bool) -> Seq<
    JsRenderBorderModel,
> {
    Seq::new(strip.1.len(), |a: int| line_model(horizontal, strip.0, strip.1[a]))
}

/// The drawn lines of a layout: strip after strip, and within a strip run
/// after run.
pub open spec fn layout_lines(layout: Seq<(int, Seq<Run<CellBorderModel>>)>, horizontal: bool) -> Seq<
    JsRenderBorderModel,
>
    decreases layout.len(),
{
    if layout.len() == 0 {
        Seq::empty()
    } else {
        layout_lines(layout.drop_last(), horizontal) + layout_strip_lines(layout.last(), horizontal)
    }
}

/// The lines drawn for the first `n` strips of a plane are those of the
/// first `n` strips of its layout.
proof fn lemma_rendered_layout(plane: Plane<CellBorder>, horizontal: bool, n: int)
    requires
        0 <= n <= plane.keys().len(),
    ensures
        rendered_upto(plane, horizontal, n) == layout_lines(plane.layout().take(n), horizontal),
    decreases n,
{
    let part = plane.layout().take(n);
    if n > 0 {
        lemma_rendered_layout(plane, horizontal, n - 1);
        assert(part.drop_last() =~= plane.layout().take(n - 1));
        assert(part.last() == (plane.keys()[n - 1], plane.strip_runs(n - 1)));
        assert(strip_lines(plane, horizontal, n - 1) =~= layout_strip_lines(part.last(), horizontal));
    }
}

/// The strip of a drawn line: its row where it is horizontal, its column
/// where it is vertical.
pub open spec fn line_key(horizontal: bool, line: JsRenderBorderModel) -> int {
    if horizontal {
        line.y
    } else {
        line.x
    }
}

/// Where a drawn line starts along its strip.
pub open spec fn line_start(horizontal: bool, line: JsRenderBorderModel) -> int {
    if horizontal {
        line.x
    } else {
        line.y
    }
}

/// The number of cells along which a drawn line runs.
pub open spec fn line_cells(horizontal: bool, line: JsRenderBorderModel) -> int {
    if horizontal {
        line.w->0
    } else {
        line.h->0
    }
}

/// Whether a drawn line has the extent of its direction only, and at least
/// one cell of it.
pub open spec fn line_shaped(horizontal: bool, line: JsRenderBorderModel) -> bool {
    &&& horizontal ==> line.w is Some && line.h is None
    &&& !horizontal ==> line.h is Some && line.w is None
    &&& 1 <= line_cells(horizontal, line) <= u64::MAX
}

/// Whether line `a` is drawn before line `b`: in an earlier strip, or in the
/// same strip and ending before `b` starts, with another style where the
/// two touch.
pub open spec fn line_before(horizontal: bool, a: JsRenderBorderModel, b: JsRenderBorderModel) -> bool {
    ||| line_key(horizontal, a) < line_key(horizontal, b)
    ||| {
        &&& line_key(horizontal, a) == line_key(horizontal, b)
        &&& line_start(horizontal, a) + line_cells(horizontal, a) <= line_start(horizontal, b)
        &&& line_start(horizontal, a) + line_cells(horizontal, a) == line_start(horizontal, b) ==> a.style
            != b.style
    }
}

/// Whether a drawn line runs along the place `along` of its strip.
pub open spec fn line_holds(horizontal: bool, line: JsRenderBorderModel, along: int) -> bool {
    line_start(horizontal, line) <= along < line_start(horizontal, line) + line_cells(horizontal, line)
}

/// Whether a drawn line of strip `key` reaches the place `along`: it runs
/// along it, or starts before it and has the greatest extent that a line can
/// state.
pub open spec fn line_reaches(horizontal: bool, line: JsRenderBorderModel, key: int, along: int) -> bool {
    &&& line_key(horizontal, line) == key
    &&& line_start(horizontal, line) <= along
    &&& line_holds(horizontal, line, along) || line_cells(horizontal, line) == u64::MAX
}

/// What holds of the lines drawn for the first `n` strips of a plane.
proof fn lemma_lines_upto(plane: Plane<CellBorder>, horizontal: bool, n: int)
    requires
        plane.wf(),
        0 <= n <= plane.keys().len(),
    ensures
        forall|k: int|
            0 <= k < rendered_upto(plane, horizontal, n).len() ==> line_shaped(
                horizontal,
                #[trigger] rendered_upto(plane, horizontal, n)[k],
            ),
        forall|k: int, j: int|
            0 <= k < rendered_upto(plane, horizontal, n).len() && n <= j < plane.keys().len() ==> line_key(
                horizontal,
                #[trigger] rendered_upto(plane, horizontal, n)[k],
            ) < #[trigger] plane.keys()[j],
        forall|k: int, l: int|
            0 <= k < l < rendered_upto(plane, horizontal, n).len() ==> line_before(
                horizontal,
                #[trigger] rendered_upto(plane, horizontal, n)[k],
                #[trigger] rendered_upto(plane, horizontal, n)[l],
            ),
        forall|k: int, along: int|
            0 <= k < rendered_upto(plane, horizontal, n).len() && #[trigger] line_holds(
                horizontal,
                rendered_upto(plane, horizontal, n)[k],
                along,
            ) ==> plane.at(line_key(horizontal, rendered_upto(plane, horizontal, n)[k]), along) == Some(
                rendered_upto(plane, horizontal, n)[k].style,
            ),
        forall|i: int, a: int|
            0 <= i < n && 0 <= a < plane.strip_runs(i).len() ==> exists|k: int|
                0 <= k < rendered_upto(plane, horizontal, n).len() && #[trigger] rendered_upto(
                    plane,
                    horizontal,
                    n,
                )[k] == line_model(horizontal, plane.keys()[i], #[trigger] plane.strip_runs(i)[a]),
    decreases n,
{
    if n > 0 {
        lemma_lines_upto(plane, horizontal, n - 1);
        plane.lemma_strips();
        let i = n - 1;
        let key = plane.keys()[i];
        let runs = plane.strip_runs(i);
        let before = rendered_upto(plane, horizontal, i);
        let strip = strip_lines(plane, horizontal, i);
        let all = rendered_upto(plane, horizontal, n);
        assert(all == before + strip);
        assert forall|a: int| 0 <= a < runs.len() implies line_shaped(horizontal, #[trigger] strip[a]) && line_key(
            horizontal,
            strip[a],
        ) == key && line_start(horizontal, strip[a]) == runs[a].start && strip[a].style == runs[a].value && line_cells(
            horizontal,
            strip[a],
        ) == run_cells(runs[a].start, runs[a].last) by {
            assert(plane.strip_runs(i)[a].start <= plane.strip_runs(i)[a].last);
        }
        assert forall|k: int| 0 <= k < all.len() implies line_shaped(horizontal, #[trigger] all[k]) by {
            if k < before.len() {
                assert(all[k] == before[k]);
            } else {
                assert(all[k] == strip[k - before.len()]);
            }
        }
        assert forall|k: int, j: int| 0 <= k < all.len() && n <= j < plane.keys().len() implies line_key(
            horizontal,
            #[trigger] all[k],
        ) < #[trigger] plane.keys()[j] by {
            if k < before.len() {
                assert(all[k] == before[k]);
            } else {
                assert(all[k] == strip[k - before.len()]);
                assert(plane.keys()[i] < plane.keys()[j]);
            }
        }
        assert forall|k: int, l: int| 0 <= k < l < all.len() implies line_before(
            horizontal,
            #[trigger] all[k],
            #[trigger] all[l],
        ) by {
            if l < before.len() {
                assert(all[k] == before[k]);
                assert(all[l] == before[l]);
            } else if k < before.len() {
                assert(all[k] == before[k]);
                assert(all[l] == strip[l - before.len()]);
                assert(line_key(horizontal, before[k]) < plane.keys()[i]);
            } else {
                let a = k - before.len();
                let b = l - before.len();
                assert(all[k] == strip[a]);
                assert(all[l] == strip[b]);
                assert(plane.strip_runs(i)[a].last < plane.strip_runs(i)[b].start);
                assert(plane.strip_runs(i)[a].start <= plane.strip_runs(i)[a].last);
                if runs[a].start + run_cells(runs[a].start, runs[a].last) == runs[b].start {
                    if a + 1 < b {
                        assert(plane.strip_runs(i)[a].last < plane.strip_runs(i)[a + 1].start);
                        assert(plane.strip_runs(i)[a + 1].start <= plane.strip_runs(i)[a + 1].last);
                        assert(plane.strip_runs(i)[a + 1].last < plane.strip_runs(i)[b].start);
                    }
                    assert(plane.strip_runs(i)[a].last + 1 == plane.strip_runs(i)[b].start);
                }
            }
        }
        assert forall|k: int, along: int| 0 <= k < all.len() && #[trigger] line_holds(
            horizontal,
            all[k],
            along,
        ) implies plane.at(line_key(horizontal, all[k]), along) == Some(all[k].style) by {
            if k < before.len() {
                assert(all[k] == before[k]);
                assert(line_holds(horizontal, before[k], along));
            } else {
                let a = k - before.len();
                assert(all[k] == strip[a]);
                assert(plane.strip_runs(i)[a].start <= along <= plane.strip_runs(i)[a].last);
                assert(plane.at(plane.keys()[i], along) == Some(plane.strip_runs(i)[a].value));
            }
        }
        assert forall|j: int, a: int| 0 <= j < n && 0 <= a < plane.strip_runs(j).len() implies exists|k: int|
            0 <= k < all.len() && #[trigger] all[k] == line_model(
                horizontal,
                plane.keys()[j],
                #[trigger] plane.strip_runs(j)[a],
            ) by {
            if j < i {
                let k = choose|k: int|
                    0 <= k < before.len() && #[trigger] before[k] == line_model(
                        horizontal,
                        plane.keys()[j],
                        plane.strip_runs(j)[a],
                    );
                assert(all[k] == before[k]);
            } else {
                assert(all[before.len() + a] == strip[a]);
            }
        }
    }
}

/// The models of a list of drawn lines.
pub open spec fn line_models(lines: Seq<JsRenderBorder>) -> Seq<JsRenderBorderModel> {
    Seq::new(lines.len(), |i: int| lines[i].model())
}

/// Draws every run of the plane as one line.
fn render_lines(plane: &Plane<CellBorder>, horizontal: bool) -> (out: Vec<JsRenderBorder>)
    requires
        plane.wf(),
    ensures
        line_models(out@) == rendered_upto(*plane, horizontal, plane.keys().len() as int),
{
    let mut out: Vec<JsRenderBorder> = Vec::new();
    let n = plane.strip_count();
    let mut i: usize = 0;
    proof {
        assert(line_models(out@) =~= rendered_upto(*plane, horizontal, 0));
    }
    while i < n
        invariant
            i <= n,
            n == plane.keys().len(),
            plane.wf(),
            line_models(out@) == rendered_upto(*plane, horizontal, i as int),
        decreases n - i,
    {
        let key = plane.strip_key(i);
        let cells = plane.strip_cells(i);
        let count = cells.len();
        let ghost prior = out@;
        let mut a: usize = 0;
        proof {
            cells.lemma_runs();
        }
        while a < count
            invariant
                a <= count,
                i < n,
                n == plane.keys().len(),
                count == cells.runs().len(),
                cells.wf(),
                cells.runs() == plane.strip_runs(i as int),
                key == plane.keys()[i as int],
                forall|k: int|
                    0 <= k < cells.runs().len() ==> (#[trigger] cells.runs()[k]).start
                        <= cells.runs()[k].last,
                out@.len() == prior.len() + a,
                forall|k: int| 0 <= k < prior.len() ==> out@[k] == prior[k],
                forall|k: int|
                    0 <= k < a ==> (#[trigger] out@[prior.len() + k]).model() == strip_lines(
                        *plane,
                        horizontal,
                        i as int,
                    )[k],
            decreases count - a,
        {
            let b = cells.block(a);
            assert(cells.runs()[a as int].start <= cells.runs()[a as int].last);
            let cells_in_run = b.len();
            let style = b.value.duplicate();
            let line = if horizontal {
                JsRenderBorder { x: b.start, y: key, w: Some(cells_in_run), h: None, style }
            } else {
                JsRenderBorder { x: key, y: b.start, w: None, h: Some(cells_in_run), style }
            };
            out.push(line);
            a += 1;
        }
        proof {
            let joined = line_models(prior) + strip_lines(*plane, horizontal, i as int);
            assert(line_models(out@).len() == joined.len());
            assert forall|k: int| 0 <= k < out@.len() implies line_models(out@)[k] == joined[k] by {
                if k < prior.len() {
                    assert(out@[k] == prior[k]);
                } else {
                    let d = k - prior.len();
                    assert(out@[prior.len() + d].model() == strip_lines(*plane, horizontal, i as int)[d]);
                }
            }
            assert(line_models(out@) =~= joined);
        }
        i += 1;
    }
    out
}

impl SheetBorders {
    /// Both planes are well formed.
    pub closed spec fn wf(&self) -> bool {
        self.horizontal.wf() && self.vertical.wf()
    }

    /// The plane of horizontal lines, keyed by row, or of vertical lines,
    /// keyed by column.
    pub closed spec fn lines(&self, horizontal: bool) -> Plane<CellBorder> {
        if horizontal {
            self.horizontal
        } else {
            self.vertical
        }
    }

    /// The horizontal line on the top edge of the cell `(x, y)`, or the
    /// vertical line on its left edge.
    pub open spec fn line_at(&self, horizontal: bool, x: int, y: int) -> Option<CellBorderModel> {
        cell_at(self.lines(horizontal), horizontal, x, y)
    }

    /// The lines of one direction as a renderer draws them.
    pub open spec fn drawn(&self, horizontal: bool) -> Seq<JsRenderBorderModel> {
        rendered_upto(self.lines(horizontal), horizontal, self.lines(horizontal).keys().len() as int)
    }

    /// The planes of well-formed borders are well formed.
    pub proof fn lemma_planes(&self)
        requires
            self.wf(),
        ensures
            self.lines(true).wf(),
            self.lines(false).wf(),
    {
    }

    /// How the lines of one direction lie in strips and runs: what
    /// `Plane::lemma_strips` says of the plane that a renderer draws. Strips
    /// ascend by key, none is empty, runs within a strip are ordered, runs
    /// that touch differ in style, a run gives its style to the cells it
    /// covers, and a cell outside every run has no line.
    pub proof fn lemma_strips(&self, horizontal: bool)
        requires
            self.wf(),
        ensures
            self.lines(horizontal).wf(),
            forall|i: int, j: int|
                0 <= i < j < self.lines(horizontal).keys().len() ==> (
                #[trigger] self.lines(horizontal).keys()[i]) < (#[trigger] self.lines(horizontal).keys()[j]),
            forall|i: int|
                0 <= i < self.lines(horizontal).keys().len() ==> i64::MIN <= (
                #[trigger] self.lines(horizontal).keys()[i]) <= i64::MAX && self.lines(
                    horizontal,
                ).strip_runs(i).len() > 0,
            forall|i: int, a: int, b: int|
                0 <= i < self.lines(horizontal).keys().len() && 0 <= a < b < self.lines(
                    horizontal,
                ).strip_runs(i).len() ==> (#[trigger] self.lines(horizontal).strip_runs(i)[a]).last < (
                #[trigger] self.lines(horizontal).strip_runs(i)[b]).start,
            forall|i: int, a: int, b: int|
                0 <= i < self.lines(horizontal).keys().len() && 0 <= a && b == a + 1 && b < self.lines(
                    horizontal,
                ).strip_runs(i).len() && (#[trigger] self.lines(horizontal).strip_runs(i)[a]).last + 1 == (
                #[trigger] self.lines(horizontal).strip_runs(i)[b]).start ==> self.lines(
                    horizontal,
                ).strip_runs(i)[a].value != self.lines(horizontal).strip_runs(i)[b].value,
    {
        self.lines(horizontal).lemma_strips();
    }

    /// What a renderer draws is decided by the lines of the cells: two
    /// well-formed borders that have the same line of one direction on every
    /// cell are drawn alike in that direction, line by line.
    pub proof fn lemma_rendered(&self, other: &SheetBorders, horizontal: bool)
        requires
            self.wf(),
            other.wf(),
            forall|x: int, y: int| self.line_at(horizontal, x, y) == other.line_at(horizontal, x, y),
        ensures
            self.drawn(horizontal) == other.drawn(horizontal),
    {
        let a = self.lines(horizontal);
        let b = other.lines(horizontal);
        assert(a@ =~= b@) by {
            assert forall|k: (int, int)| #[trigger] a@.dom().contains(k) == b@.dom().contains(k) by {
                if horizontal {
                    assert(self.line_at(horizontal, k.1, k.0) == a.at(k.0, k.1));
                    assert(other.line_at(horizontal, k.1, k.0) == b.at(k.0, k.1));
                } else {
                    assert(self.line_at(horizontal, k.0, k.1) == a.at(k.0, k.1));
                    assert(other.line_at(horizontal, k.0, k.1) == b.at(k.0, k.1));
                }
            }
            assert forall|k: (int, int)| #[trigger] a@.dom().contains(k) implies a@[k] == b@[k] by {
                if horizontal {
                    assert(self.line_at(horizontal, k.1, k.0) == a.at(k.0, k.1));
                    assert(other.line_at(horizontal, k.1, k.0) == b.at(k.0, k.1));
                } else {
                    assert(self.line_at(horizontal, k.0, k.1) == a.at(k.0, k.1));
                    assert(other.line_at(horizontal, k.0, k.1) == b.at(k.0, k.1));
                }
            }
        }
        a.lemma_canonical(&b);
        lemma_rendered_same(a, b, horizontal, a.keys().len() as int);
    }

    /// The lines of one direction by strip: for each key (a row for
    /// horizontal lines, a column for vertical ones) and each place along the
    /// strip, the line of that cell.
    pub open spec fn strip_reading(&self, horizontal: bool) -> spec_fn(int, int) -> Option<CellBorderModel> {
        |key: int, along: int|
            if horizontal {
                self.line_at(true, along, key)
            } else {
                self.line_at(false, key, along)
            }
    }

    /// What a renderer draws, from the lines of the cells: whatever
    /// canonical layout gives every cell its line of one direction is what is
    /// drawn in that direction.
    pub proof fn lemma_drawn(&self, horizontal: bool, layout: Seq<(int, Seq<Run<CellBorderModel>>)>)
        requires
            self.wf(),
            canonical_layout(layout),
            layout_gives(layout, self.strip_reading(horizontal)),
        ensures
            self.lines(horizontal).layout() == layout,
            self.drawn(horizontal) == layout_lines(layout, horizontal),
    {
        let plane = self.lines(horizontal);
        let g = plane.reading();
        let h = self.strip_reading(horizontal);
        assert forall|key: int, row: int| #[trigger] g(key, row) == h(key, row) by {
            if horizontal {
                assert(self.line_at(true, row, key) == plane.at(key, row));
            } else {
                assert(self.line_at(false, key, row) == plane.at(key, row));
            }
        }
        assert(layout_gives(layout, g)) by {
            assert forall|i: int, a: int, key: int, row: int| #[trigger]
                layout_covers(layout, i, a, key, row) implies g(key, row) == Some(layout[i].1[a].value) by {
                assert(h(key, row) == Some(layout[i].1[a].value));
            }
            assert forall|key: int, row: int| (#[trigger] g(key, row)) is Some implies exists|i: int, a: int| #[trigger]
                layout_covers(layout, i, a, key, row) by {
                assert(h(key, row) is Some);
            }
        }
        plane.lemma_layout_is(layout);
        lemma_rendered_layout(plane, horizontal, plane.keys().len() as int);
        assert(plane.layout().take(plane.keys().len() as int) =~= plane.layout());
    }

    /// How the lines of one direction are drawn. Every drawn line has the
    /// extent of its direction and at least one cell; the lines come strip
    /// after strip and, within a strip, one after the other without overlap,
    /// and two that touch differ in style; a drawn line gives its style to
    /// the cells it runs along; and a cell that has a line is reached by a
    /// drawn line.
    pub proof fn lemma_lines(&self, horizontal: bool)
        requires
            self.wf(),
        ensures
            forall|k: int|
                0 <= k < self.drawn(horizontal).len() ==> line_shaped(horizontal, #[trigger] self.drawn(horizontal)[k]),
            forall|k: int, l: int|
                0 <= k < l < self.drawn(horizontal).len() ==> line_before(
                    horizontal,
                    #[trigger] self.drawn(horizontal)[k],
                    #[trigger] self.drawn(horizontal)[l],
                ),
            forall|k: int, along: int|
                0 <= k < self.drawn(horizontal).len() && #[trigger] line_holds(
                    horizontal,
                    self.drawn(horizontal)[k],
                    along,
                ) ==> self.strip_reading(horizontal)(line_key(horizontal, self.drawn(horizontal)[k]), along)
                    == Some(self.drawn(horizontal)[k].style),
            forall|key: int, along: int|
                (#[trigger] self.strip_reading(horizontal)(key, along)) is Some ==> exists|k: int|
                    0 <= k < self.drawn(horizontal).len() && line_reaches(
                        horizontal,
                        #[trigger] self.drawn(horizontal)[k],
                        key,
                        along,
                    ),
    {
        let plane = self.lines(horizontal);
        let n = plane.keys().len() as int;
        let all = self.drawn(horizontal);
        lemma_lines_upto(plane, horizontal, n);
        plane.lemma_strips();
        assert forall|key: int, along: int| #[trigger]
            self.strip_reading(horizontal)(key, along) == plane.at(key, along) by {
            if horizontal {
                assert(self.line_at(true, along, key) == plane.at(key, along));
            } else {
                assert(self.line_at(false, key, along) == plane.at(key, along));
            }
        }
        assert forall|k: int, along: int| 0 <= k < all.len() && #[trigger] line_holds(
            horizontal,
            all[k],
            along,
        ) implies self.strip_reading(horizontal)(line_key(horizontal, all[k]), along) == Some(all[k].style) by {
            assert(plane.at(line_key(horizontal, all[k]), along) == Some(all[k].style));
        }
        assert forall|key: int, along: int| (#[trigger] self.strip_reading(horizontal)(key, along)) is Some implies 
        exists|k: int| 0 <= k < all.len() && line_reaches(horizontal, #[trigger] all[k], key, along) by {
            assert(plane.at(key, along) is Some);
            let (i, a) = choose|i: int, a: int|
                0 <= i < plane.keys().len() && 0 <= a < plane.strip_runs(i).len() && plane.keys()[i] == key && (
                #[trigger] plane.strip_runs(i)[a]).start <= along <= plane.strip_runs(i)[a].last;
            let run = plane.strip_runs(i)[a];
            let k = choose|k: int|
                0 <= k < all.len() && #[trigger] all[k] == line_model(horizontal, plane.keys()[i], run);
            assert(line_reaches(horizontal, all[k], key, along));
        }
    }

    /// No borders.
    pub fn new() -> (r: Self)
        ensures
            r.wf(),
            forall|horizontal: bool, x: int, y: int| r.line_at(horizontal, x, y) is None,
    {
        SheetBorders { horizontal: Plane::new(), vertical: Plane::new() }
    }

    /// A second set of borders with the same lines.
    pub fn duplicate(&self) -> (r: Self)
        requires
            self.wf(),
        ensures
            r.wf(),
            r.lines(true)@ == self.lines(true)@,
            r.lines(false)@ == self.lines(false)@,
            forall|horizontal: bool, x: int, y: int| r.line_at(horizontal, x, y) == self.line_at(horizontal, x, y),
    {
        SheetBorders { horizontal: self.horizontal.duplicate(), vertical: self.vertical.duplicate() }
    }

    /// Gives every cell of `region` the horizontal line `value` on its top
    /// edge.
    pub fn set_horizontal_border(&mut self, region: Rect, value: CellBorder)
        requires
            old(self).wf(),
        ensures
            final(self).wf(),
            final(self).lines(false) == old(self).lines(false),
            forall|x: int, y: int|
                final(self).line_at(true, x, y) == if region.holds(x, y) {
                    Some(value.model())
                } else {
                    old(self).line_at(true, x, y)
                },
    {
        fill_strips(&mut self.horizontal, region.min.y, region.max.y, region.min.x, region.max.x, &value);
    }

    /// Gives every cell of `region` the vertical line `value` on its left
    /// edge.
    pub fn set_vertical_border(&mut self, region: Rect, value: CellBorder)
        requires
            old(self).wf(),
        ensures
            final(self).wf(),
            final(self).lines(true) == old(self).lines(true),
            forall|x: int, y: int|
                final(self).line_at(false, x, y) == if region.holds(x, y) {
                    Some(value.model())
                } else {
                    old(self).line_at(false, x, y)
                },
    {
        fill_strips(&mut self.vertical, region.min.x, region.max.x, region.min.y, region.max.y, &value);
    }

    /// The horizontal lines as a renderer draws them: row after row in
    /// ascending order, and within a row from left to right.
    pub fn get_render_horizontal_borders(&self) -> (out: Vec<JsRenderBorder>)
        requires
            self.wf(),
        ensures
            line_models(out@) == self.drawn(true),
    {
        render_lines(&self.horizontal, true)
    }

    /// The vertical lines as a renderer draws them: column after column in
    /// ascending order, and within a column from top to bottom.
    pub fn get_render_vertical_borders(&self) -> (out: Vec<JsRenderBorder>)
        requires
            self.wf(),
        ensures
            line_models(out@) == self.drawn(false),
    {
        render_lines(&self.vertical, false)
    }

    /// The line on the top edge of the cell `pos`, or on its left edge.
    pub fn line(&self, horizontal: bool, pos: Pos) -> (r: Option<CellBorder>)
        requires
            self.wf(),
        ensures
            crate::content::option_model(r) == self.line_at(horizontal, pos.x as int, pos.y as int),
    {
        let found = if horizontal {
            self.horizontal.get(pos.y, pos.x)
        } else {
            self.vertical.get(pos.x, pos.y)
        };
        match found {
            Some(b) => Some(b.duplicate()),
            None => None,
        }
    }

    /// The two lines that belong to the cell `pos`.
    pub fn cell_borders(&self, pos: Pos) -> (r: CellBorders)
        requires
            self.wf(),
        ensures
            crate::content::option_model(r.h) == self.line_at(true, pos.x as int, pos.y as int),
            crate::content::option_model(r.v) == self.line_at(false, pos.x as int, pos.y as int),
    {
        CellBorders { h: self.line(true, pos), v: self.line(false, pos) }
    }

    /// The lines on the four edges of the cell `pos`. The right and the
    /// bottom edge are the left edge of the cell to the right and the top
    /// edge of the cell below; beyond the last column or row there is none.
    pub fn sides(&self, pos: Pos) -> (r: BorderSides)
        requires
            self.wf(),
        ensures
            sides_model(r) == self.sides_at(pos.x as int, pos.y as int),
    {
        let right = if pos.x < i64::MAX {
            self.line(false, Pos { x: pos.x + 1, y: pos.y })
        } else {
            None
        };
        let bottom = if pos.y < i64::MAX {
            self.line(true, Pos { x: pos.x, y: pos.y + 1 })
        } else {
            None
        };
        BorderSides { left: self.line(false, pos), top: self.line(true, pos), right, bottom }
    }

    /// The lines on the four edges of the cell `(x, y)`.
    pub open spec fn sides_at(&self, x: int, y: int) -> BorderSidesModel {
        BorderSidesModel {
            left: self.line_at(false, x, y),
            top: self.line_at(true, x, y),
            right: if x < i64::MAX {
                self.line_at(false, x + 1, y)
            } else {
                None
            },
            bottom: if y < i64::MAX {
                self.line_at(true, x, y + 1)
            } else {
                None
            },
        }
    }

    /// Overwrites the lines of one direction over `rect` with `values`,
    /// listed row by row, and hands back what the rectangle held; `None`,
    /// and no change, where `values` has another length than `rect` has
    /// cells.
    pub fn overlay_lines(
        &mut self,
        horizontal: bool,
        rect: Rect,
        values: &RunLengthEncoding<Option<CellBorder>>,
    ) -> (r: Option<RunLengthEncoding<Option<CellBorder>>>)
        requires
            old(self).wf(),
            values.wf(),
        ensures
            final(self).wf(),
            final(self).lines(!horizontal) == old(self).lines(!horizontal),
            match r {
                Some(prior) => {
                    &&& fits(rect, values.expand().len() as int)
                    &&& prior.wf()
                    &&& captures(prior.expand(), old(self).lines(horizontal), horizontal, rect)
                    &&& overwritten(
                        final(self).lines(horizontal),
                        old(self).lines(horizontal),
                        horizontal,
                        rect,
                        values.expand(),
                    )
                },
                None => !fits(rect, values.expand().len() as int) && final(self).lines(horizontal)
                    == old(self).lines(horizontal),
            },
    {
        if horizontal {
            overlay(&mut self.horizontal, true, rect, values)
        } else {
            overlay(&mut self.vertical, false, rect, values)
        }
    }
}

/// The lines on the four edges of a cell as contracts see them.
pub struct BorderSidesModel {
    pub left: Option<CellBorderModel>,
    pub top: Option<CellBorderModel>,
    pub right: Option<CellBorderModel>,
    pub bottom: Option<CellBorderModel>,
}

/// The model of the four sides.
pub open spec fn sides_model(s: BorderSides) -> BorderSidesModel {
    BorderSidesModel {
        left: s.left.model(),
        top: s.top.model(),
        right: s.right.model(),
        bottom: s.bottom.model(),
    }
}

/// Gives the cells `first ..= last` of every strip with a key in
/// `key_first ..= key_last` the value `value`.
fn fill_strips(
    plane: &mut Plane<CellBorder>,
    key_first: i64,
    key_last: i64,
    first: i64,
    last: i64,
    value: &CellBorder,
)
    requires
        old(plane).wf(),
    ensures
        final(plane).wf(),
        forall|key: int, row: int|
            final(plane).at(key, row) == if key_first <= key <= key_last && first <= row <= last {
                Some(value.model())
            } else {
                old(plane).at(key, row)
            },
{
    if key_first > key_last {
        return ;
    }
    let ghost before = *plane;
    let mut key = key_first;
    let mut done = false;
    while !done
        invariant
            key_first <= key <= key_last,
            plane.wf(),
            forall|k: int, row: int|
                plane.at(k, row) == if key_first <= k && (k < key || (done && k <= key_last)) && first
                    <= row <= last {
                    Some(value.model())
                } else {
                    before.at(k, row)
                },
        decreases key_last - key + (if done { 0int } else { 1int }),
    {
        plane.set_range(key, first, last, Some(value.duplicate()));
        if key < key_last {
            key = key + 1;
        } else {
            done = true;
        }
    }
}

} // verus!
