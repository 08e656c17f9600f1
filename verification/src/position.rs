//! Positions and rectangles of cells, alone and together with the sheet that
//! owns them.

use vstd::prelude::*;

verus! {

/// A cell position: column `x`, row `y`.
#[derive(Clone, Copy, Debug, PartialEq, Eq, Hash, Structural)]
pub struct Pos {
    pub x: i64,
    pub y: i64,
}

/// The cells from `min` to `max`, both included. A rectangle whose `max` lies
/// left of or above its `min` holds no cell.
#[derive(Clone, Copy, Debug, PartialEq, Eq, Hash, Structural)]
pub struct Rect {
    pub min: Pos,
    pub max: Pos,
}

/// The stable identifier of a sheet.
#[derive(Clone, Copy, Debug, PartialEq, Eq, Hash, Structural)]
pub struct SheetId {
    pub id: u128,
}

/// A position on a given sheet.
#[derive(Clone, Copy, Debug, PartialEq, Eq, Hash, Structural)]
pub struct SheetPos {
    pub x: i64,
    pub y: i64,
    pub sheet_id: SheetId,
}

/// A rectangle on a given sheet.
#[derive(Clone, Copy, Debug, PartialEq, Eq, Hash, Structural)]
pub struct SheetRect {
    pub min: Pos,
    pub max: Pos,
    pub sheet_id: SheetId,
}

/// The width and height of a non-empty block of cells.
#[derive(Clone, Copy, Debug, PartialEq, Eq, Hash, Structural)]
pub struct ArraySize {
    pub w: u32,
    pub h: u32,
}

impl Pos {
    /// This position on the sheet `sheet_id`.
    pub fn to_sheet_pos(&self, sheet_id: SheetId) -> (r: SheetPos)
        ensures
            r == (SheetPos { x: self.x, y: self.y, sheet_id }),
    {
        SheetPos { x: self.x, y: self.y, sheet_id }
    }
}

impl ArraySize {
    /// A size, unless one side is zero.
    pub fn new(w: u32, h: u32) -> (r: Option<ArraySize>)
        ensures
            r == if w > 0 && h > 0 {
                Some(ArraySize { w, h })
            } else {
                None
            },
    {
        if w > 0 && h > 0 {
            Some(ArraySize { w, h })
        } else {
            None
        }
    }

    /// The number of cells.
    pub fn len(&self) -> (n: u64)
        ensures
            n == self.w * self.h,
    {
        proof {
            assert(self.w * self.h <= u32::MAX * u32::MAX) by (nonlinear_arith)
                requires
                    self.w <= u32::MAX,
                    self.h <= u32::MAX,
            ;
        }
        (self.w as u64) * (self.h as u64)
    }
}

impl Rect {
    /// Whether `min` is not beyond `max` in either direction.
    pub open spec fn nonempty(&self) -> bool {
        self.min.x <= self.max.x && self.min.y <= self.max.y
    }

    /// Whether the cell `(x, y)` lies in the rectangle.
    pub open spec fn holds(&self, x: int, y: int) -> bool {
        self.min.x <= x <= self.max.x && self.min.y <= y <= self.max.y
    }

    /// The number of columns.
    pub open spec fn spec_width(&self) -> int {
        self.max.x - self.min.x + 1
    }

    /// The number of rows.
    pub open spec fn spec_height(&self) -> int {
        self.max.y - self.min.y + 1
    }

    /// The place of the cell `(x, y)` when the cells are counted row by row.
    pub open spec fn index_of(&self, x: int, y: int) -> int {
        (y - self.min.y) * self.spec_width() + (x - self.min.x)
    }

    /// The rectangle spanned by two corners, in whatever order they come.
    pub open spec fn span(a: Pos, b: Pos) -> Rect {
        Rect {
            min: Pos { x: if a.x <= b.x { a.x } else { b.x }, y: if a.y <= b.y { a.y } else { b.y } },
            max: Pos { x: if a.x <= b.x { b.x } else { a.x }, y: if a.y <= b.y { b.y } else { a.y } },
        }
    }

    /// The rectangle spanned by two corners, in whatever order they come.
    pub fn new_span(a: Pos, b: Pos) -> (r: Rect)
        ensures
            r == Rect::span(a, b),
            r.nonempty(),
    {
        Rect {
            min: Pos { x: if a.x <= b.x { a.x } else { b.x }, y: if a.y <= b.y { a.y } else { b.y } },
            max: Pos { x: if a.x <= b.x { b.x } else { a.x }, y: if a.y <= b.y { b.y } else { a.y } },
        }
    }

    /// The rectangle of one cell.
    pub fn single_pos(pos: Pos) -> (r: Rect)
        ensures
            r == (Rect { min: pos, max: pos }),
    {
        Rect { min: pos, max: pos }
    }

    /// Whether `pos` lies in the rectangle.
    pub fn contains(&self, pos: Pos) -> (r: bool)
        ensures
            r == self.holds(pos.x as int, pos.y as int),
    {
        self.min.x <= pos.x && pos.x <= self.max.x && self.min.y <= pos.y && pos.y <= self.max.y
    }

    /// The size of the rectangle, where it is not empty and each side fits in
    /// 32 bits.
    pub fn size(&self) -> (r: Option<ArraySize>)
        ensures
            match r {
                Some(s) => self.nonempty() && s.w == self.spec_width() && s.h == self.spec_height(),
                None => !self.nonempty() || self.spec_width() > u32::MAX || self.spec_height()
                    > u32::MAX,
            },
    {
        if self.min.x > self.max.x || self.min.y > self.max.y {
            return None;
        }
        let w: i128 = self.max.x as i128 - self.min.x as i128 + 1;
        let h: i128 = self.max.y as i128 - self.min.y as i128 + 1;
        if w > u32::MAX as i128 || h > u32::MAX as i128 {
            return None;
        }
        Some(ArraySize { w: w as u32, h: h as u32 })
    }

    /// This rectangle on the sheet `sheet_id`.
    pub fn to_sheet_rect(&self, sheet_id: SheetId) -> (r: SheetRect)
        ensures
            r == (SheetRect { min: self.min, max: self.max, sheet_id }),
    {
        SheetRect { min: self.min, max: self.max, sheet_id }
    }
}

impl SheetPos {
    /// The position without its sheet.
    pub fn pos(&self) -> (r: Pos)
        ensures
            r == (Pos { x: self.x, y: self.y }),
    {
        Pos { x: self.x, y: self.y }
    }
}

impl SheetRect {
    /// The rectangle of one cell.
    pub fn single_pos(pos: SheetPos) -> (r: SheetRect)
        ensures
            r == (SheetRect {
                min: Pos { x: pos.x, y: pos.y },
                max: Pos { x: pos.x, y: pos.y },
                sheet_id: pos.sheet_id,
            }),
    {
        SheetRect {
            min: Pos { x: pos.x, y: pos.y },
            max: Pos { x: pos.x, y: pos.y },
            sheet_id: pos.sheet_id,
        }
    }

    /// The rectangle spanned by two corners on the sheet `sheet_id`.
    pub fn new_pos_span(a: Pos, b: Pos, sheet_id: SheetId) -> (r: SheetRect)
        ensures
            r.spec_rect() == Rect::span(a, b),
            r.sheet_id == sheet_id,
    {
        let rect = Rect::new_span(a, b);
        SheetRect { min: rect.min, max: rect.max, sheet_id }
    }

    /// The rectangle without its sheet.
    #[verifier::when_used_as_spec(spec_rect)]
    pub fn rect(&self) -> (r: Rect)
        ensures
            r == self.spec_rect(),
    {
        Rect { min: self.min, max: self.max }
    }

    /// The rectangle without its sheet.
    pub open spec fn spec_rect(&self) -> Rect {
        Rect { min: self.min, max: self.max }
    }

    /// Whether `pos` is on the same sheet and lies in the rectangle.
    pub fn contains(&self, pos: SheetPos) -> (r: bool)
        ensures
            r == (pos.sheet_id == self.sheet_id && self.spec_rect().holds(pos.x as int, pos.y as int)),
    {
        pos.sheet_id.id == self.sheet_id.id && self.min.x <= pos.x && pos.x <= self.max.x
            && self.min.y <= pos.y && pos.y <= self.max.y
    }
}

/// Cells of one row are counted in column order, and every cell of a row
/// before every cell of a later row.
pub proof fn lemma_index_order(w: int, dx1: int, dy1: int, dx2: int, dy2: int)
    requires
        0 <= dx1 < w,
        0 <= dx2 < w,
        0 <= dy1,
        dy1 < dy2 || (dy1 == dy2 && dx1 < dx2),
    ensures
        0 <= dy1 * w + dx1 < dy2 * w + dx2,
{
    assert(0 <= dy1 * w) by (nonlinear_arith)
        requires
            0 <= dy1,
            0 < w,
    ;
    if dy1 < dy2 {
        assert((dy1 + 1) * w <= dy2 * w) by (nonlinear_arith)
            requires
                dy1 + 1 <= dy2,
                0 < w,
        ;
        assert((dy1 + 1) * w == dy1 * w + w) by (nonlinear_arith);
    }
}

/// A cell of a block of `w` by `h` cells is counted below `w * h`.
pub proof fn lemma_index_bound(w: int, h: int, dx: int, dy: int)
    requires
        0 <= dx < w,
        0 <= dy < h,
    ensures
        0 <= dy * w + dx < w * h,
{
    assert(0 <= dy * w) by (nonlinear_arith)
        requires
            0 <= dy,
            0 < w,
    ;
    assert((dy + 1) * w <= h * w) by (nonlinear_arith)
        requires
            dy + 1 <= h,
            0 < w,
    ;
    assert((dy + 1) * w == dy * w + w) by (nonlinear_arith);
    assert(h * w == w * h) by (nonlinear_arith);
}

} // verus!
