//! Cell values and rectangular blocks of them.

use vstd::prelude::*;
use crate::content::Content;
use crate::decimal::Decimal;
use crate::decimal::DecimalModel;
use crate::decimal::spec_decimal_display;
use crate::position::ArraySize;

verus! {

/// What a cell can hold.
#[derive(Clone, Debug, PartialEq, Eq)]
pub enum CellValue {
    /// Nothing.
    Blank,
    /// Text, kept as it was written.
    Text(String),
    /// A decimal number.
    Number(Decimal),
    /// True or false.
    Logical(bool),
    /// An error, with its message.
    Error(String),
}

/// A cell value as contracts see it.
pub enum CellValueModel {
    Blank,
    Text(Seq<char>),
    Number(DecimalModel),
    Logical(bool),
    Error(Seq<char>),
}

/// The text that stands for a value in plain text and in markup.
pub open spec fn display_text(v: CellValueModel) -> Seq<char> {
    match v {
        CellValueModel::Blank => Seq::empty(),
        CellValueModel::Text(s) => s,
        CellValueModel::Number(d) => spec_decimal_display(d),
        CellValueModel::Logical(b) => if b {
            "TRUE"@
        } else {
            "FALSE"@
        },
        CellValueModel::Error(m) => m,
    }
}

/// A value as a sparse store holds it: nothing for a blank.
pub open spec fn stored(v: CellValueModel) -> Option<CellValueModel> {
    if v is Blank {
        None
    } else {
        Some(v)
    }
}

/// What a cell that may hold nothing shows as a value: a blank for nothing.
pub open spec fn shown(v: Option<CellValueModel>) -> CellValueModel {
    match v {
        Some(m) => m,
        None => CellValueModel::Blank,
    }
}

impl Content for CellValue {
    type Model = CellValueModel;

    open spec fn model(&self) -> CellValueModel {
        match self {
            CellValue::Blank => CellValueModel::Blank,
            CellValue::Text(s) => CellValueModel::Text(s@),
            CellValue::Number(d) => CellValueModel::Number(d@),
            CellValue::Logical(b) => CellValueModel::Logical(*b),
            CellValue::Error(m) => CellValueModel::Error(m@),
        }
    }

    fn same(&self, other: &Self) -> (r: bool) {
        match (self, other) {
            (CellValue::Blank, CellValue::Blank) => true,
            (CellValue::Text(a), CellValue::Text(b)) => *a == *b,
            (CellValue::Number(a), CellValue::Number(b)) => a.same(b),
            (CellValue::Logical(a), CellValue::Logical(b)) => *a == *b,
            (CellValue::Error(a), CellValue::Error(b)) => *a == *b,
            _ => false,
        }
    }

    fn duplicate(&self) -> (r: Self) {
        match self {
            CellValue::Blank => CellValue::Blank,
            CellValue::Text(s) => CellValue::Text(s.clone()),
            CellValue::Number(d) => CellValue::Number(d.duplicate()),
            CellValue::Logical(b) => CellValue::Logical(*b),
            CellValue::Error(m) => CellValue::Error(m.clone()),
        }
    }
}

impl CellValue {
    /// The text that stands for the value in plain text and in markup.
    pub fn to_display(&self) -> (r: String)
        ensures
            r@ == display_text(self.model()),
    {
        match self {
            CellValue::Blank => String::new(),
            CellValue::Text(s) => s.clone(),
            CellValue::Number(d) => d.to_text(),
            CellValue::Logical(b) => if *b {
                String::from_str("TRUE")
            } else {
                String::from_str("FALSE")
            },
            CellValue::Error(m) => m.clone(),
        }
    }

    /// The value as a sparse store holds it: nothing for a blank.
    pub fn into_stored(self) -> (r: Option<CellValue>)
        ensures
            crate::content::option_model(r) == stored(self.model()),
    {
        match self {
            CellValue::Blank => None,
            v => Some(v),
        }
    }

    /// The value that a cell shows: a blank where it holds nothing.
    pub fn from_stored(v: Option<&CellValue>) -> (r: CellValue)
        ensures
            r.model() == match v {
                Some(c) => c.model(),
                None => CellValueModel::Blank,
            },
    {
        match v {
            Some(c) => c.duplicate(),
            None => CellValue::Blank,
        }
    }
}

/// A block of `size.w` by `size.h` values, kept row by row.
#[derive(Clone, Debug, PartialEq, Eq)]
pub struct Array {
    size: ArraySize,
    rows: Vec<Vec<CellValue>>,
}

/// A block of values as contracts see it.
pub struct ArrayModel {
    pub w: int,
    pub h: int,
    pub rows: Seq<Seq<CellValueModel>>,
}

/// The models of a row of values.
pub open spec fn row_model(row: Seq<CellValue>) -> Seq<CellValueModel> {
    Seq::new(row.len(), |x: int| row[x].model())
}

/// Whether two rows hold the same values.
fn row_same(a: &Vec<CellValue>, b: &Vec<CellValue>) -> (r: bool)
    ensures
        r == (row_model(a@) == row_model(b@)),
{
    if a.len() != b.len() {
        assert(row_model(a@).len() != row_model(b@).len());
        return false;
    }
    let mut i: usize = 0;
    while i < a.len()
        invariant
            i <= a.len(),
            a.len() == b.len(),
            forall|k: int| 0 <= k < i ==> (#[trigger] a@[k]).model() == b@[k].model(),
        decreases a.len() - i,
    {
        if !a[i].same(&b[i]) {
            proof {
                assert(row_model(a@)[i as int] == a@[i as int].model());
                assert(row_model(b@)[i as int] == b@[i as int].model());
            }
            return false;
        }
        i += 1;
    }
    proof {
        assert(row_model(a@) =~= row_model(b@));
    }
    true
}

/// A second row with the same values.
fn row_duplicate(a: &Vec<CellValue>) -> (r: Vec<CellValue>)
    ensures
        r@.len() == a@.len(),
        row_model(r@) == row_model(a@),
{
    let mut out: Vec<CellValue> = Vec::new();
    let mut i: usize = 0;
    while i < a.len()
        invariant
            i <= a.len(),
            out@.len() == i,
            forall|k: int| 0 <= k < i ==> (#[trigger] out@[k]).model() == a@[k].model(),
        decreases a.len() - i,
    {
        out.push(a[i].duplicate());
        i += 1;
    }
    proof {
        assert(row_model(out@) =~= row_model(a@));
    }
    out
}

impl Content for Array {
    type Model = ArrayModel;

    closed spec fn model(&self) -> ArrayModel {
        ArrayModel {
            w: self.size.w as int,
            h: self.size.h as int,
            rows: Seq::new(self.rows@.len(), |y: int| row_model(self.rows@[y]@)),
        }
    }

    fn same(&self, other: &Self) -> (r: bool) {
        if self.size.w != other.size.w || self.size.h != other.size.h {
            return false;
        }
        if self.rows.len() != other.rows.len() {
            assert(self.model().rows.len() != other.model().rows.len());
            return false;
        }
        let mut y: usize = 0;
        while y < self.rows.len()
            invariant
                y <= self.rows.len(),
                self.rows.len() == other.rows.len(),
                forall|j: int|
                    0 <= j < y ==> row_model((#[trigger] self.rows@[j])@) == row_model(other.rows@[j]@),
            decreases self.rows.len() - y,
        {
            if !row_same(&self.rows[y], &other.rows[y]) {
                proof {
                    assert(self.model().rows[y as int] == row_model(self.rows@[y as int]@));
                    assert(other.model().rows[y as int] == row_model(other.rows@[y as int]@));
                }
                return false;
            }
            y += 1;
        }
        proof {
            assert(self.model().rows =~= other.model().rows);
        }
        true
    }

    fn duplicate(&self) -> (r: Self) {
        let mut rows: Vec<Vec<CellValue>> = Vec::new();
        let mut y: usize = 0;
        while y < self.rows.len()
            invariant
                y <= self.rows.len(),
                rows@.len() == y,
                forall|j: int|
                    0 <= j < y ==> row_model((#[trigger] rows@[j])@) == row_model(self.rows@[j]@),
            decreases self.rows.len() - y,
        {
            rows.push(row_duplicate(&self.rows[y]));
            y += 1;
        }
        let r = Array { size: self.size, rows };
        proof {
            assert(r.model().rows =~= self.model().rows);
        }
        r
    }
}

impl Array {
    /// There are `h` rows of `w` values each, and neither is zero.
    pub closed spec fn wf(&self) -> bool {
        &&& self.size.w > 0
        &&& self.size.h > 0
        &&& self.rows@.len() == self.size.h
        &&& forall|y: int| 0 <= y < self.rows@.len() ==> (#[trigger] self.rows@[y])@.len() == self.size.w
    }

    /// The number of columns.
    pub closed spec fn spec_width(&self) -> int {
        self.size.w as int
    }

    /// The number of rows.
    pub closed spec fn spec_height(&self) -> int {
        self.size.h as int
    }

    /// The value in column `x` of row `y`, both counted from zero.
    pub closed spec fn at(&self, x: int, y: int) -> CellValueModel {
        self.rows@[y]@[x].model()
    }

    /// The sides of the model are the sides of the array.
    pub proof fn lemma_model_sides(&self)
        ensures
            self.model().w == self.spec_width(),
            self.model().h == self.spec_height(),
            0 <= self.spec_width() <= u32::MAX,
            0 <= self.spec_height() <= u32::MAX,
    {
    }

    /// The value in column `x` of row `y`, where the block has one there.
    /// Unlike `get` this asks nothing of the block.
    pub fn cell(&self, x: u32, y: u32) -> (r: Option<&CellValue>)
        ensures
            match r {
                Some(v) => y < self.model().rows.len() && x < self.model().rows[y as int].len()
                    && v.model() == self.model().rows[y as int][x as int],
                None => !(y < self.model().rows.len() && x < self.model().rows[y as int].len()),
            },
    {
        if (y as usize) < self.rows.len() {
            let row = &self.rows[y as usize];
            if (x as usize) < row.len() {
                return Some(&row[x as usize]);
            }
        }
        None
    }

    /// A well-formed array has positive sides that fit in 32 bits.
    pub proof fn lemma_sides(&self)
        requires
            self.wf(),
        ensures
            0 < self.spec_width() <= u32::MAX,
            0 < self.spec_height() <= u32::MAX,
    {
    }

    /// A block of blanks.
    pub fn new_empty(size: ArraySize) -> (r: Array)
        requires
            size.w > 0,
            size.h > 0,
        ensures
            r.wf(),
            r.spec_width() == size.w,
            r.spec_height() == size.h,
            forall|x: int, y: int| 0 <= x < size.w && 0 <= y < size.h ==> r.at(x, y) is Blank,
    {
        let mut rows: Vec<Vec<CellValue>> = Vec::new();
        let mut y: u32 = 0;
        while y < size.h
            invariant
                y <= size.h,
                rows@.len() == y,
                forall|j: int| 0 <= j < rows@.len() ==> (#[trigger] rows@[j])@.len() == size.w,
                forall|i: int, j: int|
                    0 <= i < size.w && 0 <= j < y ==> (#[trigger] rows@[j]@[i]).model() is Blank,
            decreases size.h - y,
        {
            let mut row: Vec<CellValue> = Vec::new();
            let mut x: u32 = 0;
            while x < size.w
                invariant
                    x <= size.w,
                    row@.len() == x,
                    forall|i: int| 0 <= i < x ==> (#[trigger] row@[i]).model() is Blank,
                decreases size.w - x,
            {
                row.push(CellValue::Blank);
                x += 1;
            }
            rows.push(row);
            y += 1;
        }
        Array { size, rows }
    }

    /// The block of `size.w` by `size.h` values that lists `values` row by
    /// row, or `None` where there are more or fewer values than cells.
    pub fn new_row_major(size: ArraySize, values: &Vec<CellValue>) -> (r: Option<Array>)
        requires
            size.w > 0,
            size.h > 0,
        ensures
            match r {
                Some(a) => {
                    &&& values@.len() == size.w * size.h
                    &&& a.wf()
                    &&& a.spec_width() == size.w
                    &&& a.spec_height() == size.h
                    &&& forall|x: int, y: int|
                        0 <= x < size.w && 0 <= y < size.h ==> #[trigger] a.at(x, y) == values@[y * size.w
                            + x].model()
                },
                None => values@.len() != size.w * size.h,
            },
    {
        proof {
            assert(size.w * size.h <= u32::MAX * u32::MAX) by (nonlinear_arith)
                requires
                    size.w <= u32::MAX,
                    size.h <= u32::MAX,
            ;
        }
        if values.len() as u64 != (size.w as u64) * (size.h as u64) {
            return None;
        }
        let mut rows: Vec<Vec<CellValue>> = Vec::new();
        let mut i: usize = 0;
        let mut y: u32 = 0;
        while y < size.h
            invariant
                y <= size.h,
                size.w > 0,
                values@.len() == size.w * size.h,
                values@.len() <= usize::MAX,
                i == y * size.w,
                rows@.len() == y,
                forall|j: int| 0 <= j < rows@.len() ==> (#[trigger] rows@[j])@.len() == size.w,
                forall|a: int, b: int|
                    0 <= a < size.w && 0 <= b < y ==> (#[trigger] rows@[b]@[a]).model() == values@[b * size.w
                        + a].model(),
            decreases size.h - y,
        {
            let mut row: Vec<CellValue> = Vec::new();
            let mut x: u32 = 0;
            while x < size.w
                invariant
                    x <= size.w,
                    y < size.h,
                    values@.len() == size.w * size.h,
                    values@.len() <= usize::MAX,
                values@.len() <= usize::MAX,
                    i == y * size.w + x,
                    row@.len() == x,
                    forall|a: int| 0 <= a < x ==> (#[trigger] row@[a]).model() == values@[y * size.w + a].model(),
                decreases size.w - x,
            {
                proof {
                    crate::position::lemma_index_bound(size.w as int, size.h as int, x as int, y as int);
                    assert(i < values@.len());
                }
                row.push(values[i].duplicate());
                i = i + 1;
                x += 1;
            }
            rows.push(row);
            proof {
                assert((y + 1) * size.w == y * size.w + size.w) by (nonlinear_arith);
            }
            y += 1;
        }
        Some(Array { size, rows })
    }

    /// The block of one value.
    pub fn from_value(value: CellValue) -> (r: Array)
        ensures
            r.wf(),
            r.spec_width() == 1,
            r.spec_height() == 1,
            r.at(0, 0) == value.model(),
    {
        let mut row: Vec<CellValue> = Vec::new();
        row.push(value);
        let mut rows: Vec<Vec<CellValue>> = Vec::new();
        rows.push(row);
        Array { size: ArraySize { w: 1, h: 1 }, rows }
    }

    /// The number of columns.
    pub fn width(&self) -> (w: u32)
        ensures
            w == self.spec_width(),
    {
        self.size.w
    }

    /// The number of rows.
    pub fn height(&self) -> (h: u32)
        ensures
            h == self.spec_height(),
    {
        self.size.h
    }

    /// The value in column `x` of row `y`, or `None` outside the block.
    pub fn get(&self, x: u32, y: u32) -> (r: Option<&CellValue>)
        requires
            self.wf(),
        ensures
            match r {
                Some(v) => x < self.spec_width() && y < self.spec_height() && v.model() == self.at(
                    x as int,
                    y as int,
                ),
                None => x >= self.spec_width() || y >= self.spec_height(),
            },
    {
        if x < self.size.w && y < self.size.h {
            let row = &self.rows[y as usize];
            Some(&row[x as usize])
        } else {
            None
        }
    }

    /// Puts `value` in column `x` of row `y`. Outside the block nothing
    /// changes and the result is `false`.
    pub fn set(&mut self, x: u32, y: u32, value: CellValue) -> (done: bool)
        requires
            old(self).wf(),
        ensures
            final(self).wf(),
            final(self).spec_width() == old(self).spec_width(),
            final(self).spec_height() == old(self).spec_height(),
            done == (x < old(self).spec_width() && y < old(self).spec_height()),
            forall|i: int, j: int|
                0 <= i < old(self).spec_width() && 0 <= j < old(self).spec_height() ==> final(self).at(
                    i,
                    j,
                ) == if done && i == x && j == y {
                    value.model()
                } else {
                    old(self).at(i, j)
                },
    {
        if x < self.size.w && y < self.size.h {
            let ghost before = self.rows@;
            let row = &mut self.rows[y as usize];
            row.set(x as usize, value);
            proof {
                assert forall|j: int| 0 <= j < self.rows@.len() implies (#[trigger] self.rows@[j])@.len()
                    == self.size.w by {
                    if j != y {
                        assert(self.rows@[j] == before[j]);
                    }
                }
            }
            true
        } else {
            false
        }
    }
}

} // verus!
