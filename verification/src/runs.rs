//! The sparse column store: one column of cells, held as runs of equal
//! values.
//!
//! A run covers the rows `start ..= last` with one value. Runs never overlap,
//! stand in ascending row order, and two runs that touch never hold equal
//! values. A store is therefore determined by the value it gives to each row.

use vstd::prelude::*;
use crate::content::Content;
use crate::content::option_model;

verus! {

/// One run of a column: the rows `start ..= last` hold `value`.
#[derive(Clone, Debug, PartialEq, Eq)]
pub struct Block<T> {
    pub start: i64,
    pub last: i64,
    pub value: T,
}

/// A run as contracts see it: bounds and the model of the value.
pub struct Run<M> {
    pub start: int,
    pub last: int,
    pub value: M,
}

/// A column of cells in run-length form.
#[derive(Clone, Debug, PartialEq, Eq)]
pub struct ColumnData<T> {
    blocks: Vec<Block<T>>,
}

/// Whether the run `b` covers `row`.
pub open spec fn covers<T>(b: Block<T>, row: int) -> bool {
    b.start <= row <= b.last
}

/// Runs are non-empty and stand in ascending order without overlap.
pub open spec fn ordered<T>(s: Seq<Block<T>>) -> bool {
    &&& forall|i: int| 0 <= i < s.len() ==> (#[trigger] s[i]).start <= s[i].last
    &&& forall|i: int, j: int|
        0 <= i < j < s.len() ==> (#[trigger] s[i]).last < (#[trigger] s[j]).start
}

/// Runs that touch hold different values.
pub open spec fn merged<T: Content>(s: Seq<Block<T>>) -> bool {
    forall|i: int, j: int|
        0 <= i && j == i + 1 && j < s.len() && (#[trigger] s[i]).last + 1 == (#[trigger] s[j]).start
            ==> s[i].value.model() != s[j].value.model()
}

/// The value that a sequence of runs gives to `row`.
pub open spec fn seq_at<T: Content>(s: Seq<Block<T>>, row: int) -> Option<T::Model> {
    if exists|i: int| 0 <= i < s.len() && covers(#[trigger] s[i], row) {
        let i = choose|i: int| 0 <= i < s.len() && covers(#[trigger] s[i], row);
        Some(s[i].value.model())
    } else {
        None
    }
}

/// The last row that the first `i` runs reach, or a row below all rows.
pub open spec fn reach<T>(s: Seq<Block<T>>, i: int) -> int {
    if i <= 0 {
        i64::MIN - 1
    } else {
        s[i - 1].last as int
    }
}

/// In ordered runs the run that covers a row decides its value.
pub proof fn lemma_seq_at<T: Content>(s: Seq<Block<T>>, i: int, row: int)
    requires
        ordered(s),
        0 <= i < s.len(),
        covers(s[i], row),
    ensures
        seq_at(s, row) == Some(s[i].value.model()),
{
    let j = choose|j: int| 0 <= j < s.len() && covers(#[trigger] s[j], row);
    if j < i {
        assert(s[j].last < s[i].start);
    } else if i < j {
        assert(s[i].last < s[j].start);
    }
}

/// A row between the reach of the first `i` runs and the start of run `i`
/// has no value.
proof fn lemma_gap<T: Content>(s: Seq<Block<T>>, i: int, row: int)
    requires
        ordered(s),
        0 <= i <= s.len(),
        reach(s, i) < row,
        i < s.len() ==> row < s[i].start,
    ensures
        seq_at(s, row) is None,
{
    if exists|k: int| 0 <= k < s.len() && covers(#[trigger] s[k], row) {
        let k = choose|k: int| 0 <= k < s.len() && covers(#[trigger] s[k], row);
        if k < i {
            if k < i - 1 {
                assert(s[k].last < s[i - 1].start);
            }
            assert(s[i - 1].start <= s[i - 1].last);
        } else {
            if i < k {
                assert(s[i].last < s[k].start);
            }
            assert(s[i].start <= s[i].last);
        }
    }
}

/// Appends the run `first ..= last` with `value` to runs that all end below
/// `first`, merging it into the last run where the two touch and agree.
fn push_run<T: Content>(out: &mut Vec<Block<T>>, first: i64, last: i64, value: T)
    requires
        ordered(old(out)@),
        merged(old(out)@),
        first <= last,
        old(out).len() > 0 ==> old(out)@.last().last < first,
    ensures
        ordered(final(out)@),
        merged(final(out)@),
        final(out).len() > 0,
        final(out)@.last().last == last,
        old(out).len() <= final(out).len() + 1,
        forall|row: int|
            seq_at(final(out)@, row) == if first <= row <= last {
                Some(value.model())
            } else {
                seq_at(old(out)@, row)
            },
{
    let ghost before = out@;
    let ghost model = value.model();
    let n = out.len();
    if n > 0 {
        let prev = &out[n - 1];
        if prev.last + 1 == first && prev.value.same(&value) {
            let start = prev.start;
            out.pop();
            out.push(Block { start, last, value });
            proof {
                let after = out@;
                assert(ordered(after)) by {
                    assert forall|i: int| 0 <= i < after.len() implies (#[trigger] after[i]).start
                        <= after[i].last by {
                        if i < n - 1 {
                            assert(after[i] == before[i]);
                        }
                    }
                    assert forall|i: int, j: int| 0 <= i < j < after.len() implies (
                    #[trigger] after[i]).last < (#[trigger] after[j]).start by {
                        assert(after[i] == before[i]);
                        if j < n - 1 {
                            assert(after[j] == before[j]);
                        } else {
                            assert(before[i].last < before[j].start);
                        }
                    }
                }
                assert(merged(after)) by {
                    assert forall|i: int, j: int|
                        0 <= i && j == i + 1 && j < after.len() && (#[trigger] after[i]).last + 1 == (
                        #[trigger] after[j]).start implies after[i].value.model()
                        != after[j].value.model() by {
                        assert(after[i] == before[i]);
                        if j < n - 1 {
                            assert(after[j] == before[j]);
                        } else {
                            assert(before[i].last + 1 == before[j].start);
                        }
                    }
                }
                assert forall|row: int|
                    seq_at(after, row) == if first <= row <= last {
                        Some(model)
                    } else {
                        seq_at(before, row)
                    } by {
                    if before[n - 1].start <= row <= last {
                        lemma_seq_at(after, n - 1, row);
                        if row < first {
                            lemma_seq_at(before, n - 1, row);
                        }
                    } else if exists|k: int| 0 <= k < before.len() && covers(#[trigger] before[k], row) {
                        let k = choose|k: int| 0 <= k < before.len() && covers(#[trigger] before[k], row);
                        assert(k < n - 1);
                        assert(after[k] == before[k]);
                        lemma_seq_at(before, k, row);
                        lemma_seq_at(after, k, row);
                    } else {
                        if exists|k: int| 0 <= k < after.len() && covers(#[trigger] after[k], row) {
                            let k = choose|k: int| 0 <= k < after.len() && covers(#[trigger] after[k], row);
                            assert(k < n - 1);
                            assert(after[k] == before[k]);
                        }
                    }
                }
            }
            return ;
        }
    }
    out.push(Block { start: first, last, value });
    proof {
        let after = out@;
        assert(ordered(after)) by {
            assert forall|i: int| 0 <= i < after.len() implies (#[trigger] after[i]).start
                <= after[i].last by {
                if i < n {
                    assert(after[i] == before[i]);
                }
            }
            assert forall|i: int, j: int| 0 <= i < j < after.len() implies (#[trigger] after[i]).last
                < (#[trigger] after[j]).start by {
                assert(after[i] == before[i]);
                if j < n {
                    assert(after[j] == before[j]);
                } else if i < n - 1 {
                    assert(before[i].last < before[n - 1].start);
                    assert(before[n - 1].start <= before[n - 1].last);
                }
            }
        }
        assert(merged(after)) by {
            assert forall|i: int, j: int|
                0 <= i && j == i + 1 && j < after.len() && (#[trigger] after[i]).last + 1 == (
                #[trigger] after[j]).start implies after[i].value.model() != after[j].value.model() by {
                assert(after[i] == before[i]);
                if j < n {
                    assert(after[j] == before[j]);
                }
            }
        }
        assert forall|row: int|
            seq_at(after, row) == if first <= row <= last {
                Some(model)
            } else {
                seq_at(before, row)
            } by {
            if first <= row <= last {
                lemma_seq_at(after, n as int, row);
            } else if exists|k: int| 0 <= k < before.len() && covers(#[trigger] before[k], row) {
                let k = choose|k: int| 0 <= k < before.len() && covers(#[trigger] before[k], row);
                assert(after[k] == before[k]);
                lemma_seq_at(before, k, row);
                lemma_seq_at(after, k, row);
            } else {
                if exists|k: int| 0 <= k < after.len() && covers(#[trigger] after[k], row) {
                    let k = choose|k: int| 0 <= k < after.len() && covers(#[trigger] after[k], row);
                    assert(k < n);
                    assert(after[k] == before[k]);
                }
            }
        }
    }
}

/// Whether `row` stands in the list `rows`.
pub open spec fn lists_row(rows: Seq<i64>, row: int) -> bool {
    exists|a: int| 0 <= a < rows.len() && #[trigger] rows[a] == row
}

/// Whether the run `r` covers `row`.
pub open spec fn run_covers<M>(r: Run<M>, row: int) -> bool {
    r.start <= row <= r.last
}

/// Whether runs are in canonical form: none is empty, they stand in ascending
/// order without overlap, and runs that touch hold different values.
pub open spec fn canonical_runs<M>(rs: Seq<Run<M>>) -> bool {
    &&& forall|i: int| 0 <= i < rs.len() ==> (#[trigger] rs[i]).start <= rs[i].last
    &&& forall|i: int, j: int| 0 <= i < j < rs.len() ==> (#[trigger] rs[i]).last < (#[trigger] rs[j]).start
    &&& forall|i: int, j: int|
        0 <= i && j == i + 1 && j < rs.len() && (#[trigger] rs[i]).last + 1 == (#[trigger] rs[j]).start
            ==> rs[i].value != rs[j].value
}

/// Whether the runs `rs` give every row the value that `f` gives it: a run
/// gives its value to the rows it covers, and a row with a value is covered.
pub open spec fn runs_give<M>(rs: Seq<Run<M>>, f: spec_fn(int) -> Option<M>) -> bool {
    &&& forall|i: int, row: int|
        0 <= i < rs.len() && run_covers(#[trigger] rs[i], row) ==> #[trigger] f(row) == Some(rs[i].value)
    &&& forall|row: int| (#[trigger] f(row)) is Some ==> exists|i: int| 0 <= i < rs.len() && run_covers(
        #[trigger] rs[i],
        row,
    )
}

/// Two lists of canonical runs that give every row the same value cannot
/// agree on the start and value of run `i` and differ in where it ends.
proof fn lemma_run_end<M>(a: Seq<Run<M>>, b: Seq<Run<M>>, f: spec_fn(int) -> Option<M>, i: int)
    requires
        canonical_runs(a),
        canonical_runs(b),
        runs_give(a, f),
        runs_give(b, f),
        0 <= i < a.len(),
        0 <= i < b.len(),
        a[i].start == b[i].start,
        a[i].value == b[i].value,
    ensures
        a[i].last >= b[i].last,
{
    if a[i].last < b[i].last {
        let r = a[i].last + 1;
        assert(run_covers(b[i], r));
        assert(f(r) == Some(b[i].value));
        let m = choose|m: int| 0 <= m < a.len() && run_covers(#[trigger] a[m], r);
        assert(f(r) == Some(a[m].value));
        if m < i {
            assert(a[m].last < a[i].start);
        }
        assert(m > i);
        assert(a[i].last < a[i + 1].start);
        if i + 1 < m {
            assert(a[i + 1].last < a[m].start);
        }
        assert(m == i + 1);
    }
}

/// Two lists of canonical runs that give every row the same value agree on
/// their first `k` runs.
proof fn lemma_run_prefix<M>(a: Seq<Run<M>>, b: Seq<Run<M>>, f: spec_fn(int) -> Option<M>, k: int)
    requires
        canonical_runs(a),
        canonical_runs(b),
        runs_give(a, f),
        runs_give(b, f),
        0 <= k <= a.len(),
    ensures
        k <= b.len(),
        forall|i: int| 0 <= i < k ==> #[trigger] a[i] == b[i],
    decreases k,
{
    if k > 0 {
        lemma_run_prefix(a, b, f, k - 1);
        let i = k - 1;
        let r0 = a[i].start;
        assert(run_covers(a[i], r0));
        assert(f(r0) == Some(a[i].value));
        let j = choose|j: int| 0 <= j < b.len() && run_covers(#[trigger] b[j], r0);
        if j < i {
            assert(a[j] == b[j]);
            assert(a[j].last < a[i].start);
        }
        assert(i < b.len());
        let r1 = b[i].start;
        assert(run_covers(b[i], r1));
        assert(f(r1) == Some(b[i].value));
        let m = choose|m: int| 0 <= m < a.len() && run_covers(#[trigger] a[m], r1);
        if m < i {
            assert(a[m] == b[m]);
            assert(b[m].last < b[i].start);
        }
        if m > i {
            assert(a[i].last < a[m].start);
        }
        if j > i {
            assert(b[i].last < b[j].start);
        }
        assert(r0 == r1);
        assert(f(r0) == Some(b[i].value));
        lemma_run_end(a, b, f, i);
        lemma_run_end(b, a, f, i);
    }
}

/// Canonical form: canonical runs that give every row the same value are the
/// same runs.
pub proof fn lemma_runs_unique<M>(a: Seq<Run<M>>, b: Seq<Run<M>>, f: spec_fn(int) -> Option<M>)
    requires
        canonical_runs(a),
        canonical_runs(b),
        runs_give(a, f),
        runs_give(b, f),
    ensures
        a == b,
{
    lemma_run_prefix(a, b, f, a.len() as int);
    lemma_run_prefix(b, a, f, b.len() as int);
    assert(a =~= b);
}

impl<T> Block<T> {
    /// The number of rows in the run, or `u64::MAX` for a run over every row.
    pub fn len(&self) -> (n: u64)
        requires
            self.start <= self.last,
        ensures
            n == if self.last - self.start + 1 > u64::MAX {
                u64::MAX as int
            } else {
                self.last - self.start + 1
            },
    {
        let span: i128 = self.last as i128 - self.start as i128 + 1;
        if span > u64::MAX as i128 {
            u64::MAX
        } else {
            span as u64
        }
    }
}

impl<T: Content> ColumnData<T> {
    /// Runs are non-empty, ascending, disjoint, and merged where they touch.
    pub closed spec fn wf(&self) -> bool {
        ordered(self.blocks@) && merged(self.blocks@)
    }

    /// The value at `row`, if the column holds one there.
    pub closed spec fn at(&self, row: int) -> Option<T::Model> {
        seq_at(self.blocks@, row)
    }

    /// The column as a map from the rows that hold a value to that value.
    pub open spec fn view(&self) -> Map<int, T::Model> {
        Map::new(|row: int| self.at(row) is Some, |row: int| self.at(row)->0)
    }

    /// The runs of the column in ascending row order.
    pub closed spec fn runs(&self) -> Seq<Run<T::Model>> {
        Seq::new(
            self.blocks@.len(),
            |i: int|
                Run {
                    start: self.blocks@[i].start as int,
                    last: self.blocks@[i].last as int,
                    value: self.blocks@[i].value.model(),
                },
        )
    }

    /// How the runs of a well-formed column relate to its values: they are
    /// non-empty, ascending and disjoint, touching runs differ, each gives its
    /// value to the rows it covers, and a row outside every run has no value.
    pub proof fn lemma_runs(&self)
        requires
            self.wf(),
        ensures
            forall|i: int|
                0 <= i < self.runs().len() ==> i64::MIN <= (#[trigger] self.runs()[i]).start
                    <= self.runs()[i].last <= i64::MAX,
            forall|i: int, j: int|
                0 <= i < j < self.runs().len() ==> (#[trigger] self.runs()[i]).last < (
                #[trigger] self.runs()[j]).start,
            forall|i: int, j: int|
                0 <= i && j == i + 1 && j < self.runs().len() && (#[trigger] self.runs()[i]).last + 1
                    == (#[trigger] self.runs()[j]).start ==> self.runs()[i].value
                    != self.runs()[j].value,
            forall|i: int, row: int|
                0 <= i < self.runs().len() && (#[trigger] self.runs()[i]).start <= row
                    <= self.runs()[i].last ==> #[trigger] self.at(row) == Some(self.runs()[i].value),
            forall|row: int| #[trigger]
                self.at(row) is Some ==> exists|i: int|
                    0 <= i < self.runs().len() && (#[trigger] self.runs()[i]).start <= row
                        <= self.runs()[i].last,
    {
        let s = self.blocks@;
        let r = self.runs();
        assert forall|i: int, j: int| 0 <= i < j < r.len() implies (#[trigger] r[i]).last < (
        #[trigger] r[j]).start by {
            assert(s[i].last < s[j].start);
        }
        assert forall|i: int, j: int|
            0 <= i && j == i + 1 && j < r.len() && (#[trigger] r[i]).last + 1 == (#[trigger] r[j]).start
            implies r[i].value != r[j].value by {
            assert(s[i].last + 1 == s[j].start);
        }
        assert forall|i: int, row: int|
            0 <= i < r.len() && (#[trigger] r[i]).start <= row <= r[i].last implies #[trigger] self.at(
            row,
        ) == Some(r[i].value) by {
            lemma_seq_at(s, i, row);
        }
        assert forall|row: int| #[trigger] self.at(row) is Some implies exists|i: int|
            0 <= i < r.len() && (#[trigger] r[i]).start <= row <= r[i].last by {
            let k = choose|k: int| 0 <= k < s.len() && covers(#[trigger] s[k], row);
            assert(r[k].start <= row <= r[k].last);
        }
    }

    /// A second column with the same runs.
    pub fn duplicate(&self) -> (r: Self)
        requires
            self.wf(),
        ensures
            r.wf(),
            r.runs() == self.runs(),
            forall|row: int| r.at(row) == self.at(row),
    {
        let mut blocks: Vec<Block<T>> = Vec::new();
        let n = self.blocks.len();
        let mut i: usize = 0;
        while i < n
            invariant
                i <= n,
                n == self.blocks.len(),
                blocks.len() == i,
                forall|k: int|
                    0 <= k < i ==> (#[trigger] blocks@[k]).start == self.blocks@[k].start && blocks@[k].last
                        == self.blocks@[k].last && blocks@[k].value.model() == self.blocks@[k].value.model(),
            decreases n - i,
        {
            let b = &self.blocks[i];
            blocks.push(Block { start: b.start, last: b.last, value: b.value.duplicate() });
            i += 1;
        }
        let r = ColumnData { blocks };
        proof {
            let s = self.blocks@;
            let t = r.blocks@;
            assert(ordered(t)) by {
                assert forall|a: int| 0 <= a < t.len() implies (#[trigger] t[a]).start <= t[a].last by {
                    assert(s[a].start <= s[a].last);
                }
                assert forall|a: int, b: int| 0 <= a < b < t.len() implies (#[trigger] t[a]).last < (
                #[trigger] t[b]).start by {
                    assert(s[a].last < s[b].start);
                }
            }
            assert(merged(t)) by {
                assert forall|a: int, b: int|
                    0 <= a && b == a + 1 && b < t.len() && (#[trigger] t[a]).last + 1 == (
                    #[trigger] t[b]).start implies t[a].value.model() != t[b].value.model() by {
                    assert(s[a].last + 1 == s[b].start);
                }
            }
            assert(r.runs() =~= self.runs());
            assert forall|row: int| r.at(row) == self.at(row) by {
                if exists|a: int| 0 <= a < s.len() && covers(#[trigger] s[a], row) {
                    let a = choose|a: int| 0 <= a < s.len() && covers(#[trigger] s[a], row);
                    assert(covers(t[a], row));
                    lemma_seq_at(s, a, row);
                    lemma_seq_at(t, a, row);
                } else if exists|a: int| 0 <= a < t.len() && covers(#[trigger] t[a], row) {
                    let a = choose|a: int| 0 <= a < t.len() && covers(#[trigger] t[a], row);
                    assert(covers(s[a], row));
                }
            }
        }
        r
    }

    /// The value that the column gives to each row.
    pub open spec fn reading(&self) -> spec_fn(int) -> Option<T::Model> {
        |row: int| self.at(row)
    }

    /// The runs of a well-formed column are canonical and give every row
    /// its value.
    pub proof fn lemma_reading(&self)
        requires
            self.wf(),
        ensures
            canonical_runs(self.runs()),
            runs_give(self.runs(), self.reading()),
    {
        self.lemma_runs();
        let mine = self.runs();
        let f = self.reading();
        assert forall|i: int, row: int| 0 <= i < mine.len() && run_covers(#[trigger] mine[i], row) implies 
        #[trigger] f(row) == Some(mine[i].value) by {
            assert(self.at(row) == Some(mine[i].value));
        }
        assert forall|row: int| (#[trigger] f(row)) is Some implies exists|i: int|
            0 <= i < mine.len() && run_covers(#[trigger] mine[i], row) by {
            assert(self.at(row) is Some);
            let i = choose|i: int| 0 <= i < mine.len() && (#[trigger] mine[i]).start <= row <= mine[i].last;
            assert(run_covers(mine[i], row));
        }
    }

    /// The runs of a well-formed column are the canonical runs that give
    /// every row its value: whatever canonical runs do so are the runs of the
    /// column.
    pub proof fn lemma_runs_are(&self, runs: Seq<Run<T::Model>>)
        requires
            self.wf(),
            canonical_runs(runs),
            runs_give(runs, self.reading()),
        ensures
            self.runs() == runs,
    {
        self.lemma_reading();
        lemma_runs_unique(self.runs(), runs, self.reading());
    }

    /// Canonical form: two well-formed columns that give every row the same
    /// value consist of the same runs.
    pub proof fn lemma_canonical(&self, other: &Self)
        requires
            self.wf(),
            other.wf(),
            self.view() == other.view(),
        ensures
            self.runs() == other.runs(),
    {
        let f = self.reading();
        let g = other.reading();
        assert forall|row: int| #[trigger] f(row) == g(row) by {
            let a = self.view();
            let b = other.view();
            assert(a.dom().contains(row) <==> self.at(row) is Some);
            assert(b.dom().contains(row) <==> other.at(row) is Some);
            if self.at(row) is Some {
                assert(a[row] == self.at(row)->0);
                assert(b[row] == other.at(row)->0);
            }
        }
        other.lemma_reading();
        let runs = other.runs();
        assert(runs_give(runs, f)) by {
            assert forall|i: int, row: int| 0 <= i < runs.len() && run_covers(#[trigger] runs[i], row) implies 
            #[trigger] f(row) == Some(runs[i].value) by {
                assert(g(row) == Some(runs[i].value));
            }
            assert forall|row: int| (#[trigger] f(row)) is Some implies exists|i: int|
                0 <= i < runs.len() && run_covers(#[trigger] runs[i], row) by {
                assert(g(row) is Some);
            }
        }
        self.lemma_runs_are(runs);
    }

    /// A well-formed column has no run exactly when no row has a value.
    pub proof fn lemma_vacant(&self)
        requires
            self.wf(),
        ensures
            (self.runs().len() == 0) == (forall|row: int| self.at(row) is None),
    {
        if self.blocks@.len() > 0 {
            lemma_seq_at(self.blocks@, 0, self.blocks@[0].start as int);
            assert(self.at(self.blocks@[0].start as int) is Some);
        } else {
            assert forall|row: int| self.at(row) is None by {}
        }
    }

    /// The rows in `first ..= last` that hold a value, in ascending order.
    pub fn rows_in(&self, first: i64, last: i64) -> (out: Vec<i64>)
        requires
            self.wf(),
        ensures
            forall|a: int, b: int| 0 <= a < b < out.len() ==> out@[a] < out@[b],
            forall|a: int|
                0 <= a < out.len() ==> first <= (#[trigger] out@[a]) <= last && self.at(
                    out@[a] as int,
                ) is Some,
            forall|row: int|
                first <= row <= last && self.at(row) is Some ==> #[trigger] lists_row(out@, row),
    {
        let ghost s = self.blocks@;
        let n = self.blocks.len();
        let mut out: Vec<i64> = Vec::new();
        let mut j: usize = 0;
        while j < n
            invariant
                j <= n,
                n == self.blocks.len(),
                s == self.blocks@,
                ordered(s),
                forall|a: int, b: int| 0 <= a < b < out.len() ==> out@[a] < out@[b],
                forall|a: int|
                    0 <= a < out.len() ==> first <= (#[trigger] out@[a]) <= last && out@[a] <= reach(
                        s,
                        j as int,
                    ) && seq_at(s, out@[a] as int) is Some,
                forall|row: int|
                    first <= row <= last && row <= reach(s, j as int) && seq_at(s, row) is Some
                        ==> #[trigger] lists_row(out@, row),
            decreases n - j,
        {
            let b = &self.blocks[j];
            proof {
                if j > 0 {
                    assert(s[j - 1].last < s[j as int].start);
                }
            }
            let ghost prior = out@;
            assert(s[j as int].start <= s[j as int].last);
            if first <= last && b.last >= first && b.start <= last {
                let from = if b.start > first {
                    b.start
                } else {
                    first
                };
                let to = if b.last < last {
                    b.last
                } else {
                    last
                };
                let mut row = from;
                let mut done = false;
                while !done
                    invariant
                        from <= row <= to,
                        first <= from,
                        to <= last,
                        b.start <= from,
                        to <= b.last,
                        j < n,
                        0 <= j < s.len(),
                        *b == s[j as int],
                        ordered(s),
                        reach(s, j as int) < from,
                        forall|a: int, b: int| 0 <= a < b < out.len() ==> out@[a] < out@[b],
                        forall|a: int|
                            0 <= a < out.len() ==> first <= (#[trigger] out@[a]) <= last && out@[a]
                                <= to && seq_at(s, out@[a] as int) is Some,
                        !done ==> forall|a: int| 0 <= a < out.len() ==> (#[trigger] out@[a]) < row,
                        forall|r: int| #[trigger] lists_row(prior, r) ==> lists_row(out@, r),
                        forall|r: int|
                            from <= r && (r < row || (done && r <= to)) ==> #[trigger] lists_row(out@, r),
                    decreases to - row + (if done { 0int } else { 1int }),
                {
                    let ghost before = out@;
                    out.push(row);
                    proof {
                        lemma_seq_at(s, j as int, row as int);
                        assert forall|r: int| #[trigger] lists_row(before, r) implies lists_row(
                            out@,
                            r,
                        ) by {
                            let a = choose|a: int| 0 <= a < before.len() && #[trigger] before[a] == r;
                            assert(out@[a] == r);
                        }
                        assert(out@[before.len() as int] == row);
                        assert(lists_row(out@, row as int));
                    }
                    let ghost pushed = row;
                    if row < to {
                        row = row + 1;
                    } else {
                        done = true;
                    }
                    proof {
                        assert forall|r: int|
                            from <= r && (r < row || (done && r <= to)) implies #[trigger] lists_row(
                            out@,
                            r,
                        ) by {
                            if r < pushed {
                                assert(lists_row(before, r));
                            }
                        }
                        assert forall|r: int| #[trigger] lists_row(prior, r) implies lists_row(out@, r) by {
                            assert(lists_row(before, r));
                        }
                    }
                }
            }
            proof {
                assert forall|row: int|
                    first <= row <= last && row <= reach(s, j + 1) && seq_at(s, row) is Some implies 
                    #[trigger] lists_row(out@, row) by {
                    if row <= reach(s, j as int) {
                        assert(lists_row(prior, row));
                    } else if row < b.start {
                        lemma_gap(s, j as int, row);
                    }
                }
            }
            j += 1;
        }
        proof {
            assert forall|row: int| first <= row <= last && self.at(row) is Some implies #[trigger] lists_row(
                out@,
                row,
            ) by {
                if row > reach(s, n as int) {
                    lemma_gap(s, n as int, row);
                }
            }
        }
        out
    }

    /// The lowest and the highest row that hold a value, if any row does.
    pub fn extent(&self) -> (r: Option<(i64, i64)>)
        requires
            self.wf(),
        ensures
            match r {
                None => forall|row: int| self.at(row) is None,
                Some((low, high)) => {
                    &&& self.at(low as int) is Some
                    &&& self.at(high as int) is Some
                    &&& forall|row: int| #[trigger] self.at(row) is Some ==> low <= row <= high
                },
            },
    {
        let n = self.blocks.len();
        if n == 0 {
            proof {
                self.lemma_vacant();
            }
            return None;
        }
        let low = self.blocks[0].start;
        let high = self.blocks[n - 1].last;
        proof {
            let s = self.blocks@;
            lemma_seq_at(s, 0, low as int);
            lemma_seq_at(s, n - 1, high as int);
            assert forall|row: int| #[trigger] self.at(row) is Some implies low <= row <= high by {
                let k = choose|k: int| 0 <= k < s.len() && covers(#[trigger] s[k], row);
                if 0 < k {
                    assert(s[0].last < s[k].start);
                    assert(s[0].start <= s[0].last);
                }
                if k < n - 1 {
                    assert(s[k].last < s[n - 1].start);
                    assert(s[n - 1].start <= s[n - 1].last);
                }
            }
        }
        Some((low, high))
    }

    /// An empty column.
    pub fn new() -> (r: Self)
        ensures
            r.wf(),
            r.runs().len() == 0,
            forall|row: int| r.at(row) is None,
    {
        ColumnData { blocks: Vec::new() }
    }

    /// The number of runs.
    pub fn len(&self) -> (n: usize)
        ensures
            n == self.runs().len(),
    {
        self.blocks.len()
    }

    /// Whether the column holds no value at all.
    pub fn is_empty(&self) -> (r: bool)
        requires
            self.wf(),
        ensures
            r == (self.runs().len() == 0),
            r == (forall|row: int| self.at(row) is None),
    {
        proof {
            if self.blocks@.len() > 0 {
                lemma_seq_at(self.blocks@, 0, self.blocks@[0].start as int);
                assert(self.at(self.blocks@[0].start as int) is Some);
            } else {
                assert forall|row: int| self.at(row) is None by {}
            }
        }
        self.blocks.len() == 0
    }

    /// The run with index `i`, counted in ascending row order.
    pub fn block(&self, i: usize) -> (b: &Block<T>)
        requires
            i < self.runs().len(),
        ensures
            b.start == self.runs()[i as int].start,
            b.last == self.runs()[i as int].last,
            b.value.model() == self.runs()[i as int].value,
    {
        &self.blocks[i]
    }

    /// The index of the run that covers `row`, found by binary search.
    pub fn find(&self, row: i64) -> (r: Option<usize>)
        requires
            self.wf(),
        ensures
            match r {
                Some(i) => i < self.runs().len() && self.runs()[i as int].start <= row
                    <= self.runs()[i as int].last,
                None => self.at(row as int) is None,
            },
    {
        let mut lo: usize = 0;
        let mut hi: usize = self.blocks.len();
        while lo < hi
            invariant
                lo <= hi <= self.blocks.len(),
                ordered(self.blocks@),
                forall|i: int| 0 <= i < lo ==> (#[trigger] self.blocks@[i]).last < row,
                forall|i: int| hi <= i < self.blocks.len() ==> row < (#[trigger] self.blocks@[i]).start,
            decreases hi - lo,
        {
            let mid = lo + (hi - lo) / 2;
            let b = &self.blocks[mid];
            if b.last < row {
                proof {
                    assert forall|i: int| 0 <= i < mid + 1 implies (#[trigger] self.blocks@[i]).last
                        < row by {
                        if i < mid {
                            assert(self.blocks@[i].last < self.blocks@[mid as int].start);
                        }
                    }
                }
                lo = mid + 1;
            } else if row < b.start {
                proof {
                    assert forall|i: int| mid <= i < self.blocks.len() implies row < (
                    #[trigger] self.blocks@[i]).start by {
                        if mid < i {
                            assert(self.blocks@[mid as int].last < self.blocks@[i].start);
                        }
                    }
                }
                hi = mid;
            } else {
                return Some(mid);
            }
        }
        None
    }

    /// The value at `row`, if there is one.
    pub fn get(&self, row: i64) -> (r: Option<&T>)
        requires
            self.wf(),
        ensures
            match r {
                Some(v) => self.at(row as int) == Some(v.model()),
                None => self.at(row as int) is None,
            },
    {
        match self.find(row) {
            Some(i) => {
                proof {
                    lemma_seq_at(self.blocks@, i as int, row as int);
                }
                Some(&self.blocks[i].value)
            },
            None => None,
        }
    }

    /// Gives the rows `first ..= last` the value `value`, or none for `None`,
    /// and leaves every other row as it was. A range with `first > last` is
    /// empty and changes nothing.
    pub fn splice(&mut self, first: i64, last: i64, value: Option<T>)
        requires
            old(self).wf(),
        ensures
            final(self).wf(),
            forall|row: int|
                final(self).at(row) == if first <= row <= last {
                    option_model(value)
                } else {
                    old(self).at(row)
                },
    {
        if first > last {
            return ;
        }
        let ghost s = self.blocks@;
        let ghost filling = option_model(value);
        let n = self.blocks.len();
        let mut out: Vec<Block<T>> = Vec::new();
        let mut i: usize = 0;
        while i < n
            invariant
                i <= n,
                n == self.blocks.len(),
                s == self.blocks@,
                ordered(s),
                ordered(out@),
                merged(out@),
                forall|k: int| 0 <= k < out.len() ==> (#[trigger] out@[k]).last < first,
                forall|k: int| 0 <= k < out.len() ==> (#[trigger] out@[k]).last <= reach(s, i as int),
                forall|row: int|
                    seq_at(out@, row) == if row < first && row <= reach(s, i as int) {
                        seq_at(s, row)
                    } else {
                        None
                    },
            decreases n - i,
        {
            let b = &self.blocks[i];
            let ghost prior = out@;
            proof {
                if i > 0 {
                    assert(s[i - 1].last < s[i as int].start);
                }
            }
            if b.start < first {
                let end = if b.last < first {
                    b.last
                } else {
                    first - 1
                };
                push_run(&mut out, b.start, end, b.value.duplicate());
                proof {
                    assert forall|k: int| 0 <= k < out.len() implies (#[trigger] out@[k]).last
                        < first && out@[k].last <= reach(s, i + 1) by {
                        if k < out.len() - 1 {
                            assert(out@[k].last < out@[out.len() - 1].start);
                        }
                    }
                }
            }
            proof {
                assert forall|row: int|
                    seq_at(out@, row) == if row < first && row <= reach(s, i + 1) {
                        seq_at(s, row)
                    } else {
                        None
                    } by {
                    if row < first && reach(s, i as int) < row <= b.last {
                        if b.start <= row {
                            lemma_seq_at(s, i as int, row);
                        } else {
                            lemma_gap(s, i as int, row);
                        }
                    }
                }
            }
            i += 1;
        }
        match value {
            Some(v) => {
                push_run(&mut out, first, last, v);
            },
            None => {},
        }
        let mut j: usize = 0;
        while j < n
            invariant
                j <= n,
                n == self.blocks.len(),
                s == self.blocks@,
                first <= last,
                ordered(s),
                ordered(out@),
                merged(out@),
                forall|k: int|
                    0 <= k < out.len() ==> (#[trigger] out@[k]).last <= last || out@[k].last <= reach(
                        s,
                        j as int,
                    ),
                forall|row: int|
                    seq_at(out@, row) == if row < first {
                        seq_at(s, row)
                    } else if row <= last {
                        filling
                    } else if row <= reach(s, j as int) {
                        seq_at(s, row)
                    } else {
                        None
                    },
            decreases n - j,
        {
            let b = &self.blocks[j];
            proof {
                if j > 0 {
                    assert(s[j - 1].last < s[j as int].start);
                }
            }
            if b.last > last {
                let begin = if b.start > last {
                    b.start
                } else {
                    last + 1
                };
                push_run(&mut out, begin, b.last, b.value.duplicate());
                proof {
                    assert forall|k: int| 0 <= k < out.len() implies (#[trigger] out@[k]).last <= last
                        || out@[k].last <= reach(s, j + 1) by {
                        if k < out.len() - 1 {
                            assert(out@[k].last < out@[out.len() - 1].start);
                        }
                    }
                }
            }
            proof {
                assert forall|row: int|
                    seq_at(out@, row) == if row < first {
                        seq_at(s, row)
                    } else if row <= last {
                        filling
                    } else if row <= reach(s, j + 1) {
                        seq_at(s, row)
                    } else {
                        None
                    } by {
                    if last < row && reach(s, j as int) < row <= b.last {
                        if b.start <= row {
                            lemma_seq_at(s, j as int, row);
                        } else {
                            lemma_gap(s, j as int, row);
                        }
                    }
                }
            }
            j += 1;
        }
        proof {
            assert forall|row: int|
                seq_at(out@, row) == if first <= row <= last {
                    filling
                } else {
                    seq_at(s, row)
                } by {
                if row > last && row > reach(s, n as int) {
                    lemma_gap(s, n as int, row);
                }
            }
        }
        self.blocks = out;
    }

    /// Overwrites the rows `first ..= last` with `value`, merging the new run
    /// with equal runs that touch it.
    pub fn set_range(&mut self, first: i64, last: i64, value: T)
        requires
            old(self).wf(),
        ensures
            final(self).wf(),
            forall|row: int|
                final(self).at(row) == if first <= row <= last {
                    Some(value.model())
                } else {
                    old(self).at(row)
                },
            (forall|row: int| first <= row <= last ==> old(self).at(row) == Some(value.model()))
                ==> final(self).runs() == old(self).runs(),
    {
        let ghost before = *self;
        let ghost model = value.model();
        self.splice(first, last, Some(value));
        proof {
            if forall|row: int| first <= row <= last ==> before.at(row) == Some(model) {
                assert(self.view() =~= before.view());
                self.lemma_canonical(&before);
            }
        }
    }

    /// Clears the rows `first ..= last`.
    pub fn remove_range(&mut self, first: i64, last: i64)
        requires
            old(self).wf(),
        ensures
            final(self).wf(),
            forall|row: int|
                final(self).at(row) == if first <= row <= last {
                    None
                } else {
                    old(self).at(row)
                },
    {
        self.splice(first, last, None);
    }
}

} // verus!
