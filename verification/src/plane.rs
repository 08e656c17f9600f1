//! A sparse sheet of one kind of content: for each key (a column, or a row
//! where the sheet is held transposed) one run-length column store.
//!
//! Strips stand in ascending key order and none is empty, so the strip of a
//! key is found by binary search and an emptied strip leaves the plane.

use vstd::prelude::*;
use crate::content::Content;
use crate::content::option_model;
use crate::runs::ColumnData;
use crate::runs::Run;
use crate::runs::lists_row;
use crate::runs::canonical_runs;
use crate::runs::run_covers;
use crate::runs::runs_give;
use crate::runs::lemma_runs_unique;

verus! {

/// The cells that share one key.
#[derive(Clone, Debug, PartialEq, Eq)]
pub struct Strip<T> {
    key: i64,
    cells: ColumnData<T>,
}

/// A sparse two-dimensional store.
#[derive(Clone, Debug, PartialEq, Eq)]
pub struct Plane<T> {
    strips: Vec<Strip<T>>,
}

/// The tightest bounds around the cells of a plane that hold a value.
#[derive(Clone, Copy, Debug, PartialEq, Eq, Structural)]
pub struct Bounds {
    pub min_key: i64,
    pub max_key: i64,
    pub min_row: i64,
    pub max_row: i64,
}

/// Whether the cell `(key, row)` stands in the list `cells`.
pub open spec fn lists_cell(cells: Seq<(i64, i64)>, key: int, row: int) -> bool {
    exists|a: int| 0 <= a < cells.len() && (#[trigger] cells[a]).0 == key && cells[a].1 == row
}

/// Whether `a` comes before `b` when cells are ordered by key, then by row.
pub open spec fn cell_before(a: (i64, i64), b: (i64, i64)) -> bool {
    a.0 < b.0 || (a.0 == b.0 && a.1 < b.1)
}

/// Keys stand in strictly ascending order.
spec fn keys_ascending<T>(s: Seq<Strip<T>>) -> bool {
    forall|i: int, j: int| 0 <= i < j < s.len() ==> (#[trigger] s[i]).key < (#[trigger] s[j]).key
}

/// Every strip is a well-formed column that holds at least one run.
spec fn strips_filled<T: Content>(s: Seq<Strip<T>>) -> bool {
    forall|i: int| 0 <= i < s.len() ==> (#[trigger] s[i]).cells.wf() && s[i].cells.runs().len() > 0
}

/// The value that a sequence of strips gives to the cell `(key, row)`.
spec fn strips_at<T: Content>(s: Seq<Strip<T>>, key: int, row: int) -> Option<T::Model> {
    if exists|i: int| 0 <= i < s.len() && (#[trigger] s[i]).key == key {
        let i = choose|i: int| 0 <= i < s.len() && (#[trigger] s[i]).key == key;
        s[i].cells.at(row)
    } else {
        None
    }
}

/// With ascending keys the strip of a key decides the values under it.
proof fn lemma_strips_at<T: Content>(s: Seq<Strip<T>>, i: int, row: int)
    requires
        keys_ascending(s),
        0 <= i < s.len(),
    ensures
        strips_at(s, s[i].key as int, row) == s[i].cells.at(row),
{
    let j = choose|j: int| 0 <= j < s.len() && (#[trigger] s[j]).key == s[i].key;
    if j < i {
        assert(s[j].key < s[i].key);
    } else if i < j {
        assert(s[i].key < s[j].key);
    }
}

/// Replacing the cells of one strip changes the values under its key only.
proof fn lemma_replaced<T: Content>(before: Seq<Strip<T>>, after: Seq<Strip<T>>, idx: int)
    requires
        keys_ascending(before),
        strips_filled(before),
        0 <= idx < before.len(),
        after.len() == before.len(),
        after[idx].key == before[idx].key,
        after[idx].cells.wf(),
        forall|i: int| 0 <= i < before.len() && i != idx ==> after[i] == before[i],
    ensures
        keys_ascending(after),
        forall|i: int| 0 <= i < after.len() ==> (#[trigger] after[i]).cells.wf(),
        forall|i: int| 0 <= i < after.len() && i != idx ==> (#[trigger] after[i]).cells.runs().len() > 0,
        forall|k: int, row: int|
            strips_at(after, k, row) == if k == before[idx].key {
                after[idx].cells.at(row)
            } else {
                strips_at(before, k, row)
            },
{
    assert forall|i: int, j: int| 0 <= i < j < after.len() implies (#[trigger] after[i]).key < (
    #[trigger] after[j]).key by {
        assert(before[i].key < before[j].key);
    }
    assert forall|i: int| 0 <= i < after.len() implies (#[trigger] after[i]).cells.wf() && (i != idx
        ==> after[i].cells.runs().len() > 0) by {
        if i != idx {
            assert(before[i].cells.wf());
        }
    }
    assert forall|k: int, row: int|
        strips_at(after, k, row) == if k == before[idx].key {
            after[idx].cells.at(row)
        } else {
            strips_at(before, k, row)
        } by {
        if k == before[idx].key {
            lemma_strips_at(after, idx, row);
        } else if exists|i: int| 0 <= i < before.len() && (#[trigger] before[i]).key == k {
            let i = choose|i: int| 0 <= i < before.len() && (#[trigger] before[i]).key == k;
            lemma_strips_at(before, i, row);
            assert(after[i] == before[i]);
            lemma_strips_at(after, i, row);
        } else if exists|i: int| 0 <= i < after.len() && (#[trigger] after[i]).key == k {
            let i = choose|i: int| 0 <= i < after.len() && (#[trigger] after[i]).key == k;
            assert(before[i].key == k);
        }
    }
}

/// Taking one strip out clears the values under its key only.
proof fn lemma_removed<T: Content>(mid: Seq<Strip<T>>, idx: int)
    requires
        keys_ascending(mid),
        0 <= idx < mid.len(),
        forall|i: int| 0 <= i < mid.len() ==> (#[trigger] mid[i]).cells.wf(),
        forall|i: int| 0 <= i < mid.len() && i != idx ==> (#[trigger] mid[i]).cells.runs().len() > 0,
    ensures
        keys_ascending(mid.remove(idx)),
        strips_filled(mid.remove(idx)),
        forall|k: int, row: int|
            strips_at(mid.remove(idx), k, row) == if k == mid[idx].key {
                None
            } else {
                strips_at(mid, k, row)
            },
{
    let after = mid.remove(idx);
    assert forall|i: int| 0 <= i < after.len() implies #[trigger] after[i] == mid[if i < idx {
        i
    } else {
        i + 1
    }] by {}
    assert forall|i: int, j: int| 0 <= i < j < after.len() implies (#[trigger] after[i]).key < (
    #[trigger] after[j]).key by {
        let a = if i < idx { i } else { i + 1 };
        let b = if j < idx { j } else { j + 1 };
        assert(mid[a].key < mid[b].key);
    }
    assert forall|i: int| 0 <= i < after.len() implies (#[trigger] after[i]).cells.wf()
        && after[i].cells.runs().len() > 0 by {
        let a = if i < idx { i } else { i + 1 };
        assert(mid[a].cells.wf());
    }
    assert forall|k: int, row: int|
        strips_at(after, k, row) == if k == mid[idx].key {
            None
        } else {
            strips_at(mid, k, row)
        } by {
        if exists|i: int| 0 <= i < after.len() && (#[trigger] after[i]).key == k {
            let i = choose|i: int| 0 <= i < after.len() && (#[trigger] after[i]).key == k;
            let a = if i < idx { i } else { i + 1 };
            assert(after[i] == mid[a]);
            if a < idx {
                assert(mid[a].key < mid[idx].key);
            } else {
                assert(mid[idx].key < mid[a].key);
            }
            lemma_strips_at(after, i, row);
            lemma_strips_at(mid, a, row);
        } else if k != mid[idx].key {
            if exists|i: int| 0 <= i < mid.len() && (#[trigger] mid[i]).key == k {
                let i = choose|i: int| 0 <= i < mid.len() && (#[trigger] mid[i]).key == k;
                let a = if i < idx { i } else { i - 1 };
                assert(after[a] == mid[i]);
            }
        }
    }
}

/// Putting a strip in at its place in the order sets the values under its
/// key only.
proof fn lemma_inserted<T: Content>(before: Seq<Strip<T>>, idx: int, strip: Strip<T>)
    requires
        keys_ascending(before),
        strips_filled(before),
        0 <= idx <= before.len(),
        strip.cells.wf(),
        strip.cells.runs().len() > 0,
        forall|i: int|
            0 <= i < before.len() ==> if i < idx {
                (#[trigger] before[i]).key < strip.key
            } else {
                strip.key < before[i].key
            },
    ensures
        keys_ascending(before.insert(idx, strip)),
        strips_filled(before.insert(idx, strip)),
        forall|k: int, row: int|
            strips_at(before.insert(idx, strip), k, row) == if k == strip.key {
                strip.cells.at(row)
            } else {
                strips_at(before, k, row)
            },
{
    let after = before.insert(idx, strip);
    assert(after[idx] == strip);
    assert forall|i: int| 0 <= i < after.len() && i != idx implies #[trigger] after[i] == before[if i
        < idx {
        i
    } else {
        i - 1
    }] by {}
    assert forall|i: int, j: int| 0 <= i < j < after.len() implies (#[trigger] after[i]).key < (
    #[trigger] after[j]).key by {
        let a = if i < idx { i } else { i - 1 };
        let b = if j < idx { j } else { j - 1 };
        if i != idx && j != idx {
            assert(before[a].key < before[b].key);
        } else if i == idx {
            assert(strip.key < before[b].key);
        } else {
            assert(before[a].key < strip.key);
        }
    }
    assert forall|i: int| 0 <= i < after.len() implies (#[trigger] after[i]).cells.wf()
        && after[i].cells.runs().len() > 0 by {
        if i != idx {
            let a = if i < idx { i } else { i - 1 };
            assert(before[a].cells.wf());
        }
    }
    assert forall|k: int, row: int|
        strips_at(after, k, row) == if k == strip.key {
            strip.cells.at(row)
        } else {
            strips_at(before, k, row)
        } by {
        if k == strip.key {
            lemma_strips_at(after, idx, row);
        } else if exists|i: int| 0 <= i < before.len() && (#[trigger] before[i]).key == k {
            let i = choose|i: int| 0 <= i < before.len() && (#[trigger] before[i]).key == k;
            lemma_strips_at(before, i, row);
            let a = if i >= idx { i + 1 } else { i };
            assert(after[a] == before[i]);
            lemma_strips_at(after, a, row);
        } else if exists|i: int| 0 <= i < after.len() && (#[trigger] after[i]).key == k {
            let i = choose|i: int| 0 <= i < after.len() && (#[trigger] after[i]).key == k;
            let a = if i > idx { i - 1 } else { i };
            assert(after[i] == before[a]);
        }
    }
}

/// Whether a layout is canonical: keys ascend, no strip is empty, and the
/// runs of each strip are canonical.
pub open spec fn canonical_layout<M>(layout: Seq<(int, Seq<Run<M>>)>) -> bool {
    &&& forall|i: int, j: int| 0 <= i < j < layout.len() ==> (#[trigger] layout[i]).0 < (#[trigger] layout[j]).0
    &&& forall|i: int| 0 <= i < layout.len() ==> (#[trigger] layout[i]).1.len() > 0 && canonical_runs(layout[i].1)
}

/// Whether the run `a` of strip `i` of `layout` covers the cell `(key, row)`.
pub open spec fn layout_covers<M>(layout: Seq<(int, Seq<Run<M>>)>, i: int, a: int, key: int, row: int) -> bool {
    &&& 0 <= i < layout.len()
    &&& 0 <= a < layout[i].1.len()
    &&& layout[i].0 == key
    &&& run_covers(layout[i].1[a], row)
}

/// Whether `layout` gives every cell the value that `g` gives it.
pub open spec fn layout_gives<M>(layout: Seq<(int, Seq<Run<M>>)>, g: spec_fn(int, int) -> Option<M>) -> bool {
    &&& forall|i: int, a: int, key: int, row: int| #[trigger]
        layout_covers(layout, i, a, key, row) ==> g(key, row) == Some(layout[i].1[a].value)
    &&& forall|key: int, row: int| (#[trigger] g(key, row)) is Some ==> exists|i: int, a: int| #[trigger]
        layout_covers(layout, i, a, key, row)
}

/// Two canonical layouts that give every cell the same value agree on their
/// first `k` keys.
proof fn lemma_layout_keys<M>(
    s: Seq<(int, Seq<Run<M>>)>,
    t: Seq<(int, Seq<Run<M>>)>,
    g: spec_fn(int, int) -> Option<M>,
    k: int,
)
    requires
        canonical_layout(s),
        canonical_layout(t),
        layout_gives(s, g),
        layout_gives(t, g),
        0 <= k <= s.len(),
    ensures
        k <= t.len(),
        forall|i: int| 0 <= i < k ==> (#[trigger] s[i]).0 == t[i].0,
    decreases k,
{
    if k > 0 {
        lemma_layout_keys(s, t, g, k - 1);
        let i = k - 1;
        let r0 = s[i].1[0].start;
        assert(layout_covers(s, i, 0, s[i].0, r0));
        assert(g(s[i].0, r0) is Some);
        let (j, b) = choose|j: int, b: int| #[trigger] layout_covers(t, j, b, s[i].0, r0);
        if j < i {
            assert(s[j].0 == t[j].0);
            assert(s[j].0 < s[i].0);
        }
        assert(i < t.len());
        let r1 = t[i].1[0].start;
        assert(layout_covers(t, i, 0, t[i].0, r1));
        assert(g(t[i].0, r1) is Some);
        let (m, c) = choose|m: int, c: int| #[trigger] layout_covers(s, m, c, t[i].0, r1);
        if m < i {
            assert(s[m].0 == t[m].0);
            assert(t[m].0 < t[i].0);
        }
        if j > i {
            assert(t[i].0 < t[j].0);
            if m > i {
                assert(s[i].0 < s[m].0);
            }
        }
    }
}

/// The runs of strip `i` of a canonical layout give the rows of its key
/// their values.
proof fn lemma_layout_strip<M>(s: Seq<(int, Seq<Run<M>>)>, g: spec_fn(int, int) -> Option<M>, i: int)
    requires
        canonical_layout(s),
        layout_gives(s, g),
        0 <= i < s.len(),
    ensures
        runs_give(s[i].1, |row: int| g(s[i].0, row)),
{
    let key = s[i].0;
    let f = |row: int| g(key, row);
    let rs = s[i].1;
    assert forall|a: int, row: int| 0 <= a < rs.len() && run_covers(#[trigger] rs[a], row) implies 
    #[trigger] f(row) == Some(rs[a].value) by {
        assert(layout_covers(s, i, a, key, row));
    }
    assert forall|row: int| (#[trigger] f(row)) is Some implies exists|a: int|
        0 <= a < rs.len() && run_covers(#[trigger] rs[a], row) by {
        assert(g(key, row) is Some);
        let (j, a) = choose|j: int, a: int| #[trigger] layout_covers(s, j, a, key, row);
        if j < i {
            assert(s[j].0 < s[i].0);
        }
        if i < j {
            assert(s[i].0 < s[j].0);
        }
        assert(run_covers(rs[a], row));
    }
}

/// Canonical form: canonical layouts that give every cell the same value
/// are the same layout.
pub proof fn lemma_layout_unique<M>(
    s: Seq<(int, Seq<Run<M>>)>,
    t: Seq<(int, Seq<Run<M>>)>,
    g: spec_fn(int, int) -> Option<M>,
)
    requires
        canonical_layout(s),
        canonical_layout(t),
        layout_gives(s, g),
        layout_gives(t, g),
    ensures
        s == t,
{
    lemma_layout_keys(s, t, g, s.len() as int);
    lemma_layout_keys(t, s, g, t.len() as int);
    assert forall|i: int| 0 <= i < s.len() implies #[trigger] s[i] == t[i] by {
        assert(s[i].0 == t[i].0);
        lemma_layout_strip(s, g, i);
        lemma_layout_strip(t, g, i);
        let f = |row: int| g(s[i].0, row);
        assert(f == |row: int| g(t[i].0, row));
        lemma_runs_unique(s[i].1, t[i].1, f);
    }
    assert(s =~= t);
}

impl<T: Content> Plane<T> {
    /// Keys ascend and every strip is a non-empty well-formed column.
    pub closed spec fn wf(&self) -> bool {
        keys_ascending(self.strips@) && strips_filled(self.strips@)
    }

    /// The value of the cell `(key, row)`, if it has one.
    pub closed spec fn at(&self, key: int, row: int) -> Option<T::Model> {
        strips_at(self.strips@, key, row)
    }

    /// The plane as a map from the cells that hold a value to that value.
    pub open spec fn view(&self) -> Map<(int, int), T::Model> {
        Map::new(
            |p: (int, int)| self.at(p.0, p.1) is Some,
            |p: (int, int)| self.at(p.0, p.1)->0,
        )
    }

    /// The keys of the strips in ascending order.
    pub closed spec fn keys(&self) -> Seq<int> {
        Seq::new(self.strips@.len(), |i: int| self.strips@[i].key as int)
    }

    /// The runs of the strip with index `i`.
    pub closed spec fn strip_runs(&self, i: int) -> Seq<Run<T::Model>> {
        self.strips@[i].cells.runs()
    }

    /// How strips relate to values: keys ascend, no strip is empty, runs
    /// within a strip are ordered, runs that touch hold different values, a
    /// run gives its value to the cells it covers, and a cell outside every
    /// run has no value.
    pub proof fn lemma_strips(&self)
        requires
            self.wf(),
        ensures
            forall|i: int, j: int|
                0 <= i < j < self.keys().len() ==> (#[trigger] self.keys()[i]) < (
                #[trigger] self.keys()[j]),
            forall|i: int|
                0 <= i < self.keys().len() ==> i64::MIN <= (#[trigger] self.keys()[i]) <= i64::MAX
                    && self.strip_runs(i).len() > 0,
            forall|i: int, a: int|
                0 <= i < self.keys().len() && 0 <= a < self.strip_runs(i).len() ==> i64::MIN <= (
                #[trigger] self.strip_runs(i)[a]).start <= self.strip_runs(i)[a].last <= i64::MAX,
            forall|i: int, a: int, b: int|
                0 <= i < self.keys().len() && 0 <= a < b < self.strip_runs(i).len() ==> (
                #[trigger] self.strip_runs(i)[a]).last < (#[trigger] self.strip_runs(i)[b]).start,
            forall|i: int, a: int, b: int|
                0 <= i < self.keys().len() && 0 <= a && b == a + 1 && b < self.strip_runs(i).len() && (
                #[trigger] self.strip_runs(i)[a]).last + 1 == (#[trigger] self.strip_runs(i)[b]).start
                    ==> self.strip_runs(i)[a].value != self.strip_runs(i)[b].value,
            forall|i: int, a: int, row: int|
                0 <= i < self.keys().len() && 0 <= a < self.strip_runs(i).len() && (
                #[trigger] self.strip_runs(i)[a]).start <= row <= self.strip_runs(i)[a].last
                    ==> #[trigger] self.at(self.keys()[i], row) == Some(self.strip_runs(i)[a].value),
            forall|key: int, row: int| #[trigger]
                self.at(key, row) is Some ==> exists|i: int, a: int|
                    0 <= i < self.keys().len() && 0 <= a < self.strip_runs(i).len()
                        && self.keys()[i] == key && (#[trigger] self.strip_runs(i)[a]).start <= row
                        <= self.strip_runs(i)[a].last,
    {
        let s = self.strips@;
        assert forall|i: int, j: int| 0 <= i < j < self.keys().len() implies (
        #[trigger] self.keys()[i]) < (#[trigger] self.keys()[j]) by {
            assert(s[i].key < s[j].key);
        }
        assert forall|i: int| 0 <= i < self.keys().len() implies self.strip_runs(i).len() > 0 by {
            assert(s[i].cells.wf());
        }
        assert forall|i: int, a: int|
            0 <= i < self.keys().len() && 0 <= a < self.strip_runs(i).len() implies i64::MIN <= (
            #[trigger] self.strip_runs(i)[a]).start <= self.strip_runs(i)[a].last <= i64::MAX by {
            assert(s[i].cells.wf());
            s[i].cells.lemma_runs();
        }
        assert forall|i: int, a: int, b: int|
            0 <= i < self.keys().len() && 0 <= a < b < self.strip_runs(i).len() implies (
            #[trigger] self.strip_runs(i)[a]).last < (#[trigger] self.strip_runs(i)[b]).start by {
            assert(s[i].cells.wf());
            s[i].cells.lemma_runs();
        }
        assert forall|i: int, a: int, b: int|
            0 <= i < self.keys().len() && 0 <= a && b == a + 1 && b < self.strip_runs(i).len() && (
            #[trigger] self.strip_runs(i)[a]).last + 1 == (#[trigger] self.strip_runs(i)[b]).start implies self.strip_runs(
            i,
        )[a].value != self.strip_runs(i)[b].value by {
            assert(s[i].cells.wf());
            s[i].cells.lemma_runs();
        }
        assert forall|i: int, a: int, row: int|
            0 <= i < self.keys().len() && 0 <= a < self.strip_runs(i).len() && (
            #[trigger] self.strip_runs(i)[a]).start <= row <= self.strip_runs(i)[a].last implies 
            #[trigger] self.at(self.keys()[i], row) == Some(self.strip_runs(i)[a].value) by {
            assert(s[i].cells.wf());
            s[i].cells.lemma_runs();
            lemma_strips_at(s, i, row);
        }
        assert forall|key: int, row: int| #[trigger] self.at(key, row) is Some implies exists|
            i: int,
            a: int,
        |
            0 <= i < self.keys().len() && 0 <= a < self.strip_runs(i).len() && self.keys()[i] == key
                && (#[trigger] self.strip_runs(i)[a]).start <= row <= self.strip_runs(i)[a].last by {
            let i = choose|i: int| 0 <= i < s.len() && (#[trigger] s[i]).key == key;
            assert(s[i].cells.wf());
            s[i].cells.lemma_runs();
            let a = choose|a: int|
                0 <= a < s[i].cells.runs().len() && (#[trigger] s[i].cells.runs()[a]).start <= row
                    <= s[i].cells.runs()[a].last;
            assert(self.keys()[i] == key);
            assert(self.strip_runs(i)[a].start <= row <= self.strip_runs(i)[a].last);
        }
    }

    /// The strips of the plane in ascending key order, each as its key and
    /// its runs.
    pub open spec fn layout(&self) -> Seq<(int, Seq<Run<T::Model>>)> {
        Seq::new(self.keys().len(), |i: int| (self.keys()[i], self.strip_runs(i)))
    }

    /// A second plane with the same strips.
    pub fn duplicate(&self) -> (r: Self)
        requires
            self.wf(),
        ensures
            r.wf(),
            r@ == self@,
            forall|key: int, row: int| r.at(key, row) == self.at(key, row),
    {
        let mut strips: Vec<Strip<T>> = Vec::new();
        let n = self.strips.len();
        let mut i: usize = 0;
        while i < n
            invariant
                i <= n,
                n == self.strips.len(),
                strips.len() == i,
                self.wf(),
                forall|k: int|
                    0 <= k < i ==> (#[trigger] strips@[k]).key == self.strips@[k].key && strips@[k].cells.wf()
                        && strips@[k].cells.runs() == self.strips@[k].cells.runs(),
                forall|k: int, row: int|
                    0 <= k < i ==> #[trigger] strips@[k].cells.at(row) == self.strips@[k].cells.at(row),
            decreases n - i,
        {
            let strip = &self.strips[i];
            assert(strip.cells.wf());
            let cells = strip.cells.duplicate();
            strips.push(Strip { key: strip.key, cells });
            i += 1;
        }
        let r = Plane { strips };
        proof {
            let s = self.strips@;
            let t = r.strips@;
            assert(keys_ascending(t)) by {
                assert forall|a: int, b: int| 0 <= a < b < t.len() implies (#[trigger] t[a]).key < (
                #[trigger] t[b]).key by {
                    assert(s[a].key < s[b].key);
                }
            }
            assert(strips_filled(t)) by {
                assert forall|a: int| 0 <= a < t.len() implies (#[trigger] t[a]).cells.wf() && t[a].cells.runs().len()
                    > 0 by {
                    assert(s[a].cells.wf() && s[a].cells.runs().len() > 0);
                }
            }
            assert forall|key: int, row: int| r.at(key, row) == self.at(key, row) by {
                if exists|a: int| 0 <= a < s.len() && (#[trigger] s[a]).key == key {
                    let a = choose|a: int| 0 <= a < s.len() && (#[trigger] s[a]).key == key;
                    assert(t[a].key == key);
                    lemma_strips_at(s, a, row);
                    lemma_strips_at(t, a, row);
                } else if exists|a: int| 0 <= a < t.len() && (#[trigger] t[a]).key == key {
                    let a = choose|a: int| 0 <= a < t.len() && (#[trigger] t[a]).key == key;
                    assert(s[a].key == key);
                }
            }
            assert(r@ =~= self@);
        }
        r
    }

    /// The value that the plane gives to each cell.
    pub open spec fn reading(&self) -> spec_fn(int, int) -> Option<T::Model> {
        |key: int, row: int| self.at(key, row)
    }

    /// The layout of a well-formed plane is canonical and gives every cell
    /// its value.
    pub proof fn lemma_layout(&self)
        requires
            self.wf(),
        ensures
            canonical_layout(self.layout()),
            layout_gives(self.layout(), self.reading()),
    {
        self.lemma_strips();
        let mine = self.layout();
        let g = self.reading();
        assert(canonical_layout(mine)) by {
            assert forall|i: int| 0 <= i < mine.len() implies (#[trigger] mine[i]).1.len() > 0 && canonical_runs(
                mine[i].1,
            ) by {
                let rs = self.strip_runs(i);
                assert(self.keys()[i] == mine[i].0);
                assert forall|a: int| 0 <= a < rs.len() implies (#[trigger] rs[a]).start <= rs[a].last by {
                    assert(self.strip_runs(i)[a].start <= self.strip_runs(i)[a].last);
                }
            }
            assert forall|i: int, j: int| 0 <= i < j < mine.len() implies (#[trigger] mine[i]).0 < (
            #[trigger] mine[j]).0 by {
                assert(self.keys()[i] < self.keys()[j]);
            }
        }
        assert forall|i: int, a: int, key: int, row: int| #[trigger]
            layout_covers(mine, i, a, key, row) implies g(key, row) == Some(mine[i].1[a].value) by {
            assert(self.strip_runs(i)[a].start <= row <= self.strip_runs(i)[a].last);
            assert(self.at(self.keys()[i], row) == Some(self.strip_runs(i)[a].value));
        }
        assert forall|key: int, row: int| (#[trigger] g(key, row)) is Some implies exists|i: int, a: int| #[trigger]
            layout_covers(mine, i, a, key, row) by {
            assert(self.at(key, row) is Some);
            let (i, a) = choose|i: int, a: int|
                0 <= i < self.keys().len() && 0 <= a < self.strip_runs(i).len() && self.keys()[i] == key && (
                #[trigger] self.strip_runs(i)[a]).start <= row <= self.strip_runs(i)[a].last;
            assert(layout_covers(mine, i, a, key, row));
        }
    }

    /// The layout of a well-formed plane is the canonical layout that gives
    /// every cell its value: whatever canonical layout does so is the layout
    /// of the plane.
    pub proof fn lemma_layout_is(&self, layout: Seq<(int, Seq<Run<T::Model>>)>)
        requires
            self.wf(),
            canonical_layout(layout),
            layout_gives(layout, self.reading()),
        ensures
            self.layout() == layout,
    {
        self.lemma_layout();
        lemma_layout_unique(self.layout(), layout, self.reading());
    }

    /// Canonical form: two well-formed planes that give every cell the same
    /// value have the same strips, key by key and run by run.
    pub proof fn lemma_canonical(&self, other: &Self)
        requires
            self.wf(),
            other.wf(),
            self.view() == other.view(),
        ensures
            self.keys() == other.keys(),
            forall|i: int| 0 <= i < self.keys().len() ==> self.strip_runs(i) == other.strip_runs(i),
            self.layout() == other.layout(),
    {
        let f = self.reading();
        let g = other.reading();
        assert forall|key: int, row: int| #[trigger] f(key, row) == g(key, row) by {
            let a = self.view();
            let b = other.view();
            assert(a.dom().contains((key, row)) <==> self.at(key, row) is Some);
            assert(b.dom().contains((key, row)) <==> other.at(key, row) is Some);
            if self.at(key, row) is Some {
                assert(a[(key, row)] == self.at(key, row)->0);
                assert(b[(key, row)] == other.at(key, row)->0);
            }
        }
        other.lemma_layout();
        let layout = other.layout();
        assert(layout_gives(layout, f)) by {
            assert forall|i: int, a: int, key: int, row: int| #[trigger]
                layout_covers(layout, i, a, key, row) implies f(key, row) == Some(layout[i].1[a].value) by {
                assert(g(key, row) == Some(layout[i].1[a].value));
            }
            assert forall|key: int, row: int| (#[trigger] f(key, row)) is Some implies exists|i: int, a: int| #[trigger]
                layout_covers(layout, i, a, key, row) by {
                assert(g(key, row) is Some);
            }
        }
        self.lemma_layout_is(layout);
        assert(self.keys() =~= other.keys()) by {
            assert(self.layout().len() == other.layout().len());
            assert forall|i: int| 0 <= i < self.keys().len() implies self.keys()[i] == other.keys()[i] by {
                assert(self.layout()[i].0 == other.layout()[i].0);
            }
        }
        assert forall|i: int| 0 <= i < self.keys().len() implies self.strip_runs(i) == other.strip_runs(i) by {
            assert(self.layout()[i].1 == other.layout()[i].1);
        }
    }

    /// An empty plane.
    pub fn new() -> (r: Self)
        ensures
            r.wf(),
            r.keys().len() == 0,
            forall|key: int, row: int| r.at(key, row) is None,
    {
        Plane { strips: Vec::new() }
    }

    /// The number of strips.
    pub fn strip_count(&self) -> (n: usize)
        ensures
            n == self.keys().len(),
    {
        self.strips.len()
    }

    /// The key of the strip with index `i`.
    pub fn strip_key(&self, i: usize) -> (key: i64)
        requires
            i < self.keys().len(),
        ensures
            key == self.keys()[i as int],
    {
        self.strips[i].key
    }

    /// The cells of the strip with index `i`.
    pub fn strip_cells(&self, i: usize) -> (cells: &ColumnData<T>)
        requires
            self.wf(),
            i < self.keys().len(),
        ensures
            cells.wf(),
            cells.runs() == self.strip_runs(i as int),
            forall|row: int| cells.at(row) == self.at(self.keys()[i as int], row),
    {
        proof {
            assert forall|row: int| self.strips@[i as int].cells.at(row) == self.at(
                self.keys()[i as int],
                row,
            ) by {
                lemma_strips_at(self.strips@, i as int, row);
            }
        }
        &self.strips[i].cells
    }

    /// Looks `key` up by binary search: whether a strip has it, and the
    /// index at which that strip stands or would have to be inserted.
    pub fn find_strip(&self, key: i64) -> (r: (bool, usize))
        requires
            self.wf(),
        ensures
            r.1 <= self.keys().len(),
            r.0 ==> r.1 < self.keys().len() && self.keys()[r.1 as int] == key,
            !r.0 ==> forall|row: int| self.at(key as int, row) is None,
            forall|i: int| 0 <= i < r.1 ==> self.keys()[i] < key,
            forall|i: int| r.1 < i < self.keys().len() ==> key < self.keys()[i],
            !r.0 ==> forall|i: int| r.1 <= i < self.keys().len() ==> key < self.keys()[i],
    {
        let mut lo: usize = 0;
        let mut hi: usize = self.strips.len();
        while lo < hi
            invariant
                lo <= hi <= self.strips.len(),
                keys_ascending(self.strips@),
                forall|i: int| 0 <= i < lo ==> (#[trigger] self.strips@[i]).key < key,
                forall|i: int| hi <= i < self.strips.len() ==> key < (#[trigger] self.strips@[i]).key,
            decreases hi - lo,
        {
            let mid = lo + (hi - lo) / 2;
            let k = self.strips[mid].key;
            if k < key {
                proof {
                    assert forall|i: int| 0 <= i < mid + 1 implies (#[trigger] self.strips@[i]).key
                        < key by {
                        if i < mid {
                            assert(self.strips@[i].key < self.strips@[mid as int].key);
                        }
                    }
                }
                lo = mid + 1;
            } else if key < k {
                proof {
                    assert forall|i: int| mid <= i < self.strips.len() implies key < (
                    #[trigger] self.strips@[i]).key by {
                        if mid < i {
                            assert(self.strips@[mid as int].key < self.strips@[i].key);
                        }
                    }
                }
                hi = mid;
            } else {
                proof {
                    assert forall|i: int| 0 <= i < mid implies self.keys()[i] < key by {
                        assert(self.strips@[i].key < self.strips@[mid as int].key);
                    }
                    assert forall|i: int| mid < i < self.keys().len() implies key < self.keys()[i] by {
                        assert(self.strips@[mid as int].key < self.strips@[i].key);
                    }
                }
                return (true, mid);
            }
        }
        proof {
            assert forall|i: int| 0 <= i < lo implies self.keys()[i] < key by {
                assert(self.strips@[i].key < key);
            }
            assert forall|i: int| lo <= i < self.keys().len() implies key < self.keys()[i] by {
                assert(key < self.strips@[i].key);
            }
            assert forall|row: int| self.at(key as int, row) is None by {
                if exists|i: int| 0 <= i < self.strips@.len() && (#[trigger] self.strips@[i]).key == key {
                    let i = choose|i: int|
                        0 <= i < self.strips@.len() && (#[trigger] self.strips@[i]).key == key;
                    assert(self.keys()[i] == key);
                }
            }
        }
        (false, lo)
    }

    /// The value of the cell `(key, row)`, if it has one.
    pub fn get(&self, key: i64, row: i64) -> (r: Option<&T>)
        requires
            self.wf(),
        ensures
            match r {
                Some(v) => self.at(key as int, row as int) == Some(v.model()),
                None => self.at(key as int, row as int) is None,
            },
    {
        let (found, idx) = self.find_strip(key);
        if found {
            proof {
                lemma_strips_at(self.strips@, idx as int, row as int);
            }
            self.strips[idx].cells.get(row)
        } else {
            None
        }
    }

    /// Gives the cells `(key, first ..= last)` the value `value`, or none for
    /// `None`, and leaves every other cell as it was.
    pub fn set_range(&mut self, key: i64, first: i64, last: i64, value: Option<T>)
        requires
            old(self).wf(),
        ensures
            final(self).wf(),
            forall|k: int, row: int|
                final(self).at(k, row) == if k == key && first <= row <= last {
                    option_model(value)
                } else {
                    old(self).at(k, row)
                },
    {
        if first > last {
            return ;
        }
        let ghost before = self.strips@;
        let (found, idx) = self.find_strip(key);
        if found {
            let strip = &mut self.strips[idx];
            strip.cells.splice(first, last, value);
            let vacant = self.strips[idx].cells.is_empty();
            let ghost mid = self.strips@;
            proof {
                assert(self.keys()[idx as int] == before[idx as int].key);
                lemma_replaced(before, mid, idx as int);
            }
            if vacant {
                self.strips.remove(idx);
                proof {
                    mid[idx as int].cells.lemma_vacant();
                    lemma_removed(mid, idx as int);
                }
            }
        } else {
            match value {
                Some(v) => {
                    let mut cells: ColumnData<T> = ColumnData::new();
                    cells.splice(first, last, Some(v));
                    proof {
                        cells.lemma_vacant();
                        assert(cells.at(first as int) is Some);
                        assert forall|i: int| 0 <= i < before.len() implies if i < idx {
                            (#[trigger] before[i]).key < key
                        } else {
                            key < before[i].key
                        } by {
                            assert(self.keys()[i] == before[i].key);
                        }
                    }
                    let strip = Strip { key, cells };
                    proof {
                        lemma_inserted(before, idx as int, strip);
                    }
                    self.strips.insert(idx, strip);
                },
                None => {},
            }
        }
    }

    /// The cells with a key in `key_first ..= key_last` and a row in
    /// `row_first ..= row_last` that hold a value, ordered by key, then by
    /// row.
    pub fn positions_in(&self, key_first: i64, key_last: i64, row_first: i64, row_last: i64) -> (out:
        Vec<(i64, i64)>)
        requires
            self.wf(),
        ensures
            forall|a: int, b: int| 0 <= a < b < out.len() ==> cell_before(out@[a], out@[b]),
            forall|a: int|
                0 <= a < out.len() ==> {
                    &&& key_first <= (#[trigger] out@[a]).0 <= key_last
                    &&& row_first <= out@[a].1 <= row_last
                    &&& self.at(out@[a].0 as int, out@[a].1 as int) is Some
                },
            forall|key: int, row: int|
                key_first <= key <= key_last && row_first <= row <= row_last && self.at(key, row) is Some
                    ==> #[trigger] lists_cell(out@, key, row),
    {
        let ghost s = self.strips@;
        let n = self.strips.len();
        let mut out: Vec<(i64, i64)> = Vec::new();
        let mut i: usize = 0;
        while i < n
            invariant
                i <= n,
                n == self.strips.len(),
                s == self.strips@,
                keys_ascending(s),
                strips_filled(s),
                forall|a: int, b: int| 0 <= a < b < out.len() ==> cell_before(out@[a], out@[b]),
                forall|a: int|
                    0 <= a < out.len() ==> {
                        &&& key_first <= (#[trigger] out@[a]).0 <= key_last
                        &&& row_first <= out@[a].1 <= row_last
                        &&& strips_at(s, out@[a].0 as int, out@[a].1 as int) is Some
                        &&& i > 0 && out@[a].0 <= s[i - 1].key
                    },
                forall|m: int, row: int|
                    0 <= m < i && key_first <= s[m].key <= key_last && row_first <= row <= row_last && (
                    #[trigger] s[m].cells.at(row)) is Some ==> lists_cell(out@, s[m].key as int, row),
            decreases n - i,
        {
            let key = self.strips[i].key;
            let ghost prior = out@;
            proof {
                if i > 0 {
                    assert(s[i - 1].key < s[i as int].key);
                }
                assert(s[i as int].cells.wf());
            }
            if key_first <= key && key <= key_last {
                let rows = self.strips[i].cells.rows_in(row_first, row_last);
                let mut a: usize = 0;
                while a < rows.len()
                    invariant
                        a <= rows.len(),
                        0 <= i < s.len(),
                        key == s[i as int].key,
                        key_first <= key <= key_last,
                        keys_ascending(s),
                        forall|x: int, y: int| 0 <= x < y < rows.len() ==> rows@[x] < rows@[y],
                        forall|x: int|
                            0 <= x < rows.len() ==> row_first <= (#[trigger] rows@[x]) <= row_last
                                && s[i as int].cells.at(rows@[x] as int) is Some,
                        out.len() == prior.len() + a,
                        forall|x: int| 0 <= x < prior.len() ==> out@[x] == prior[x],
                        forall|x: int| 0 <= x < a ==> out@[prior.len() + x] == (key, rows@[x]),
                        forall|x: int| 0 <= x < prior.len() ==> (#[trigger] prior[x]).0 < key,
                        forall|x: int, y: int| 0 <= x < y < prior.len() ==> cell_before(prior[x], prior[y]),
                        forall|x: int|
                            0 <= x < prior.len() ==> {
                                &&& key_first <= (#[trigger] prior[x]).0 <= key_last
                                &&& row_first <= prior[x].1 <= row_last
                                &&& strips_at(s, prior[x].0 as int, prior[x].1 as int) is Some
                            },
                    decreases rows.len() - a,
                {
                    out.push((key, rows[a]));
                    a += 1;
                }
                proof {
                    assert forall|x: int, y: int| 0 <= x < y < out.len() implies cell_before(
                        out@[x],
                        out@[y],
                    ) by {
                        if y < prior.len() {
                            assert(out@[x] == prior[x]);
                            assert(out@[y] == prior[y]);
                            assert(cell_before(prior[x], prior[y]));
                        } else if x < prior.len() {
                            assert(out@[x] == prior[x]);
                            assert(prior[x].0 < key);
                            assert(out@[y] == (key, rows@[y - prior.len()]));
                        } else {
                            assert(out@[x] == (key, rows@[x - prior.len()]));
                            assert(out@[y] == (key, rows@[y - prior.len()]));
                        }
                    }
                    assert forall|x: int| 0 <= x < out.len() implies {
                        &&& key_first <= (#[trigger] out@[x]).0 <= key_last
                        &&& row_first <= out@[x].1 <= row_last
                        &&& strips_at(s, out@[x].0 as int, out@[x].1 as int) is Some
                        &&& out@[x].0 <= s[i as int].key
                    } by {
                        if x < prior.len() {
                            assert(out@[x] == prior[x]);
                        } else {
                            assert(out@[x] == (key, rows@[x - prior.len()]));
                            lemma_strips_at(s, i as int, rows@[x - prior.len()] as int);
                        }
                    }
                    assert forall|row: int|
                        row_first <= row <= row_last && s[i as int].cells.at(row) is Some implies lists_cell(
                        out@,
                        key as int,
                        row,
                    ) by {
                        assert(lists_row(rows@, row));
                        let x = choose|x: int| 0 <= x < rows.len() && #[trigger] rows@[x] == row;
                        assert(out@[prior.len() + x] == (key, rows@[x]));
                    }
                }
            } else {
                proof {
                    assert forall|x: int| 0 <= x < out.len() implies (#[trigger] out@[x]).0 <= s[i as int].key by {}
                }
            }
            proof {
                assert forall|m: int, row: int|
                    0 <= m < i + 1 && key_first <= s[m].key <= key_last && row_first <= row <= row_last
                        && (#[trigger] s[m].cells.at(row)) is Some implies lists_cell(
                    out@,
                    s[m].key as int,
                    row,
                ) by {
                    if m < i {
                        assert(lists_cell(prior, s[m].key as int, row));
                        let x = choose|x: int|
                            0 <= x < prior.len() && (#[trigger] prior[x]).0 == s[m].key && prior[x].1 == row;
                        assert(out@[x] == prior[x]);
                    }
                }
            }
            i += 1;
        }
        proof {
            assert forall|key: int, row: int|
                key_first <= key <= key_last && row_first <= row <= row_last && self.at(key, row) is Some
                implies #[trigger] lists_cell(out@, key, row) by {
                let m = choose|m: int| 0 <= m < s.len() && (#[trigger] s[m]).key == key;
                assert(s[m].cells.at(row) is Some);
                assert(lists_cell(out@, s[m].key as int, row));
            }
        }
        out
    }

    /// Whether `b` holds every cell with a value and each of its four edges
    /// touches such a cell.
    pub open spec fn tightly_within(&self, b: Bounds) -> bool {
        &&& forall|key: int, row: int| #[trigger]
            self.at(key, row) is Some ==> b.min_key <= key <= b.max_key && b.min_row <= row
                <= b.max_row
        &&& exists|row: int| #[trigger] self.at(b.min_key as int, row) is Some
        &&& exists|row: int| #[trigger] self.at(b.max_key as int, row) is Some
        &&& exists|key: int| #[trigger] self.at(key, b.min_row as int) is Some
        &&& exists|key: int| #[trigger] self.at(key, b.max_row as int) is Some
    }

    /// The tightest bounds around the cells that hold a value, or `None` for
    /// an empty plane.
    pub fn bounds(&self) -> (r: Option<Bounds>)
        requires
            self.wf(),
        ensures
            match r {
                None => forall|key: int, row: int| self.at(key, row) is None,
                Some(b) => self.tightly_within(b),
            },
    {
        let ghost s = self.strips@;
        let n = self.strips.len();
        if n == 0 {
            proof {
                assert forall|key: int, row: int| self.at(key, row) is None by {}
            }
            return None;
        }
        proof {
            assert(s[0].cells.wf());
            s[0].cells.lemma_vacant();
        }
        let first = match self.strips[0].cells.extent() {
            Some(e) => e,
            None => {
                proof {
                    assert(false);
                }
                (0, 0)
            },
        };
        let mut min_row = first.0;
        let mut max_row = first.1;
        let ghost mut low_at: int = 0;
        let ghost mut high_at: int = 0;
        let mut i: usize = 1;
        while i < n
            invariant
                1 <= i <= n,
                n == self.strips.len(),
                s == self.strips@,
                keys_ascending(s),
                strips_filled(s),
                0 <= low_at < i,
                0 <= high_at < i,
                s[low_at].cells.at(min_row as int) is Some,
                s[high_at].cells.at(max_row as int) is Some,
                forall|m: int, row: int|
                    0 <= m < i && (#[trigger] s[m].cells.at(row)) is Some ==> min_row <= row <= max_row,
            decreases n - i,
        {
            proof {
                assert(s[i as int].cells.wf());
                s[i as int].cells.lemma_vacant();
            }
            match self.strips[i].cells.extent() {
                Some((low, high)) => {
                    if low < min_row {
                        min_row = low;
                        proof {
                            low_at = i as int;
                        }
                    }
                    if high > max_row {
                        max_row = high;
                        proof {
                            high_at = i as int;
                        }
                    }
                },
                None => {},
            }
            i += 1;
        }
        proof {
            assert(s[n - 1].cells.wf());
            s[n - 1].cells.lemma_vacant();
        }
        let tail = self.strips[n - 1].cells.extent();
        let ghost w: int = match tail {
            Some(e) => e.0 as int,
            None => 0,
        };
        let b = Bounds {
            min_key: self.strips[0].key,
            max_key: self.strips[n - 1].key,
            min_row,
            max_row,
        };
        proof {
            assert forall|key: int, row: int| #[trigger] self.at(key, row) is Some implies b.min_key
                <= key <= b.max_key && b.min_row <= row <= b.max_row by {
                let m = choose|m: int| 0 <= m < s.len() && (#[trigger] s[m]).key == key;
                assert(s[m].cells.at(row) is Some);
                if 0 < m {
                    assert(s[0].key < s[m].key);
                }
                if m < n - 1 {
                    assert(s[m].key < s[n - 1].key);
                }
            }
            lemma_strips_at(s, 0, first.0 as int);
            assert(self.at(b.min_key as int, first.0 as int) is Some);
            lemma_strips_at(s, n - 1, w);
            assert(self.at(b.max_key as int, w) is Some);
            lemma_strips_at(s, low_at, min_row as int);
            assert(self.at(s[low_at].key as int, b.min_row as int) is Some);
            lemma_strips_at(s, high_at, max_row as int);
            assert(self.at(s[high_at].key as int, b.max_row as int) is Some);
            assert(exists|row: int| #[trigger] self.at(b.min_key as int, row) is Some);
            assert(exists|row: int| #[trigger] self.at(b.max_key as int, row) is Some);
            assert(exists|key: int| #[trigger] self.at(key, b.min_row as int) is Some);
            assert(exists|key: int| #[trigger] self.at(key, b.max_row as int) is Some);
            assert(self.tightly_within(b));
        }
        Some(b)
    }

    /// Gives the cell `(key, row)` the value `value`, or none for `None`.
    pub fn set(&mut self, key: i64, row: i64, value: Option<T>)
        requires
            old(self).wf(),
        ensures
            final(self).wf(),
            forall|k: int, r: int|
                final(self).at(k, r) == if k == key && r == row {
                    option_model(value)
                } else {
                    old(self).at(k, r)
                },
    {
        self.set_range(key, row, row, value);
    }
}

} // verus!
