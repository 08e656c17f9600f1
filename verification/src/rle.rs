//! Run-length encoding of a sequence of values.
//!
//! The encoding is a list of values with repeat counts. No count is zero and
//! neighbours differ, so a sequence has one encoding only.

use vstd::prelude::*;
use crate::content::Content;

verus! {

/// A sequence of values, held as runs of equal values.
#[derive(Clone, Debug, PartialEq, Eq)]
pub struct RunLengthEncoding<T> {
    runs: Vec<(T, usize)>,
    total: usize,
}

/// The sequence that a list of runs stands for.
pub open spec fn expand_runs<T: Content>(s: Seq<(T, usize)>) -> Seq<T::Model>
    decreases s.len(),
{
    if s.len() == 0 {
        Seq::empty()
    } else {
        expand_runs(s.drop_last()) + Seq::new(s.last().1 as nat, |i: int| s.last().0.model())
    }
}

/// The length of the sequence that the first `k` runs stand for.
pub open spec fn prefix_len<T: Content>(s: Seq<(T, usize)>, k: int) -> int {
    expand_runs(s.take(k)).len() as int
}

/// One more run lengthens the sequence by its count.
proof fn lemma_prefix_step<T: Content>(s: Seq<(T, usize)>, k: int)
    requires
        0 <= k < s.len(),
    ensures
        prefix_len(s, k + 1) == prefix_len(s, k) + s[k].1,
        prefix_len(s, 0) == 0,
{
    assert(s.take(k + 1).drop_last() =~= s.take(k));
    assert(s.take(0) =~= Seq::<(T, usize)>::empty());
}

/// An element of the sequence comes from the run whose span holds its index.
proof fn lemma_expand_index<T: Content>(s: Seq<(T, usize)>, k: int, i: int)
    requires
        0 <= k < s.len(),
        prefix_len(s, k) <= i < prefix_len(s, k + 1),
    ensures
        0 <= i < expand_runs(s).len(),
        expand_runs(s)[i] == s[k].0.model(),
    decreases s.len(),
{
    lemma_prefix_step(s, k);
    if k == s.len() - 1 {
        assert(s.take(k) =~= s.drop_last());
        assert(s.take(k + 1) =~= s);
    } else {
        let d = s.drop_last();
        assert(d.take(k) =~= s.take(k));
        assert(d.take(k + 1) =~= s.take(k + 1));
        lemma_expand_index(d, k, i);
    }
}

/// The sequence that a list of pairs of a value and a count stands for.
pub open spec fn expand_pairs<M>(runs: Seq<(M, int)>) -> Seq<M>
    decreases runs.len(),
{
    if runs.len() == 0 {
        Seq::empty()
    } else {
        expand_pairs(runs.drop_last()) + Seq::new(runs.last().1 as nat, |i: int| runs.last().0)
    }
}

/// The pairs of the models and counts of a list of runs.
pub open spec fn run_pairs<T: Content>(s: Seq<(T, usize)>) -> Seq<(T::Model, int)> {
    Seq::new(s.len(), |i: int| (s[i].0.model(), s[i].1 as int))
}

/// A list of runs stands for what its pairs stand for.
proof fn lemma_pairs<T: Content>(s: Seq<(T, usize)>)
    ensures
        expand_runs(s) == expand_pairs(run_pairs(s)),
    decreases s.len(),
{
    if s.len() > 0 {
        lemma_pairs(s.drop_last());
        assert(run_pairs(s).drop_last() =~= run_pairs(s.drop_last()));
        assert(Seq::new(s.last().1 as nat, |i: int| s.last().0.model()) =~= Seq::new(
            run_pairs(s).last().1 as nat,
            |i: int| run_pairs(s).last().0,
        ));
    }
}

impl<T: Content> RunLengthEncoding<T> {
    /// No run is empty, neighbouring runs differ, and the stored total is
    /// the length of the sequence.
    pub closed spec fn wf(&self) -> bool {
        &&& forall|i: int| 0 <= i < self.runs@.len() ==> (#[trigger] self.runs@[i]).1 > 0
        &&& forall|i: int, j: int|
            0 <= i && j == i + 1 && j < self.runs@.len() ==> (#[trigger] self.runs@[i]).0.model() != (
            #[trigger] self.runs@[j]).0.model()
        &&& self.total == expand_runs(self.runs@).len()
    }

    /// The sequence that the encoding stands for.
    pub closed spec fn expand(&self) -> Seq<T::Model> {
        expand_runs(self.runs@)
    }

    /// The runs as pairs of a value and a count.
    pub closed spec fn spec_runs(&self) -> Seq<(T::Model, int)> {
        run_pairs(self.runs@)
    }

    /// Canonical form: the runs of a well-formed encoding stand for its
    /// sequence, none of them is empty, and neighbours hold different
    /// values.
    pub proof fn lemma_spec_runs(&self)
        requires
            self.wf(),
        ensures
            self.expand() == expand_pairs(self.spec_runs()),
            forall|i: int| 0 <= i < self.spec_runs().len() ==> (#[trigger] self.spec_runs()[i]).1 > 0,
            forall|i: int, j: int|
                0 <= i && j == i + 1 && j < self.spec_runs().len() ==> (#[trigger] self.spec_runs()[i]).0 != (
                #[trigger] self.spec_runs()[j]).0,
    {
        lemma_pairs(self.runs@);
        assert forall|i: int| 0 <= i < self.spec_runs().len() implies (#[trigger] self.spec_runs()[i]).1 > 0 by {
            assert(self.runs@[i].1 > 0);
        }
        assert forall|i: int, j: int| 0 <= i && j == i + 1 && j < self.spec_runs().len() implies (
        #[trigger] self.spec_runs()[i]).0 != (#[trigger] self.spec_runs()[j]).0 by {
            assert(self.runs@[i].0.model() != self.runs@[j].0.model());
        }
    }

    /// The empty sequence.
    pub fn new() -> (r: Self)
        ensures
            r.wf(),
            r.expand() == Seq::<T::Model>::empty(),
    {
        RunLengthEncoding { runs: Vec::new(), total: 0 }
    }

    /// The sequence of `len` times `value`.
    pub fn repeat(value: T, len: usize) -> (r: Self)
        ensures
            r.wf(),
            r.expand() == Seq::new(len as nat, |i: int| value.model()),
    {
        let mut runs: Vec<(T, usize)> = Vec::new();
        if len > 0 {
            let ghost model = value.model();
            runs.push((value, len));
            proof {
                assert(runs@.drop_last() =~= Seq::<(T, usize)>::empty());
                assert(expand_runs(runs@.drop_last()) =~= Seq::<T::Model>::empty());
                assert(runs@.last().0.model() == model);
                assert(expand_runs(runs@) =~= Seq::new(len as nat, |i: int| model));
            }
        } else {
            proof {
                assert(expand_runs(runs@) =~= Seq::new(len as nat, |i: int| value.model()));
            }
        }
        RunLengthEncoding { runs, total: len }
    }

    /// The length of the sequence.
    pub fn size(&self) -> (n: usize)
        requires
            self.wf(),
        ensures
            n == self.expand().len(),
    {
        self.total
    }

    /// The number of runs.
    pub fn run_count(&self) -> (n: usize)
        ensures
            n == self.spec_runs().len(),
    {
        self.runs.len()
    }

    /// The run with index `i`: its value and its count.
    pub fn run(&self, i: usize) -> (r: (&T, usize))
        requires
            i < self.spec_runs().len(),
        ensures
            r.0.model() == self.spec_runs()[i as int].0,
            r.1 == self.spec_runs()[i as int].1,
    {
        let entry = &self.runs[i];
        (&entry.0, entry.1)
    }

    /// Appends `value` to the sequence, lengthening the last run where it
    /// holds the same value.
    pub fn push(&mut self, value: T)
        requires
            old(self).wf(),
            old(self).expand().len() < usize::MAX,
        ensures
            final(self).wf(),
            final(self).expand() == old(self).expand().push(value.model()),
    {
        let ghost before = self.runs@;
        let ghost model = value.model();
        let n = self.runs.len();
        if n > 0 && self.runs[n - 1].0.same(&value) {
            let count = self.runs[n - 1].1;
            proof {
                assert(expand_runs(before).len() == expand_runs(before.drop_last()).len() + count);
            }
            self.runs.pop();
            self.runs.push((value, count + 1));
            proof {
                let after = self.runs@;
                assert(after.drop_last() =~= before.drop_last());
                assert(expand_runs(after) =~= expand_runs(before).push(model));
                assert forall|i: int, j: int| 0 <= i && j == i + 1 && j < after.len() implies (
                #[trigger] after[i]).0.model() != (#[trigger] after[j]).0.model() by {
                    assert(after[i] == before[i]);
                    if j < n - 1 {
                        assert(after[j] == before[j]);
                    }
                }
                assert forall|i: int| 0 <= i < after.len() implies (#[trigger] after[i]).1 > 0 by {
                    if i < n - 1 {
                        assert(after[i] == before[i]);
                    }
                }
            }
        } else {
            self.runs.push((value, 1));
            proof {
                let after = self.runs@;
                assert(after.drop_last() =~= before);
                assert(expand_runs(after) =~= expand_runs(before).push(model));
                assert forall|i: int, j: int| 0 <= i && j == i + 1 && j < after.len() implies (
                #[trigger] after[i]).0.model() != (#[trigger] after[j]).0.model() by {
                    assert(after[i] == before[i]);
                    if j < n {
                        assert(after[j] == before[j]);
                    }
                }
                assert forall|i: int| 0 <= i < after.len() implies (#[trigger] after[i]).1 > 0 by {
                    if i < n {
                        assert(after[i] == before[i]);
                    }
                }
            }
        }
        self.total = self.total + 1;
    }

    /// The element with index `i`, or `None` past the end.
    pub fn get_at(&self, i: usize) -> (r: Option<&T>)
        requires
            self.wf(),
        ensures
            match r {
                Some(v) => i < self.expand().len() && v.model() == self.expand()[i as int],
                None => i >= self.expand().len(),
            },
    {
        if i >= self.total {
            return None;
        }
        let ghost s = self.runs@;
        let mut k: usize = 0;
        let mut seen: usize = 0;
        proof {
            assert(s.take(0) =~= Seq::<(T, usize)>::empty());
            assert(s.take(s.len() as int) =~= s);
        }
        while k < self.runs.len()
            invariant
                k <= self.runs.len(),
                s == self.runs@,
                seen == prefix_len(s, k as int),
                seen <= i < self.total,
                self.total == prefix_len(s, s.len() as int),
            decreases self.runs.len() - k,
        {
            let count = self.runs[k].1;
            proof {
                lemma_prefix_step(s, k as int);
                lemma_prefix_bound(s, k + 1);
            }
            if i - seen < count {
                proof {
                    lemma_expand_index(s, k as int, i as int);
                }
                return Some(&self.runs[k].0);
            }
            seen = seen + count;
            k += 1;
        }
        proof {
            assert(false);
        }
        None
    }
}

/// The first `k` runs stand for no more than all runs do.
proof fn lemma_prefix_bound<T: Content>(s: Seq<(T, usize)>, k: int)
    requires
        0 <= k <= s.len(),
    ensures
        prefix_len(s, k) <= prefix_len(s, s.len() as int),
    decreases s.len() - k,
{
    if k < s.len() {
        lemma_prefix_step(s, k);
        lemma_prefix_bound(s, k + 1);
    }
}

} // verus!
