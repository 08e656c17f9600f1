//! Ordering shared transactions.
//!
//! Every transaction that is shared through a file carries the sequence
//! number that the file's one authority gave it. A client applies shared
//! transactions in the order of their numbers and without gaps: one that
//! comes early waits until those before it have come.

use vstd::prelude::*;
use crate::controller::GridController;
use crate::controller::transacted;
use crate::controller::TransactionFailure;
use crate::operation::effect_all;
use crate::operation::outcome;
use crate::operation::Operation;
use crate::transaction::all_wf;
use crate::transaction::none_malformed;
use crate::transaction::TransactionSummary;
use crate::transaction::TransactionType;

verus! {

/// A shared transaction: its identifier, its sequence number and its
/// operations.
#[derive(Clone, Debug, PartialEq, Eq)]
pub struct SequencedTransaction {
    pub id: u128,
    pub sequence_num: u64,
    pub operations: Vec<Operation>,
}

/// The shared transactions that a client has received and not yet handed
/// on.
pub struct Sequencer {
    /// The sequence number of the last transaction that was handed on.
    last: u64,
    /// The transactions that wait, by descending sequence number.
    waiting: Vec<SequencedTransaction>,
}

/// Sequence numbers descend strictly and all lie above `last`.
spec fn descending(s: Seq<SequencedTransaction>, last: int) -> bool {
    &&& forall|i: int| 0 <= i < s.len() ==> (#[trigger] s[i]).sequence_num > last
    &&& forall|i: int, j: int|
        0 <= i < j < s.len() ==> (#[trigger] s[i]).sequence_num > (#[trigger] s[j]).sequence_num
}

/// The transactions of a list by their sequence numbers.
spec fn by_number(s: Seq<SequencedTransaction>) -> Map<int, SequencedTransaction> {
    Map::new(
        |n: int| exists|i: int| 0 <= i < s.len() && (#[trigger] s[i]).sequence_num == n,
        |n: int| s[choose|i: int| 0 <= i < s.len() && (#[trigger] s[i]).sequence_num == n],
    )
}

/// In a descending list a transaction is found under its own number.
proof fn lemma_by_number(s: Seq<SequencedTransaction>, last: int, i: int)
    requires
        descending(s, last),
        0 <= i < s.len(),
    ensures
        by_number(s).dom().contains(s[i].sequence_num as int),
        by_number(s)[s[i].sequence_num as int] == s[i],
{
    let n = s[i].sequence_num as int;
    let j = choose|j: int| 0 <= j < s.len() && (#[trigger] s[j]).sequence_num == n;
    if j < i {
        assert(s[j].sequence_num > s[i].sequence_num);
    } else if i < j {
        assert(s[i].sequence_num > s[j].sequence_num);
    }
}

/// Whether the numbers `from + 1 ..= from + n` all wait in `m`.
pub open spec fn contiguous(m: Map<int, SequencedTransaction>, from: int, n: int) -> bool {
    forall|k: int| from < k <= from + n ==> #[trigger] m.dom().contains(k)
}

/// What waits once `tx` has come: `tx` joins the waiting transactions if its
/// number lies above the last one handed on and no transaction with its
/// number waits already.
pub open spec fn joined(
    m: Map<int, SequencedTransaction>,
    last: int,
    tx: SequencedTransaction,
) -> Map<int, SequencedTransaction> {
    if tx.sequence_num > last && !m.dom().contains(tx.sequence_num as int) {
        m.insert(tx.sequence_num as int, tx)
    } else {
        m
    }
}

impl Sequencer {
    /// The waiting transactions descend by number and lie above the last one
    /// handed on.
    pub closed spec fn wf(&self) -> bool {
        descending(self.waiting@, self.last as int)
    }

    /// The sequence number of the last transaction that was handed on.
    pub closed spec fn last(&self) -> int {
        self.last as int
    }

    /// The waiting transactions by their sequence numbers.
    pub closed spec fn pending(&self) -> Map<int, SequencedTransaction> {
        by_number(self.waiting@)
    }

    /// Every waiting transaction has a number above the last one handed on.
    pub proof fn lemma_pending_above(&self)
        requires
            self.wf(),
        ensures
            forall|n: int| self.pending().dom().contains(n) ==> self.last() < n <= u64::MAX,
    {
        assert forall|n: int| self.pending().dom().contains(n) implies self.last() < n <= u64::MAX by {
            let i = choose|i: int| 0 <= i < self.waiting@.len() && (#[trigger] self.waiting@[i]).sequence_num == n;
            assert(self.waiting@[i].sequence_num > self.last);
        }
    }

    /// A client that has handed on the transactions up to `last` and waits
    /// for none.
    pub fn new(last: u64) -> (r: Sequencer)
        ensures
            r.wf(),
            r.last() == last,
            r.pending() == Map::<int, SequencedTransaction>::empty(),
    {
        let r = Sequencer { last, waiting: Vec::new() };
        proof {
            assert(r.pending() =~= Map::<int, SequencedTransaction>::empty());
        }
        r
    }

    /// The sequence number of the last transaction that was handed on.
    pub fn current(&self) -> (n: u64)
        ensures
            n == self.last(),
    {
        self.last
    }

    /// The number of transactions that wait.
    pub fn waiting_count(&self) -> (n: usize)
        requires
            self.wf(),
        ensures
            n == self.pending().dom().len(),
            self.pending().dom().finite(),
    {
        proof {
            lemma_count(self.waiting@, self.last as int);
        }
        self.waiting.len()
    }

    /// Takes in a shared transaction and hands on those that can be applied
    /// now: the transactions with the numbers that follow the last one handed
    /// on, in ascending order and without a gap, as far as they have come.
    /// A transaction that comes early waits; one whose number is not above
    /// the last one handed on, or waits already, is dropped.
    pub fn receive(&mut self, tx: SequencedTransaction) -> (ready: Vec<SequencedTransaction>)
        requires
            old(self).wf(),
        ensures
            final(self).wf(),
            final(self).last() == old(self).last() + ready@.len(),
            contiguous(joined(old(self).pending(), old(self).last(), tx), old(self).last(), ready@.len() as int),
            !joined(old(self).pending(), old(self).last(), tx).dom().contains(final(self).last() + 1),
            forall|i: int|
                0 <= i < ready@.len() ==> #[trigger] ready@[i] == joined(
                    old(self).pending(),
                    old(self).last(),
                    tx,
                )[old(self).last() + 1 + i],
            final(self).pending() == joined(old(self).pending(), old(self).last(), tx).restrict(
                Set::new(|n: int| n > final(self).last()),
            ),
    {
        let ghost before = self.waiting@;
        let ghost last0 = self.last as int;
        let ghost target = joined(by_number(before), last0, tx);
        if tx.sequence_num > self.last {
            let mut at: usize = 0;
            while at < self.waiting.len() && self.waiting[at].sequence_num > tx.sequence_num
                invariant
                    at <= self.waiting.len(),
                    self.waiting@ == before,
                    descending(before, last0),
                    forall|i: int| 0 <= i < at ==> (#[trigger] before[i]).sequence_num > tx.sequence_num,
                decreases self.waiting.len() - at,
            {
                at += 1;
            }
            let present = at < self.waiting.len() && self.waiting[at].sequence_num == tx.sequence_num;
            if !present {
                self.waiting.insert(at, tx);
                proof {
                    lemma_inserted(before, last0, at as int, tx);
                }
            } else {
                proof {
                    lemma_by_number(before, last0, at as int);
                }
            }
        } else {
            proof {
                assert forall|n: int| by_number(before).dom().contains(n) implies n > last0 by {
                    let i = choose|i: int| 0 <= i < before.len() && (#[trigger] before[i]).sequence_num == n;
                }
            }
        }
        let ghost mid = self.waiting@;
        proof {
            assert(by_number(mid) =~= target);
        }
        let mut ready: Vec<SequencedTransaction> = Vec::new();
        let mut going = true;
        while going
            invariant
                descending(self.waiting@, self.last as int),
                self.last == last0 + ready@.len(),
                contiguous(target, last0, ready@.len() as int),
                forall|i: int| 0 <= i < ready@.len() ==> #[trigger] ready@[i] == target[last0 + 1 + i],
                by_number(self.waiting@) == target.restrict(Set::new(|n: int| n > self.last as int)),
                !going ==> !target.dom().contains(self.last + 1),
            decreases self.waiting@.len() + (if going { 1int } else { 0int }),
        {
            let n = self.waiting.len();
            let ghost held = self.waiting@;
            let ghost so_far = ready@;
            if n > 0 && self.last < u64::MAX && self.waiting[n - 1].sequence_num == self.last + 1 {
                proof {
                    lemma_by_number(held, self.last as int, n - 1);
                }
                match self.waiting.pop() {
                    Some(next) => {
                        self.last = self.last + 1;
                        ready.push(next);
                        proof {
                            lemma_popped(held, self.last as int - 1);
                            assert(by_number(self.waiting@) =~= target.restrict(
                                Set::new(|k: int| k > self.last as int),
                            ));
                            assert forall|k: int| last0 < k <= last0 + ready@.len() implies #[trigger] target.dom().contains(
                                k,
                            ) by {
                                if k == last0 + ready@.len() {
                                    assert(by_number(held).dom().contains(k));
                                }
                            }
                        }
                    },
                    None => {
                        going = false;
                    },
                }
            } else {
                proof {
                    if target.dom().contains(self.last + 1) {
                        assert(by_number(held).dom().contains(self.last + 1));
                        let i = choose|i: int|
                            0 <= i < held.len() && (#[trigger] held[i]).sequence_num == self.last + 1;
                        if i < n - 1 {
                            assert(held[i].sequence_num > held[n - 1].sequence_num);
                            assert(held[n - 1].sequence_num > self.last);
                        }
                    }
                }
                going = false;
            }
        }
        ready
    }
}

/// A descending list has as many transactions as numbers.
proof fn lemma_count(s: Seq<SequencedTransaction>, last: int)
    requires
        descending(s, last),
    ensures
        by_number(s).dom().finite(),
        by_number(s).dom().len() == s.len(),
    decreases s.len(),
{
    if s.len() == 0 {
        assert(by_number(s).dom() =~= Set::<int>::empty());
    } else {
        let d = s.drop_last();
        let n = s.last().sequence_num as int;
        assert(descending(d, last)) by {
            assert forall|i: int, j: int| 0 <= i < j < d.len() implies (#[trigger] d[i]).sequence_num > (
            #[trigger] d[j]).sequence_num by {
                assert(s[i].sequence_num > s[j].sequence_num);
            }
            assert forall|i: int| 0 <= i < d.len() implies (#[trigger] d[i]).sequence_num > last by {
                assert(s[i].sequence_num > last);
            }
        }
        lemma_count(d, last);
        assert(by_number(s).dom() =~= by_number(d).dom().insert(n)) by {
            assert forall|k: int| by_number(s).dom().contains(k) == by_number(d).dom().insert(n).contains(k) by {
                if by_number(s).dom().contains(k) {
                    let i = choose|i: int| 0 <= i < s.len() && (#[trigger] s[i]).sequence_num == k;
                    if i < s.len() - 1 {
                        assert(d[i].sequence_num == k);
                    }
                }
                if by_number(d).dom().contains(k) {
                    let i = choose|i: int| 0 <= i < d.len() && (#[trigger] d[i]).sequence_num == k;
                    assert(s[i].sequence_num == k);
                }
                if k == n {
                    assert(s[s.len() - 1].sequence_num == k);
                }
            }
        }
        assert(!by_number(d).dom().contains(n)) by {
            if by_number(d).dom().contains(n) {
                let i = choose|i: int| 0 <= i < d.len() && (#[trigger] d[i]).sequence_num == n;
                assert(s[i].sequence_num > s[s.len() - 1].sequence_num);
            }
        }
    }
}

/// Putting a transaction with a new number at its place in a descending list
/// adds it under its number.
proof fn lemma_inserted(s: Seq<SequencedTransaction>, last: int, at: int, tx: SequencedTransaction)
    requires
        descending(s, last),
        0 <= at <= s.len(),
        tx.sequence_num > last,
        forall|i: int| 0 <= i < at ==> (#[trigger] s[i]).sequence_num > tx.sequence_num,
        at < s.len() ==> s[at].sequence_num < tx.sequence_num,
    ensures
        descending(s.insert(at, tx), last),
        by_number(s.insert(at, tx)) == joined(by_number(s), last, tx),
{
    let t = s.insert(at, tx);
    assert forall|i: int| 0 <= i < t.len() && i != at implies #[trigger] t[i] == s[if i < at {
        i
    } else {
        i - 1
    }] by {}
    assert(descending(t, last)) by {
        assert forall|i: int, j: int| 0 <= i < j < t.len() implies (#[trigger] t[i]).sequence_num > (
        #[trigger] t[j]).sequence_num by {
            let a = if i < at { i } else { i - 1 };
            let b = if j < at { j } else { j - 1 };
            if i != at && j != at {
                assert(s[a].sequence_num > s[b].sequence_num);
            } else if i == at {
                if b > at {
                    assert(s[at].sequence_num > s[b].sequence_num);
                }
            } else {
                assert(s[a].sequence_num > tx.sequence_num);
            }
        }
        assert forall|i: int| 0 <= i < t.len() implies (#[trigger] t[i]).sequence_num > last by {
            if i != at {
                let a = if i < at { i } else { i - 1 };
                assert(s[a].sequence_num > last);
            }
        }
    }
    assert(!by_number(s).dom().contains(tx.sequence_num as int)) by {
        if by_number(s).dom().contains(tx.sequence_num as int) {
            let i = choose|i: int| 0 <= i < s.len() && (#[trigger] s[i]).sequence_num == tx.sequence_num;
            if i < at {
            } else if i > at {
                assert(s[at].sequence_num > s[i].sequence_num);
            }
        }
    }
    let target = joined(by_number(s), last, tx);
    assert forall|n: int| #[trigger] by_number(t).dom().contains(n) == target.dom().contains(n) by {
        if by_number(t).dom().contains(n) {
            let i = choose|i: int| 0 <= i < t.len() && (#[trigger] t[i]).sequence_num == n;
            if i != at {
                let a = if i < at { i } else { i - 1 };
                assert(s[a].sequence_num == n);
            }
        }
        if by_number(s).dom().contains(n) {
            let i = choose|i: int| 0 <= i < s.len() && (#[trigger] s[i]).sequence_num == n;
            let a = if i < at { i } else { i + 1 };
            assert(t[a].sequence_num == n);
        }
        if n == tx.sequence_num {
            assert(t[at].sequence_num == n);
        }
    }
    assert forall|n: int| #[trigger] by_number(t).dom().contains(n) implies by_number(t)[n] == target[n] by {
        let i = choose|i: int| 0 <= i < t.len() && (#[trigger] t[i]).sequence_num == n;
        lemma_by_number(t, last, i);
        if i != at {
            let a = if i < at { i } else { i - 1 };
            lemma_by_number(s, last, a);
        }
    }
    assert(by_number(t) =~= target);
}

/// Taking the last transaction off a descending list whose last number
/// follows `last` leaves the transactions above that number.
proof fn lemma_popped(s: Seq<SequencedTransaction>, last: int)
    requires
        descending(s, last),
        s.len() > 0,
        s.last().sequence_num == last + 1,
    ensures
        descending(s.drop_last(), last + 1),
        by_number(s.drop_last()) == by_number(s).restrict(Set::new(|n: int| n > last + 1)),
{
    let d = s.drop_last();
    assert(descending(d, last + 1)) by {
        assert forall|i: int, j: int| 0 <= i < j < d.len() implies (#[trigger] d[i]).sequence_num > (
        #[trigger] d[j]).sequence_num by {
            assert(s[i].sequence_num > s[j].sequence_num);
        }
        assert forall|i: int| 0 <= i < d.len() implies (#[trigger] d[i]).sequence_num > last + 1 by {
            assert(s[i].sequence_num > s[s.len() - 1].sequence_num);
        }
    }
    let target = by_number(s).restrict(Set::new(|n: int| n > last + 1));
    assert forall|n: int| #[trigger] by_number(d).dom().contains(n) == target.dom().contains(n) by {
        if by_number(d).dom().contains(n) {
            let i = choose|i: int| 0 <= i < d.len() && (#[trigger] d[i]).sequence_num == n;
            assert(s[i].sequence_num == n);
            assert(d[i].sequence_num > last + 1);
        }
        if target.dom().contains(n) {
            let i = choose|i: int| 0 <= i < s.len() && (#[trigger] s[i]).sequence_num == n;
            assert(i < s.len() - 1);
            assert(d[i].sequence_num == n);
        }
    }
    assert forall|n: int| #[trigger] by_number(d).dom().contains(n) implies by_number(d)[n] == target[n] by {
        let i = choose|i: int| 0 <= i < d.len() && (#[trigger] d[i]).sequence_num == n;
        lemma_by_number(d, last + 1, i);
        lemma_by_number(s, last, i);
    }
    assert(by_number(d) =~= target);
}

/// Someone who works on a shared file.
#[derive(Clone, Debug, PartialEq, Eq)]
pub struct User {
    pub session_id: u128,
    pub user_id: String,
    pub name: String,
}

/// What the file's authority sends to a client.
#[derive(Clone, Debug, PartialEq, Eq)]
pub enum MessageResponse {
    /// Who works on the file.
    UsersInRoom { users: Vec<User> },
    /// A transaction of another client, with its sequence number and its
    /// operations in serialized form.
    Transaction { id: u128, file_id: u128, sequence_num: u64, operations: String },
    /// Several transactions in serialized form.
    Transactions { transactions: String },
    /// The client has entered the file, which stands at this sequence number.
    EnterRoom { file_id: u128, sequence_num: u64 },
    /// The file stands at this sequence number.
    CurrentTransaction { sequence_num: u64 },
    /// Something went wrong.
    Error { error: String },
}

impl MessageResponse {
    /// The message that tells who works on the file.
    pub fn users_in_room(users: Vec<User>) -> (r: MessageResponse)
        ensures
            r == (MessageResponse::UsersInRoom { users }),
    {
        MessageResponse::UsersInRoom { users }
    }
}

impl GridController {
    /// Replays the operations of a shared transaction. The history stays as
    /// it is.
    pub fn received_transaction(&mut self, operations: Vec<Operation>) -> (r: Result<
        TransactionSummary,
        TransactionFailure,
    >)
        requires
            old(self).wf(),
            old(self)@.pending is None,
            all_wf(operations@),
        ensures
            final(self).wf(),
            final(self)@.pending is None,
            final(self)@.undo == old(self)@.undo,
            final(self)@.redo == old(self)@.redo,
            match r {
                Ok(s) => transacted(
                    old(self)@,
                    final(self)@,
                    operations@,
                    TransactionType::Multiplayer,
                    None,
                    true,
                    s@,
                ) && none_malformed(old(self)@.grid, operations@),
                Err(e) => {
                    &&& e.index < operations@.len()
                    &&& outcome(
                        effect_all(old(self)@.grid, operations@.take(e.index as int)),
                        operations@[e.index as int],
                    ) is Malformed
                    &&& crate::controller::transacted_upto(
                        old(self)@,
                        final(self)@,
                        operations@,
                        e.index as int,
                        TransactionType::Multiplayer,
                        None,
                        true,
                        e.summary@,
                    )
                },
            },
    {
        self.set_in_progress_transaction(operations, None, true, TransactionType::Multiplayer)
    }
}

} // verus!
