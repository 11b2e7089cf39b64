//! A ring of recently sent ACKs, matched against incoming ACK-of-ACKs to measure RTT.
use vstd::prelude::*;

use std::time::Instant;

use crate::clock::{clock_origin, elapsed_micros};

verus! {

/// One sent ACK, as the window remembers it.
#[derive(Debug, Clone, Copy, PartialEq, Eq, Structural)]
pub struct AckWindowItem {
    /// When the ACK was sent, in microseconds on the window's clock
    pub timestamp: u64,
    /// Seq. No. for the ACK packet
    pub seq_no: i32,
    /// Data Seq. No. carried by the ACK packet
    pub data_seq_no: i32,
}

/// The outcome of matching an ACK-of-ACK.
#[derive(Debug, Clone, Copy, PartialEq, Eq, Structural)]
pub struct Acknowledgement {
    /// The DATA ACK no. that matches the ACK-2 no.
    pub data_seq_no: i32,
    /// Round-trip delay in microseconds (saturated at zero)
    pub rtt: u64,
}

/// `a - b`, or zero where `b` is larger.
pub open spec fn saturating_diff(a: u64, b: u64) -> u64 {
    if a >= b {
        (a - b) as u64
    } else {
        0
    }
}

/// What the live items become once `item` is stored in a ring of `size` slots: it is
/// appended, and the oldest item leaves when the ring would otherwise fill up.
pub open spec fn after_store(live: Seq<AckWindowItem>, item: AckWindowItem, size: nat) -> Seq<
    AckWindowItem,
> {
    let pushed = live.push(item);
    if pushed.len() >= size {
        pushed.drop_first()
    } else {
        pushed
    }
}

/// `j` is the position of the oldest live item with ACK number `seq_no`.
pub open spec fn is_first_match(live: Seq<AckWindowItem>, seq_no: i32, j: int) -> bool {
    &&& 0 <= j < live.len()
    &&& live[j].seq_no == seq_no
    &&& forall|k: int| 0 <= k < j ==> live[k].seq_no != seq_no
}

/// The position of the oldest live item with ACK number `seq_no`, or -1 if there is none.
pub open spec fn match_index(live: Seq<AckWindowItem>, seq_no: i32) -> int {
    if exists|j: int| is_first_match(live, seq_no, j) {
        choose|j: int| is_first_match(live, seq_no, j)
    } else {
        -1
    }
}

/// What the live items become after a match at position `j`: it and everything older go.
pub open spec fn after_match(live: Seq<AckWindowItem>, j: int) -> Seq<AckWindowItem> {
    live.subrange(j + 1, live.len() as int)
}

/// There is at most one oldest match.
pub proof fn lemma_first_match_unique(live: Seq<AckWindowItem>, seq_no: i32, j: int)
    requires
        is_first_match(live, seq_no, j),
    ensures
        match_index(live, seq_no) == j,
{
    let c = choose|i: int| is_first_match(live, seq_no, i);
    assert(is_first_match(live, seq_no, c));
    if c < j {
        assert(live[c].seq_no != seq_no);
    } else if c > j {
        assert(live[j].seq_no != seq_no);
    }
}

/// No live item carries `seq_no` exactly when there is no match.
pub proof fn lemma_no_match(live: Seq<AckWindowItem>, seq_no: i32)
    ensures
        match_index(live, seq_no) < 0 <==> forall|k: int|
            0 <= k < live.len() ==> #[trigger] live[k].seq_no != seq_no,
        match_index(live, seq_no) >= 0 ==> is_first_match(live, seq_no, match_index(live, seq_no)),
{
    if exists|k: int| 0 <= k < live.len() && #[trigger] live[k].seq_no == seq_no {
        let k = choose|k: int| 0 <= k < live.len() && #[trigger] live[k].seq_no == seq_no;
        lemma_least_match(live, seq_no, k);
    }
}

proof fn lemma_least_match(live: Seq<AckWindowItem>, seq_no: i32, k: int)
    requires
        0 <= k < live.len(),
        live[k].seq_no == seq_no,
    ensures
        exists|j: int| is_first_match(live, seq_no, j),
    decreases k,
{
    if forall|i: int| 0 <= i < k ==> live[i].seq_no != seq_no {
        assert(is_first_match(live, seq_no, k));
    } else {
        let i = choose|i: int| 0 <= i < k && live[i].seq_no == seq_no;
        lemma_least_match(live, seq_no, i);
    }
}

/// A ring of `SIZE` slots holding up to `SIZE - 1` sent ACKs, oldest first.
#[derive(Debug)]
pub struct AckWindow<const SIZE: usize> {
    items: Vec<AckWindowItem>,
    /// Index of the slot the next ACK record goes to
    head: usize,
    /// Index of the oldest ACK record
    tail: usize,
    /// The instant that timestamps count from
    origin: Instant,
}

impl<const SIZE: usize> AckWindow<SIZE> {
    pub closed spec fn wf(&self) -> bool {
        &&& SIZE >= 1
        &&& self.items@.len() == SIZE
        &&& self.head < SIZE
        &&& self.tail < SIZE
    }

    /// Number of live items.
    closed spec fn live_len(&self) -> int {
        if self.head >= self.tail {
            self.head - self.tail
        } else {
            self.head + SIZE - self.tail
        }
    }

    /// The slot that holds live item `j`.
    closed spec fn slot(&self, j: int) -> int {
        if self.tail + j < SIZE {
            self.tail + j
        } else {
            self.tail + j - SIZE
        }
    }

    /// The live items, oldest first.
    pub closed spec fn live(&self) -> Seq<AckWindowItem> {
        Seq::new(self.live_len() as nat, |j: int| self.items@[self.slot(j)])
    }

    /// A well-formed window holds fewer items than it has slots.
    pub proof fn lemma_live_bound(&self)
        requires
            self.wf(),
        ensures
            self.live().len() < SIZE,
    {
    }

    pub fn new() -> (r: Self)
        requires
            SIZE >= 1,
        ensures
            r.wf(),
            r.live() == Seq::<AckWindowItem>::empty(),
    {
        let origin = clock_origin();
        let blank = AckWindowItem::default();
        let mut items: Vec<AckWindowItem> = Vec::new();
        let mut i: usize = 0;
        while i < SIZE
            invariant
                i <= SIZE,
                items@.len() == i,
            decreases SIZE - i,
        {
            items.push(blank);
            i = i + 1;
        }
        let r = Self { items, head: 0, tail: 0, origin };
        assert(r.live() =~= Seq::<AckWindowItem>::empty());
        r
    }

    /// Writes an ACK record sent at `timestamp` into the window.
    pub fn store_at(&mut self, seq_no: i32, data_seq_no: i32, timestamp: u64)
        requires
            old(self).wf(),
        ensures
            final(self).wf(),
            final(self).live() == after_store(
                old(self).live(),
                AckWindowItem { timestamp, seq_no, data_seq_no },
                SIZE as nat,
            ),
    {
        let ghost before = self.live();
        let item = AckWindowItem { timestamp, seq_no, data_seq_no };
        self.items.set(self.head, item);
        self.head = if self.head + 1 == SIZE {
            0
        } else {
            self.head + 1
        };
        if self.head == self.tail {
            self.tail = if self.tail + 1 == SIZE {
                0
            } else {
                self.tail + 1
            };
        }
        assert(self.live() =~= after_store(before, item, SIZE as nat));
    }

    /// Writes an ACK record into the window, stamped with the current time.
    pub fn store(&mut self, seq_no: i32, data_seq_no: i32)
        requires
            old(self).wf(),
        ensures
            final(self).wf(),
            exists|t: u64|
                final(self).live() == after_store(
                    old(self).live(),
                    AckWindowItem { timestamp: t, seq_no, data_seq_no },
                    SIZE as nat,
                ),
    {
        let now = elapsed_micros(&self.origin);
        self.store_at(seq_no, data_seq_no, now);
    }

    /// Forgets live item `j` and everything older.
    fn bump_or_reset(&mut self, j: usize)
        requires
            old(self).wf(),
            j < old(self).live().len(),
        ensures
            final(self).wf(),
            final(self).live() == after_match(old(self).live(), j as int),
    {
        let ghost before = self.live();
        let len = if self.head >= self.tail {
            self.head - self.tail
        } else {
            self.head + (SIZE - self.tail)
        };
        if j + 1 == len {
            self.head = 0;
            self.tail = 0;
        } else {
            self.tail = if j < SIZE - self.tail {
                self.tail + j + 1
            } else {
                j + 1 - (SIZE - self.tail)
            };
            if self.tail == SIZE {
                self.tail = 0;
            }
        }
        assert(self.live() =~= after_match(before, j as int));
    }

    /// Searches the ACK-2 number `seq_no` among the live ACKs and, at time `now`, works out
    /// the DATA ACK it confirms and the RTT.
    pub fn acknowledge_at(&mut self, seq_no: i32, now: u64) -> (r: Option<Acknowledgement>)
        requires
            old(self).wf(),
        ensures
            final(self).wf(),
            ({
                let live = old(self).live();
                let j = match_index(live, seq_no);
                if j < 0 {
                    r.is_none() && final(self).live() == live
                } else {
                    &&& r == Some(
                        Acknowledgement {
                            data_seq_no: live[j].data_seq_no,
                            rtt: saturating_diff(now, live[j].timestamp),
                        },
                    )
                    &&& final(self).live() == after_match(live, j)
                }
            }),
    {
        let ghost live = self.live();
        let len = if self.head >= self.tail {
            self.head - self.tail
        } else {
            self.head + (SIZE - self.tail)
        };
        let mut j: usize = 0;
        while j < len
            invariant
                self.wf(),
                self.live() == live,
                live == old(self).live(),
                len == live.len(),
                j <= len,
                forall|k: int| 0 <= k < j ==> live[k].seq_no != seq_no,
            decreases len - j,
        {
            let p = if j < SIZE - self.tail {
                self.tail + j
            } else {
                j - (SIZE - self.tail)
            };
            assert(live[j as int] == self.items@[p as int]);
            if self.items[p].seq_no == seq_no {
                let ack = self.items[p].make_ack(now);
                proof {
                    lemma_first_match_unique(live, seq_no, j as int);
                }
                self.bump_or_reset(j);
                return Some(ack);
            }
            j = j + 1;
        }
        proof {
            lemma_no_match(live, seq_no);
        }
        None
    }

    /// Searches the ACK-2 number `seq_no` among the live ACKs and works out the DATA ACK it
    /// confirms and the RTT up to now.
    pub fn acknowledge(&mut self, seq_no: i32) -> (r: Option<Acknowledgement>)
        requires
            old(self).wf(),
        ensures
            final(self).wf(),
            ({
                let live = old(self).live();
                let j = match_index(live, seq_no);
                if j < 0 {
                    r.is_none() && final(self).live() == live
                } else {
                    &&& r matches Some(a) && a.data_seq_no == live[j].data_seq_no
                    &&& final(self).live() == after_match(live, j)
                }
            }),
    {
        let now = elapsed_micros(&self.origin);
        self.acknowledge_at(seq_no, now)
    }
}

impl Default for AckWindowItem {
    /// An empty slot: ACK and DATA numbers zero, stamped at the clock's origin.
    fn default() -> (r: Self)
        ensures
            r == (AckWindowItem { timestamp: 0, seq_no: 0, data_seq_no: 0 }),
    {
        AckWindowItem { timestamp: 0, seq_no: 0, data_seq_no: 0 }
    }
}

impl AckWindowItem {
    /// The acknowledgement this record gives at time `now`.
    pub fn make_ack(&self, now: u64) -> (r: Acknowledgement)
        ensures
            r == (Acknowledgement {
                data_seq_no: self.data_seq_no,
                rtt: saturating_diff(now, self.timestamp),
            }),
    {
        Acknowledgement { data_seq_no: self.data_seq_no, rtt: now.saturating_sub(self.timestamp) }
    }
}

/// The live items after storing each of `items` in turn, starting from `live`.
pub open spec fn after_stores(live: Seq<AckWindowItem>, items: Seq<AckWindowItem>, size: nat) -> Seq<
    AckWindowItem,
>
    decreases items.len(),
{
    if items.len() == 0 {
        live
    } else {
        after_store(after_stores(live, items.drop_last(), size), items.last(), size)
    }
}

/// Acknowledging the newest of two stored ACKs gives back its data number and empties the
/// window, so the older one can no longer be matched.
pub proof fn lemma_ack_newest_prunes_older(
    live: Seq<AckWindowItem>,
    first: AckWindowItem,
    second: AckWindowItem,
    size: nat,
)
    requires
        size >= 2,
        live.len() < size,
        first.seq_no != second.seq_no,
        forall|k: int| 0 <= k < live.len() ==> #[trigger] live[k].seq_no != second.seq_no,
    ensures
        ({
            let w = after_store(after_store(live, first, size), second, size);
            let j = match_index(w, second.seq_no);
            &&& j >= 0
            &&& w[j].data_seq_no == second.data_seq_no
            &&& after_match(w, j).len() == 0
            &&& match_index(after_match(w, j), first.seq_no) < 0
        }),
{
    let w1 = after_store(live, first, size);
    let w = after_store(w1, second, size);
    assert(w.last() == second);
    assert forall|k: int| 0 <= k < w.len() - 1 implies w[k].seq_no != second.seq_no by {
        if w1.push(second).len() >= size {
            assert(w[k] == w1[k + 1]);
        } else {
            assert(w[k] == w1[k]);
        }
    }
    assert(is_first_match(w, second.seq_no, w.len() - 1));
    lemma_first_match_unique(w, second.seq_no, w.len() - 1);
    let rest = after_match(w, w.len() - 1);
    assert(rest.len() == 0);
    lemma_no_match(rest, first.seq_no);
}

/// Starting from an empty window of `size` slots, storing `items` leaves exactly the newest
/// `size - 1` of them.
pub proof fn lemma_stores_keep_newest(items: Seq<AckWindowItem>, size: nat)
    requires
        size >= 1,
    ensures
        after_stores(Seq::empty(), items, size) == items.subrange(
            if items.len() >= size { items.len() - (size - 1) } else { 0 },
            items.len() as int,
        ),
    decreases items.len(),
{
    let n = items.len() as int;
    if n > 0 {
        let prev = items.drop_last();
        lemma_stores_keep_newest(prev, size);
        let lo: int = if n - 1 >= size { n - 1 - (size - 1) } else { 0 };
        let pushed = prev.subrange(lo, n - 1).push(items.last());
        assert(pushed =~= items.subrange(lo, n));
        if pushed.len() >= size {
            assert(pushed.drop_first() =~= items.subrange(n - (size - 1), n));
        }
    }
}

/// An ACK evicted by later stores, whose number none of them reuses, is not matched.
pub proof fn lemma_evicted_not_matched(items: Seq<AckWindowItem>, size: nat, k: int)
    requires
        size >= 1,
        0 <= k,
        k + (size - 1) < items.len(),
        forall|i: int| k < i < items.len() ==> #[trigger] items[i].seq_no != items[k].seq_no,
    ensures
        match_index(after_stores(Seq::empty(), items, size), items[k].seq_no) < 0,
{
    lemma_stores_keep_newest(items, size);
    let w = after_stores(Seq::empty(), items, size);
    let lo = items.len() - (size - 1);
    assert forall|j: int| 0 <= j < w.len() implies #[trigger] w[j].seq_no != items[k].seq_no by {
        assert(w[j] == items[lo + j]);
    }
    lemma_no_match(w, items[k].seq_no);
}

} // verus!
