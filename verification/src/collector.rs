//! The bounded collector: it receives completed routes one by one and keeps
//! the cheapest few, in ranking order.

use vstd::prelude::*;
use vstd::relations::sorted_by;
use vstd::seq_lib::group_to_multiset_ensures;
use vstd::seq_lib::lemma_sorted_unique;
use crate::place::{
    copy_route, entry_at_most, entry_le, entry_order, lemma_entry_order_total, EntryView,
    ResultEntry,
};

verus! {

/// The smallest number of routes a collector can be asked to keep.
pub const MIN_COLLECT: usize = 1;

/// The largest number of routes a collector can be asked to keep.
pub const MAX_COLLECT: usize = 1000;

/// The number of routes kept when the caller names none.
pub const DEFAULT_COLLECT: usize = 3;

/// The values of a sequence of entries.
pub open spec fn entries_view(v: Seq<ResultEntry>) -> Seq<EntryView> {
    Seq::new(v.len(), |i: int| v[i]@)
}

/// What a collector that keeps `k` entries holds after it has received
/// `received`: the first `k` of them in ranking order, or all of them when
/// there are fewer.
pub open spec fn top_k(received: Seq<EntryView>, k: nat) -> Seq<EntryView> {
    let ranked = received.sort_by(entry_order());
    if ranked.len() <= k {
        ranked
    } else {
        ranked.take(k as int)
    }
}

/// The requested number of routes to keep, brought into the accepted range.
pub open spec fn clamp_collect(k: nat) -> nat {
    if k < MIN_COLLECT {
        MIN_COLLECT as nat
    } else if k > MAX_COLLECT {
        MAX_COLLECT as nat
    } else {
        k
    }
}

/// The position at which `e` enters a ranked sequence: behind every entry
/// that ranks at or before it, scanning from `i`.
pub open spec fn insert_pos_from(s: Seq<EntryView>, e: EntryView, i: int) -> int
    decreases s.len() - i,
{
    if i >= s.len() {
        s.len() as int
    } else if entry_le(s[i], e) {
        insert_pos_from(s, e, i + 1)
    } else {
        i
    }
}

proof fn lemma_insert_pos(s: Seq<EntryView>, e: EntryView, i: int)
    requires
        0 <= i <= s.len(),
    ensures
        i <= insert_pos_from(s, e, i) <= s.len(),
        forall|j: int| i <= j < insert_pos_from(s, e, i) ==> entry_le(#[trigger] s[j], e),
        insert_pos_from(s, e, i) < s.len() ==> !entry_le(s[insert_pos_from(s, e, i)], e),
    decreases s.len() - i,
{
    if i < s.len() && entry_le(s[i], e) {
        lemma_insert_pos(s, e, i + 1);
    }
}

proof fn lemma_insert_keeps_ranked(s: Seq<EntryView>, e: EntryView)
    requires
        sorted_by(s, entry_order()),
    ensures
        sorted_by(s.insert(insert_pos_from(s, e, 0), e), entry_order()),
{
    let q = insert_pos_from(s, e, 0);
    let t = s.insert(q, e);
    let r = entry_order();
    lemma_insert_pos(s, e, 0);
    lemma_entry_order_total();
    assert forall|i: int, j: int| 0 <= i < j < t.len() implies #[trigger] r(t[i], t[j]) by {
        if j == q {
            assert(t[i] == s[i]);
        } else if i == q {
            assert(t[j] == s[j - 1]);
            assert(r(s[q], e) || r(e, s[q]));
            if j - 1 > q {
                assert(r(s[q], s[j - 1]));
            }
        } else {
            let si = if i < q { i } else { i - 1 };
            let sj = if j < q { j } else { j - 1 };
            assert(t[i] == s[si]);
            assert(t[j] == s[sj]);
            assert(r(s[si], s[sj]));
        }
    }
}

/// Receiving one more entry puts it at its place among the ranked entries.
proof fn lemma_rank_push(h: Seq<EntryView>, e: EntryView)
    ensures
        h.push(e).sort_by(entry_order()) == h.sort_by(entry_order()).insert(
            insert_pos_from(h.sort_by(entry_order()), e, 0),
            e,
        ),
        h.sort_by(entry_order()).len() == h.len(),
{
    broadcast use group_to_multiset_ensures;

    let r = entry_order();
    let s = h.sort_by(r);
    let q = insert_pos_from(s, e, 0);
    lemma_entry_order_total();
    h.lemma_sort_by_ensures(r);
    h.push(e).lemma_sort_by_ensures(r);
    lemma_insert_pos(s, e, 0);
    lemma_insert_keeps_ranked(s, e);
    assert(s.insert(q, e).to_multiset() == s.to_multiset().insert(e));
    assert(h.push(e).to_multiset() =~= h.to_multiset().insert(e));
    lemma_sorted_unique(h.push(e).sort_by(r), s.insert(q, e), r);
    assert(s.len() == s.to_multiset().len());
    assert(h.len() == h.to_multiset().len());
}

/// What is kept was received: every kept entry stands among the received
/// ones, and none is kept more often than it was received.
pub proof fn lemma_top_k_members(received: Seq<EntryView>, k: nat)
    ensures
        forall|i: int|
            0 <= i < top_k(received, k).len() ==> received.contains(
                #[trigger] top_k(received, k)[i],
            ),
        top_k(received, k).to_multiset().subset_of(received.to_multiset()),
{
    broadcast use group_to_multiset_ensures;

    let ranked = received.sort_by(entry_order());
    let kept = top_k(received, k);
    lemma_entry_order_total();
    received.lemma_sort_by_ensures(entry_order());
    assert forall|i: int| 0 <= i < kept.len() implies received.contains(#[trigger] kept[i]) by {
        assert(kept[i] == ranked[i]);
        assert(ranked.contains(ranked[i]));
        assert(ranked.to_multiset().count(ranked[i]) > 0);
    }
    if ranked.len() > k {
        assert(ranked =~= kept + ranked.skip(k as int));
        vstd::seq_lib::lemma_multiset_commutative(kept, ranked.skip(k as int));
    }
}

/// As many entries are kept as the collector has room for, or all that were
/// received when those are fewer: never more than were received, never
/// more than the capacity.
pub proof fn lemma_top_k_len(received: Seq<EntryView>, k: nat)
    ensures
        top_k(received, k).len() == if received.len() <= k {
            received.len()
        } else {
            k
        },
{
    broadcast use group_to_multiset_ensures;

    lemma_entry_order_total();
    received.lemma_sort_by_ensures(entry_order());
    let ranked = received.sort_by(entry_order());
    assert(ranked.len() == ranked.to_multiset().len());
    assert(received.len() == received.to_multiset().len());
}

/// The kept entries stand in ranking order: none costs more than one
/// behind it, and of two entries of different cost the cheaper stands
/// first.
pub proof fn lemma_top_k_ranked(received: Seq<EntryView>, k: nat)
    ensures
        sorted_by(top_k(received, k), entry_order()),
        forall|i: int, j: int|
            0 <= i < j < top_k(received, k).len() ==> (#[trigger] top_k(received, k)[i]).total_cost
                <= (#[trigger] top_k(received, k)[j]).total_cost,
        forall|i: int, j: int|
            0 <= i < top_k(received, k).len() && 0 <= j < top_k(received, k).len() && (
            #[trigger] top_k(received, k)[i]).total_cost < (#[trigger] top_k(
                received,
                k,
            )[j]).total_cost ==> i < j,
{
    lemma_entry_order_total();
    received.lemma_sort_by_ensures(entry_order());
    let ranked = received.sort_by(entry_order());
    let kept = top_k(received, k);
    let r = entry_order();
    assert forall|i: int, j: int| 0 <= i < j < kept.len() implies #[trigger] r(kept[i], kept[j]) by {
        assert(r(ranked[i], ranked[j]));
    }
    assert forall|i: int, j: int| 0 <= i < j < kept.len() implies (#[trigger] kept[i]).total_cost
        <= (#[trigger] kept[j]).total_cost by {
        assert(r(kept[i], kept[j]));
    }
    assert forall|i: int, j: int|
        0 <= i < kept.len() && 0 <= j < kept.len() && (#[trigger] kept[i]).total_cost < (
        #[trigger] kept[j]).total_cost implies i < j by {
        if j < i {
            assert(r(kept[j], kept[i]));
        }
    }
}

/// Nothing better was dropped: an entry that was received more often than
/// it is kept ranks at or behind every kept entry.
pub proof fn lemma_top_k_best(received: Seq<EntryView>, k: nat, x: EntryView, j: int)
    requires
        received.to_multiset().count(x) > top_k(received, k).to_multiset().count(x),
        0 <= j < top_k(received, k).len(),
    ensures
        entry_le(top_k(received, k)[j], x),
{
    broadcast use group_to_multiset_ensures;

    lemma_entry_order_total();
    received.lemma_sort_by_ensures(entry_order());
    let ranked = received.sort_by(entry_order());
    let kept = top_k(received, k);
    let r = entry_order();
    if ranked.len() > k {
        let dropped = ranked.skip(k as int);
        assert(ranked =~= kept + dropped);
        vstd::seq_lib::lemma_multiset_commutative(kept, dropped);
        assert(dropped.to_multiset().count(x) > 0);
        assert(dropped.contains(x));
        let i = choose|i: int| 0 <= i < dropped.len() && dropped[i] == x;
        assert(ranked[k + i] == x);
        assert(r(ranked[j], ranked[k + i]));
    }
}

/// What is kept does not depend on the order of arrival: collectors of one
/// capacity that received the same entries, each as often as the other,
/// keep the same entries in the same order.
pub proof fn lemma_top_k_order_free(a: Seq<EntryView>, b: Seq<EntryView>, k: nat)
    requires
        a.to_multiset() == b.to_multiset(),
    ensures
        top_k(a, k) == top_k(b, k),
{
    lemma_entry_order_total();
    a.lemma_sort_by_ensures(entry_order());
    b.lemma_sort_by_ensures(entry_order());
    lemma_sorted_unique(a.sort_by(entry_order()), b.sort_by(entry_order()), entry_order());
}

/// `kept` with `e` put at its rank, and the last entry dropped if there
/// are then more than `k`.
pub open spec fn with_entry(kept: Seq<EntryView>, e: EntryView, k: nat) -> Seq<EntryView> {
    let grown = kept.insert(insert_pos_from(kept, e, 0), e);
    if grown.len() <= k {
        grown
    } else {
        grown.take(k as int)
    }
}

/// Receiving one more entry changes what is kept as [`with_entry`] says:
/// what was dropped before plays no part.
pub proof fn lemma_top_k_push(h: Seq<EntryView>, e: EntryView, k: nat)
    ensures
        top_k(h.push(e), k) == with_entry(top_k(h, k), e, k),
{
    let ranked = h.sort_by(entry_order());
    let kept = top_k(h, k);
    lemma_entry_order_total();
    h.lemma_sort_by_ensures(entry_order());
    lemma_rank_push(h, e);
    lemma_insert_pos(ranked, e, 0);
    lemma_insert_pos(kept, e, 0);
    assert(forall|j: int| 0 <= j < kept.len() ==> kept[j] == ranked[j]);
    lemma_scan_prefix(ranked, kept, e, 0);
    let q = insert_pos_from(ranked, e, 0);
    assert(h.push(e).sort_by(entry_order()) == ranked.insert(q, e));
    assert(top_k(h.push(e), k) =~= with_entry(kept, e, k));
}

/// What is kept of a longer stream depends on its beginning only through
/// what is kept of the beginning.
pub proof fn lemma_top_k_extend(a: Seq<EntryView>, b: Seq<EntryView>, s: Seq<EntryView>, k: nat)
    requires
        top_k(a, k) == top_k(b, k),
    ensures
        top_k(a + s, k) == top_k(b + s, k),
    decreases s.len(),
{
    if s.len() == 0 {
        assert(a + s =~= a);
        assert(b + s =~= b);
    } else {
        let front = s.drop_last();
        lemma_top_k_extend(a, b, front, k);
        assert(a + s =~= (a + front).push(s.last()));
        assert(b + s =~= (b + front).push(s.last()));
        lemma_top_k_push(a + front, s.last(), k);
        lemma_top_k_push(b + front, s.last(), k);
    }
}

/// Keeping fewer of what was kept is keeping fewer of what was received.
pub proof fn lemma_top_k_again(b: Seq<EntryView>, j: nat, k: nat)
    requires
        k <= j,
    ensures
        top_k(top_k(b, j), k) == top_k(b, k),
{
    lemma_entry_order_total();
    lemma_top_k_ranked(b, j);
    let kept = top_k(b, j);
    kept.lemma_sort_by_ensures(entry_order());
    lemma_sorted_unique(kept.sort_by(entry_order()), kept, entry_order());
    assert(top_k(kept, k) =~= top_k(b, k));
}

/// Collectors compose: to receive what another collector of no smaller
/// capacity has kept is as good as to receive all that it has received.
pub proof fn lemma_top_k_merge(a: Seq<EntryView>, b: Seq<EntryView>, j: nat, k: nat)
    requires
        k <= j,
    ensures
        top_k(a + top_k(b, j), k) == top_k(a + b, k),
{
    broadcast use group_to_multiset_ensures;

    let kept = top_k(b, j);
    vstd::seq_lib::lemma_multiset_commutative(a, b);
    vstd::seq_lib::lemma_multiset_commutative(b, a);
    vstd::seq_lib::lemma_multiset_commutative(a, kept);
    vstd::seq_lib::lemma_multiset_commutative(kept, a);
    assert((a + b).to_multiset() =~= (b + a).to_multiset());
    assert((a + kept).to_multiset() =~= (kept + a).to_multiset());
    lemma_top_k_order_free(a + b, b + a, k);
    lemma_top_k_order_free(a + kept, kept + a, k);
    lemma_top_k_again(b, j, k);
    lemma_top_k_extend(b, kept, a, k);
}

/// The state of a collector as its callers see it.
pub struct CollectorView {
    /// How many entries it keeps at most.
    pub capacity: nat,
    /// Every entry it has received, in arrival order.
    pub received: Seq<EntryView>,
}

/// Keeps the `capacity` best of the entries it receives, and counts all of
/// them.
pub struct Collector {
    capacity: usize,
    count: u64,
    retained: Vec<ResultEntry>,
    received: Ghost<Seq<EntryView>>,
}

impl View for Collector {
    type V = CollectorView;

    closed spec fn view(&self) -> CollectorView {
        CollectorView { capacity: self.capacity as nat, received: self.received@ }
    }
}

impl Collector {
    /// The invariant of a collector: what it keeps is the best of what it
    /// has received, and its counter has counted every arrival up to the
    /// largest number it can hold.
    pub closed spec fn wf(&self) -> bool {
        &&& self.count as nat == if self.received@.len() <= u64::MAX {
            self.received@.len()
        } else {
            u64::MAX as nat
        }
        &&& entries_view(self.retained@) == top_k(self.received@, self.capacity as nat)
    }

    /// An empty collector that keeps `max_collect` entries, or the nearest
    /// number in the accepted range.
    pub fn new(max_collect: usize) -> (c: Collector)
        ensures
            c.wf(),
            c@.capacity == clamp_collect(max_collect as nat),
            c@.received == Seq::<EntryView>::empty(),
    {
        let capacity = if max_collect < MIN_COLLECT {
            MIN_COLLECT
        } else if max_collect > MAX_COLLECT {
            MAX_COLLECT
        } else {
            max_collect
        };
        Collector::with_capacity(capacity)
    }

    /// An empty collector that keeps exactly `capacity` entries; with a
    /// capacity of zero it only counts.
    pub fn with_capacity(capacity: usize) -> (c: Collector)
        ensures
            c.wf(),
            c@.capacity == capacity,
            c@.received == Seq::<EntryView>::empty(),
    {
        let c = Collector {
            capacity,
            count: 0,
            retained: Vec::new(),
            received: Ghost(Seq::empty()),
        };
        proof {
            let h = Seq::<EntryView>::empty();
            lemma_entry_order_total();
            h.lemma_sort_by_ensures(entry_order());
            broadcast use group_to_multiset_ensures;
            assert(h.sort_by(entry_order()).len() == h.sort_by(entry_order()).to_multiset().len());
            assert(entries_view(c.retained@) =~= top_k(h, capacity as nat));
        }
        c
    }

    /// Receives one entry: it is counted, put at its rank among the kept
    /// entries, and the worst kept entry leaves if there are now too many.
    pub fn send(&mut self, res: ResultEntry)
        requires
            old(self).wf(),
        ensures
            final(self).wf(),
            final(self)@.capacity == old(self)@.capacity,
            final(self)@.received == old(self)@.received.push(res@),
    {
        let ghost h = self.received@;
        let ghost e = res@;
        proof {
            lemma_top_k_push(h, e, self.capacity as nat);
            lemma_top_k_len(h, self.capacity as nat);
        }
        keep(&mut self.retained, self.capacity, res);
        if self.count < u64::MAX {
            self.count += 1;
        }
        self.received = Ghost(h.push(e));
    }

    /// Receives all that `other` has received. Of those entries only the
    /// ones that `other` has kept are looked at, so `other` must keep at
    /// least as many as this collector does.
    pub fn merge(&mut self, other: Collector)
        requires
            old(self).wf(),
            other.wf(),
            old(self)@.capacity <= other@.capacity,
        ensures
            final(self).wf(),
            final(self)@.capacity == old(self)@.capacity,
            final(self)@.received == old(self)@.received + other@.received,
    {
        let ghost a = self.received@;
        let ghost b = other.received@;
        let ghost k = self.capacity as nat;
        let ghost kept = entries_view(other.retained@);
        let mut i: usize = 0;
        proof {
            assert(a + kept.take(0) =~= a);
            lemma_top_k_len(a, k);
        }
        while i < other.retained.len()
            invariant
                i <= other.retained.len(),
                kept == entries_view(other.retained@),
                k == self.capacity,
                self.count == old(self).count,
                self.retained@.len() <= k,
                entries_view(self.retained@) == top_k(a + kept.take(i as int), k),
            decreases other.retained.len() - i,
        {
            let one = &other.retained[i];
            let copy = ResultEntry { total_cost: one.total_cost, route: copy_route(&one.route) };
            proof {
                let fed = a + kept.take(i as int);
                assert(copy@ == kept[i as int]);
                assert(a + kept.take(i + 1) =~= fed.push(kept[i as int]));
                lemma_top_k_push(fed, kept[i as int], k);
                lemma_top_k_len(fed.push(kept[i as int]), k);
            }
            keep(&mut self.retained, self.capacity, copy);
            i += 1;
        }
        proof {
            assert(kept.take(i as int) =~= kept);
            lemma_top_k_merge(a, b, other.capacity as nat, k);
        }
        self.count = if other.count > u64::MAX - self.count {
            u64::MAX
        } else {
            self.count + other.count
        };
        self.received = Ghost(a + b);
    }

    /// How many entries have been received, kept or not. The counter stops
    /// at the largest number it can hold.
    pub fn count(&self) -> (n: u64)
        requires
            self.wf(),
        ensures
            n as nat == if self@.received.len() <= u64::MAX {
                self@.received.len()
            } else {
                u64::MAX as nat
            },
    {
        self.count
    }

    /// How many entries it keeps at most.
    pub fn capacity(&self) -> (k: usize)
        requires
            self.wf(),
        ensures
            k as nat == self@.capacity,
    {
        self.capacity
    }

    /// How many entries are kept.
    pub fn len(&self) -> (n: usize)
        requires
            self.wf(),
        ensures
            n == top_k(self@.received, self@.capacity).len(),
            n <= self@.capacity,
            n <= self@.received.len(),
    {
        proof {
            lemma_top_k_len(self@.received, self@.capacity);
        }
        self.retained.len()
    }

    /// The kept entries, best first: no more than the capacity and no more
    /// than were received, none costing more than one behind it.
    pub fn into_sorted_vec(self) -> (v: Vec<ResultEntry>)
        requires
            self.wf(),
        ensures
            entries_view(v@) == top_k(self@.received, self@.capacity),
            v@.len() <= self@.capacity,
            v@.len() <= self@.received.len(),
            forall|i: int, j: int|
                0 <= i < j < v@.len() ==> (#[trigger] v@[i]).total_cost <= (
                #[trigger] v@[j]).total_cost,
    {
        proof {
            lemma_top_k_len(self@.received, self@.capacity);
            lemma_top_k_ranked(self@.received, self@.capacity);
            assert forall|i: int, j: int| 0 <= i < j < self.retained@.len() implies (
            #[trigger] self.retained@[i]).total_cost <= (#[trigger] self.retained@[j]).total_cost by {
                assert(entries_view(self.retained@)[i].total_cost <= entries_view(
                    self.retained@,
                )[j].total_cost);
            }
        }
        self.retained
    }
}

/// Puts `res` at its rank among `retained`, and drops the last entry if
/// there are then more than `capacity`.
fn keep(retained: &mut Vec<ResultEntry>, capacity: usize, res: ResultEntry)
    requires
        old(retained)@.len() <= capacity,
    ensures
        entries_view(final(retained)@) == with_entry(
            entries_view(old(retained)@),
            res@,
            capacity as nat,
        ),
{
    let ghost before = entries_view(retained@);
    let ghost e = res@;
    let mut p: usize = 0;
    while p < retained.len() && entry_at_most(&retained[p], &res)
        invariant
            p <= retained.len(),
            before == entries_view(retained@),
            e == res@,
            insert_pos_from(before, e, 0) == insert_pos_from(before, e, p as int),
        decreases retained.len() - p,
    {
        p += 1;
    }
    proof {
        lemma_insert_pos(before, e, p as int);
        assert(insert_pos_from(before, e, 0) == p);
    }
    retained.insert(p, res);
    assert(entries_view(retained@) =~= before.insert(p as int, e));
    if retained.len() > capacity {
        retained.pop();
        assert(entries_view(retained@) =~= before.insert(p as int, e).take(capacity as int));
    }
}

/// Scanning a prefix of a ranked sequence stops where scanning the whole
/// sequence does, unless the prefix ends first.
proof fn lemma_scan_prefix(s: Seq<EntryView>, prefix: Seq<EntryView>, e: EntryView, i: int)
    requires
        0 <= i <= prefix.len() <= s.len(),
        forall|j: int| 0 <= j < prefix.len() ==> prefix[j] == s[j],
    ensures
        insert_pos_from(prefix, e, i) == if insert_pos_from(s, e, i) < prefix.len() {
            insert_pos_from(s, e, i)
        } else {
            prefix.len() as int
        },
    decreases prefix.len() - i,
{
    if i < prefix.len() {
        if entry_le(s[i], e) {
            lemma_scan_prefix(s, prefix, e, i + 1);
        }
    } else {
        lemma_insert_pos(s, e, i);
    }
}

} // verus!
