//! The plain lobby: numbered places joined by timed arcs, without warps,
//! and the search for its quickest tours from one place through all the
//! others to a last one.

use vstd::prelude::*;
use vstd::set_lib::{lemma_int_range, lemma_len_subset, set_int_range};
use crate::collector::{entries_view, top_k, Collector};
use crate::place::{EntryView, Place, ResultEntry};

verus! {

/// One arc: from a place to a place, with the time it takes.
#[derive(Clone, Copy, Debug, PartialEq, Eq, Structural)]
pub struct Arc {
    pub from: u32,
    pub to: u32,
    pub weight: u32,
}

/// Whether `arcs` hold an arc from `from` to `to`.
pub open spec fn has_arc(arcs: Seq<Arc>, from: u32, to: u32) -> bool {
    exists|i: int| 0 <= i < arcs.len() && (#[trigger] arcs[i]).from == from && arcs[i].to == to
}

/// Where the arc from `from` to `to` stands among `arcs`.
pub open spec fn arc_position(arcs: Seq<Arc>, from: u32, to: u32) -> int {
    choose|i: int| 0 <= i < arcs.len() && (#[trigger] arcs[i]).from == from && arcs[i].to == to
}

/// The time of the arc from `from` to `to`, if there is one.
pub open spec fn weight_of(arcs: Seq<Arc>, from: u32, to: u32) -> Option<u32> {
    if has_arc(arcs, from, to) {
        Some(arcs[arc_position(arcs, from, to)].weight)
    } else {
        None
    }
}

/// No two of `arcs` join the same places in the same direction.
pub open spec fn arcs_distinct(arcs: Seq<Arc>) -> bool {
    forall|i: int, j: int|
        0 <= i < j < arcs.len() ==> !((#[trigger] arcs[i]).from == (#[trigger] arcs[j]).from
            && arcs[i].to == arcs[j].to)
}

/// `arcs` with `a` put in: in place of the arc between the same places if
/// there is one, else behind the others.
pub open spec fn put_arc(arcs: Seq<Arc>, a: Arc) -> Seq<Arc> {
    if has_arc(arcs, a.from, a.to) {
        arcs.update(arc_position(arcs, a.from, a.to), a)
    } else {
        arcs.push(a)
    }
}

/// Whether `n` is a place of the lobby: an arc leaves it or reaches it.
pub open spec fn is_node(arcs: Seq<Arc>, n: u32) -> bool {
    exists|i: int| 0 <= i < arcs.len() && ((#[trigger] arcs[i]).from == n || arcs[i].to == n)
}

/// The places of the lobby.
pub open spec fn node_set(arcs: Seq<Arc>) -> Set<u32> {
    Set::new(|n: u32| is_node(arcs, n))
}

/// A tour as a route: every place a vertex.
pub open spec fn places_of(stack: Seq<u32>) -> Seq<Place> {
    Seq::new(stack.len(), |i: int| Place::Vertex(stack[i] as usize))
}

/// The tours found along `arcs[i..]` from the place `cur`, in order, when
/// `stack` has been walked at the cost of `cost` and `left` more places are
/// to be visited before the last. With none left, an arc from `cur` to
/// `dst` completes a tour; otherwise each arc from `cur` to a place that is
/// neither `dst` nor on the stack leads to the tours found beyond it.
pub open spec fn tours(
    arcs: Seq<Arc>,
    i: int,
    cur: u32,
    dst: u32,
    stack: Seq<u32>,
    cost: nat,
    left: nat,
) -> Seq<EntryView>
    decreases left, arcs.len() - i,
{
    if i < 0 || i >= arcs.len() {
        Seq::empty()
    } else {
        let a = arcs[i];
        let here = if a.from != cur {
            Seq::empty()
        } else if left == 0 {
            if a.to == dst {
                seq![
                    EntryView {
                        total_cost: cost + a.weight as nat,
                        route: places_of(stack.push(dst)),
                    },
                ]
            } else {
                Seq::empty()
            }
        } else if a.to != dst && !stack.contains(a.to) {
            tours(arcs, 0, a.to, dst, stack.push(a.to), cost + a.weight as nat, (left - 1) as nat)
        } else {
            Seq::empty()
        };
        here + tours(arcs, i + 1, cur, dst, stack, cost, left)
    }
}

/// How many places a tour visits after the first and before the last: all
/// but two of the lobby's places, and none in a lobby of fewer.
pub open spec fn places_between(arcs: Seq<Arc>) -> nat {
    if node_set(arcs).len() >= 2 {
        (node_set(arcs).len() - 2) as nat
    } else {
        0
    }
}

/// Every tour of the lobby from `src` to `dst`, in the order in which the
/// search finds them. A lobby without arcs has none.
pub open spec fn all_tours(arcs: Seq<Arc>, src: u32, dst: u32) -> Seq<EntryView> {
    if arcs.len() == 0 {
        Seq::empty()
    } else {
        tours(arcs, 0, src, dst, seq![src], 0, places_between(arcs))
    }
}

/// A lobby of numbered places. It behaves as a map from a pair of places
/// to the time of the arc between them.
#[derive(Debug)]
pub struct Lobby {
    arcs: Vec<Arc>,
}

impl View for Lobby {
    type V = Seq<Arc>;

    closed spec fn view(&self) -> Seq<Arc> {
        self.arcs@
    }
}

/// A sequence of distinct numbers is no longer than there are numbers.
proof fn lemma_distinct_numbers(s: Seq<u32>)
    requires
        s.no_duplicates(),
    ensures
        s.len() <= 0x1_0000_0000,
{
    let t = s.map_values(|x: u32| x as int);
    assert(t.no_duplicates()) by {
        assert forall|i: int, j: int| 0 <= i < t.len() && 0 <= j < t.len() && i != j implies t[i]
            != t[j] by {
            assert(s[i] != s[j]);
        }
    }
    t.unique_seq_to_set();
    lemma_int_range(0, 0x1_0000_0000);
    assert(t.to_set().subset_of(set_int_range(0, 0x1_0000_0000))) by {
        assert forall|x: int| t.to_set().contains(x) implies set_int_range(
            0,
            0x1_0000_0000,
        ).contains(x) by {
            let k = choose|k: int| 0 <= k < t.len() && t[k] == x;
            assert(t[k] == s[k] as int);
        }
    }
    lemma_len_subset(t.to_set(), set_int_range(0, 0x1_0000_0000));
}

impl Lobby {
    /// The invariant of a lobby: between two places there is at most one
    /// arc in each direction.
    pub open spec fn wf(&self) -> bool {
        arcs_distinct(self@)
    }

    /// A lobby without arcs.
    pub fn new() -> (l: Lobby)
        ensures
            l.wf(),
            l@ == Seq::<Arc>::empty(),
    {
        Lobby { arcs: Vec::new() }
    }

    /// Where the arc from `from` to `to` stands.
    fn position(&self, from: u32, to: u32) -> (r: Option<usize>)
        requires
            self.wf(),
        ensures
            match r {
                Some(i) => has_arc(self@, from, to) && i == arc_position(self@, from, to),
                None => !has_arc(self@, from, to),
            },
    {
        let mut i: usize = 0;
        while i < self.arcs.len()
            invariant
                i <= self.arcs.len(),
                self.wf(),
                forall|k: int|
                    0 <= k < i ==> !((#[trigger] self.arcs@[k]).from == from && self.arcs@[k].to
                        == to),
            decreases self.arcs.len() - i,
        {
            if self.arcs[i].from == from && self.arcs[i].to == to {
                proof {
                    let c = arc_position(self@, from, to);
                    assert(self@[i as int].from == from);
                    if c < i {
                        assert(self@[c].from == self@[i as int].from);
                    } else if c > i {
                        assert(self@[i as int].from == self@[c].from);
                    }
                }
                return Some(i);
            }
            i += 1;
        }
        None
    }

    /// The time of the arc from `from` to `to`, if there is one.
    pub fn get(&self, from: u32, to: u32) -> (r: Option<u32>)
        requires
            self.wf(),
        ensures
            r == weight_of(self@, from, to),
    {
        match self.position(from, to) {
            Some(i) => Some(self.arcs[i].weight),
            None => None,
        }
    }

    /// Puts in the arc from `from` to `to`; an earlier arc between the two
    /// is replaced.
    pub fn insert(&mut self, from: u32, to: u32, weight: u32)
        requires
            old(self).wf(),
        ensures
            final(self).wf(),
            final(self)@ == put_arc(old(self)@, Arc { from, to, weight }),
    {
        let a = Arc { from, to, weight };
        match self.position(from, to) {
            Some(i) => {
                self.arcs.set(i, a);
            },
            None => {
                self.arcs.push(a);
            },
        }
    }

    /// The arcs, in the order in which their pairs of places first came.
    pub fn arcs(&self) -> (arcs: &Vec<Arc>)
        ensures
            arcs@ == self@,
    {
        &self.arcs
    }

    /// The places of the lobby, each once.
    pub fn nodes(&self) -> (r: Vec<u32>)
        ensures
            r@.no_duplicates(),
            forall|n: u32| #![trigger r@.contains(n)] r@.contains(n) <==> is_node(self@, n),
            r@.len() == node_set(self@).len(),
            r@.len() <= 0x1_0000_0000,
    {
        let mut r: Vec<u32> = Vec::new();
        let mut i: usize = 0;
        while i < self.arcs.len()
            invariant
                i <= self.arcs.len(),
                r@.no_duplicates(),
                forall|n: u32|
                    #![trigger r@.contains(n)]
                    r@.contains(n) <==> exists|k: int|
                        0 <= k < i && ((#[trigger] self.arcs@[k]).from == n || self.arcs@[k].to
                            == n),
            decreases self.arcs.len() - i,
        {
            let a = self.arcs[i];
            let ghost before = r@;
            if !holds(&r, a.from) {
                r.push(a.from);
            }
            let ghost between = r@;
            if !holds(&r, a.to) {
                r.push(a.to);
            }
            proof {
                assert forall|n: u32| #![trigger r@.contains(n)]
                    r@.contains(n) <==> before.contains(n) || n == a.from || n == a.to by {
                    if before.contains(n) {
                        let k = choose|k: int| 0 <= k < before.len() && before[k] == n;
                        assert(between[k] == n);
                        assert(r@[k] == n);
                    }
                    if between.contains(n) {
                        let k = choose|k: int| 0 <= k < between.len() && between[k] == n;
                        assert(r@[k] == n);
                    }
                    if n == a.from && !before.contains(n) {
                        assert(between[before.len() as int] == n);
                        assert(between.contains(n));
                    }
                    if n == a.to && !between.contains(n) {
                        assert(r@[between.len() as int] == n);
                    }
                }
                assert forall|n: u32| #![trigger r@.contains(n)]
                    r@.contains(n) <==> exists|k: int|
                        0 <= k < i + 1 && ((#[trigger] self.arcs@[k]).from == n || self.arcs@[k].to
                            == n) by {
                    let earlier = exists|k: int|
                        0 <= k < i && ((#[trigger] self.arcs@[k]).from == n || self.arcs@[k].to
                            == n);
                    assert(before.contains(n) <==> earlier);
                    if n == a.from || n == a.to {
                        assert(self.arcs@[i as int].from == n || self.arcs@[i as int].to == n);
                    }
                }
            }
            i += 1;
        }
        proof {
            assert(r@.to_set() =~= node_set(self@));
            r@.unique_seq_to_set();
            lemma_distinct_numbers(r@);
        }
        r
    }
}

/// Whether `n` stands in `v`.
fn holds(v: &Vec<u32>, n: u32) -> (r: bool)
    ensures
        r == v@.contains(n),
{
    let mut i: usize = 0;
    while i < v.len()
        invariant
            i <= v.len(),
            forall|k: int| 0 <= k < i ==> v@[k] != n,
        decreases v.len() - i,
    {
        if v[i] == n {
            return true;
        }
        i += 1;
    }
    false
}

/// The largest time that an arc can take.
pub const MAX_WEIGHT: u64 = 0xFFFF_FFFF;

/// Whether `route` holds vertices only, each with a number that a place of
/// the plain lobby can have.
pub open spec fn is_plain(route: Seq<Place>) -> bool {
    forall|i: int|
        0 <= i < route.len() ==> ((#[trigger] route[i]) matches Place::Vertex(v) && v
            <= u32::MAX)
}

/// The values of tours given as pairs of cost and places.
pub open spec fn tours_view(pairs: Seq<(u64, Vec<u32>)>) -> Seq<EntryView> {
    Seq::new(
        pairs.len(),
        |i: int| EntryView { total_cost: pairs[i].0 as nat, route: places_of(pairs[i].1@) },
    )
}

/// Every tour is a plain route.
pub proof fn lemma_tours_plain(
    arcs: Seq<Arc>,
    i: int,
    cur: u32,
    dst: u32,
    stack: Seq<u32>,
    cost: nat,
    left: nat,
)
    ensures
        forall|k: int|
            0 <= k < tours(arcs, i, cur, dst, stack, cost, left).len() ==> is_plain(
                (#[trigger] tours(arcs, i, cur, dst, stack, cost, left)[k]).route,
            ),
    decreases left, arcs.len() - i,
{
    if 0 <= i < arcs.len() {
        let a = arcs[i];
        let all = tours(arcs, i, cur, dst, stack, cost, left);
        let rest = tours(arcs, i + 1, cur, dst, stack, cost, left);
        lemma_tours_plain(arcs, i + 1, cur, dst, stack, cost, left);
        if a.from == cur && left > 0 && a.to != dst && !stack.contains(a.to) {
            lemma_tours_plain(
                arcs,
                0,
                a.to,
                dst,
                stack.push(a.to),
                cost + a.weight as nat,
                (left - 1) as nat,
            );
        }
        let here = if a.from != cur {
            Seq::<EntryView>::empty()
        } else if left == 0 {
            if a.to == dst {
                seq![
                    EntryView {
                        total_cost: cost + a.weight as nat,
                        route: places_of(stack.push(dst)),
                    },
                ]
            } else {
                Seq::<EntryView>::empty()
            }
        } else if a.to != dst && !stack.contains(a.to) {
            tours(arcs, 0, a.to, dst, stack.push(a.to), cost + a.weight as nat, (left - 1) as nat)
        } else {
            Seq::<EntryView>::empty()
        };
        assert(all == here + rest);
        assert forall|k: int| 0 <= k < here.len() implies is_plain((#[trigger] here[k]).route) by {
            if a.from == cur && left == 0 && a.to == dst {
                assert(here[k].route == places_of(stack.push(dst)));
            }
        }
        assert forall|k: int| 0 <= k < all.len() implies is_plain((#[trigger] all[k]).route) by {
            if k < here.len() {
                assert(all[k] == here[k]);
            } else {
                assert(all[k] == rest[k - here.len()]);
            }
        }
    }
}

/// `stack` with `last` behind it, as a route.
fn as_route(stack: &Vec<u32>, last: u32) -> (r: Vec<Place>)
    ensures
        r@ == places_of(stack@.push(last)),
{
    let mut r: Vec<Place> = Vec::new();
    let mut i: usize = 0;
    while i < stack.len()
        invariant
            i <= stack.len(),
            r@ == places_of(stack@.take(i as int)),
        decreases stack.len() - i,
    {
        r.push(Place::Vertex(stack[i] as usize));
        i += 1;
        assert(r@ =~= places_of(stack@.take(i as int)));
    }
    r.push(Place::Vertex(last as usize));
    assert(r@ =~= places_of(stack@.push(last)));
    r
}

/// A plain route as the numbers of its places.
fn as_numbers(route: &Vec<Place>) -> (r: Vec<u32>)
    requires
        is_plain(route@),
    ensures
        places_of(r@) == route@,
{
    let mut r: Vec<u32> = Vec::new();
    let mut i: usize = 0;
    while i < route.len()
        invariant
            i <= route.len(),
            is_plain(route@),
            places_of(r@) == route@.take(i as int),
        decreases route.len() - i,
    {
        let ghost before = r@;
        assert(route@[i as int] matches Place::Vertex(v) && v <= u32::MAX);
        let v = match route[i] {
            Place::Vertex(v) => v,
            Place::Warp(w) => w,
        };
        r.push(v as u32);
        assert(r@ == before.push(v as u32));
        assert(places_of(before).len() == i);
        assert forall|k: int| 0 <= k < i + 1 implies places_of(r@)[k] == route@[k] by {
            if k < i {
                assert(places_of(before)[k] == route@.take(i as int)[k]);
                assert(r@[k] == before[k]);
            }
        }
        i += 1;
        assert(places_of(r@) =~= route@.take(i as int));
    }
    assert(route@.take(i as int) =~= route@);
    r
}

/// Searches on from `cur`: the collector receives every tour that goes on
/// from the stack, in order, and the stack is as before when the call
/// returns.
fn tour(
    lobby: &Lobby,
    cur: u32,
    dst: u32,
    stack: &mut Vec<u32>,
    cost: u64,
    left: usize,
    collector: &mut Collector,
)
    requires
        lobby.wf(),
        old(collector).wf(),
        cost + (left + 1) * MAX_WEIGHT <= u64::MAX,
    ensures
        final(stack)@ == old(stack)@,
        final(collector).wf(),
        final(collector)@.capacity == old(collector)@.capacity,
        final(collector)@.received == old(collector)@.received + tours(
            lobby@,
            0,
            cur,
            dst,
            old(stack)@,
            cost as nat,
            left as nat,
        ),
    decreases left,
{
    let arcs = lobby.arcs();
    let ghost stack0 = stack@;
    let ghost received0 = collector@.received;
    let ghost all = tours(lobby@, 0, cur, dst, stack0, cost as nat, left as nat);
    let mut i: usize = 0;
    while i < arcs.len()
        invariant
            i <= arcs.len(),
            arcs@ == lobby@,
            lobby.wf(),
            collector.wf(),
            collector@.capacity == old(collector)@.capacity,
            stack@ == stack0,
            cost + (left + 1) * MAX_WEIGHT <= u64::MAX,
            all == tours(lobby@, 0, cur, dst, stack0, cost as nat, left as nat),
            collector@.received + tours(lobby@, i as int, cur, dst, stack0, cost as nat, left as nat)
                == received0 + all,
        decreases arcs.len() - i,
    {
        let a = arcs[i];
        let ghost got = collector@.received;
        let ghost rest = tours(lobby@, i as int + 1, cur, dst, stack0, cost as nat, left as nat);
        if a.from == cur && left == 0 && a.to == dst {
            let entry = ResultEntry {
                total_cost: cost + a.weight as u64,
                route: as_route(stack, dst),
            };
            let ghost one = seq![entry@];
            collector.send(entry);
            assert(collector@.received =~= got + one);
            assert((got + one) + rest =~= got + (one + rest));
        } else if a.from == cur && left > 0 && a.to != dst && !holds(stack, a.to) {
            let ghost beyond = tours(
                lobby@,
                0,
                a.to,
                dst,
                stack0.push(a.to),
                (cost + a.weight) as nat,
                (left - 1) as nat,
            );
            stack.push(a.to);
            tour(lobby, a.to, dst, stack, cost + a.weight as u64, left - 1, collector);
            stack.pop();
            assert(stack@ =~= stack0);
            assert((got + beyond) + rest =~= got + (beyond + rest));
        } else {
            assert(got + (Seq::<EntryView>::empty() + rest) =~= got + rest);
        }
        i += 1;
    }
    assert(collector@.received + Seq::<EntryView>::empty() =~= collector@.received);
}

/// Finds the quickest tours of `lobby` from `src` through every other place
/// to `dst`. Returns how many tours there are, counted up to the largest
/// number that can be held, and the `buffer_size` quickest of them, the
/// quickest first; among tours of one cost the order of their places
/// decides.
pub fn route(lobby: &Lobby, src: &u32, dst: &u32, buffer_size: &u32) -> (r: (
    u64,
    Vec<(u64, Vec<u32>)>,
))
    requires
        lobby.wf(),
    ensures
        r.0 as nat == if all_tours(lobby@, *src, *dst).len() <= u64::MAX {
            all_tours(lobby@, *src, *dst).len()
        } else {
            u64::MAX as nat
        },
        tours_view(r.1@) == top_k(all_tours(lobby@, *src, *dst), *buffer_size as nat),
{
    let mut collector = Collector::with_capacity(*buffer_size as usize);
    let ghost found = all_tours(lobby@, *src, *dst);
    if lobby.arcs().len() > 0 {
        let n = lobby.nodes().len();
        let left = if n >= 2 {
            n - 2
        } else {
            0
        };
        let mut stack: Vec<u32> = Vec::new();
        stack.push(*src);
        assert(stack@ =~= seq![*src]);
        tour(lobby, *src, *dst, &mut stack, 0, left, &mut collector);
        assert(Seq::<EntryView>::empty() + found =~= found);
    }
    let count = collector.count();
    let best = collector.into_sorted_vec();
    proof {
        lemma_tours_plain(lobby@, 0, *src, *dst, seq![*src], 0, places_between(lobby@));
        crate::collector::lemma_top_k_members(found, *buffer_size as nat);
        assert forall|i: int| 0 <= i < best@.len() implies is_plain(
            (#[trigger] best@[i])@.route,
        ) by {
            let e = entries_view(best@)[i];
            assert(found.contains(e));
            let k = choose|k: int| 0 <= k < found.len() && found[k] == e;
            assert(found[k].route == e.route);
        }
    }
    let mut shown: Vec<(u64, Vec<u32>)> = Vec::new();
    let mut i: usize = 0;
    while i < best.len()
        invariant
            i <= best.len(),
            forall|k: int| 0 <= k < best@.len() ==> is_plain((#[trigger] best@[k])@.route),
            tours_view(shown@) == entries_view(best@).take(i as int),
        decreases best.len() - i,
    {
        let ghost before = shown@;
        let numbers = as_numbers(&best[i].route);
        shown.push((best[i].total_cost, numbers));
        assert(tours_view(before).len() == i);
        assert forall|k: int| 0 <= k < i + 1 implies tours_view(shown@)[k] == entries_view(
            best@,
        )[k] by {
            if k < i {
                assert(tours_view(before)[k] == entries_view(best@).take(i as int)[k]);
                assert(shown@[k] == before[k]);
            }
        }
        i += 1;
        assert(tours_view(shown@) =~= entries_view(best@).take(i as int));
    }
    assert(entries_view(best@).take(i as int) =~= entries_view(best@));
    (count, shown)
}

/// What going back to the first place adds to the time of an arc.
pub const RESTART_TIME: u32 = 69;

/// The time from `x` to `y` once the arcs that go back to the first place
/// are put in: the time of the arc where there is one; else, where an arc
/// leads from the first place to `y` and `x` is another place of the lobby
/// than `y` and than the last, the time of that arc and of going back;
/// else none.
pub open spec fn restart_weight(arcs: Seq<Arc>, first: u32, last: u32, x: u32, y: u32) -> Option<
    nat,
> {
    if has_arc(arcs, x, y) {
        Some(weight_of(arcs, x, y)->0 as nat)
    } else if has_arc(arcs, first, y) && is_node(arcs, x) && x != y && x != last {
        Some(weight_of(arcs, first, y)->0 as nat + RESTART_TIME as nat)
    } else {
        None
    }
}

/// The time of the arc from `x` to `y` as a number without bound.
pub open spec fn time_between(arcs: Seq<Arc>, x: u32, y: u32) -> Option<nat> {
    match weight_of(arcs, x, y) {
        Some(w) => Some(w as nat),
        None => None,
    }
}

/// Putting an arc in changes the time between its two places and no
/// other.
pub proof fn lemma_put_arc(arcs: Seq<Arc>, a: Arc, x: u32, y: u32)
    requires
        arcs_distinct(arcs),
    ensures
        arcs_distinct(put_arc(arcs, a)),
        weight_of(put_arc(arcs, a), x, y) == if x == a.from && y == a.to {
            Some(a.weight)
        } else {
            weight_of(arcs, x, y)
        },
        is_node(put_arc(arcs, a), x) == (is_node(arcs, x) || x == a.from || x == a.to),
{
    let t = put_arc(arcs, a);
    if has_arc(arcs, a.from, a.to) {
        let p = arc_position(arcs, a.from, a.to);
        assert(t == arcs.update(p, a));
        assert forall|i: int, j: int| 0 <= i < j < t.len() implies !((#[trigger] t[i]).from == (
        #[trigger] t[j]).from && t[i].to == t[j].to) by {
            if i == p {
                assert(arcs[i].from == a.from && arcs[i].to == a.to);
                assert(t[j] == arcs[j]);
            } else if j == p {
                assert(arcs[j].from == a.from && arcs[j].to == a.to);
                assert(t[i] == arcs[i]);
            } else {
                assert(t[i] == arcs[i] && t[j] == arcs[j]);
            }
        }
        assert(forall|i: int|
            0 <= i < t.len() ==> (#[trigger] t[i]).from == arcs[i].from && t[i].to == arcs[i].to);
        if has_arc(arcs, x, y) {
            let q = arc_position(arcs, x, y);
            assert(t[q].from == x && t[q].to == y);
            let c = arc_position(t, x, y);
            assert(arcs[c].from == x && arcs[c].to == y);
            if c < q {
                assert(arcs[c].from == arcs[q].from);
            } else if c > q {
                assert(arcs[q].from == arcs[c].from);
            }
        }
        if has_arc(t, x, y) {
            let c = arc_position(t, x, y);
            assert(arcs[c].from == x && arcs[c].to == y);
        }
        if is_node(arcs, x) {
            let c = choose|i: int|
                0 <= i < arcs.len() && ((#[trigger] arcs[i]).from == x || arcs[i].to == x);
            assert(t[c].from == x || t[c].to == x);
        }
        if is_node(t, x) {
            let c = choose|i: int| 0 <= i < t.len() && ((#[trigger] t[i]).from == x || t[i].to == x);
            assert(arcs[c].from == x || arcs[c].to == x);
        }
        if x == a.from || x == a.to {
            assert(arcs[p].from == x || arcs[p].to == x);
        }
    } else {
        assert(t == arcs.push(a));
        assert forall|i: int, j: int| 0 <= i < j < t.len() implies !((#[trigger] t[i]).from == (
        #[trigger] t[j]).from && t[i].to == t[j].to) by {
            assert(t[i] == arcs[i]);
            if j < arcs.len() {
                assert(t[j] == arcs[j]);
            }
        }
        if has_arc(arcs, x, y) {
            let q = arc_position(arcs, x, y);
            assert(t[q].from == x && t[q].to == y);
            let c = arc_position(t, x, y);
            if c < arcs.len() {
                assert(t[c] == arcs[c]);
                if c < q {
                    assert(arcs[c].from == arcs[q].from);
                } else if c > q {
                    assert(arcs[q].from == arcs[c].from);
                }
            } else {
                assert(t[q].from == t[c].from);
            }
        }
        if x == a.from && y == a.to {
            assert(t[arcs.len() as int] == a);
            let c = arc_position(t, x, y);
            if c < arcs.len() {
                assert(arcs[c] == t[c]);
            }
        }
        if has_arc(t, x, y) && !(x == a.from && y == a.to) {
            let c = arc_position(t, x, y);
            assert(c < arcs.len());
            assert(arcs[c] == t[c]);
        }
        if is_node(arcs, x) {
            let c = choose|i: int|
                0 <= i < arcs.len() && ((#[trigger] arcs[i]).from == x || arcs[i].to == x);
            assert(t[c] == arcs[c]);
        }
        if is_node(t, x) {
            let c = choose|i: int| 0 <= i < t.len() && ((#[trigger] t[i]).from == x || t[i].to == x);
            if c < arcs.len() {
                assert(arcs[c] == t[c]);
            }
        }
        if x == a.from || x == a.to {
            assert(t[arcs.len() as int] == a);
        }
    }
}

impl Lobby {
    /// The smallest and the largest place of the lobby; none where the
    /// lobby has no arcs.
    pub fn bounds(&self) -> (r: Option<(u32, u32)>)
        ensures
            match r {
                Some((first, last)) => {
                    &&& is_node(self@, first)
                    &&& is_node(self@, last)
                    &&& forall|n: u32| is_node(self@, n) ==> first <= n <= last
                },
                None => self@.len() == 0,
            },
    {
        if self.arcs.len() == 0 {
            return None;
        }
        let mut first = self.arcs[0].from;
        let mut last = self.arcs[0].from;
        let mut i: usize = 0;
        while i < self.arcs.len()
            invariant
                i <= self.arcs.len(),
                self.arcs@.len() > 0,
                is_node(self@, first),
                is_node(self@, last),
                first <= self.arcs@[0].from <= last,
                forall|k: int|
                    0 <= k < i ==> first <= (#[trigger] self.arcs@[k]).from <= last && first
                        <= self.arcs@[k].to <= last,
            decreases self.arcs.len() - i,
        {
            let a = self.arcs[i];
            if a.from < first {
                first = a.from;
            }
            if a.to < first {
                first = a.to;
            }
            if a.from > last {
                last = a.from;
            }
            if a.to > last {
                last = a.to;
            }
            assert(self@[i as int].from == a.from);
            i += 1;
        }
        Some((first, last))
    }

    /// A copy of the lobby.
    pub fn copy(&self) -> (l: Lobby)
        ensures
            l@ == self@,
    {
        let mut arcs: Vec<Arc> = Vec::new();
        let mut i: usize = 0;
        while i < self.arcs.len()
            invariant
                i <= self.arcs.len(),
                arcs@ == self.arcs@.take(i as int),
            decreases self.arcs.len() - i,
        {
            arcs.push(self.arcs[i]);
            i += 1;
            assert(arcs@ =~= self.arcs@.take(i as int));
        }
        assert(self.arcs@.take(i as int) =~= self.arcs@);
        Lobby { arcs }
    }

    /// Puts into `out` an arc to `to` from each of `nodes` that is neither
    /// `to` nor `last` and from which this lobby has no arc to `to`; each
    /// takes `weight` and the time of going back. Returns whether that
    /// time could be held; where it could not, `out` is left half done.
    fn bring_back(&self, out: &mut Lobby, nodes: &Vec<u32>, to: u32, weight: u32, last: u32) -> (ok:
        bool)
        requires
            self.wf(),
            old(out).wf(),
        ensures
            final(out).wf(),
            ok ==> forall|x: u32, y: u32|
                #![trigger weight_of(final(out)@, x, y)]
                time_between(final(out)@, x, y) == if y == to && nodes@.contains(x) && x != to
                    && x != last && !has_arc(self@, x, to) {
                    Some(weight as nat + RESTART_TIME as nat)
                } else {
                    time_between(old(out)@, x, y)
                },
            !ok ==> weight + RESTART_TIME > u32::MAX && exists|x: u32|
                #![trigger nodes@.contains(x)]
                nodes@.contains(x) && x != to && x != last && !has_arc(self@, x, to),
    {
        let ghost before = out@;
        let mut m: usize = 0;
        while m < nodes.len()
            invariant
                m <= nodes.len(),
                self.wf(),
                out.wf(),
                forall|x: u32, y: u32|
                    #![trigger weight_of(out@, x, y)]
                    time_between(out@, x, y) == if y == to && (exists|k: int|
                        0 <= k < m && nodes@[k] == x) && x != to && x != last && !has_arc(
                        self@,
                        x,
                        to,
                    ) {
                        Some(weight as nat + RESTART_TIME as nat)
                    } else {
                        time_between(before, x, y)
                    },
            decreases nodes.len() - m,
        {
            let i = nodes[m];
            if i != to && i != last && self.get(i, to).is_none() {
                if weight > u32::MAX - RESTART_TIME {
                    assert(nodes@.contains(i));
                    return false;
                }
                let ghost so_far = out@;
                let a = Arc { from: i, to, weight: weight + RESTART_TIME };
                out.insert(i, to, weight + RESTART_TIME);
                proof {
                    assert forall|x: u32, y: u32| #![trigger weight_of(out@, x, y)]
                        time_between(out@, x, y) == if y == to && (exists|k: int|
                            0 <= k < m + 1 && nodes@[k] == x) && x != to && x != last && !has_arc(
                            self@,
                            x,
                            to,
                        ) {
                            Some(weight as nat + RESTART_TIME as nat)
                        } else {
                            time_between(before, x, y)
                        } by {
                        lemma_put_arc(so_far, a, x, y);
                        let earlier = exists|k: int| 0 <= k < m && nodes@[k] == x;
                        let now = exists|k: int| 0 <= k < m + 1 && nodes@[k] == x;
                        if x == i {
                            assert(nodes@[m as int] == x);
                        }
                        if now && !earlier {
                            let k = choose|k: int| 0 <= k < m + 1 && nodes@[k] == x;
                            assert(k == m);
                        }
                    }
                }
            } else {
                proof {
                    assert forall|x: u32, y: u32| #![trigger weight_of(out@, x, y)]
                        time_between(out@, x, y) == if y == to && (exists|k: int|
                            0 <= k < m + 1 && nodes@[k] == x) && x != to && x != last && !has_arc(
                            self@,
                            x,
                            to,
                        ) {
                            Some(weight as nat + RESTART_TIME as nat)
                        } else {
                            time_between(before, x, y)
                        } by {
                        let earlier = exists|k: int| 0 <= k < m && nodes@[k] == x;
                        let now = exists|k: int| 0 <= k < m + 1 && nodes@[k] == x;
                        if now && !earlier {
                            let k = choose|k: int| 0 <= k < m + 1 && nodes@[k] == x;
                            assert(k == m);
                        }
                    }
                }
            }
            m += 1;
        }
        true
    }

    /// The lobby with the arcs that go back to the first place put in:
    /// from every place but the last, a place that the first place leads
    /// to is also reached by going back to the first place and on from
    /// there, unless the lobby has an arc of its own between the two.
    /// `None` where the time of such an arc is larger than a time can be.
    pub fn with_restarts(&self, first: u32, last: u32) -> (r: Option<Lobby>)
        requires
            self.wf(),
        ensures
            match r {
                Some(l) => {
                    &&& l.wf()
                    &&& forall|x: u32, y: u32|
                        #![trigger weight_of(l@, x, y)]
                        time_between(l@, x, y) == restart_weight(self@, first, last, x, y)
                },
                None => exists|x: u32, y: u32|
                    #![trigger restart_weight(self@, first, last, x, y)]
                    restart_weight(self@, first, last, x, y) matches Some(w) && w > u32::MAX,
            },
    {
        let nodes = self.nodes();
        let mut out = self.copy();
        let mut k: usize = 0;
        proof {
            assert forall|x: u32, y: u32| #![trigger weight_of(out@, x, y)]
                time_between(out@, x, y) == time_between(self@, x, y) by {
            }
        }
        while k < self.arcs.len()
            invariant
                k <= self.arcs.len(),
                self.wf(),
                out.wf(),
                forall|n: u32| #![trigger nodes@.contains(n)] nodes@.contains(n) <==> is_node(self@, n),
                forall|x: u32, y: u32|
                    #![trigger weight_of(out@, x, y)]
                    time_between(out@, x, y) == if has_arc(self@, x, y) {
                        time_between(self@, x, y)
                    } else if has_arc(self@, first, y) && arc_position(self@, first, y) < k
                        && is_node(self@, x) && x != y && x != last {
                        Some(weight_of(self@, first, y)->0 as nat + RESTART_TIME as nat)
                    } else {
                        None
                    },
            decreases self.arcs.len() - k,
        {
            let a = self.arcs[k];
            let ghost so_far = out@;
            proof {
                if a.from == first {
                    // the arc from the first place to `a.to` stands here and nowhere else
                    assert(self@[k as int].from == first && self@[k as int].to == a.to);
                    let c = arc_position(self@, first, a.to);
                    if c < k {
                        assert(self@[c].from == self@[k as int].from);
                    } else if c > k {
                        assert(self@[k as int].from == self@[c].from);
                    }
                }
            }
            if a.from == first {
                let ok = self.bring_back(&mut out, &nodes, a.to, a.weight, last);
                if !ok {
                    proof {
                        let x = choose|x: u32|
                            #![trigger nodes@.contains(x)]
                            nodes@.contains(x) && x != a.to && x != last && !has_arc(
                                self@,
                                x,
                                a.to,
                            );
                        assert(is_node(self@, x));
                        assert(restart_weight(self@, first, last, x, a.to) == Some(
                            a.weight as nat + RESTART_TIME as nat,
                        ));
                    }
                    return None;
                }
            }
            proof {
                assert forall|x: u32, y: u32| #![trigger weight_of(out@, x, y)]
                    time_between(out@, x, y) == if has_arc(self@, x, y) {
                        time_between(self@, x, y)
                    } else if has_arc(self@, first, y) && arc_position(self@, first, y) < k + 1
                        && is_node(self@, x) && x != y && x != last {
                        Some(weight_of(self@, first, y)->0 as nat + RESTART_TIME as nat)
                    } else {
                        None
                    } by {
                    if has_arc(self@, first, y) {
                        let c = arc_position(self@, first, y);
                        if c == k {
                            assert(a.from == first && a.to == y);
                        }
                        if a.from == first && a.to == y {
                            assert(c == k);
                        }
                    }
                    if a.from == first && y == a.to {
                        assert(self@[k as int].from == first && self@[k as int].to == y);
                    }
                }
            }
            k += 1;
        }
        proof {
            assert forall|x: u32, y: u32| #![trigger weight_of(out@, x, y)]
                time_between(out@, x, y) == restart_weight(self@, first, last, x, y) by {
                if has_arc(self@, first, y) {
                    let c = arc_position(self@, first, y);
                    assert(c < self@.len());
                }
            }
        }
        Some(out)
    }
}

} // verus!
