//! What the tours of a plain lobby are, said without the search: the
//! search finds each tour once, and nothing else, in whatever order the
//! arcs of the lobby stand.

use vstd::prelude::*;
use vstd::seq_lib::lemma_multiset_commutative;
use crate::lobby::{
    all_tours, arc_position, arcs_distinct, has_arc, is_node, node_set, places_between, places_of,
    tours, weight_of, Arc,
};
use crate::collector::{lemma_top_k_order_free, top_k};
use crate::place::{EntryView, Place};

verus! {

/// The numbers of the places of a route of vertices.
pub open spec fn path_of(route: Seq<Place>) -> Seq<u32> {
    Seq::new(
        route.len(),
        |k: int|
            match route[k] {
                Place::Vertex(v) => v as u32,
                Place::Warp(_) => 0u32,
            },
    )
}

/// The time that the first `n` arcs of the walk `p` take.
pub open spec fn walk_cost(arcs: Seq<Arc>, p: Seq<u32>, n: int) -> nat
    decreases n,
{
    if n <= 0 {
        0
    } else {
        walk_cost(arcs, p, n - 1) + match weight_of(arcs, p[n - 1], p[n]) {
            Some(w) => w as nat,
            None => 0nat,
        }
    }
}

/// Whether the walk `p` goes on from `stack` to a tour: it begins with
/// `stack`, visits `left` more places and ends at `dst`; each place on the
/// way is new and is not `dst`; and from the last place of `stack` on each
/// step is an arc of the lobby.
pub open spec fn goes_on(arcs: Seq<Arc>, stack: Seq<u32>, dst: u32, left: nat, p: Seq<u32>) -> bool {
    let s = stack.len() as int;
    &&& s >= 1
    &&& p.len() == s + left + 1
    &&& p.take(s) == stack
    &&& p.last() == dst
    &&& forall|k: int| s <= k < p.len() - 1 ==> p[k] != dst && !p.take(k).contains(#[trigger] p[k])
    &&& forall|k: int| s - 1 <= k < p.len() - 1 ==> has_arc(arcs, #[trigger] p[k], p[k + 1])
}

/// Whether `e` is a tour that goes on from `stack` and whose first new arc
/// stands at `i` or behind among the arcs.
pub open spec fn found_from(
    arcs: Seq<Arc>,
    stack: Seq<u32>,
    dst: u32,
    left: nat,
    i: int,
    e: EntryView,
) -> bool {
    let p = path_of(e.route);
    let s = stack.len() as int;
    &&& e.route == places_of(p)
    &&& goes_on(arcs, stack, dst, left, p)
    &&& arc_position(arcs, p[s - 1], p[s]) >= i
    &&& e.total_cost == walk_cost(arcs, p, p.len() - 1)
}

/// Whether `e` is a tour of the lobby from `src` to `dst`: a walk along
/// the arcs that begins at `src`, ends at `dst`, visits in between as many
/// places as the lobby has besides two, none of them twice and none of
/// them `src` or `dst`; with the time that its arcs take together.
pub open spec fn is_tour(arcs: Seq<Arc>, src: u32, dst: u32, e: EntryView) -> bool {
    let p = path_of(e.route);
    &&& e.route == places_of(p)
    &&& goes_on(arcs, seq![src], dst, places_between(arcs), p)
    &&& e.total_cost == walk_cost(arcs, p, p.len() - 1)
}

/// Two lobbies with the same arcs, in whatever order.
pub open spec fn same_arcs(a: Seq<Arc>, b: Seq<Arc>) -> bool {
    forall|x: u32, y: u32| #[trigger] weight_of(a, x, y) == weight_of(b, x, y)
}

proof fn lemma_path_of_places(p: Seq<u32>)
    ensures
        path_of(places_of(p)) == p,
{
    assert(path_of(places_of(p)) =~= p);
}

/// The time of the first arcs of a walk does not depend on how the walk
/// goes on.
proof fn lemma_walk_cost_prefix(arcs: Seq<Arc>, p: Seq<u32>, q: Seq<u32>, n: int)
    requires
        0 <= n < p.len(),
        n < q.len(),
        forall|k: int| 0 <= k <= n ==> p[k] == q[k],
    ensures
        walk_cost(arcs, p, n) == walk_cost(arcs, q, n),
    decreases n,
{
    if n > 0 {
        lemma_walk_cost_prefix(arcs, p, q, n - 1);
    }
}

/// An arc stands where it is found, and nowhere else.
proof fn lemma_arc_at(arcs: Seq<Arc>, i: int)
    requires
        arcs_distinct(arcs),
        0 <= i < arcs.len(),
    ensures
        has_arc(arcs, arcs[i].from, arcs[i].to),
        arc_position(arcs, arcs[i].from, arcs[i].to) == i,
        weight_of(arcs, arcs[i].from, arcs[i].to) == Some(arcs[i].weight),
{
    let a = arcs[i];
    assert(arcs[i].from == a.from && arcs[i].to == a.to);
    let c = arc_position(arcs, a.from, a.to);
    if c < i {
        assert(arcs[c].from == arcs[i].from);
    } else if c > i {
        assert(arcs[i].from == arcs[c].from);
    }
}

proof fn lemma_arc_position(arcs: Seq<Arc>, x: u32, y: u32)
    requires
        has_arc(arcs, x, y),
    ensures
        0 <= arc_position(arcs, x, y) < arcs.len(),
        arcs[arc_position(arcs, x, y)].from == x,
        arcs[arc_position(arcs, x, y)].to == y,
{
}

proof fn lemma_count_concat(a: Seq<EntryView>, b: Seq<EntryView>, e: EntryView)
    ensures
        (a + b).to_multiset().count(e) == a.to_multiset().count(e) + b.to_multiset().count(e),
{
    broadcast use vstd::multiset::group_multiset_axioms;

    lemma_multiset_commutative(a, b);
}

proof fn lemma_count_none(e: EntryView)
    ensures
        Seq::<EntryView>::empty().to_multiset().count(e) == 0,
{
    broadcast use vstd::multiset::group_multiset_axioms;

    crate::fork::lemma_nothing_found();
}

proof fn lemma_count_one(x: EntryView, e: EntryView)
    ensures
        seq![x].to_multiset().count(e) == if x == e {
            1nat
        } else {
            0nat
        },
{
    broadcast use vstd::multiset::group_multiset_axioms;
    broadcast use vstd::seq_lib::group_to_multiset_ensures;

    crate::fork::lemma_nothing_found();
    assert(seq![x] =~= Seq::<EntryView>::empty().push(x));
}

/// The search finds each tour that goes on from the stack once, and
/// nothing else.
pub proof fn lemma_tours_count(
    arcs: Seq<Arc>,
    i: int,
    cur: u32,
    dst: u32,
    stack: Seq<u32>,
    cost: nat,
    left: nat,
    e: EntryView,
)
    requires
        arcs_distinct(arcs),
        0 <= i,
        stack.len() >= 1,
        cur == stack.last(),
        cost == walk_cost(arcs, stack, stack.len() - 1),
    ensures
        tours(arcs, i, cur, dst, stack, cost, left).to_multiset().count(e) == if found_from(
            arcs,
            stack,
            dst,
            left,
            i,
            e,
        ) {
            1nat
        } else {
            0nat
        },
    decreases left, arcs.len() - i,
{
    let p = path_of(e.route);
    let s = stack.len() as int;
    let all = tours(arcs, i, cur, dst, stack, cost, left);
    if i >= arcs.len() {
        lemma_count_none(e);
        if found_from(arcs, stack, dst, left, i, e) {
            assert(has_arc(arcs, p[s - 1], p[s]));
            lemma_arc_position(arcs, p[s - 1], p[s]);
        }
    } else {
        let a = arcs[i];
        let rest = tours(arcs, i + 1, cur, dst, stack, cost, left);
        let next = stack.push(a.to);
        let here = if a.from != cur {
            Seq::<EntryView>::empty()
        } else if left == 0 {
            if a.to == dst {
                seq![
                    EntryView {
                        total_cost: cost + a.weight as nat,
                        route: places_of(stack.push(dst)),
                    },
                ]
            } else {
                Seq::<EntryView>::empty()
            }
        } else if a.to != dst && !stack.contains(a.to) {
            tours(arcs, 0, a.to, dst, next, cost + a.weight as nat, (left - 1) as nat)
        } else {
            Seq::<EntryView>::empty()
        };
        assert(all == here + rest);
        lemma_count_concat(here, rest, e);
        lemma_tours_count(arcs, i + 1, cur, dst, stack, cost, left, e);
        lemma_arc_at(arcs, i);
        lemma_count_none(e);
        let later = found_from(arcs, stack, dst, left, i + 1, e);
        let now = found_from(arcs, stack, dst, left, i, e);
        // A tour is found here when its first new arc is this one.
        let through = now && p[s - 1] == a.from && p[s] == a.to;
        assert(now == (later || through)) by {
            if now {
                assert(has_arc(arcs, p[s - 1], p[s]));
                lemma_arc_position(arcs, p[s - 1], p[s]);
                assert(p[s - 1] == p.take(s)[s - 1]);
            }
        }
        assert(!(later && through));
        if a.from == cur && left == 0 && a.to == dst {
            let entry = EntryView {
                total_cost: cost + a.weight as nat,
                route: places_of(stack.push(dst)),
            };
            lemma_count_one(entry, e);
            lemma_path_of_places(stack.push(dst));
            if e == entry {
                assert(p == stack.push(dst));
                assert(p.take(s) =~= stack);
                assert forall|k: int| s - 1 <= k < p.len() - 1 implies has_arc(
                    arcs,
                    #[trigger] p[k],
                    p[k + 1],
                ) by {}
                lemma_walk_cost_prefix(arcs, p, stack, s - 1);
                assert(through);
            }
            if through {
                assert(p.take(s) == stack);
                assert(p =~= stack.push(dst)) by {
                    assert forall|k: int| 0 <= k < s implies p[k] == stack[k] by {
                        assert(p.take(s)[k] == stack[k]);
                    }
                }
                lemma_walk_cost_prefix(arcs, p, stack, s - 1);
                assert(e.route == entry.route);
                assert(e == entry);
            }
        } else if a.from == cur && left > 0 && a.to != dst && !stack.contains(a.to) {
            lemma_walk_cost_prefix(arcs, next, stack, s - 1);
            assert(next[s - 1] == cur && next[s] == a.to);
            assert(walk_cost(arcs, next, s) == cost + a.weight as nat);
            lemma_tours_count(
                arcs,
                0,
                a.to,
                dst,
                next,
                cost + a.weight as nat,
                (left - 1) as nat,
                e,
            );
            let beyond = found_from(arcs, next, dst, (left - 1) as nat, 0, e);
            if beyond {
                assert(p.take(s + 1) == next);
                assert(p[s] == p.take(s + 1)[s]);
                assert(p.take(s) =~= stack) by {
                    assert forall|k: int| 0 <= k < s implies p[k] == stack[k] by {
                        assert(p.take(s + 1)[k] == next[k]);
                    }
                }
                assert(p[s - 1] == p.take(s + 1)[s - 1]);
                assert forall|k: int| s <= k < p.len() - 1 implies p[k] != dst && !p.take(
                    k,
                ).contains(#[trigger] p[k]) by {
                    if k == s {
                        assert(p.take(s) == stack);
                    }
                }
                assert forall|k: int| s - 1 <= k < p.len() - 1 implies has_arc(
                    arcs,
                    #[trigger] p[k],
                    p[k + 1],
                ) by {}
                assert(through);
            }
            if through {
                assert(p.take(s) == stack);
                assert(p.take(s + 1) =~= next) by {
                    assert forall|k: int| 0 <= k < s implies p[k] == stack[k] by {
                        assert(p.take(s)[k] == stack[k]);
                    }
                }
                assert(has_arc(arcs, p[s], p[s + 1]));
                lemma_arc_position(arcs, p[s], p[s + 1]);
                assert(beyond);
            }
        } else {
            if through {
                assert(p[s - 1] == p.take(s)[s - 1]);
                if left == 0 {
                    assert(p[s] == p.last());
                } else {
                    assert(p[s] != dst && !p.take(s).contains(p[s]));
                }
            }
        }
    }
}

/// The search finds each tour of the lobby once, and nothing else.
pub proof fn lemma_all_tours(arcs: Seq<Arc>, src: u32, dst: u32, e: EntryView)
    requires
        arcs_distinct(arcs),
    ensures
        all_tours(arcs, src, dst).to_multiset().count(e) == if is_tour(arcs, src, dst, e) {
            1nat
        } else {
            0nat
        },
{
    let p = path_of(e.route);
    if arcs.len() == 0 {
        lemma_count_none(e);
        if is_tour(arcs, src, dst, e) {
            assert(has_arc(arcs, p[0], p[1]));
        }
    } else {
        lemma_tours_count(arcs, 0, src, dst, seq![src], 0, places_between(arcs), e);
        if is_tour(arcs, src, dst, e) {
            assert(has_arc(arcs, p[0], p[1]));
            lemma_arc_position(arcs, p[0], p[1]);
        }
    }
}

/// Lobbies with the same arcs have the same places.
proof fn lemma_same_places(a: Seq<Arc>, b: Seq<Arc>)
    requires
        same_arcs(a, b),
    ensures
        node_set(a) == node_set(b),
        forall|x: u32, y: u32| has_arc(a, x, y) == has_arc(b, x, y),
{
    assert forall|x: u32, y: u32| has_arc(a, x, y) == has_arc(b, x, y) by {
        assert(weight_of(a, x, y) == weight_of(b, x, y));
    }
    assert forall|n: u32| is_node(a, n) == is_node(b, n) by {
        lemma_node_arcs(a, n);
        lemma_node_arcs(b, n);
    }
    assert(node_set(a) =~= node_set(b));
}

/// A place of the lobby is one that an arc leaves or reaches.
proof fn lemma_node_arcs(arcs: Seq<Arc>, n: u32)
    ensures
        is_node(arcs, n) == ((exists|y: u32| #[trigger] has_arc(arcs, n, y)) || (exists|y: u32|
            #[trigger] has_arc(arcs, y, n))),
{
    if is_node(arcs, n) {
        let i = choose|i: int|
            0 <= i < arcs.len() && ((#[trigger] arcs[i]).from == n || arcs[i].to == n);
        if arcs[i].from == n {
            assert(has_arc(arcs, n, arcs[i].to));
        } else {
            assert(has_arc(arcs, arcs[i].from, n));
        }
    }
    if exists|y: u32| #[trigger] has_arc(arcs, n, y) {
        let y = choose|y: u32| #[trigger] has_arc(arcs, n, y);
        let i = arc_position(arcs, n, y);
        assert(arcs[i].from == n);
    }
    if exists|y: u32| #[trigger] has_arc(arcs, y, n) {
        let y = choose|y: u32| #[trigger] has_arc(arcs, y, n);
        let i = arc_position(arcs, y, n);
        assert(arcs[i].to == n);
    }
}

/// The tours that the search finds do not depend on the order in which the
/// arcs of the lobby stand: lobbies with the same arcs have the same
/// tours, each found once.
pub proof fn lemma_tours_order_free(a: Seq<Arc>, b: Seq<Arc>, src: u32, dst: u32)
    requires
        arcs_distinct(a),
        arcs_distinct(b),
        same_arcs(a, b),
    ensures
        all_tours(a, src, dst).to_multiset() == all_tours(b, src, dst).to_multiset(),
{
    lemma_same_places(a, b);
    assert forall|e: EntryView|
        all_tours(a, src, dst).to_multiset().count(e) == all_tours(b, src, dst).to_multiset().count(
            e,
        ) by {
        lemma_all_tours(a, src, dst, e);
        lemma_all_tours(b, src, dst, e);
        let p = path_of(e.route);
        lemma_same_walk_cost(a, b, p, p.len() - 1);
    }
    assert(all_tours(a, src, dst).to_multiset() =~= all_tours(b, src, dst).to_multiset());
}

/// What `route` answers does not depend on the order in which the arcs of
/// the lobby stand: for lobbies with the same arcs it counts the same
/// number of tours and keeps the same tours in the same order.
pub proof fn lemma_route_order_free(a: Seq<Arc>, b: Seq<Arc>, src: u32, dst: u32, k: nat)
    requires
        arcs_distinct(a),
        arcs_distinct(b),
        same_arcs(a, b),
    ensures
        all_tours(a, src, dst).len() == all_tours(b, src, dst).len(),
        top_k(all_tours(a, src, dst), k) == top_k(all_tours(b, src, dst), k),
{
    broadcast use vstd::seq_lib::group_to_multiset_ensures;

    lemma_tours_order_free(a, b, src, dst);
    lemma_top_k_order_free(all_tours(a, src, dst), all_tours(b, src, dst), k);
    assert(all_tours(a, src, dst).len() == all_tours(a, src, dst).to_multiset().len());
    assert(all_tours(b, src, dst).len() == all_tours(b, src, dst).to_multiset().len());
}

proof fn lemma_same_walk_cost(a: Seq<Arc>, b: Seq<Arc>, p: Seq<u32>, n: int)
    requires
        same_arcs(a, b),
    ensures
        walk_cost(a, p, n) == walk_cost(b, p, n),
    decreases n,
{
    if n > 0 {
        lemma_same_walk_cost(a, b, p, n - 1);
        assert(weight_of(a, p[n - 1], p[n]) == weight_of(b, p[n - 1], p[n]));
    }
}

} // verus!
