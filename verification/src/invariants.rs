//! What holds of every route that the search finds.

use vstd::prelude::*;
use crate::place::{EntryView, Place};
use crate::search::visited;
use crate::searcher::{exits_ok, Edge, Searcher, END_I, START_I};

verus! {

/// Whether `inv`, which speaks of a route and of the number of vertices
/// still to visit, survives every step that a search of a lobby with
/// `vertices` vertices and `warps` warps can take: putting a warp on the
/// route, going back to the start, and putting on a vertex that is not on
/// the route yet, which is then no longer to be visited.
pub open spec fn kept_by_steps(
    inv: spec_fn(Seq<Place>, nat) -> bool,
    vertices: nat,
    warps: nat,
) -> bool {
    &&& forall|r: Seq<Place>, u: nat, w: usize|
        #![trigger inv(r.push(Place::Warp(w)), u)]
        inv(r, u) && w < warps ==> inv(r.push(Place::Warp(w)), u)
    &&& forall|r: Seq<Place>, u: nat|
        #![trigger inv(r.push(Place::Vertex(START_I)), u)]
        inv(r, u) && vertices > 0 ==> inv(r.push(Place::Vertex(START_I)), u)
    &&& forall|r: Seq<Place>, u: nat, v: usize|
        #![trigger inv(r.push(Place::Vertex(v)), u)]
        inv(r, u + 1) && v < vertices && !visited(r, v) ==> inv(r.push(Place::Vertex(v)), u)
}

/// Whether each of `entries` ends at the end, with `inv` holding of the
/// route up to there and of no vertex still to visit.
pub open spec fn all_end_well(entries: Seq<EntryView>, inv: spec_fn(Seq<Place>, nat) -> bool) -> bool {
    forall|k: int|
        0 <= k < entries.len() ==> {
            let r = (#[trigger] entries[k]).route;
            r.len() > 0 && r.last() == Place::Vertex(END_I) && inv(r.drop_last(), 0)
        }
}

proof fn lemma_end_well_concat(
    a: Seq<EntryView>,
    b: Seq<EntryView>,
    inv: spec_fn(Seq<Place>, nat) -> bool,
)
    requires
        all_end_well(a, inv),
        all_end_well(b, inv),
    ensures
        all_end_well(a + b, inv),
{
    assert forall|k: int| 0 <= k < (a + b).len() implies {
        let r = (#[trigger] (a + b)[k]).route;
        r.len() > 0 && r.last() == Place::Vertex(END_I) && inv(r.drop_last(), 0)
    } by {
        if k < a.len() {
            assert((a + b)[k] == a[k]);
        } else {
            assert((a + b)[k] == b[k - a.len()]);
        }
    }
}

impl Searcher {
    proof fn lemma_over_edges_inv(
        &self,
        edges: Seq<Edge>,
        i: int,
        origin: Option<usize>,
        unexpl: nat,
        cost: nat,
        route: Seq<Place>,
        active: Set<usize>,
        inv: spec_fn(Seq<Place>, nat) -> bool,
    )
        requires
            self.wf(),
            kept_by_steps(inv, self.junctions().len(), self.warp_exits().len()),
            inv(route, unexpl),
            exits_ok(edges, self.junctions().len(), self.warp_exits().len()),
        ensures
            all_end_well(self.over_edges(edges, i, origin, unexpl, cost, route, active), inv),
        decreases unexpl, 0nat, edges.len() - i,
    {
        if 0 <= i < edges.len() {
            let e = edges[i];
            let rest = self.over_edges(edges, i + 1, origin, unexpl, cost, route, active);
            self.lemma_over_edges_inv(edges, i + 1, origin, unexpl, cost, route, active, inv);
            let here = if unexpl == 0 {
                if e.dst == END_I {
                    seq![
                        EntryView {
                            total_cost: cost + e.cost as nat,
                            route: route.push(Place::Vertex(END_I)),
                        },
                    ]
                } else {
                    Seq::<EntryView>::empty()
                }
            } else if self.may_enter(e, origin, route) {
                self.explore(
                    e.dst,
                    (unexpl - 1) as nat,
                    cost + e.cost as nat,
                    route.push(Place::Vertex(e.dst)),
                    crate::search::with_activations(active, e),
                )
            } else {
                Seq::<EntryView>::empty()
            };
            if unexpl == 0 {
                if e.dst == END_I {
                    assert(route.push(Place::Vertex(END_I)).drop_last() =~= route);
                }
            } else if self.may_enter(e, origin, route) {
                self.lemma_explore_inv(
                    e.dst,
                    (unexpl - 1) as nat,
                    cost + e.cost as nat,
                    route.push(Place::Vertex(e.dst)),
                    crate::search::with_activations(active, e),
                    inv,
                );
            }
            lemma_end_well_concat(here, rest, inv);
        }
    }

    proof fn lemma_chain_inv(
        &self,
        w: int,
        entry: usize,
        origin: Option<usize>,
        unexpl: nat,
        cost: nat,
        route: Seq<Place>,
        active: Set<usize>,
        inv: spec_fn(Seq<Place>, nat) -> bool,
    )
        requires
            self.wf(),
            kept_by_steps(inv, self.junctions().len(), self.warp_exits().len()),
            inv(route, unexpl),
        ensures
            all_end_well(self.chain(w, entry, origin, unexpl, cost, route, active), inv),
        decreases unexpl, 1nat, self.warp_exits().len() - w,
    {
        if 0 <= w < self.warp_exits().len() {
            let rest = self.chain(w + 1, entry, origin, unexpl, cost, route, active);
            self.lemma_chain_inv(w + 1, entry, origin, unexpl, cost, route, active, inv);
            let through = route.push(Place::Warp(w as usize));
            let here = if active.contains(w as usize) && w != entry {
                self.over_edges(self.warp_exits()[w]@, 0, origin, unexpl, cost, through, active)
            } else {
                Seq::<EntryView>::empty()
            };
            if active.contains(w as usize) && w != entry {
                self.lemma_over_edges_inv(
                    self.warp_exits()[w]@,
                    0,
                    origin,
                    unexpl,
                    cost,
                    through,
                    active,
                    inv,
                );
            }
            lemma_end_well_concat(here, rest, inv);
        }
    }

    proof fn lemma_launch_inv(
        &self,
        from: usize,
        origin: Option<usize>,
        unexpl: nat,
        cost: nat,
        route: Seq<Place>,
        active: Set<usize>,
        inv: spec_fn(Seq<Place>, nat) -> bool,
    )
        requires
            self.wf(),
            kept_by_steps(inv, self.junctions().len(), self.warp_exits().len()),
            inv(route, unexpl),
        ensures
            all_end_well(self.launch(from, origin, unexpl, cost, route, active), inv),
        decreases unexpl, 2nat, 0nat,
    {
        let edges = self.junctions()[from as int].to_warps@;
        if from < self.junctions().len() && edges.len() > 0 {
            let l = edges[0];
            assert(crate::searcher::entries_ok(edges, self.warp_exits().len()));
            self.lemma_chain_inv(
                0,
                l.dst,
                origin,
                unexpl,
                cost + l.cost as nat + crate::searcher::WARP_PENALTY as nat,
                route.push(Place::Warp(l.dst)),
                crate::search::with_activations(active, l),
                inv,
            );
        }
    }

    proof fn lemma_restart_inv(
        &self,
        cur: usize,
        unexpl: nat,
        cost: nat,
        route: Seq<Place>,
        active: Set<usize>,
        inv: spec_fn(Seq<Place>, nat) -> bool,
    )
        requires
            self.wf(),
            kept_by_steps(inv, self.junctions().len(), self.warp_exits().len()),
            inv(route, unexpl),
            self.junctions().len() > 0,
        ensures
            all_end_well(self.restart(cur, unexpl, cost, route, active), inv),
        decreases unexpl, 2nat, 1nat,
    {
        let back = route.push(Place::Vertex(START_I));
        let paid = cost + crate::searcher::RESTART_PENALTY as nat;
        let direct = self.junctions()[START_I as int].to_vertices@;
        self.lemma_over_edges_inv(direct, 0, Some(cur), unexpl, paid, back, active, inv);
        self.lemma_launch_inv(START_I, Some(cur), unexpl, paid, back, active, inv);
        let first = self.over_edges(direct, 0, Some(cur), unexpl, paid, back, active);
        let second = if self.any_entered(direct, Some(cur), unexpl, back) {
            Seq::<EntryView>::empty()
        } else {
            self.launch(START_I, Some(cur), unexpl, paid, back, active)
        };
        lemma_end_well_concat(first, second, inv);
    }

    /// Of every route found from a vertex: it ends at the end, and what
    /// holds of the route so far and survives every step of the search
    /// holds of it up to there.
    pub proof fn lemma_explore_inv(
        &self,
        cur: usize,
        unexpl: nat,
        cost: nat,
        route: Seq<Place>,
        active: Set<usize>,
        inv: spec_fn(Seq<Place>, nat) -> bool,
    )
        requires
            self.wf(),
            kept_by_steps(inv, self.junctions().len(), self.warp_exits().len()),
            inv(route, unexpl),
        ensures
            all_end_well(self.explore(cur, unexpl, cost, route, active), inv),
        decreases unexpl, 3nat, 0nat,
    {
        if cur < self.junctions().len() {
            let direct = self.junctions()[cur as int].to_vertices@;
            let first = self.over_edges(direct, 0, None, unexpl, cost, route, active);
            let through = self.launch(cur, Some(cur), unexpl, cost, route, active);
            self.lemma_over_edges_inv(direct, 0, None, unexpl, cost, route, active, inv);
            self.lemma_launch_inv(cur, Some(cur), unexpl, cost, route, active, inv);
            if unexpl == 0 {
                lemma_end_well_concat(first, through, inv);
            } else if !self.any_entered(direct, None, unexpl, route) {
                let last = if self.launch_entered(cur, Some(cur), unexpl, route, active) {
                    Seq::<EntryView>::empty()
                } else {
                    self.restart(cur, unexpl, cost, route, active)
                };
                if !self.launch_entered(cur, Some(cur), unexpl, route, active) {
                    self.lemma_restart_inv(cur, unexpl, cost, route, active, inv);
                }
                lemma_end_well_concat(through, last, inv);
                lemma_end_well_concat(first, through + last, inv);
            }
        }
    }

    /// Of every route of the lobby: it ends at the end, and what holds of
    /// the route that only holds the start and survives every step of the
    /// search holds of it up to there.
    pub proof fn lemma_candidates_inv(&self, inv: spec_fn(Seq<Place>, nat) -> bool)
        requires
            self.wf(),
            kept_by_steps(inv, self.junctions().len(), self.warp_exits().len()),
            self.junctions().len() > 0 ==> inv(
                seq![Place::Vertex(START_I)],
                (self.junctions().len() - 1) as nat,
            ),
        ensures
            all_end_well(self.candidates(), inv),
    {
        if self.junctions().len() > 0 {
            let unexpl = (self.junctions().len() - 1) as nat;
            let route = seq![Place::Vertex(START_I)];
            let active = Set::<usize>::empty();
            let direct = self.junctions()[START_I as int].to_vertices@;
            let first = self.over_edges(direct, 0, None, unexpl, 0, route, active);
            let second = if unexpl > 0 && self.any_entered(direct, None, unexpl, route) {
                Seq::<EntryView>::empty()
            } else {
                self.launch(START_I, Some(START_I), unexpl, 0, route, active)
            };
            self.lemma_over_edges_inv(direct, 0, None, unexpl, 0, route, active, inv);
            self.lemma_launch_inv(START_I, Some(START_I), unexpl, 0, route, active, inv);
            lemma_end_well_concat(first, second, inv);
        }
    }
}

/// Whether no vertex but the start stands twice on `route`. The start
/// stands once more for each time the route goes back to it.
pub open spec fn repeats_only_start(route: Seq<Place>) -> bool {
    forall|i: int, j: int|
        0 <= i < j < route.len() && (#[trigger] route[i]) == (#[trigger] route[j])
            && route[i] is Vertex ==> route[i] == Place::Vertex(START_I)
}

/// Whether every place on `route` exists in a lobby of `vertices` vertices
/// and `warps` warps.
pub open spec fn within(route: Seq<Place>, vertices: nat, warps: nat) -> bool {
    forall|i: int|
        0 <= i < route.len() ==> match #[trigger] route[i] {
            Place::Vertex(v) => v < vertices,
            Place::Warp(w) => w < warps,
        }
}

/// The vertices of a lobby of `vertices` vertices that are not on `route`.
pub open spec fn unvisited(route: Seq<Place>, vertices: nat) -> Set<int> {
    Set::new(|v: int| 0 <= v < vertices && !visited(route, v as usize))
}

/// What holds of the route of a search with `u` vertices still to visit:
/// it begins at the start, holds places of the lobby only, no vertex but
/// the start twice, and at most `u` vertices are not on it.
pub open spec fn on_course(route: Seq<Place>, u: nat, vertices: nat, warps: nat) -> bool {
    &&& repeats_only_start(route)
    &&& within(route, vertices, warps)
    &&& route.len() > 0
    &&& route[0] == Place::Vertex(START_I)
    &&& vertices <= END_I
    &&& unvisited(route, vertices).finite()
    &&& unvisited(route, vertices).len() <= u
}

proof fn lemma_on_course_kept(vertices: nat, warps: nat)
    ensures
        kept_by_steps(|r: Seq<Place>, u: nat| on_course(r, u, vertices, warps), vertices, warps),
{
    broadcast use vstd::set::group_set_axioms;

    let inv = |r: Seq<Place>, u: nat| on_course(r, u, vertices, warps);
    assert forall|r: Seq<Place>, u: nat, w: usize|
        #![trigger inv(r.push(Place::Warp(w)), u)]
        inv(r, u) && w < warps implies inv(r.push(Place::Warp(w)), u) by {
        let t = r.push(Place::Warp(w));
        assert forall|i: int, j: int|
            0 <= i < j < t.len() && (#[trigger] t[i]) == (#[trigger] t[j])
                && t[i] is Vertex implies t[i] == Place::Vertex(START_I) by {
            assert(t[i] == r[i]);
            assert(t[j] == r[j]);
        }
        assert(t[0] == r[0]);
        assert forall|v: int| unvisited(t, vertices).contains(v) == unvisited(
            r,
            vertices,
        ).contains(v) by {
            lemma_visited_push(r, Place::Warp(w), v as usize);
        }
        assert(unvisited(t, vertices) =~= unvisited(r, vertices));
    }
    assert forall|r: Seq<Place>, u: nat|
        #![trigger inv(r.push(Place::Vertex(START_I)), u)]
        inv(r, u) && vertices > 0 implies inv(r.push(Place::Vertex(START_I)), u) by {
        let t = r.push(Place::Vertex(START_I));
        assert forall|i: int, j: int|
            0 <= i < j < t.len() && (#[trigger] t[i]) == (#[trigger] t[j])
                && t[i] is Vertex implies t[i] == Place::Vertex(START_I) by {
            assert(t[i] == r[i]);
            if j < r.len() {
                assert(t[j] == r[j]);
            }
        }
        assert(t[0] == r[0]);
        assert(r.contains(r[0]));
        assert forall|v: int| unvisited(t, vertices).contains(v) == unvisited(
            r,
            vertices,
        ).contains(v) by {
            lemma_visited_push(r, Place::Vertex(START_I), v as usize);
        }
        assert(unvisited(t, vertices) =~= unvisited(r, vertices));
    }
    assert forall|r: Seq<Place>, u: nat, v: usize|
        #![trigger inv(r.push(Place::Vertex(v)), u)]
        inv(r, u + 1) && v < vertices && !visited(r, v) implies inv(
        r.push(Place::Vertex(v)),
        u,
    ) by {
        let t = r.push(Place::Vertex(v));
        assert forall|i: int, j: int|
            0 <= i < j < t.len() && (#[trigger] t[i]) == (#[trigger] t[j])
                && t[i] is Vertex implies t[i] == Place::Vertex(START_I) by {
            assert(t[i] == r[i]);
            if j < r.len() {
                assert(t[j] == r[j]);
            } else {
                assert(r[i] == Place::Vertex(v));
                assert(r.contains(Place::Vertex(v)));
            }
        }
        assert(t[0] == r[0]);
        assert forall|x: int| unvisited(t, vertices).contains(x) == unvisited(
            r,
            vertices,
        ).remove(v as int).contains(x) by {
            lemma_visited_push(r, Place::Vertex(v), x as usize);
        }
        assert(unvisited(t, vertices) =~= unvisited(r, vertices).remove(v as int));
        assert(unvisited(r, vertices).contains(v as int));
    }
}

/// A vertex is on a route with one more place when it was on the route or
/// is the place put on.
proof fn lemma_visited_push(r: Seq<Place>, p: Place, v: usize)
    ensures
        visited(r.push(p), v) == (visited(r, v) || p == Place::Vertex(v)),
{
    let t = r.push(p);
    if visited(r, v) {
        let k = choose|k: int| 0 <= k < r.len() && r[k] == Place::Vertex(v);
        assert(t[k] == Place::Vertex(v));
    }
    if p == Place::Vertex(v) {
        assert(t[r.len() as int] == Place::Vertex(v));
    }
    if visited(t, v) {
        let k = choose|k: int| 0 <= k < t.len() && t[k] == Place::Vertex(v);
        if k < r.len() {
            assert(r[k] == Place::Vertex(v));
        }
    }
}

impl Searcher {
    /// Every route of the lobby begins at the start and ends at the end,
    /// which stands nowhere else on it. Every vertex of the lobby is on
    /// it, and no vertex but the start stands on it twice; every other
    /// place on it is a warp of the lobby.
    pub proof fn lemma_routes_are_simple(&self)
        requires
            self.wf(),
        ensures
            forall|k: int|
                0 <= k < self.candidates().len() ==> {
                    let r = (#[trigger] self.candidates()[k]).route;
                    &&& repeats_only_start(r)
                    &&& r.len() >= 2
                    &&& r[0] == Place::Vertex(START_I)
                    &&& r.last() == Place::Vertex(END_I)
                    &&& within(r.drop_last(), self.junctions().len(), self.warp_exits().len())
                    &&& forall|v: usize| v < self.junctions().len() ==> visited(r, v)
                },
    {
        broadcast use vstd::set::group_set_axioms;

        let vertices = self.junctions().len();
        let warps = self.warp_exits().len();
        let inv = |r: Seq<Place>, u: nat| on_course(r, u, vertices, warps);
        lemma_on_course_kept(vertices, warps);
        if vertices > 0 {
            let first = seq![Place::Vertex(START_I)];
            assert(first.contains(first[0]));
            assert(unvisited(first, vertices) =~= vstd::set_lib::set_int_range(
                1,
                vertices as int,
            )) by {
                assert forall|v: int| unvisited(first, vertices).contains(v)
                    == vstd::set_lib::set_int_range(1, vertices as int).contains(v) by {
                    if 0 <= v < vertices && visited(first, v as usize) {
                        let k = choose|k: int|
                            0 <= k < first.len() && first[k] == Place::Vertex(v as usize);
                        assert(v == 0);
                    }
                }
            }
            vstd::set_lib::lemma_int_range(1, vertices as int);
            assert(inv(first, (vertices - 1) as nat));
            self.lemma_candidates_inv(inv);
        }
        assert forall|k: int| 0 <= k < self.candidates().len() implies {
            let r = (#[trigger] self.candidates()[k]).route;
            &&& repeats_only_start(r)
            &&& r.len() >= 2
            &&& r[0] == Place::Vertex(START_I)
            &&& r.last() == Place::Vertex(END_I)
            &&& within(r.drop_last(), vertices, warps)
            &&& forall|v: usize| v < vertices ==> visited(r, v)
        } by {
            let r = self.candidates()[k].route;
            let before = r.drop_last();
            assert(inv(before, 0));
            assert(r[0] == before[0]);
            assert forall|i: int, j: int|
                0 <= i < j < r.len() && (#[trigger] r[i]) == (#[trigger] r[j])
                    && r[i] is Vertex implies r[i] == Place::Vertex(START_I) by {
                assert(r[i] == before[i]);
                if j < before.len() {
                    assert(r[j] == before[j]);
                } else {
                    assert(r[j] == r.last());
                }
            }
            assert forall|v: usize| v < vertices implies visited(r, v) by {
                assert(unvisited(before, vertices).len() == 0);
                assert(!unvisited(before, vertices).contains(v as int));
                assert(visited(before, v));
                let x = choose|x: int| 0 <= x < before.len() && before[x] == Place::Vertex(v);
                assert(r[x] == Place::Vertex(v));
            }
        }
    }
}

} // verus!
