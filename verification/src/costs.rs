//! What a route costs, said without the search: the costs of the edges it
//! takes, and a fixed price for each passage through the warps and for each
//! return to the start.

use vstd::prelude::*;
use crate::place::{EntryView, Place};
use crate::search::{visited, with_activations};
use crate::searcher::{Edge, Searcher, END_I, RESTART_PENALTY, START_I, WARP_PENALTY};

verus! {

/// No two of `edges` lead to the same place.
pub open spec fn dsts_distinct(edges: Seq<Edge>) -> bool {
    forall|i: int, j: int|
        0 <= i < j < edges.len() ==> (#[trigger] edges[i]).dst != (#[trigger] edges[j]).dst
}

/// The cost of the edge among `edges` that leads to `d`.
pub open spec fn cost_to(edges: Seq<Edge>, d: usize) -> nat {
    edges[choose|i: int| 0 <= i < edges.len() && (#[trigger] edges[i]).dst == d].cost as nat
}

impl Searcher {
    /// No vertex and no warp has two edges to the same vertex, or two
    /// edges to the end.
    pub open spec fn edges_distinct(&self) -> bool {
        &&& forall|v: int|
            0 <= v < self.junctions().len() ==> dsts_distinct(
                (#[trigger] self.junctions()[v]).to_vertices@,
            )
        &&& forall|w: int|
            0 <= w < self.warp_exits().len() ==> dsts_distinct((#[trigger] self.warp_exits()[w])@)
    }

    /// The edges by which a route goes on from `place` to a vertex or to
    /// the end.
    pub open spec fn edges_from(&self, place: Place) -> Seq<Edge> {
        match place {
            Place::Vertex(v) => self.junctions()[v as int].to_vertices@,
            Place::Warp(w) => self.warp_exits()[w as int]@,
        }
    }

    /// What the step from `a` to `b` on a route costs: back to the start,
    /// the price of a restart; from a vertex into a warp, the vertex's
    /// first edge into a warp and the price of a warp transit; from warp
    /// to warp, nothing; to a vertex or to the end, the edge that leads
    /// there.
    pub open spec fn step_cost(&self, a: Place, b: Place) -> nat {
        match b {
            Place::Vertex(d) => if d == START_I {
                RESTART_PENALTY as nat
            } else {
                cost_to(self.edges_from(a), d)
            },
            Place::Warp(_) => match a {
                Place::Vertex(v) => self.junctions()[v as int].to_warps@[0].cost as nat
                    + WARP_PENALTY as nat,
                Place::Warp(_) => 0,
            },
        }
    }

    /// What the first `n` steps of `route` cost together.
    pub open spec fn route_cost(&self, route: Seq<Place>, n: int) -> nat
        decreases n,
    {
        if n <= 0 {
            0
        } else {
            self.route_cost(route, n - 1) + self.step_cost(route[n - 1], route[n])
        }
    }

    /// Whether each of `entries` costs what its steps cost together.
    pub open spec fn all_cost_steps(&self, entries: Seq<EntryView>) -> bool {
        forall|k: int|
            0 <= k < entries.len() ==> (#[trigger] entries[k]).total_cost == self.route_cost(
                entries[k].route,
                entries[k].route.len() - 1,
            )
    }

    /// What holds while the search is at the end of `route`, having spent
    /// `cost`: the route has passed the start, and its steps cost `cost`
    /// together.
    pub open spec fn paid_for(&self, route: Seq<Place>, cost: nat) -> bool {
        &&& route.len() > 0
        &&& visited(route, START_I)
        &&& cost == self.route_cost(route, route.len() - 1)
    }

    proof fn lemma_route_cost_prefix(&self, p: Seq<Place>, q: Seq<Place>, n: int)
        requires
            0 <= n < p.len(),
            n < q.len(),
            forall|k: int| 0 <= k <= n ==> p[k] == q[k],
        ensures
            self.route_cost(p, n) == self.route_cost(q, n),
        decreases n,
    {
        if n > 0 {
            self.lemma_route_cost_prefix(p, q, n - 1);
        }
    }

    /// One more step costs what the route cost, and the step.
    proof fn lemma_paid_step(&self, route: Seq<Place>, cost: nat, next: Place)
        requires
            self.paid_for(route, cost),
        ensures
            self.paid_for(route.push(next), cost + self.step_cost(route.last(), next)),
    {
        let longer = route.push(next);
        self.lemma_route_cost_prefix(longer, route, route.len() - 1);
        let k = choose|k: int| 0 <= k < route.len() && route[k] == Place::Vertex(START_I);
        assert(longer[k] == Place::Vertex(START_I));
    }

    proof fn lemma_cost_steps_concat(&self, a: Seq<EntryView>, b: Seq<EntryView>)
        requires
            self.all_cost_steps(a),
            self.all_cost_steps(b),
        ensures
            self.all_cost_steps(a + b),
    {
        assert forall|k: int| 0 <= k < (a + b).len() implies (#[trigger] (a + b)[k]).total_cost
            == self.route_cost((a + b)[k].route, (a + b)[k].route.len() - 1) by {
            if k < a.len() {
                assert((a + b)[k] == a[k]);
            } else {
                assert((a + b)[k] == b[k - a.len()]);
            }
        }
    }

    proof fn lemma_over_edges_cost(
        &self,
        i: int,
        origin: Option<usize>,
        unexpl: nat,
        cost: nat,
        route: Seq<Place>,
        active: Set<usize>,
    )
        requires
            self.wf(),
            self.edges_distinct(),
            self.paid_for(route, cost),
            match route.last() {
                Place::Vertex(v) => v < self.junctions().len(),
                Place::Warp(w) => w < self.warp_exits().len(),
            },
            0 <= i,
        ensures
            self.all_cost_steps(
                self.over_edges(
                    self.edges_from(route.last()),
                    i,
                    origin,
                    unexpl,
                    cost,
                    route,
                    active,
                ),
            ),
        decreases unexpl, 0nat, self.edges_from(route.last()).len() - i,
    {
        let edges = self.edges_from(route.last());
        if i < edges.len() {
            let e = edges[i];
            let rest = self.over_edges(edges, i + 1, origin, unexpl, cost, route, active);
            self.lemma_over_edges_cost(i + 1, origin, unexpl, cost, route, active);
            assert(dsts_distinct(edges));
            assert(cost_to(edges, e.dst) == e.cost) by {
                let c = choose|c: int| 0 <= c < edges.len() && (#[trigger] edges[c]).dst == e.dst;
                if c < i {
                    assert(edges[c].dst != edges[i].dst);
                } else if c > i {
                    assert(edges[i].dst != edges[c].dst);
                }
            }
            assert(crate::searcher::exits_ok(
                edges,
                self.junctions().len(),
                self.warp_exits().len(),
            ));
            let here = if unexpl == 0 {
                if e.dst == END_I {
                    seq![
                        EntryView {
                            total_cost: cost + e.cost as nat,
                            route: route.push(Place::Vertex(END_I)),
                        },
                    ]
                } else {
                    Seq::<EntryView>::empty()
                }
            } else if self.may_enter(e, origin, route) {
                self.explore(
                    e.dst,
                    (unexpl - 1) as nat,
                    cost + e.cost as nat,
                    route.push(Place::Vertex(e.dst)),
                    with_activations(active, e),
                )
            } else {
                Seq::<EntryView>::empty()
            };
            if unexpl == 0 {
                if e.dst == END_I {
                    self.lemma_paid_step(route, cost, Place::Vertex(END_I));
                }
            } else if self.may_enter(e, origin, route) {
                self.lemma_paid_step(route, cost, Place::Vertex(e.dst));
                self.lemma_explore_cost(
                    e.dst,
                    (unexpl - 1) as nat,
                    cost + e.cost as nat,
                    route.push(Place::Vertex(e.dst)),
                    with_activations(active, e),
                );
            }
            self.lemma_cost_steps_concat(here, rest);
        }
    }

    proof fn lemma_chain_cost(
        &self,
        w: int,
        entry: usize,
        origin: Option<usize>,
        unexpl: nat,
        cost: nat,
        route: Seq<Place>,
        active: Set<usize>,
    )
        requires
            self.wf(),
            self.edges_distinct(),
            self.paid_for(route, cost),
            route.last() is Warp,
            0 <= w,
        ensures
            self.all_cost_steps(self.chain(w, entry, origin, unexpl, cost, route, active)),
        decreases unexpl, 1nat, self.warp_exits().len() - w,
    {
        if w < self.warp_exits().len() {
            let rest = self.chain(w + 1, entry, origin, unexpl, cost, route, active);
            self.lemma_chain_cost(w + 1, entry, origin, unexpl, cost, route, active);
            let through = route.push(Place::Warp(w as usize));
            let here = if active.contains(w as usize) && w != entry {
                self.over_edges(self.warp_exits()[w]@, 0, origin, unexpl, cost, through, active)
            } else {
                Seq::<EntryView>::empty()
            };
            if active.contains(w as usize) && w != entry {
                self.lemma_paid_step(route, cost, Place::Warp(w as usize));
                assert(self.step_cost(route.last(), Place::Warp(w as usize)) == 0);
                assert(through.last() == Place::Warp(w as usize));
                assert(self.edges_from(through.last()) == self.warp_exits()[w]@);
                self.lemma_over_edges_cost(0, origin, unexpl, cost, through, active);
            }
            self.lemma_cost_steps_concat(here, rest);
        }
    }

    proof fn lemma_launch_cost(
        &self,
        from: usize,
        origin: Option<usize>,
        unexpl: nat,
        cost: nat,
        route: Seq<Place>,
        active: Set<usize>,
    )
        requires
            self.wf(),
            self.edges_distinct(),
            self.paid_for(route, cost),
            route.last() == Place::Vertex(from),
        ensures
            self.all_cost_steps(self.launch(from, origin, unexpl, cost, route, active)),
        decreases unexpl, 2nat, 0nat,
    {
        let edges = self.junctions()[from as int].to_warps@;
        if from < self.junctions().len() && edges.len() > 0 {
            let l = edges[0];
            self.lemma_paid_step(route, cost, Place::Warp(l.dst));
            self.lemma_chain_cost(
                0,
                l.dst,
                origin,
                unexpl,
                cost + l.cost as nat + WARP_PENALTY as nat,
                route.push(Place::Warp(l.dst)),
                with_activations(active, l),
            );
        }
    }

    proof fn lemma_restart_cost(
        &self,
        cur: usize,
        unexpl: nat,
        cost: nat,
        route: Seq<Place>,
        active: Set<usize>,
    )
        requires
            self.wf(),
            self.edges_distinct(),
            self.paid_for(route, cost),
            self.junctions().len() > 0,
        ensures
            self.all_cost_steps(self.restart(cur, unexpl, cost, route, active)),
        decreases unexpl, 2nat, 1nat,
    {
        let back = route.push(Place::Vertex(START_I));
        let paid = cost + RESTART_PENALTY as nat;
        let direct = self.junctions()[START_I as int].to_vertices@;
        self.lemma_paid_step(route, cost, Place::Vertex(START_I));
        self.lemma_over_edges_cost(0, Some(cur), unexpl, paid, back, active);
        self.lemma_launch_cost(START_I, Some(cur), unexpl, paid, back, active);
        let first = self.over_edges(direct, 0, Some(cur), unexpl, paid, back, active);
        let second = if self.any_entered(direct, Some(cur), unexpl, back) {
            Seq::<EntryView>::empty()
        } else {
            self.launch(START_I, Some(cur), unexpl, paid, back, active)
        };
        self.lemma_cost_steps_concat(first, second);
    }

    /// Every route found from a vertex costs what its steps cost together,
    /// where the route so far does.
    pub proof fn lemma_explore_cost(
        &self,
        cur: usize,
        unexpl: nat,
        cost: nat,
        route: Seq<Place>,
        active: Set<usize>,
    )
        requires
            self.wf(),
            self.edges_distinct(),
            self.paid_for(route, cost),
            route.last() == Place::Vertex(cur),
        ensures
            self.all_cost_steps(self.explore(cur, unexpl, cost, route, active)),
        decreases unexpl, 3nat, 0nat,
    {
        if cur < self.junctions().len() {
            let direct = self.junctions()[cur as int].to_vertices@;
            let first = self.over_edges(direct, 0, None, unexpl, cost, route, active);
            let through = self.launch(cur, Some(cur), unexpl, cost, route, active);
            self.lemma_over_edges_cost(0, None, unexpl, cost, route, active);
            self.lemma_launch_cost(cur, Some(cur), unexpl, cost, route, active);
            if unexpl == 0 {
                self.lemma_cost_steps_concat(first, through);
            } else if !self.any_entered(direct, None, unexpl, route) {
                let last = if self.launch_entered(cur, Some(cur), unexpl, route, active) {
                    Seq::<EntryView>::empty()
                } else {
                    self.restart(cur, unexpl, cost, route, active)
                };
                if !self.launch_entered(cur, Some(cur), unexpl, route, active) {
                    self.lemma_restart_cost(cur, unexpl, cost, route, active);
                }
                self.lemma_cost_steps_concat(through, last);
                self.lemma_cost_steps_concat(first, through + last);
            }
        }
    }

    /// Every route of the lobby costs what its steps cost together: the
    /// edges it takes, the price of a warp transit for each edge it takes
    /// into a warp, and the price of a restart for each return to the
    /// start.
    pub proof fn lemma_routes_cost_their_steps(&self)
        requires
            self.wf(),
            self.edges_distinct(),
        ensures
            self.all_cost_steps(self.candidates()),
    {
        if self.junctions().len() > 0 {
            let unexpl = (self.junctions().len() - 1) as nat;
            let route = seq![Place::Vertex(START_I)];
            let active = Set::<usize>::empty();
            let direct = self.junctions()[START_I as int].to_vertices@;
            assert(route[0] == Place::Vertex(START_I));
            assert(self.paid_for(route, 0));
            let first = self.over_edges(direct, 0, None, unexpl, 0, route, active);
            let second = if unexpl > 0 && self.any_entered(direct, None, unexpl, route) {
                Seq::<EntryView>::empty()
            } else {
                self.launch(START_I, Some(START_I), unexpl, 0, route, active)
            };
            self.lemma_over_edges_cost(0, None, unexpl, 0, route, active);
            self.lemma_launch_cost(START_I, Some(START_I), unexpl, 0, route, active);
            self.lemma_cost_steps_concat(first, second);
        }
    }
}

} // verus!
