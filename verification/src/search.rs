//! The search: which complete routes a lobby has, in the order in which the
//! backtracking traversal finds them, and the traversal itself.

use vstd::prelude::*;
use crate::collector::Collector;
use crate::place::{copy_route, EntryView, Place, ResultEntry};
use crate::searcher::{
    cost_step, edges_capped, entries_ok, exits_ok, Edge, Searcher, END_I, RESTART_PENALTY, START_I,
    WARP_PENALTY,
};

verus! {

/// Whether vertex `v` is on the route already.
pub open spec fn visited(route: Seq<Place>, v: usize) -> bool {
    route.contains(Place::Vertex(v))
}

/// The warps that are active under the given counters: those whose counter
/// is not zero.
pub open spec fn active_of(counters: Seq<u64>) -> Set<usize> {
    Set::new(|w: usize| w < counters.len() && counters[w as int] > 0)
}

/// The active warps once `e` has been taken.
pub open spec fn with_activations(active: Set<usize>, e: Edge) -> Set<usize> {
    Set::new(|w: usize| active.contains(w) || e.activates@.contains(w))
}

/// How often `w` stands among the first `n` of `acts`.
pub open spec fn occurrences(acts: Seq<usize>, w: int, n: int) -> nat
    decreases n,
{
    if n <= 0 {
        0
    } else {
        occurrences(acts, w, n - 1) + if acts[n - 1] == w {
            1nat
        } else {
            0nat
        }
    }
}

/// `n` steps of `step` each.
pub open spec fn span(n: nat, step: nat) -> nat {
    n * step
}

pub(crate) proof fn lemma_occurrences_bounds(acts: Seq<usize>, w: int, a: int, b: int)
    requires
        0 <= a <= b,
    ensures
        occurrences(acts, w, a) <= occurrences(acts, w, b) <= occurrences(acts, w, a) + (b - a),
    decreases b - a,
{
    if a < b {
        lemma_occurrences_bounds(acts, w, a, b - 1);
    }
}

proof fn lemma_occurrences_positive(acts: Seq<usize>, w: int, n: int)
    requires
        0 <= n <= acts.len(),
    ensures
        occurrences(acts, w, n) > 0 <==> exists|k: int| 0 <= k < n && acts[k] == w,
    decreases n,
{
    if n > 0 {
        lemma_occurrences_positive(acts, w, n - 1);
        if acts[n - 1] == w {
        } else if occurrences(acts, w, n) > 0 {
            let k = choose|k: int| 0 <= k < n - 1 && acts[k] == w;
            assert(0 <= k < n && acts[k] == w);
        }
    }
}

/// Counters that went up by the activations of `e` show the warps that were
/// active before, and those that `e` activates.
pub(crate) proof fn lemma_active_after(before: Seq<u64>, after: Seq<u64>, e: Edge)
    requires
        before.len() == after.len(),
        forall|k: int| 0 <= k < e.activates@.len() ==> (#[trigger] e.activates@[k]) < before.len(),
        forall|w: int|
            0 <= w < before.len() ==> (#[trigger] after[w]) == before[w] + occurrences(
                e.activates@,
                w,
                e.activates@.len() as int,
            ),
    ensures
        active_of(after) == with_activations(active_of(before), e),
{
    let acts = e.activates@;
    assert forall|w: usize|
        active_of(after).contains(w) == with_activations(active_of(before), e).contains(w) by {
        lemma_occurrences_positive(acts, w as int, acts.len() as int);
        if acts.contains(w) {
            let k = choose|k: int| 0 <= k < acts.len() && acts[k] == w;
            assert(acts[k] < before.len());
        }
    }
    assert(active_of(after) =~= with_activations(active_of(before), e));
}

pub(crate) proof fn lemma_span_step(n: nat, step: nat)
    ensures
        span(n + 1, step) == span(n, step) + step,
{
    assert((n + 1) * step == n * step + step) by (nonlinear_arith);
}

/// Whether vertex `v` is on `route`.
pub(crate) fn is_visited(route: &Vec<Place>, v: usize) -> (r: bool)
    ensures
        r == visited(route@, v),
{
    let mut i: usize = 0;
    while i < route.len()
        invariant
            i <= route.len(),
            forall|k: int| 0 <= k < i ==> route@[k] != Place::Vertex(v),
        decreases route.len() - i,
    {
        if route[i] == Place::Vertex(v) {
            return true;
        }
        i += 1;
    }
    false
}

/// Whether one of `edges` leads to `dst`.
pub(crate) fn has_edge_to(edges: &Vec<Edge>, dst: usize) -> (r: bool)
    ensures
        r == exists|j: int| 0 <= j < edges@.len() && (#[trigger] edges@[j]).dst == dst,
{
    let mut j: usize = 0;
    while j < edges.len()
        invariant
            j <= edges.len(),
            forall|k: int| 0 <= k < j ==> (#[trigger] edges@[k]).dst != dst,
        decreases edges.len() - j,
    {
        if edges[j].dst == dst {
            return true;
        }
        j += 1;
    }
    false
}

/// Counts the activations of one edge in.
pub(crate) fn activate(st: &mut SearchState, acts: &Vec<usize>)
    requires
        forall|k: int| 0 <= k < acts@.len() ==> (#[trigger] acts@[k]) < old(st).active_warps@.len(),
        forall|w: int|
            0 <= w < old(st).active_warps@.len() ==> (#[trigger] old(st).active_warps@[w])
                + acts@.len() <= u64::MAX,
    ensures
        final(st).route@ == old(st).route@,
        final(st).active_warps@.len() == old(st).active_warps@.len(),
        forall|w: int|
            0 <= w < old(st).active_warps@.len() ==> (#[trigger] final(st).active_warps@[w]) == old(
                st,
            ).active_warps@[w] + occurrences(acts@, w, acts@.len() as int),
{
    let ghost before = st.active_warps@;
    let mut k: usize = 0;
    while k < acts.len()
        invariant
            k <= acts.len(),
            st.route@ == old(st).route@,
            st.active_warps@.len() == before.len(),
            forall|k: int| 0 <= k < acts@.len() ==> (#[trigger] acts@[k]) < before.len(),
            forall|w: int|
                0 <= w < before.len() ==> (#[trigger] before[w]) + acts@.len() <= u64::MAX,
            forall|w: int|
                0 <= w < before.len() ==> (#[trigger] st.active_warps@[w]) == before[w]
                    + occurrences(acts@, w, k as int),
        decreases acts.len() - k,
    {
        let w = acts[k];
        proof {
            lemma_occurrences_bounds(acts@, w as int, 0, k as int);
        }
        let c = st.active_warps[w];
        st.active_warps.set(w, c + 1);
        k += 1;
    }
}

/// Counts the activations of one edge out again.
pub(crate) fn deactivate(st: &mut SearchState, acts: &Vec<usize>)
    requires
        forall|k: int| 0 <= k < acts@.len() ==> (#[trigger] acts@[k]) < old(st).active_warps@.len(),
        forall|w: int|
            0 <= w < old(st).active_warps@.len() ==> (#[trigger] old(st).active_warps@[w])
                >= occurrences(acts@, w, acts@.len() as int),
    ensures
        final(st).route@ == old(st).route@,
        final(st).active_warps@.len() == old(st).active_warps@.len(),
        forall|w: int|
            0 <= w < old(st).active_warps@.len() ==> (#[trigger] final(st).active_warps@[w]) == old(
                st,
            ).active_warps@[w] - occurrences(acts@, w, acts@.len() as int),
{
    let ghost before = st.active_warps@;
    let mut k: usize = 0;
    while k < acts.len()
        invariant
            k <= acts.len(),
            st.route@ == old(st).route@,
            st.active_warps@.len() == before.len(),
            forall|k: int| 0 <= k < acts@.len() ==> (#[trigger] acts@[k]) < before.len(),
            forall|w: int|
                0 <= w < before.len() ==> (#[trigger] before[w]) >= occurrences(
                    acts@,
                    w,
                    acts@.len() as int,
                ),
            forall|w: int|
                0 <= w < before.len() ==> (#[trigger] st.active_warps@[w]) == before[w]
                    - occurrences(acts@, w, k as int),
        decreases acts.len() - k,
    {
        let w = acts[k];
        proof {
            lemma_occurrences_bounds(acts@, w as int, k as int + 1, acts@.len() as int);
        }
        let c = st.active_warps[w];
        st.active_warps.set(w, c - 1);
        k += 1;
    }
}

/// A copy of `route` with `last` behind it.
pub(crate) fn route_with(route: &Vec<Place>, last: Place) -> (r: Vec<Place>)
    ensures
        r@ == route@.push(last),
{
    let mut r = copy_route(route);
    r.push(last);
    r
}

/// The mutable state of one search: the route walked so far, and for each
/// warp the number of edges on the route that activate it.
#[derive(Debug)]
pub struct SearchState {
    pub route: Vec<Place>,
    pub active_warps: Vec<u64>,
}

impl SearchState {
    /// The state before the first step: no place on the route, no warp
    /// active.
    pub fn new(warp_num: usize) -> (st: Self)
        ensures
            st.route@ == Seq::<Place>::empty(),
            st.active_warps@ == Seq::new(warp_num as nat, |w: int| 0u64),
    {
        let mut active_warps: Vec<u64> = Vec::new();
        let mut w: usize = 0;
        while w < warp_num
            invariant
                w <= warp_num,
                active_warps@ == Seq::new(w as nat, |i: int| 0u64),
            decreases warp_num - w,
        {
            active_warps.push(0);
            w += 1;
            assert(active_warps@ =~= Seq::new(w as nat, |i: int| 0u64));
        }
        SearchState { route: Vec::new(), active_warps }
    }
}

impl Searcher {
    /// Whether a step to `dst` is left out because the vertex `origin`, from
    /// which the detour began, has a direct edge there.
    pub open spec fn suppressed(&self, origin: Option<usize>, dst: usize) -> bool {
        match origin {
            Some(v) => exists|j: int|
                0 <= j < self.junctions()[v as int].to_vertices@.len() && (
                #[trigger] self.junctions()[v as int].to_vertices@[j]).dst == dst,
            None => false,
        }
    }

    /// Whether the search takes `e` to go on: it leads to a vertex that is
    /// not on the route yet, and is not suppressed.
    pub open spec fn may_enter(&self, e: Edge, origin: Option<usize>, route: Seq<Place>) -> bool {
        e.dst != END_I && !self.suppressed(origin, e.dst) && !visited(route, e.dst)
    }

    /// Whether the search goes on along one of `edges`.
    pub open spec fn any_entered(
        &self,
        edges: Seq<Edge>,
        origin: Option<usize>,
        unexpl: nat,
        route: Seq<Place>,
    ) -> bool {
        unexpl > 0 && exists|j: int|
            0 <= j < edges.len() && self.may_enter(#[trigger] edges[j], origin, route)
    }

    /// The routes found along `edges[i..]`, in order. With no vertex left
    /// to visit, each edge to the end completes a route; otherwise each
    /// edge that may be entered leads to the routes found beyond it.
    pub open spec fn over_edges(
        &self,
        edges: Seq<Edge>,
        i: int,
        origin: Option<usize>,
        unexpl: nat,
        cost: nat,
        route: Seq<Place>,
        active: Set<usize>,
    ) -> Seq<EntryView>
        decreases unexpl, 0nat, edges.len() - i,
    {
        if i < 0 || i >= edges.len() {
            Seq::empty()
        } else {
            let e = edges[i];
            let here = if unexpl == 0 {
                if e.dst == END_I {
                    seq![
                        EntryView {
                            total_cost: cost + e.cost as nat,
                            route: route.push(Place::Vertex(END_I)),
                        },
                    ]
                } else {
                    Seq::empty()
                }
            } else if self.may_enter(e, origin, route) {
                self.explore(
                    e.dst,
                    (unexpl - 1) as nat,
                    cost + e.cost as nat,
                    route.push(Place::Vertex(e.dst)),
                    with_activations(active, e),
                )
            } else {
                Seq::empty()
            };
            here + self.over_edges(edges, i + 1, origin, unexpl, cost, route, active)
        }
    }

    /// The routes found by leaving through the warps `w..`, in order: each
    /// active warp other than `entry` is put on the route and its edges are
    /// followed.
    pub open spec fn chain(
        &self,
        w: int,
        entry: usize,
        origin: Option<usize>,
        unexpl: nat,
        cost: nat,
        route: Seq<Place>,
        active: Set<usize>,
    ) -> Seq<EntryView>
        decreases unexpl, 1nat, self.warp_exits().len() - w,
    {
        if w < 0 || w >= self.warp_exits().len() {
            Seq::empty()
        } else {
            let here = if active.contains(w as usize) && w != entry {
                self.over_edges(
                    self.warp_exits()[w]@,
                    0,
                    origin,
                    unexpl,
                    cost,
                    route.push(Place::Warp(w as usize)),
                    active,
                )
            } else {
                Seq::empty()
            };
            here + self.chain(w + 1, entry, origin, unexpl, cost, route, active)
        }
    }

    /// Whether the search goes on beyond one of the warps of [`Self::chain`].
    pub open spec fn chain_entered(
        &self,
        entry: usize,
        origin: Option<usize>,
        unexpl: nat,
        route: Seq<Place>,
        active: Set<usize>,
    ) -> bool {
        exists|w: int|
            0 <= w < self.warp_exits().len() && active.contains(w as usize) && w != entry
                && #[trigger] self.any_entered(
                self.warp_exits()[w]@,
                origin,
                unexpl,
                route.push(Place::Warp(w as usize)),
            )
    }

    /// The routes found through the warps from vertex `from`: its first
    /// edge into a warp is taken, at the price of a warp transit, and the
    /// route leaves through the warps that are then active.
    pub open spec fn launch(
        &self,
        from: usize,
        origin: Option<usize>,
        unexpl: nat,
        cost: nat,
        route: Seq<Place>,
        active: Set<usize>,
    ) -> Seq<EntryView>
        decreases unexpl, 2nat, 0nat,
    {
        let edges = self.junctions()[from as int].to_warps@;
        if from >= self.junctions().len() || edges.len() == 0 {
            Seq::empty()
        } else {
            let l = edges[0];
            self.chain(
                0,
                l.dst,
                origin,
                unexpl,
                cost + l.cost as nat + WARP_PENALTY as nat,
                route.push(Place::Warp(l.dst)),
                with_activations(active, l),
            )
        }
    }

    /// Whether the search goes on somewhere in [`Self::launch`].
    pub open spec fn launch_entered(
        &self,
        from: usize,
        origin: Option<usize>,
        unexpl: nat,
        route: Seq<Place>,
        active: Set<usize>,
    ) -> bool {
        let edges = self.junctions()[from as int].to_warps@;
        from < self.junctions().len() && edges.len() > 0 && self.chain_entered(
            edges[0].dst,
            origin,
            unexpl,
            route.push(Place::Warp(edges[0].dst)),
            with_activations(active, edges[0]),
        )
    }

    /// The routes found after going back to the start from `cur`, at the
    /// price of a restart: along the start's direct edges, and through the
    /// warps from the start if none of those can be entered. Steps to
    /// vertices that `cur` reaches directly are left out.
    pub open spec fn restart(
        &self,
        cur: usize,
        unexpl: nat,
        cost: nat,
        route: Seq<Place>,
        active: Set<usize>,
    ) -> Seq<EntryView>
        decreases unexpl, 2nat, 1nat,
    {
        let back = route.push(Place::Vertex(START_I));
        let paid = cost + RESTART_PENALTY as nat;
        let direct = self.junctions()[START_I as int].to_vertices@;
        self.over_edges(direct, 0, Some(cur), unexpl, paid, back, active) + if self.any_entered(
            direct,
            Some(cur),
            unexpl,
            back,
        ) {
            Seq::empty()
        } else {
            self.launch(START_I, Some(cur), unexpl, paid, back, active)
        }
    }

    /// The complete routes found from vertex `cur`, in order, when `unexpl`
    /// vertices are still to be visited, `cost` has been spent, `route` has
    /// been walked and the warps in `active` are active.
    ///
    /// With no vertex left, the route is closed: by each direct edge to the
    /// end, and besides through the warps. Otherwise the search goes on
    /// along the direct edges; only if none can be entered, through the
    /// warps; and only if that leads nowhere either, from the start again.
    pub open spec fn explore(
        &self,
        cur: usize,
        unexpl: nat,
        cost: nat,
        route: Seq<Place>,
        active: Set<usize>,
    ) -> Seq<EntryView>
        decreases unexpl, 3nat, 0nat,
    {
        if cur >= self.junctions().len() {
            Seq::empty()
        } else {
            let direct = self.junctions()[cur as int].to_vertices@;
            let first = self.over_edges(direct, 0, None, unexpl, cost, route, active);
            if unexpl == 0 {
                first + self.launch(cur, Some(cur), unexpl, cost, route, active)
            } else if self.any_entered(direct, None, unexpl, route) {
                first
            } else {
                first + (self.launch(cur, Some(cur), unexpl, cost, route, active)
                    + if self.launch_entered(cur, Some(cur), unexpl, route, active) {
                    Seq::empty()
                } else {
                    self.restart(cur, unexpl, cost, route, active)
                })
            }
        }
    }

    /// Every complete route of the lobby, in the order in which the search
    /// finds them. The search starts at the start vertex with every other
    /// vertex still to visit; at this first step there is no going back to
    /// the start.
    pub open spec fn candidates(&self) -> Seq<EntryView> {
        if self.junctions().len() == 0 {
            Seq::empty()
        } else {
            let unexpl = (self.junctions().len() - 1) as nat;
            let route = seq![Place::Vertex(START_I)];
            let active = Set::<usize>::empty();
            let direct = self.junctions()[START_I as int].to_vertices@;
            self.over_edges(direct, 0, None, unexpl, 0, route, active) + if unexpl > 0
                && self.any_entered(direct, None, unexpl, route) {
                Seq::empty()
            } else {
                self.launch(START_I, Some(START_I), unexpl, 0, route, active)
            }
        }
    }
}

impl Searcher {
    /// The search has room: from `cost`, with `cost_ahead` still to be
    /// added at this step and `unexpl` steps after it, the total can be
    /// held; and so can each counter, with `fan_ahead` still to be added.
    pub open spec fn has_room(
        &self,
        unexpl: nat,
        cost: nat,
        counters: Seq<u64>,
        cost_ahead: nat,
        fan_ahead: nat,
    ) -> bool {
        &&& cost + cost_ahead + span(unexpl, cost_step(self.cost_cap())) <= u64::MAX
        &&& forall|w: int|
            0 <= w < counters.len() ==> (#[trigger] counters[w]) + fan_ahead + span(
                unexpl,
                2 * self.fan_cap(),
            ) <= u64::MAX
    }

    /// Whether a step to `dst` is left out on account of `origin`.
    pub(crate) fn is_suppressed(&self, origin: Option<usize>, dst: usize) -> (r: bool)
        requires
            origin matches Some(v) ==> v < self.junctions().len(),
        ensures
            r == self.suppressed(origin, dst),
    {
        match origin {
            Some(v) => has_edge_to(&self.junction(v).to_vertices, dst),
            None => false,
        }
    }

    /// Follows `edges` one by one: with no vertex left each edge to the end
    /// completes a route, which the collector receives; otherwise each edge
    /// that may be entered is taken, searched beyond, and taken back.
    /// Returns whether any edge was entered.
    pub(crate) fn walk_edges(
        &self,
        edges: &Vec<Edge>,
        origin: Option<usize>,
        unexpl: usize,
        excur: u64,
        st: &mut SearchState,
        collector: &mut Collector,
    ) -> (any: bool)
        requires
            self.wf(),
            old(collector).wf(),
            old(st).active_warps@.len() == self.warp_exits().len(),
            exits_ok(edges@, self.junctions().len(), self.warp_exits().len()),
            edges_capped(edges@, self.cost_cap(), self.fan_cap()),
            origin matches Some(v) ==> v < self.junctions().len(),
            self.has_room(
                unexpl as nat,
                excur as nat,
                old(st).active_warps@,
                self.cost_cap(),
                self.fan_cap(),
            ),
        ensures
            final(st).route@ == old(st).route@,
            final(st).active_warps@ == old(st).active_warps@,
            final(collector).wf(),
            final(collector)@.capacity == old(collector)@.capacity,
            final(collector)@.received == old(collector)@.received + self.over_edges(
                edges@,
                0,
                origin,
                unexpl as nat,
                excur as nat,
                old(st).route@,
                active_of(old(st).active_warps@),
            ),
            any == self.any_entered(edges@, origin, unexpl as nat, old(st).route@),
        decreases unexpl, 0nat,
    {
        let ghost route0 = st.route@;
        let ghost counters0 = st.active_warps@;
        let ghost active0 = active_of(counters0);
        let ghost received0 = collector@.received;
        let ghost all = self.over_edges(
            edges@,
            0,
            origin,
            unexpl as nat,
            excur as nat,
            route0,
            active0,
        );
        let mut any = false;
        let mut i: usize = 0;
        while i < edges.len()
            invariant
                i <= edges.len(),
                self.wf(),
                collector.wf(),
                collector@.capacity == old(collector)@.capacity,
                st.route@ == route0,
                st.active_warps@ == counters0,
                counters0.len() == self.warp_exits().len(),
                active0 == active_of(counters0),
                exits_ok(edges@, self.junctions().len(), self.warp_exits().len()),
                edges_capped(edges@, self.cost_cap(), self.fan_cap()),
                origin matches Some(v) ==> v < self.junctions().len(),
                self.has_room(
                    unexpl as nat,
                    excur as nat,
                    counters0,
                    self.cost_cap(),
                    self.fan_cap(),
                ),
                all == self.over_edges(
                    edges@,
                    0,
                    origin,
                    unexpl as nat,
                    excur as nat,
                    route0,
                    active0,
                ),
                collector@.received + self.over_edges(
                    edges@,
                    i as int,
                    origin,
                    unexpl as nat,
                    excur as nat,
                    route0,
                    active0,
                ) == received0 + all,
                any == (unexpl > 0 && exists|j: int|
                    0 <= j < i && self.may_enter(#[trigger] edges@[j], origin, route0)),
            decreases edges.len() - i,
        {
            let e = &edges[i];
            let ghost got = collector@.received;
            let ghost rest = self.over_edges(
                edges@,
                i as int + 1,
                origin,
                unexpl as nat,
                excur as nat,
                route0,
                active0,
            );
            assert(edges@[i as int].cost <= self.cost_cap());
            if unexpl == 0 {
                if e.dst == END_I {
                    let entry = ResultEntry {
                        total_cost: excur + e.cost,
                        route: route_with(&st.route, Place::Vertex(END_I)),
                    };
                    let ghost one = seq![entry@];
                    collector.send(entry);
                    assert(collector@.received =~= got + one);
                    assert((got + one) + rest =~= got + (one + rest));
                } else {
                    assert(got + (Seq::<EntryView>::empty() + rest) =~= got + rest);
                }
            } else if e.dst != END_I && !self.is_suppressed(origin, e.dst) && !is_visited(
                &st.route,
                e.dst,
            ) {
                st.route.push(Place::Vertex(e.dst));
                activate(st, &e.activates);
                proof {
                    lemma_active_after(counters0, st.active_warps@, *e);
                    assert forall|w: int| 0 <= w < counters0.len() implies (
                    #[trigger] st.active_warps@[w]) + span(unexpl as nat, 2 * self.fan_cap())
                        <= u64::MAX by {
                        lemma_occurrences_bounds(
                            e.activates@,
                            w,
                            0,
                            e.activates@.len() as int,
                        );
                        assert(counters0[w] + self.fan_cap() + span(
                            unexpl as nat,
                            2 * self.fan_cap(),
                        ) <= u64::MAX);
                    }
                    assert((unexpl - 1) as nat + 1 == unexpl as nat);
                }
                any = true;
                let ghost beyond = self.explore(
                    e.dst,
                    (unexpl - 1) as nat,
                    (excur + e.cost) as nat,
                    route0.push(Place::Vertex(e.dst)),
                    with_activations(active0, *e),
                );
                self.search_place(e.dst, unexpl - 1, excur + e.cost, st, collector);
                proof {
                    assert forall|w: int| 0 <= w < counters0.len() implies (
                    #[trigger] st.active_warps@[w]) >= occurrences(
                        e.activates@,
                        w,
                        e.activates@.len() as int,
                    ) by {}
                }
                deactivate(st, &e.activates);
                st.route.pop();
                assert(st.route@ =~= route0);
                assert(st.active_warps@ =~= counters0);
                assert((got + beyond) + rest =~= got + (beyond + rest));
            } else {
                assert(got + (Seq::<EntryView>::empty() + rest) =~= got + rest);
            }
            i += 1;
        }
        assert(collector@.received + Seq::<EntryView>::empty() =~= collector@.received);
        any
    }

    /// Leaves through every active warp other than `entry`: the warp is put
    /// on the route, its edges are followed, and it is taken off again.
    /// Returns whether any edge was entered.
    pub(crate) fn leave_warps(
        &self,
        entry: usize,
        origin: Option<usize>,
        unexpl: usize,
        excur: u64,
        st: &mut SearchState,
        collector: &mut Collector,
    ) -> (any: bool)
        requires
            self.wf(),
            old(collector).wf(),
            old(st).active_warps@.len() == self.warp_exits().len(),
            origin matches Some(v) ==> v < self.junctions().len(),
            self.has_room(
                unexpl as nat,
                excur as nat,
                old(st).active_warps@,
                self.cost_cap(),
                self.fan_cap(),
            ),
        ensures
            final(st).route@ == old(st).route@,
            final(st).active_warps@ == old(st).active_warps@,
            final(collector).wf(),
            final(collector)@.capacity == old(collector)@.capacity,
            final(collector)@.received == old(collector)@.received + self.chain(
                0,
                entry,
                origin,
                unexpl as nat,
                excur as nat,
                old(st).route@,
                active_of(old(st).active_warps@),
            ),
            any == self.chain_entered(
                entry,
                origin,
                unexpl as nat,
                old(st).route@,
                active_of(old(st).active_warps@),
            ),
        decreases unexpl, 1nat,
    {
        let ghost route0 = st.route@;
        let ghost counters0 = st.active_warps@;
        let ghost active0 = active_of(counters0);
        let ghost received0 = collector@.received;
        let ghost all = self.chain(0, entry, origin, unexpl as nat, excur as nat, route0, active0);
        let warp_num = self.warp_num();
        let mut any = false;
        let mut w: usize = 0;
        while w < warp_num
            invariant
                w <= warp_num,
                warp_num == self.warp_exits().len(),
                self.wf(),
                collector.wf(),
                collector@.capacity == old(collector)@.capacity,
                st.route@ == route0,
                st.active_warps@ == counters0,
                counters0.len() == self.warp_exits().len(),
                active0 == active_of(counters0),
                origin matches Some(v) ==> v < self.junctions().len(),
                self.has_room(
                    unexpl as nat,
                    excur as nat,
                    counters0,
                    self.cost_cap(),
                    self.fan_cap(),
                ),
                all == self.chain(0, entry, origin, unexpl as nat, excur as nat, route0, active0),
                collector@.received + self.chain(
                    w as int,
                    entry,
                    origin,
                    unexpl as nat,
                    excur as nat,
                    route0,
                    active0,
                ) == received0 + all,
                any == exists|x: int|
                    0 <= x < w && active0.contains(x as usize) && x != entry
                        && #[trigger] self.any_entered(
                        self.warp_exits()[x]@,
                        origin,
                        unexpl as nat,
                        route0.push(Place::Warp(x as usize)),
                    ),
            decreases warp_num - w,
        {
            let ghost got = collector@.received;
            let ghost rest = self.chain(
                w as int + 1,
                entry,
                origin,
                unexpl as nat,
                excur as nat,
                route0,
                active0,
            );
            if st.active_warps[w] > 0 && w != entry {
                st.route.push(Place::Warp(w));
                let ghost through = self.over_edges(
                    self.warp_exits()[w as int]@,
                    0,
                    origin,
                    unexpl as nat,
                    excur as nat,
                    route0.push(Place::Warp(w)),
                    active0,
                );
                let entered = self.walk_edges(self.exits(w), origin, unexpl, excur, st, collector);
                st.route.pop();
                assert(st.route@ =~= route0);
                if entered {
                    any = true;
                }
                assert((got + through) + rest =~= got + (through + rest));
            } else {
                assert(got + (Seq::<EntryView>::empty() + rest) =~= got + rest);
            }
            w += 1;
        }
        assert(collector@.received + Seq::<EntryView>::empty() =~= collector@.received);
        any
    }

    /// Goes through the warps from vertex `from`: its first edge into a
    /// warp is taken, the route leaves through the warps that are then
    /// active, and the edge is taken back. Returns whether the search went
    /// on anywhere.
    pub(crate) fn enter_warps(
        &self,
        from: usize,
        origin: Option<usize>,
        unexpl: usize,
        excur: u64,
        st: &mut SearchState,
        collector: &mut Collector,
    ) -> (any: bool)
        requires
            self.wf(),
            old(collector).wf(),
            old(st).active_warps@.len() == self.warp_exits().len(),
            from < self.junctions().len(),
            origin matches Some(v) ==> v < self.junctions().len(),
            self.has_room(
                unexpl as nat,
                excur as nat,
                old(st).active_warps@,
                2 * self.cost_cap() + WARP_PENALTY as nat,
                2 * self.fan_cap(),
            ),
        ensures
            final(st).route@ == old(st).route@,
            final(st).active_warps@ == old(st).active_warps@,
            final(collector).wf(),
            final(collector)@.capacity == old(collector)@.capacity,
            final(collector)@.received == old(collector)@.received + self.launch(
                from,
                origin,
                unexpl as nat,
                excur as nat,
                old(st).route@,
                active_of(old(st).active_warps@),
            ),
            any == self.launch_entered(
                from,
                origin,
                unexpl as nat,
                old(st).route@,
                active_of(old(st).active_warps@),
            ),
        decreases unexpl, 2nat,
    {
        let ghost route0 = st.route@;
        let ghost counters0 = st.active_warps@;
        let edges = &self.junction(from).to_warps;
        if edges.len() == 0 {
            assert(collector@.received + Seq::<EntryView>::empty() =~= collector@.received);
            return false;
        }
        let l = &edges[0];
        assert(entries_ok(edges@, self.warp_exits().len()));
        assert(edges_capped(edges@, self.cost_cap(), self.fan_cap()));
        assert(edges@[0].cost <= self.cost_cap());
        st.route.push(Place::Warp(l.dst));
        activate(st, &l.activates);
        proof {
            lemma_active_after(counters0, st.active_warps@, *l);
            assert forall|w: int| 0 <= w < counters0.len() implies (#[trigger] st.active_warps@[w])
                + self.fan_cap() + span(unexpl as nat, 2 * self.fan_cap()) <= u64::MAX by {
                lemma_occurrences_bounds(l.activates@, w, 0, l.activates@.len() as int);
                assert(counters0[w] + 2 * self.fan_cap() + span(unexpl as nat, 2 * self.fan_cap())
                    <= u64::MAX);
            }
        }
        let any = self.leave_warps(
            l.dst,
            origin,
            unexpl,
            excur + l.cost + WARP_PENALTY,
            st,
            collector,
        );
        proof {
            assert forall|w: int| 0 <= w < counters0.len() implies (#[trigger] st.active_warps@[w])
                >= occurrences(l.activates@, w, l.activates@.len() as int) by {}
        }
        deactivate(st, &l.activates);
        st.route.pop();
        assert(st.route@ =~= route0);
        assert(st.active_warps@ =~= counters0);
        any
    }

    /// Goes back to the start from `current_vertex`, at the price of a
    /// restart, and searches from there: along the start's direct edges,
    /// and through the warps if none of those can be entered.
    pub(crate) fn go_back(
        &self,
        current_vertex: usize,
        unexpl: usize,
        excur: u64,
        st: &mut SearchState,
        collector: &mut Collector,
    )
        requires
            self.wf(),
            old(collector).wf(),
            old(st).active_warps@.len() == self.warp_exits().len(),
            current_vertex < self.junctions().len(),
            self.has_room(
                unexpl as nat,
                excur as nat,
                old(st).active_warps@,
                cost_step(self.cost_cap()),
                2 * self.fan_cap(),
            ),
        ensures
            final(st).route@ == old(st).route@,
            final(st).active_warps@ == old(st).active_warps@,
            final(collector).wf(),
            final(collector)@.capacity == old(collector)@.capacity,
            final(collector)@.received == old(collector)@.received + self.restart(
                current_vertex,
                unexpl as nat,
                excur as nat,
                old(st).route@,
                active_of(old(st).active_warps@),
            ),
        decreases unexpl, 3nat,
    {
        let ghost route0 = st.route@;
        let ghost active0 = active_of(st.active_warps@);
        let ghost received0 = collector@.received;
        let origin = Some(current_vertex);
        st.route.push(Place::Vertex(START_I));
        let paid = excur + RESTART_PENALTY;
        let ghost back = route0.push(Place::Vertex(START_I));
        let ghost again = self.over_edges(
            self.junctions()[START_I as int].to_vertices@,
            0,
            origin,
            unexpl as nat,
            paid as nat,
            back,
            active0,
        );
        let restarted = self.walk_edges(
            &self.junction(START_I).to_vertices,
            origin,
            unexpl,
            paid,
            st,
            collector,
        );
        if !restarted {
            self.enter_warps(START_I, origin, unexpl, paid, st, collector);
            let ghost tail = self.launch(
                START_I,
                origin,
                unexpl as nat,
                paid as nat,
                back,
                active0,
            );
            assert((received0 + again) + tail =~= received0 + (again + tail));
        } else {
            assert(received0 + (again + Seq::<EntryView>::empty()) =~= received0 + again);
        }
        st.route.pop();
        assert(st.route@ =~= route0);
    }

    /// Searches from `current_vertex` with `unexpl` vertices still to visit
    /// and `excur` spent so far. The collector receives every complete
    /// route found, in order; the route and the warp counters are as
    /// before when the call returns.
    pub fn search_place(
        &self,
        current_vertex: usize,
        unexpl: usize,
        excur: u64,
        st: &mut SearchState,
        collector: &mut Collector,
    )
        requires
            self.wf(),
            old(collector).wf(),
            old(st).active_warps@.len() == self.warp_exits().len(),
            current_vertex < self.junctions().len(),
            self.has_room(unexpl as nat + 1, excur as nat, old(st).active_warps@, 0, 0),
        ensures
            final(st).route@ == old(st).route@,
            final(st).active_warps@ == old(st).active_warps@,
            final(collector).wf(),
            final(collector)@.capacity == old(collector)@.capacity,
            final(collector)@.received == old(collector)@.received + self.explore(
                current_vertex,
                unexpl as nat,
                excur as nat,
                old(st).route@,
                active_of(old(st).active_warps@),
            ),
        decreases unexpl, 4nat,
    {
        let ghost route0 = st.route@;
        let ghost active0 = active_of(st.active_warps@);
        let ghost received0 = collector@.received;
        proof {
            lemma_span_step(unexpl as nat, cost_step(self.cost_cap()));
            lemma_span_step(unexpl as nat, 2 * self.fan_cap());
        }
        let origin = Some(current_vertex);
        let ghost first = self.over_edges(
            self.junctions()[current_vertex as int].to_vertices@,
            0,
            None,
            unexpl as nat,
            excur as nat,
            route0,
            active0,
        );
        let ghost through = self.launch(
            current_vertex,
            origin,
            unexpl as nat,
            excur as nat,
            route0,
            active0,
        );
        let entered = self.walk_edges(
            &self.junction(current_vertex).to_vertices,
            None,
            unexpl,
            excur,
            st,
            collector,
        );
        if unexpl == 0 {
            self.enter_warps(current_vertex, origin, unexpl, excur, st, collector);
            return ;
        }
        if entered {
            return ;
        }
        let launched = self.enter_warps(current_vertex, origin, unexpl, excur, st, collector);
        if launched {
            assert((received0 + first) + (through + Seq::<EntryView>::empty()) =~= received0 + (
            first + (through + Seq::<EntryView>::empty())));
            assert(through + Seq::<EntryView>::empty() =~= through);
            return ;
        }
        self.go_back(current_vertex, unexpl, excur, st, collector);
        proof {
            let rest = self.restart(current_vertex, unexpl as nat, excur as nat, route0, active0);
            assert(((received0 + first) + through) + rest =~= received0 + (first + (through
                + rest)));
        }
    }

    /// Searches the whole lobby. The collector receives every complete
    /// route, in the order in which the search finds them.
    pub fn search(&self, collector: &mut Collector)
        requires
            self.wf(),
            old(collector).wf(),
        ensures
            final(collector).wf(),
            final(collector)@.capacity == old(collector)@.capacity,
            final(collector)@.received == old(collector)@.received + self.candidates(),
    {
        let vertex_num = self.vertex_num();
        if vertex_num == 0 {
            assert(collector@.received + Seq::<EntryView>::empty() =~= collector@.received);
            return ;
        }
        let mut st = SearchState::new(self.warp_num());
        st.route.push(Place::Vertex(START_I));
        let unexpl = vertex_num - 1;
        let ghost route0 = st.route@;
        let ghost active0 = active_of(st.active_warps@);
        let ghost received0 = collector@.received;
        proof {
            assert(route0 =~= seq![Place::Vertex(START_I)]);
            assert(active0 =~= Set::<usize>::empty());
            lemma_span_step(unexpl as nat, cost_step(self.cost_cap()));
            lemma_span_step(unexpl as nat, 2 * self.fan_cap());
        }
        let ghost first = self.over_edges(
            self.junctions()[START_I as int].to_vertices@,
            0,
            None,
            unexpl as nat,
            0,
            route0,
            active0,
        );
        let entered = self.walk_edges(
            &self.junction(START_I).to_vertices,
            None,
            unexpl,
            0,
            &mut st,
            collector,
        );
        if unexpl == 0 || !entered {
            self.enter_warps(START_I, Some(START_I), unexpl, 0, &mut st, collector);
            let ghost through = self.launch(
                START_I,
                Some(START_I),
                unexpl as nat,
                0,
                route0,
                active0,
            );
            assert((received0 + first) + through =~= received0 + (first + through));
        } else {
            assert((received0 + first) + Seq::<EntryView>::empty() =~= received0 + first);
        }
    }
}

} // verus!
