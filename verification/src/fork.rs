//! The search cut into tasks. A task is a search from one vertex with a
//! state of its own; running it either searches on in place or hands parts
//! of the work out as further tasks, depending on how much work has been
//! handed out already. Tasks can be run in any order and by many workers:
//! together they find the routes that the search in one piece finds.

use vstd::multiset::Multiset;
use vstd::prelude::*;
use vstd::seq_lib::lemma_multiset_commutative;
use crate::collector::Collector;
use crate::place::{copy_route, EntryView, Place};
use crate::search::{
    active_of, activate, deactivate, is_visited, lemma_active_after, lemma_occurrences_bounds,
    lemma_span_step, occurrences, span, SearchState,
};
use crate::searcher::{
    cost_step, edges_capped, entries_ok, exits_ok, Edge, Searcher, END_I, RESTART_PENALTY, START_I,
    WARP_PENALTY,
};

verus! {

/// How much work per worker is handed out before the search goes on in
/// place.
pub const GRANULARITY_FACTOR: u64 = 32;

/// A search from one vertex, with the state it starts from.
#[derive(Debug)]
pub struct SearchTask {
    /// The vertex to search from.
    pub vertex: usize,
    /// How many vertices are still to be visited.
    pub unexpl: usize,
    /// The cost spent so far.
    pub excur: u64,
    /// The estimated number of tasks at this depth: the product of the
    /// numbers of edges at the branchings passed so far, up to the largest
    /// number that can be held.
    pub extent: u64,
    /// The route and the warp counters at the vertex.
    pub state: SearchState,
}

/// The mathematical value of a [`SearchTask`].
pub struct TaskView {
    pub vertex: usize,
    pub unexpl: usize,
    pub excur: u64,
    pub extent: u64,
    pub route: Seq<Place>,
    pub counters: Seq<u64>,
}

impl View for SearchTask {
    type V = TaskView;

    open spec fn view(&self) -> TaskView {
        TaskView {
            vertex: self.vertex,
            unexpl: self.unexpl,
            excur: self.excur,
            extent: self.extent,
            route: self.state.route@,
            counters: self.state.active_warps@,
        }
    }
}

/// The values of a sequence of tasks.
pub open spec fn tasks_view(v: Seq<SearchTask>) -> Seq<TaskView> {
    Seq::new(v.len(), |i: int| v[i]@)
}

/// What a step of the search cut into tasks does: the routes it finds in
/// place, in order, and the tasks it hands out, in order.
pub struct Split {
    pub found: Seq<EntryView>,
    pub handed: Seq<TaskView>,
}

impl Split {
    /// A step that finds nothing and hands out nothing.
    pub open spec fn none() -> Split {
        Split { found: Seq::empty(), handed: Seq::empty() }
    }

    /// This step, and `next` after it.
    pub open spec fn followed_by(self, next: Split) -> Split {
        Split { found: self.found + next.found, handed: self.handed + next.handed }
    }
}

/// The counters once an edge that activates `acts` has been taken.
pub open spec fn bumped(counters: Seq<u64>, acts: Seq<usize>) -> Seq<u64> {
    Seq::new(
        counters.len(),
        |w: int| (counters[w] + occurrences(acts, w, acts.len() as int)) as u64,
    )
}

/// Whether a branching of `branch` edges is handed out as tasks when the
/// estimated extent so far is `extent` and there are `workers` workers.
pub open spec fn forks(extent: nat, branch: nat, workers: nat) -> bool {
    extent * branch < workers * GRANULARITY_FACTOR as nat
}

/// Whether so much work has been handed out that nothing more is: no
/// branching, of however few edges, is forked.
pub open spec fn saturated(extent: nat, workers: nat) -> bool {
    extent >= workers * GRANULARITY_FACTOR as nat
}

/// Once the search is saturated, no branching that has an edge is forked.
pub proof fn lemma_saturated(extent: nat, branch: nat, workers: nat)
    requires
        saturated(extent, workers),
        branch >= 1,
    ensures
        !forks(extent, branch, workers),
{
    assert(extent * branch >= extent) by (nonlinear_arith)
        requires
            branch >= 1,
    ;
}

/// The estimated extent beyond a branching of `branch` edges.
pub open spec fn grown(extent: nat, branch: nat) -> nat {
    if extent * branch <= u64::MAX {
        extent * branch
    } else {
        u64::MAX as nat
    }
}

proof fn lemma_products(a: nat, b: nat)
    requires
        a <= u64::MAX,
        b <= u64::MAX,
    ensures
        a * b <= u128::MAX,
{
    assert(a * b <= 0xffff_ffff_ffff_ffff * 0xffff_ffff_ffff_ffff) by (nonlinear_arith)
        requires
            a <= 0xffff_ffff_ffff_ffff,
            b <= 0xffff_ffff_ffff_ffff,
    ;
}

/// No routes, counted, are none.
pub proof fn lemma_nothing_found()
    ensures
        Seq::<EntryView>::empty().to_multiset() == Multiset::<EntryView>::empty(),
{
    broadcast use vstd::seq_lib::group_to_multiset_ensures;
    broadcast use vstd::multiset::group_multiset_axioms;
    broadcast use vstd::multiset::lemma_multiset_empty_len;

    let m = Seq::<EntryView>::empty().to_multiset();
    assert(m.len() == 0);
    assert(m =~= Multiset::<EntryView>::empty());
}

/// Whether a branching of `branch_factor` edges is handed out as tasks.
pub fn should_fork(extent: u64, branch_factor: usize, workers: usize) -> (r: bool)
    ensures
        r == forks(extent as nat, branch_factor as nat, workers as nat),
{
    proof {
        lemma_products(extent as nat, branch_factor as nat);
        lemma_products(workers as nat, GRANULARITY_FACTOR as nat);
    }
    let ahead: u128 = (extent as u128) * (branch_factor as u128);
    let limit: u128 = (workers as u128) * (GRANULARITY_FACTOR as u128);
    ahead < limit
}

/// The estimated extent beyond a branching of `branch_factor` edges.
pub fn grow(extent: u64, branch_factor: usize) -> (r: u64)
    ensures
        r == grown(extent as nat, branch_factor as nat),
{
    proof {
        lemma_products(extent as nat, branch_factor as nat);
    }
    let ahead: u128 = (extent as u128) * (branch_factor as u128);
    if ahead <= u64::MAX as u128 {
        ahead as u64
    } else {
        u64::MAX
    }
}

/// A copy of `st`.
pub fn clone_state(st: &SearchState) -> (r: SearchState)
    ensures
        r.route@ == st.route@,
        r.active_warps@ == st.active_warps@,
{
    let route = copy_route(&st.route);
    let mut active_warps: Vec<u64> = Vec::new();
    let mut w: usize = 0;
    while w < st.active_warps.len()
        invariant
            w <= st.active_warps.len(),
            active_warps@ == st.active_warps@.take(w as int),
        decreases st.active_warps.len() - w,
    {
        active_warps.push(st.active_warps[w]);
        w += 1;
        assert(active_warps@ =~= st.active_warps@.take(w as int));
    }
    assert(st.active_warps@.take(w as int) =~= st.active_warps@);
    SearchState { route, active_warps }
}

impl Searcher {
    /// The tasks for the edges among `edges[i..]` that may be entered, in
    /// order: each begins beyond its edge, with the edge taken.
    pub open spec fn spawned(
        &self,
        edges: Seq<Edge>,
        i: int,
        origin: Option<usize>,
        unexpl: usize,
        cost: u64,
        beyond: u64,
        route: Seq<Place>,
        counters: Seq<u64>,
    ) -> Seq<TaskView>
        decreases edges.len() - i,
    {
        if i < 0 || i >= edges.len() {
            Seq::empty()
        } else {
            let e = edges[i];
            let here = if self.may_enter(e, origin, route) {
                seq![
                    TaskView {
                        vertex: e.dst,
                        unexpl: (unexpl - 1) as usize,
                        excur: (cost + e.cost) as u64,
                        extent: beyond,
                        route: route.push(Place::Vertex(e.dst)),
                        counters: bumped(counters, e.activates@),
                    },
                ]
            } else {
                Seq::empty()
            };
            here + self.spawned(edges, i + 1, origin, unexpl, cost, beyond, route, counters)
        }
    }

    /// What following `edges` does. Where vertices are still to be
    /// visited and the branching is to be forked, every edge that may be
    /// entered is handed out as a task; else the edges are followed in
    /// place, as in the search in one piece.
    pub open spec fn split_edges(
        &self,
        edges: Seq<Edge>,
        origin: Option<usize>,
        unexpl: usize,
        cost: u64,
        extent: u64,
        workers: usize,
        route: Seq<Place>,
        counters: Seq<u64>,
    ) -> Split {
        if unexpl > 0 && forks(extent as nat, edges.len(), workers as nat) {
            Split {
                found: Seq::empty(),
                handed: self.spawned(
                    edges,
                    0,
                    origin,
                    unexpl,
                    cost,
                    grown(extent as nat, edges.len()) as u64,
                    route,
                    counters,
                ),
            }
        } else {
            Split {
                found: self.over_edges(
                    edges,
                    0,
                    origin,
                    unexpl as nat,
                    cost as nat,
                    route,
                    active_of(counters),
                ),
                handed: Seq::empty(),
            }
        }
    }

    /// What leaving through the warps `w..` does: each active warp other
    /// than `entry` is put on the route and its edges are followed.
    pub open spec fn split_chain(
        &self,
        w: int,
        entry: usize,
        origin: Option<usize>,
        unexpl: usize,
        cost: u64,
        extent: u64,
        workers: usize,
        route: Seq<Place>,
        counters: Seq<u64>,
    ) -> Split
        decreases self.warp_exits().len() - w,
    {
        if w < 0 || w >= self.warp_exits().len() {
            Split::none()
        } else {
            let here = if active_of(counters).contains(w as usize) && w != entry {
                self.split_edges(
                    self.warp_exits()[w]@,
                    origin,
                    unexpl,
                    cost,
                    extent,
                    workers,
                    route.push(Place::Warp(w as usize)),
                    counters,
                )
            } else {
                Split::none()
            };
            here.followed_by(
                self.split_chain(w + 1, entry, origin, unexpl, cost, extent, workers, route, counters),
            )
        }
    }

    /// What going through the warps from vertex `from` does.
    pub open spec fn split_launch(
        &self,
        from: usize,
        origin: Option<usize>,
        unexpl: usize,
        cost: u64,
        extent: u64,
        workers: usize,
        route: Seq<Place>,
        counters: Seq<u64>,
    ) -> Split {
        let edges = self.junctions()[from as int].to_warps@;
        if from >= self.junctions().len() || edges.len() == 0 {
            Split::none()
        } else {
            let l = edges[0];
            self.split_chain(
                0,
                l.dst,
                origin,
                unexpl,
                (cost + l.cost + WARP_PENALTY) as u64,
                extent,
                workers,
                route.push(Place::Warp(l.dst)),
                bumped(counters, l.activates@),
            )
        }
    }

    /// What going back to the start from `cur` does.
    pub open spec fn split_restart(
        &self,
        cur: usize,
        unexpl: usize,
        cost: u64,
        extent: u64,
        workers: usize,
        route: Seq<Place>,
        counters: Seq<u64>,
    ) -> Split {
        let back = route.push(Place::Vertex(START_I));
        let paid = (cost + RESTART_PENALTY) as u64;
        let direct = self.junctions()[START_I as int].to_vertices@;
        self.split_edges(direct, Some(cur), unexpl, paid, extent, workers, back, counters).followed_by(
            if self.any_entered(direct, Some(cur), unexpl as nat, back) {
                Split::none()
            } else {
                self.split_launch(START_I, Some(cur), unexpl, paid, extent, workers, back, counters)
            },
        )
    }

    /// What running the task `t` among `workers` workers does: the steps
    /// of the search in one piece, each branching followed in place or
    /// handed out.
    pub open spec fn split_task(&self, t: TaskView, workers: usize) -> Split {
        let direct = self.junctions()[t.vertex as int].to_vertices@;
        let first = self.split_edges(
            direct,
            None,
            t.unexpl,
            t.excur,
            t.extent,
            workers,
            t.route,
            t.counters,
        );
        let through = self.split_launch(
            t.vertex,
            Some(t.vertex),
            t.unexpl,
            t.excur,
            t.extent,
            workers,
            t.route,
            t.counters,
        );
        if t.unexpl == 0 {
            first.followed_by(through)
        } else if self.any_entered(direct, None, t.unexpl as nat, t.route) {
            first
        } else if self.launch_entered(
            t.vertex,
            Some(t.vertex),
            t.unexpl as nat,
            t.route,
            active_of(t.counters),
        ) {
            first.followed_by(through)
        } else {
            first.followed_by(through).followed_by(
                self.split_restart(
                    t.vertex,
                    t.unexpl,
                    t.excur,
                    t.extent,
                    workers,
                    t.route,
                    t.counters,
                ),
            )
        }
    }

    /// What the first step of the search of the whole lobby does among
    /// `workers` workers. The estimated extent is 1 to begin with.
    pub open spec fn split_start(&self, workers: usize) -> Split {
        if self.junctions().len() == 0 {
            Split::none()
        } else {
            let unexpl = (self.junctions().len() - 1) as usize;
            let route = seq![Place::Vertex(START_I)];
            let counters = Seq::new(self.warp_exits().len(), |w: int| 0u64);
            let direct = self.junctions()[START_I as int].to_vertices@;
            self.split_edges(direct, None, unexpl, 0, 1, workers, route, counters).followed_by(
                if unexpl > 0 && self.any_entered(direct, None, unexpl as nat, route) {
                    Split::none()
                } else {
                    self.split_launch(
                        START_I,
                        Some(START_I),
                        unexpl,
                        0,
                        1,
                        workers,
                        route,
                        counters,
                    )
                },
            )
        }
    }
}

impl Searcher {
    /// The routes that a task finds, in the order of the search in one
    /// piece.
    pub open spec fn task_routes(&self, t: SearchTask) -> Seq<EntryView> {
        self.explore(
            t.vertex,
            t.unexpl as nat,
            t.excur as nat,
            t.state.route@,
            active_of(t.state.active_warps@),
        )
    }

    /// Whether a task can be run on this lobby: its vertex exists, its
    /// state has a counter for each warp, and there is room for the costs
    /// that lie ahead.
    pub open spec fn accepts(&self, t: SearchTask) -> bool {
        &&& t.vertex < self.junctions().len()
        &&& t.state.active_warps@.len() == self.warp_exits().len()
        &&& self.has_room(t.unexpl as nat + 1, t.excur as nat, t.state.active_warps@, 0, 0)
    }

    /// Whether every task of `tasks` can be run.
    pub open spec fn accepts_all(&self, tasks: Seq<SearchTask>) -> bool {
        forall|i: int| 0 <= i < tasks.len() ==> self.accepts(#[trigger] tasks[i])
    }

    /// The routes that `tasks` have still to find, each as often as it is
    /// found.
    pub open spec fn pending(&self, tasks: Seq<SearchTask>) -> Multiset<EntryView>
        decreases tasks.len(),
    {
        if tasks.len() == 0 {
            Multiset::empty()
        } else {
            self.pending(tasks.drop_last()).add(self.task_routes(tasks.last()).to_multiset())
        }
    }

    /// Nothing is lost and nothing is found twice: what has been received
    /// and what the tasks have still to find is, after a step, what it was
    /// before and the routes `found`, which the step was to find.
    pub open spec fn conserved(
        &self,
        received0: Seq<EntryView>,
        tasks0: Seq<SearchTask>,
        received1: Seq<EntryView>,
        tasks1: Seq<SearchTask>,
        found: Seq<EntryView>,
    ) -> bool {
        received1.to_multiset().add(self.pending(tasks1)) == received0.to_multiset().add(
            self.pending(tasks0),
        ).add(found.to_multiset())
    }

    /// A step that receives what it finds and hands out nothing conserves.
    pub proof fn lemma_conserved_in_place(
        &self,
        received0: Seq<EntryView>,
        tasks0: Seq<SearchTask>,
        found: Seq<EntryView>,
    )
        ensures
            self.conserved(received0, tasks0, received0 + found, tasks0, found),
    {
        lemma_multiset_commutative(received0, found);
        assert(received0.to_multiset().add(found.to_multiset()).add(self.pending(tasks0))
            =~= received0.to_multiset().add(self.pending(tasks0)).add(found.to_multiset()));
    }

    /// Two steps that conserve, one after the other, conserve.
    pub proof fn lemma_conserved_then(
        &self,
        received0: Seq<EntryView>,
        tasks0: Seq<SearchTask>,
        received1: Seq<EntryView>,
        tasks1: Seq<SearchTask>,
        received2: Seq<EntryView>,
        tasks2: Seq<SearchTask>,
        first: Seq<EntryView>,
        second: Seq<EntryView>,
    )
        requires
            self.conserved(received0, tasks0, received1, tasks1, first),
            self.conserved(received1, tasks1, received2, tasks2, second),
        ensures
            self.conserved(received0, tasks0, received2, tasks2, first + second),
    {
        lemma_multiset_commutative(first, second);
        assert(received0.to_multiset().add(self.pending(tasks0)).add(first.to_multiset()).add(
            second.to_multiset(),
        ) =~= received0.to_multiset().add(self.pending(tasks0)).add(
            first.to_multiset().add(second.to_multiset()),
        ));
    }

    /// Follows `edges` as the search in one piece does, but hands each
    /// edge that may be entered out as a task where the branching is to be
    /// forked. Returns whether any edge was entered.
    pub(crate) fn fork_edges(
        &self,
        edges: &Vec<Edge>,
        origin: Option<usize>,
        unexpl: usize,
        excur: u64,
        extent: u64,
        workers: usize,
        st: &mut SearchState,
        collector: &mut Collector,
        tasks: &mut Vec<SearchTask>,
    ) -> (any: bool)
        requires
            self.wf(),
            old(collector).wf(),
            old(st).active_warps@.len() == self.warp_exits().len(),
            exits_ok(edges@, self.junctions().len(), self.warp_exits().len()),
            edges_capped(edges@, self.cost_cap(), self.fan_cap()),
            origin matches Some(v) ==> v < self.junctions().len(),
            self.has_room(
                unexpl as nat,
                excur as nat,
                old(st).active_warps@,
                self.cost_cap(),
                self.fan_cap(),
            ),
            self.accepts_all(old(tasks)@),
        ensures
            final(st).route@ == old(st).route@,
            final(st).active_warps@ == old(st).active_warps@,
            final(collector).wf(),
            final(collector)@.capacity == old(collector)@.capacity,
            any == self.any_entered(edges@, origin, unexpl as nat, old(st).route@),
            self.accepts_all(final(tasks)@),
            final(tasks)@.len() >= old(tasks)@.len(),
            final(tasks)@.take(old(tasks)@.len() as int) == old(tasks)@,
            forall|i: int|
                old(tasks)@.len() <= i < final(tasks)@.len() ==> (#[trigger] final(tasks)@[i]).unexpl
                    < unexpl,
            saturated(extent as nat, workers as nat) ==> final(tasks)@ == old(tasks)@
                && final(collector)@.received == old(collector)@.received + self.over_edges(
                edges@,
                0,
                origin,
                unexpl as nat,
                excur as nat,
                old(st).route@,
                active_of(old(st).active_warps@),
            ),
            final(collector)@.received == old(collector)@.received + self.split_edges(
                edges@,
                origin,
                unexpl,
                excur,
                extent,
                workers,
                old(st).route@,
                old(st).active_warps@,
            ).found,
            tasks_view(final(tasks)@) == tasks_view(old(tasks)@) + self.split_edges(
                edges@,
                origin,
                unexpl,
                excur,
                extent,
                workers,
                old(st).route@,
                old(st).active_warps@,
            ).handed,
            self.conserved(
                old(collector)@.received,
                old(tasks)@,
                final(collector)@.received,
                final(tasks)@,
                self.over_edges(
                    edges@,
                    0,
                    origin,
                    unexpl as nat,
                    excur as nat,
                    old(st).route@,
                    active_of(old(st).active_warps@),
                ),
            ),
    {
        let ghost route0 = st.route@;
        let ghost counters0 = st.active_warps@;
        let ghost active0 = active_of(counters0);
        let ghost received0 = collector@.received;
        let ghost tasks0 = tasks@;
        let ghost all = self.over_edges(
            edges@,
            0,
            origin,
            unexpl as nat,
            excur as nat,
            route0,
            active0,
        );
        if unexpl == 0 || !should_fork(extent, edges.len(), workers) {
            let any = self.walk_edges(edges, origin, unexpl, excur, st, collector);
            proof {
                self.lemma_conserved_in_place(received0, tasks0, all);
                assert(tasks@.take(tasks0.len() as int) =~= tasks0);
                assert(tasks_view(tasks0) + Seq::<TaskView>::empty() =~= tasks_view(tasks0));
            }
            return any;
        }
        let beyond = grow(extent, edges.len());
        let mut any = false;
        let mut i: usize = 0;
        proof {
            assert(tasks@.take(tasks0.len() as int) =~= tasks0);
            if saturated(extent as nat, workers as nat) && edges.len() > 0 {
                lemma_saturated(extent as nat, edges@.len(), workers as nat);
            }
            if edges.len() == 0 {
                assert(received0 + all =~= received0);
            }
        }
        while i < edges.len()
            invariant
                i <= edges.len(),
                unexpl > 0,
                self.wf(),
                saturated(extent as nat, workers as nat) ==> edges@.len() == 0 && received0 + all
                    == received0,
                edges@.len() == 0 ==> tasks@ == tasks0,
                collector@.received == received0,
                st.route@ == route0,
                st.active_warps@ == counters0,
                counters0.len() == self.warp_exits().len(),
                active0 == active_of(counters0),
                exits_ok(edges@, self.junctions().len(), self.warp_exits().len()),
                edges_capped(edges@, self.cost_cap(), self.fan_cap()),
                origin matches Some(v) ==> v < self.junctions().len(),
                self.has_room(
                    unexpl as nat,
                    excur as nat,
                    counters0,
                    self.cost_cap(),
                    self.fan_cap(),
                ),
                self.accepts_all(tasks@),
                tasks@.len() >= tasks0.len(),
                tasks@.take(tasks0.len() as int) == tasks0,
                forall|x: int|
                    tasks0.len() <= x < tasks@.len() ==> (#[trigger] tasks@[x]).unexpl < unexpl,
                all == self.over_edges(
                    edges@,
                    0,
                    origin,
                    unexpl as nat,
                    excur as nat,
                    route0,
                    active0,
                ),
                self.pending(tasks@).add(
                    self.over_edges(
                        edges@,
                        i as int,
                        origin,
                        unexpl as nat,
                        excur as nat,
                        route0,
                        active0,
                    ).to_multiset(),
                ) == self.pending(tasks0).add(all.to_multiset()),
                any == exists|j: int|
                    0 <= j < i && self.may_enter(#[trigger] edges@[j], origin, route0),
                beyond == grown(extent as nat, edges@.len()),
                tasks_view(tasks@) + self.spawned(
                    edges@,
                    i as int,
                    origin,
                    unexpl,
                    excur,
                    beyond,
                    route0,
                    counters0,
                ) == tasks_view(tasks0) + self.spawned(
                    edges@,
                    0,
                    origin,
                    unexpl,
                    excur,
                    beyond,
                    route0,
                    counters0,
                ),
            decreases edges.len() - i,
        {
            let e = &edges[i];
            let ghost queued = tasks@;
            let ghost rest = self.over_edges(
                edges@,
                i as int + 1,
                origin,
                unexpl as nat,
                excur as nat,
                route0,
                active0,
            );
            assert(edges@[i as int].cost <= self.cost_cap());
            if e.dst != END_I && !self.is_suppressed(origin, e.dst) && !is_visited(
                &st.route,
                e.dst,
            ) {
                st.route.push(Place::Vertex(e.dst));
                activate(st, &e.activates);
                proof {
                    lemma_active_after(counters0, st.active_warps@, *e);
                    assert forall|w: int| 0 <= w < counters0.len() implies (
                    #[trigger] st.active_warps@[w]) + span(unexpl as nat, 2 * self.fan_cap())
                        <= u64::MAX by {
                        lemma_occurrences_bounds(
                            e.activates@,
                            w,
                            0,
                            e.activates@.len() as int,
                        );
                        assert(counters0[w] + self.fan_cap() + span(
                            unexpl as nat,
                            2 * self.fan_cap(),
                        ) <= u64::MAX);
                    }
                    assert((unexpl - 1) as nat + 1 == unexpl as nat);
                }
                let task = SearchTask {
                    vertex: e.dst,
                    unexpl: unexpl - 1,
                    excur: excur + e.cost,
                    extent: beyond,
                    state: clone_state(st),
                };
                let ghost here = self.task_routes(task);
                let ghost made = task@;
                let ghost later = self.spawned(
                    edges@,
                    i as int + 1,
                    origin,
                    unexpl,
                    excur,
                    beyond,
                    route0,
                    counters0,
                );
                proof {
                    assert(made.counters =~= bumped(counters0, e.activates@)) by {
                        assert forall|w: int| 0 <= w < counters0.len() implies made.counters[w]
                            == bumped(counters0, e.activates@)[w] by {
                            assert(st.active_warps@[w] == counters0[w] + occurrences(
                                e.activates@,
                                w,
                                e.activates@.len() as int,
                            ));
                        }
                    }
                }
                tasks.push(task);
                proof {
                    assert(tasks_view(tasks@) =~= tasks_view(queued).push(made));
                    assert(tasks_view(queued).push(made) + later =~= tasks_view(queued) + (seq![
                        made,
                    ] + later));
                }
                any = true;
                proof {
                    assert forall|w: int| 0 <= w < counters0.len() implies (
                    #[trigger] st.active_warps@[w]) >= occurrences(
                        e.activates@,
                        w,
                        e.activates@.len() as int,
                    ) by {}
                }
                deactivate(st, &e.activates);
                st.route.pop();
                proof {
                    assert(st.route@ =~= route0);
                    assert(st.active_warps@ =~= counters0);
                    assert(tasks@.drop_last() =~= queued);
                    assert(tasks@.take(tasks0.len() as int) =~= tasks0);
                    lemma_multiset_commutative(here, rest);
                    assert(self.pending(queued).add(here.to_multiset()).add(rest.to_multiset())
                        =~= self.pending(queued).add(
                        here.to_multiset().add(rest.to_multiset()),
                    ));
                }
            } else {
                assert(Seq::<EntryView>::empty() + rest =~= rest);
                assert(Seq::<TaskView>::empty() + self.spawned(
                    edges@,
                    i as int + 1,
                    origin,
                    unexpl,
                    excur,
                    beyond,
                    route0,
                    counters0,
                ) =~= self.spawned(
                    edges@,
                    i as int + 1,
                    origin,
                    unexpl,
                    excur,
                    beyond,
                    route0,
                    counters0,
                ));
            }
            i += 1;
        }
        proof {
            lemma_nothing_found();
            assert(tasks_view(tasks@) + Seq::<TaskView>::empty() =~= tasks_view(tasks@));
            assert(received0 + Seq::<EntryView>::empty() =~= received0);
            assert(self.pending(tasks@).add(Multiset::<EntryView>::empty()) =~= self.pending(
                tasks@,
            ));
            assert(received0.to_multiset().add(self.pending(tasks0).add(all.to_multiset()))
                =~= received0.to_multiset().add(self.pending(tasks0)).add(all.to_multiset()));
        }
        any
    }
}

impl Searcher {
    /// What a step may do to the list of tasks: it leaves the tasks that
    /// were there as they are, and the tasks it puts behind them can be
    /// run and have fewer than `unexpl` vertices still to visit.
    pub open spec fn handed_out(
        &self,
        tasks0: Seq<SearchTask>,
        tasks1: Seq<SearchTask>,
        unexpl: nat,
    ) -> bool {
        &&& self.accepts_all(tasks1)
        &&& tasks1.len() >= tasks0.len()
        &&& tasks1.take(tasks0.len() as int) == tasks0
        &&& forall|i: int|
            tasks0.len() <= i < tasks1.len() ==> (#[trigger] tasks1[i]).unexpl < unexpl
    }

    proof fn lemma_handed_out_then(
        &self,
        tasks0: Seq<SearchTask>,
        tasks1: Seq<SearchTask>,
        tasks2: Seq<SearchTask>,
        unexpl: nat,
    )
        requires
            self.handed_out(tasks0, tasks1, unexpl),
            self.handed_out(tasks1, tasks2, unexpl),
        ensures
            self.handed_out(tasks0, tasks2, unexpl),
    {
        assert(tasks2.take(tasks0.len() as int) =~= tasks0) by {
            assert forall|i: int| 0 <= i < tasks0.len() implies tasks2[i] == tasks0[i] by {
                assert(tasks2.take(tasks1.len() as int)[i] == tasks1[i]);
                assert(tasks1.take(tasks0.len() as int)[i] == tasks0[i]);
            }
        }
        assert forall|i: int| tasks0.len() <= i < tasks2.len() implies (
        #[trigger] tasks2[i]).unexpl < unexpl by {
            if i < tasks1.len() {
                assert(tasks2.take(tasks1.len() as int)[i] == tasks1[i]);
            }
        }
    }

    proof fn lemma_handed_out_same(&self, tasks: Seq<SearchTask>, unexpl: nat)
        requires
            self.accepts_all(tasks),
        ensures
            self.handed_out(tasks, tasks, unexpl),
    {
        assert(tasks.take(tasks.len() as int) =~= tasks);
    }

    /// Leaves through every active warp other than `entry`, forking where
    /// a warp's branching is to be forked.
    pub(crate) fn fork_leave_warps(
        &self,
        entry: usize,
        origin: Option<usize>,
        unexpl: usize,
        excur: u64,
        extent: u64,
        workers: usize,
        st: &mut SearchState,
        collector: &mut Collector,
        tasks: &mut Vec<SearchTask>,
    ) -> (any: bool)
        requires
            self.wf(),
            old(collector).wf(),
            old(st).active_warps@.len() == self.warp_exits().len(),
            origin matches Some(v) ==> v < self.junctions().len(),
            self.has_room(
                unexpl as nat,
                excur as nat,
                old(st).active_warps@,
                self.cost_cap(),
                self.fan_cap(),
            ),
            self.accepts_all(old(tasks)@),
        ensures
            final(st).route@ == old(st).route@,
            final(st).active_warps@ == old(st).active_warps@,
            final(collector).wf(),
            final(collector)@.capacity == old(collector)@.capacity,
            any == self.chain_entered(
                entry,
                origin,
                unexpl as nat,
                old(st).route@,
                active_of(old(st).active_warps@),
            ),
            self.handed_out(old(tasks)@, final(tasks)@, unexpl as nat),
            saturated(extent as nat, workers as nat) ==> final(tasks)@ == old(tasks)@
                && final(collector)@.received == old(collector)@.received + self.chain(
                0,
                entry,
                origin,
                unexpl as nat,
                excur as nat,
                old(st).route@,
                active_of(old(st).active_warps@),
            ),
            final(collector)@.received == old(collector)@.received + self.split_chain(
                0,
                entry,
                origin,
                unexpl,
                excur,
                extent,
                workers,
                old(st).route@,
                old(st).active_warps@,
            ).found,
            tasks_view(final(tasks)@) == tasks_view(old(tasks)@) + self.split_chain(
                0,
                entry,
                origin,
                unexpl,
                excur,
                extent,
                workers,
                old(st).route@,
                old(st).active_warps@,
            ).handed,
            self.conserved(
                old(collector)@.received,
                old(tasks)@,
                final(collector)@.received,
                final(tasks)@,
                self.chain(
                    0,
                    entry,
                    origin,
                    unexpl as nat,
                    excur as nat,
                    old(st).route@,
                    active_of(old(st).active_warps@),
                ),
            ),
    {
        let ghost route0 = st.route@;
        let ghost counters0 = st.active_warps@;
        let ghost active0 = active_of(counters0);
        let ghost received0 = collector@.received;
        let ghost tasks0 = tasks@;
        let ghost all = self.chain(0, entry, origin, unexpl as nat, excur as nat, route0, active0);
        let warp_num = self.warp_num();
        let mut any = false;
        let mut w: usize = 0;
        proof {
            self.lemma_handed_out_same(tasks0, unexpl as nat);
        }
        while w < warp_num
            invariant
                w <= warp_num,
                warp_num == self.warp_exits().len(),
                self.wf(),
                collector.wf(),
                collector@.capacity == old(collector)@.capacity,
                st.route@ == route0,
                st.active_warps@ == counters0,
                counters0.len() == self.warp_exits().len(),
                active0 == active_of(counters0),
                origin matches Some(v) ==> v < self.junctions().len(),
                self.has_room(
                    unexpl as nat,
                    excur as nat,
                    counters0,
                    self.cost_cap(),
                    self.fan_cap(),
                ),
                self.handed_out(tasks0, tasks@, unexpl as nat),
                all == self.chain(0, entry, origin, unexpl as nat, excur as nat, route0, active0),
                saturated(extent as nat, workers as nat) ==> tasks@ == tasks0
                    && collector@.received + self.chain(
                    w as int,
                    entry,
                    origin,
                    unexpl as nat,
                    excur as nat,
                    route0,
                    active0,
                ) == received0 + all,
                collector@.received.to_multiset().add(self.pending(tasks@)).add(
                    self.chain(
                        w as int,
                        entry,
                        origin,
                        unexpl as nat,
                        excur as nat,
                        route0,
                        active0,
                    ).to_multiset(),
                ) == received0.to_multiset().add(self.pending(tasks0)).add(all.to_multiset()),
                collector@.received + self.split_chain(
                    w as int,
                    entry,
                    origin,
                    unexpl,
                    excur,
                    extent,
                    workers,
                    route0,
                    counters0,
                ).found == received0 + self.split_chain(
                    0,
                    entry,
                    origin,
                    unexpl,
                    excur,
                    extent,
                    workers,
                    route0,
                    counters0,
                ).found,
                tasks_view(tasks@) + self.split_chain(
                    w as int,
                    entry,
                    origin,
                    unexpl,
                    excur,
                    extent,
                    workers,
                    route0,
                    counters0,
                ).handed == tasks_view(tasks0) + self.split_chain(
                    0,
                    entry,
                    origin,
                    unexpl,
                    excur,
                    extent,
                    workers,
                    route0,
                    counters0,
                ).handed,
                any == exists|x: int|
                    0 <= x < w && active0.contains(x as usize) && x != entry
                        && #[trigger] self.any_entered(
                        self.warp_exits()[x]@,
                        origin,
                        unexpl as nat,
                        route0.push(Place::Warp(x as usize)),
                    ),
            decreases warp_num - w,
        {
            let ghost got = collector@.received;
            let ghost queued = tasks@;
            let ghost rest = self.chain(
                w as int + 1,
                entry,
                origin,
                unexpl as nat,
                excur as nat,
                route0,
                active0,
            );
            if st.active_warps[w] > 0 && w != entry {
                st.route.push(Place::Warp(w));
                let ghost through = self.over_edges(
                    self.warp_exits()[w as int]@,
                    0,
                    origin,
                    unexpl as nat,
                    excur as nat,
                    route0.push(Place::Warp(w)),
                    active0,
                );
                let entered = self.fork_edges(
                    self.exits(w),
                    origin,
                    unexpl,
                    excur,
                    extent,
                    workers,
                    st,
                    collector,
                    tasks,
                );
                st.route.pop();
                if entered {
                    any = true;
                }
                proof {
                    let step = self.split_edges(
                        self.warp_exits()[w as int]@,
                        origin,
                        unexpl,
                        excur,
                        extent,
                        workers,
                        route0.push(Place::Warp(w)),
                        counters0,
                    );
                    let after = self.split_chain(
                        w as int + 1,
                        entry,
                        origin,
                        unexpl,
                        excur,
                        extent,
                        workers,
                        route0,
                        counters0,
                    );
                    assert((got + step.found) + after.found =~= got + (step.found + after.found));
                    assert((tasks_view(queued) + step.handed) + after.handed =~= tasks_view(queued)
                        + (step.handed + after.handed));
                    assert(st.route@ =~= route0);
                    assert((got + through) + rest =~= got + (through + rest));
                    self.lemma_handed_out_then(tasks0, queued, tasks@, unexpl as nat);
                    lemma_multiset_commutative(through, rest);
                    assert(got.to_multiset().add(self.pending(queued)).add(
                        through.to_multiset(),
                    ).add(rest.to_multiset()) =~= got.to_multiset().add(self.pending(queued)).add(
                        through.to_multiset().add(rest.to_multiset()),
                    ));
                }
            } else {
                assert(Seq::<EntryView>::empty() + rest =~= rest);
                assert(got + (Seq::<EntryView>::empty() + rest) =~= got + rest);
                proof {
                    let after = self.split_chain(
                        w as int + 1,
                        entry,
                        origin,
                        unexpl,
                        excur,
                        extent,
                        workers,
                        route0,
                        counters0,
                    );
                    assert(Seq::<EntryView>::empty() + after.found =~= after.found);
                    assert(Seq::<TaskView>::empty() + after.handed =~= after.handed);
                }
            }
            w += 1;
        }
        proof {
            lemma_nothing_found();
            assert(collector@.received + Seq::<EntryView>::empty() =~= collector@.received);
            assert(tasks_view(tasks@) + Seq::<TaskView>::empty() =~= tasks_view(tasks@));
            assert(collector@.received.to_multiset().add(self.pending(tasks@)).add(
                Multiset::<EntryView>::empty(),
            ) =~= collector@.received.to_multiset().add(self.pending(tasks@)));
        }
        any
    }

    /// Goes through the warps from vertex `from`, forking where a warp's
    /// branching is to be forked.
    pub(crate) fn fork_enter_warps(
        &self,
        from: usize,
        origin: Option<usize>,
        unexpl: usize,
        excur: u64,
        extent: u64,
        workers: usize,
        st: &mut SearchState,
        collector: &mut Collector,
        tasks: &mut Vec<SearchTask>,
    ) -> (any: bool)
        requires
            self.wf(),
            old(collector).wf(),
            old(st).active_warps@.len() == self.warp_exits().len(),
            from < self.junctions().len(),
            origin matches Some(v) ==> v < self.junctions().len(),
            self.has_room(
                unexpl as nat,
                excur as nat,
                old(st).active_warps@,
                2 * self.cost_cap() + WARP_PENALTY as nat,
                2 * self.fan_cap(),
            ),
            self.accepts_all(old(tasks)@),
        ensures
            final(st).route@ == old(st).route@,
            final(st).active_warps@ == old(st).active_warps@,
            final(collector).wf(),
            final(collector)@.capacity == old(collector)@.capacity,
            any == self.launch_entered(
                from,
                origin,
                unexpl as nat,
                old(st).route@,
                active_of(old(st).active_warps@),
            ),
            self.handed_out(old(tasks)@, final(tasks)@, unexpl as nat),
            saturated(extent as nat, workers as nat) ==> final(tasks)@ == old(tasks)@
                && final(collector)@.received == old(collector)@.received + self.launch(
                from,
                origin,
                unexpl as nat,
                excur as nat,
                old(st).route@,
                active_of(old(st).active_warps@),
            ),
            final(collector)@.received == old(collector)@.received + self.split_launch(
                from,
                origin,
                unexpl,
                excur,
                extent,
                workers,
                old(st).route@,
                old(st).active_warps@,
            ).found,
            tasks_view(final(tasks)@) == tasks_view(old(tasks)@) + self.split_launch(
                from,
                origin,
                unexpl,
                excur,
                extent,
                workers,
                old(st).route@,
                old(st).active_warps@,
            ).handed,
            self.conserved(
                old(collector)@.received,
                old(tasks)@,
                final(collector)@.received,
                final(tasks)@,
                self.launch(
                    from,
                    origin,
                    unexpl as nat,
                    excur as nat,
                    old(st).route@,
                    active_of(old(st).active_warps@),
                ),
            ),
    {
        let ghost route0 = st.route@;
        let ghost counters0 = st.active_warps@;
        let edges = &self.junction(from).to_warps;
        if edges.len() == 0 {
            proof {
                self.lemma_handed_out_same(tasks@, unexpl as nat);
                self.lemma_conserved_in_place(
                    collector@.received,
                    tasks@,
                    Seq::<EntryView>::empty(),
                );
                assert(collector@.received + Seq::<EntryView>::empty() =~= collector@.received);
                assert(tasks_view(tasks@) + Seq::<TaskView>::empty() =~= tasks_view(tasks@));
            }
            return false;
        }
        let l = &edges[0];
        assert(entries_ok(edges@, self.warp_exits().len()));
        assert(edges_capped(edges@, self.cost_cap(), self.fan_cap()));
        assert(edges@[0].cost <= self.cost_cap());
        st.route.push(Place::Warp(l.dst));
        activate(st, &l.activates);
        proof {
            assert(st.active_warps@ =~= bumped(counters0, l.activates@)) by {
                assert forall|w: int| 0 <= w < counters0.len() implies st.active_warps@[w]
                    == bumped(counters0, l.activates@)[w] by {
                    lemma_occurrences_bounds(l.activates@, w, 0, l.activates@.len() as int);
                    assert(counters0[w] + 2 * self.fan_cap() + span(
                        unexpl as nat,
                        2 * self.fan_cap(),
                    ) <= u64::MAX);
                }
            }
            lemma_active_after(counters0, st.active_warps@, *l);
            assert forall|w: int| 0 <= w < counters0.len() implies (#[trigger] st.active_warps@[w])
                + self.fan_cap() + span(unexpl as nat, 2 * self.fan_cap()) <= u64::MAX by {
                lemma_occurrences_bounds(l.activates@, w, 0, l.activates@.len() as int);
                assert(counters0[w] + 2 * self.fan_cap() + span(unexpl as nat, 2 * self.fan_cap())
                    <= u64::MAX);
            }
        }
        let any = self.fork_leave_warps(
            l.dst,
            origin,
            unexpl,
            excur + l.cost + WARP_PENALTY,
            extent,
            workers,
            st,
            collector,
            tasks,
        );
        proof {
            assert forall|w: int| 0 <= w < counters0.len() implies (#[trigger] st.active_warps@[w])
                >= occurrences(l.activates@, w, l.activates@.len() as int) by {}
        }
        deactivate(st, &l.activates);
        st.route.pop();
        assert(st.route@ =~= route0);
        assert(st.active_warps@ =~= counters0);
        any
    }

    /// Goes back to the start from `current_vertex` and searches from
    /// there, forking where a branching is to be forked.
    pub(crate) fn fork_go_back(
        &self,
        current_vertex: usize,
        unexpl: usize,
        excur: u64,
        extent: u64,
        workers: usize,
        st: &mut SearchState,
        collector: &mut Collector,
        tasks: &mut Vec<SearchTask>,
    )
        requires
            self.wf(),
            old(collector).wf(),
            old(st).active_warps@.len() == self.warp_exits().len(),
            current_vertex < self.junctions().len(),
            self.has_room(
                unexpl as nat,
                excur as nat,
                old(st).active_warps@,
                cost_step(self.cost_cap()),
                2 * self.fan_cap(),
            ),
            self.accepts_all(old(tasks)@),
        ensures
            final(st).route@ == old(st).route@,
            final(st).active_warps@ == old(st).active_warps@,
            final(collector).wf(),
            final(collector)@.capacity == old(collector)@.capacity,
            self.handed_out(old(tasks)@, final(tasks)@, unexpl as nat),
            saturated(extent as nat, workers as nat) ==> final(tasks)@ == old(tasks)@
                && final(collector)@.received == old(collector)@.received + self.restart(
                current_vertex,
                unexpl as nat,
                excur as nat,
                old(st).route@,
                active_of(old(st).active_warps@),
            ),
            final(collector)@.received == old(collector)@.received + self.split_restart(
                current_vertex,
                unexpl,
                excur,
                extent,
                workers,
                old(st).route@,
                old(st).active_warps@,
            ).found,
            tasks_view(final(tasks)@) == tasks_view(old(tasks)@) + self.split_restart(
                current_vertex,
                unexpl,
                excur,
                extent,
                workers,
                old(st).route@,
                old(st).active_warps@,
            ).handed,
            self.conserved(
                old(collector)@.received,
                old(tasks)@,
                final(collector)@.received,
                final(tasks)@,
                self.restart(
                    current_vertex,
                    unexpl as nat,
                    excur as nat,
                    old(st).route@,
                    active_of(old(st).active_warps@),
                ),
            ),
    {
        let ghost route0 = st.route@;
        let ghost counters0 = st.active_warps@;
        let ghost active0 = active_of(st.active_warps@);
        let ghost received0 = collector@.received;
        let ghost tasks0 = tasks@;
        let origin = Some(current_vertex);
        st.route.push(Place::Vertex(START_I));
        let paid = excur + RESTART_PENALTY;
        let ghost back = route0.push(Place::Vertex(START_I));
        let ghost again = self.over_edges(
            self.junctions()[START_I as int].to_vertices@,
            0,
            origin,
            unexpl as nat,
            paid as nat,
            back,
            active0,
        );
        let restarted = self.fork_edges(
            &self.junction(START_I).to_vertices,
            origin,
            unexpl,
            paid,
            extent,
            workers,
            st,
            collector,
            tasks,
        );
        let ghost received1 = collector@.received;
        let ghost tasks1 = tasks@;
        if !restarted {
            self.fork_enter_warps(
                START_I,
                origin,
                unexpl,
                paid,
                extent,
                workers,
                st,
                collector,
                tasks,
            );
            proof {
                let tail = self.launch(START_I, origin, unexpl as nat, paid as nat, back, active0);
                self.lemma_handed_out_then(tasks0, tasks1, tasks@, unexpl as nat);
                self.lemma_conserved_then(
                    received0,
                    tasks0,
                    received1,
                    tasks1,
                    collector@.received,
                    tasks@,
                    again,
                    tail,
                );
                let one = self.split_edges(
                    self.junctions()[START_I as int].to_vertices@,
                    origin,
                    unexpl,
                    paid,
                    extent,
                    workers,
                    back,
                    counters0,
                );
                let two = self.split_launch(
                    START_I,
                    origin,
                    unexpl,
                    paid,
                    extent,
                    workers,
                    back,
                    counters0,
                );
                assert((received0 + one.found) + two.found =~= received0 + (one.found + two.found));
                assert((tasks_view(tasks0) + one.handed) + two.handed =~= tasks_view(tasks0) + (
                one.handed + two.handed));
            }
        } else {
            assert(again + Seq::<EntryView>::empty() =~= again);
            proof {
                let one = self.split_edges(
                    self.junctions()[START_I as int].to_vertices@,
                    origin,
                    unexpl,
                    paid,
                    extent,
                    workers,
                    back,
                    counters0,
                );
                assert(one.found + Seq::<EntryView>::empty() =~= one.found);
                assert(one.handed + Seq::<TaskView>::empty() =~= one.handed);
            }
        }
        st.route.pop();
        assert(st.route@ =~= route0);
    }

    /// Runs one task: searches from its vertex, receiving the routes found
    /// in place and putting behind `tasks` the tasks for the parts of the
    /// search that are handed out, as [`Self::split_task`] says. `workers`
    /// is the number of workers among which the tasks are shared. Nothing
    /// is lost and nothing is found twice: the routes received and those
    /// that the new tasks have still to find are the routes of the task.
    pub fn run_task(
        &self,
        task: SearchTask,
        workers: usize,
        collector: &mut Collector,
        tasks: &mut Vec<SearchTask>,
    )
        requires
            self.wf(),
            old(collector).wf(),
            self.accepts(task),
            self.accepts_all(old(tasks)@),
        ensures
            final(collector).wf(),
            final(collector)@.capacity == old(collector)@.capacity,
            self.handed_out(old(tasks)@, final(tasks)@, task.unexpl as nat),
            saturated(task.extent as nat, workers as nat) ==> final(tasks)@ == old(tasks)@
                && final(collector)@.received == old(collector)@.received + self.task_routes(task),
            final(collector)@.received == old(collector)@.received + self.split_task(
                task@,
                workers,
            ).found,
            tasks_view(final(tasks)@) == tasks_view(old(tasks)@) + self.split_task(
                task@,
                workers,
            ).handed,
            self.conserved(
                old(collector)@.received,
                old(tasks)@,
                final(collector)@.received,
                final(tasks)@,
                self.task_routes(task),
            ),
    {
        let SearchTask { vertex, unexpl, excur, extent, state } = task;
        let mut st = state;
        let ghost route0 = st.route@;
        let ghost counters0 = st.active_warps@;
        let ghost one = self.split_edges(
            self.junctions()[vertex as int].to_vertices@,
            None,
            unexpl,
            excur,
            extent,
            workers,
            route0,
            counters0,
        );
        let ghost two = self.split_launch(
            vertex,
            Some(vertex),
            unexpl,
            excur,
            extent,
            workers,
            route0,
            counters0,
        );
        let ghost three = self.split_restart(
            vertex,
            unexpl,
            excur,
            extent,
            workers,
            route0,
            counters0,
        );
        let ghost active0 = active_of(st.active_warps@);
        let ghost received0 = collector@.received;
        let ghost tasks0 = tasks@;
        proof {
            lemma_span_step(unexpl as nat, cost_step(self.cost_cap()));
            lemma_span_step(unexpl as nat, 2 * self.fan_cap());
        }
        let origin = Some(vertex);
        let ghost first = self.over_edges(
            self.junctions()[vertex as int].to_vertices@,
            0,
            None,
            unexpl as nat,
            excur as nat,
            route0,
            active0,
        );
        let ghost through = self.launch(vertex, origin, unexpl as nat, excur as nat, route0, active0);
        let entered = self.fork_edges(
            &self.junction(vertex).to_vertices,
            None,
            unexpl,
            excur,
            extent,
            workers,
            &mut st,
            collector,
            tasks,
        );
        let ghost received1 = collector@.received;
        let ghost tasks1 = tasks@;
        if unexpl > 0 && entered {
            return ;
        }
        let launched = self.fork_enter_warps(
            vertex,
            origin,
            unexpl,
            excur,
            extent,
            workers,
            &mut st,
            collector,
            tasks,
        );
        let ghost received2 = collector@.received;
        let ghost tasks2 = tasks@;
        proof {
            self.lemma_handed_out_then(tasks0, tasks1, tasks2, unexpl as nat);
            self.lemma_conserved_then(
                received0,
                tasks0,
                received1,
                tasks1,
                received2,
                tasks2,
                first,
                through,
            );
            assert((received0 + one.found) + two.found =~= received0 + (one.found + two.found));
            assert((tasks_view(tasks0) + one.handed) + two.handed =~= tasks_view(tasks0) + (
            one.handed + two.handed));
        }
        if unexpl == 0 || launched {
            assert(through + Seq::<EntryView>::empty() =~= through);
            return ;
        }
        self.fork_go_back(vertex, unexpl, excur, extent, workers, &mut st, collector, tasks);
        proof {
            let rest = self.restart(vertex, unexpl as nat, excur as nat, route0, active0);
            self.lemma_handed_out_then(tasks0, tasks2, tasks@, unexpl as nat);
            self.lemma_conserved_then(
                received0,
                tasks0,
                received2,
                tasks2,
                collector@.received,
                tasks@,
                first + through,
                rest,
            );
            assert((first + through) + rest =~= first + (through + rest));
            assert((received0 + (one.found + two.found)) + three.found =~= received0 + ((one.found
                + two.found) + three.found));
            assert((tasks_view(tasks0) + (one.handed + two.handed)) + three.handed =~= tasks_view(
                tasks0,
            ) + ((one.handed + two.handed) + three.handed));
        }
    }

    /// Begins the search of the whole lobby: takes its first step,
    /// receiving the routes found in place and putting behind `tasks` the
    /// tasks for the parts that are handed out, as [`Self::split_start`]
    /// says.
    pub fn start(&self, workers: usize, collector: &mut Collector, tasks: &mut Vec<SearchTask>)
        requires
            self.wf(),
            old(collector).wf(),
            self.accepts_all(old(tasks)@),
        ensures
            final(collector).wf(),
            final(collector)@.capacity == old(collector)@.capacity,
            self.handed_out(old(tasks)@, final(tasks)@, self.junctions().len()),
            saturated(1, workers as nat) ==> final(tasks)@ == old(tasks)@
                && final(collector)@.received == old(collector)@.received + self.candidates(),
            final(collector)@.received == old(collector)@.received + self.split_start(
                workers,
            ).found,
            tasks_view(final(tasks)@) == tasks_view(old(tasks)@) + self.split_start(workers).handed,
            self.conserved(
                old(collector)@.received,
                old(tasks)@,
                final(collector)@.received,
                final(tasks)@,
                self.candidates(),
            ),
    {
        let ghost received0 = collector@.received;
        let ghost tasks0 = tasks@;
        let vertex_num = self.vertex_num();
        if vertex_num == 0 {
            proof {
                self.lemma_handed_out_same(tasks0, 0);
                self.lemma_conserved_in_place(received0, tasks0, Seq::<EntryView>::empty());
                assert(received0 + Seq::<EntryView>::empty() =~= received0);
                assert(tasks_view(tasks0) + Seq::<TaskView>::empty() =~= tasks_view(tasks0));
            }
            return ;
        }
        let mut st = SearchState::new(self.warp_num());
        st.route.push(Place::Vertex(START_I));
        let unexpl = vertex_num - 1;
        let ghost route0 = st.route@;
        let ghost counters0 = st.active_warps@;
        let ghost active0 = active_of(st.active_warps@);
        let ghost one = self.split_edges(
            self.junctions()[START_I as int].to_vertices@,
            None,
            unexpl,
            0,
            1,
            workers,
            route0,
            counters0,
        );
        let ghost two = self.split_launch(
            START_I,
            Some(START_I),
            unexpl,
            0,
            1,
            workers,
            route0,
            counters0,
        );
        proof {
            assert(route0 =~= seq![Place::Vertex(START_I)]);
            assert(active0 =~= Set::<usize>::empty());
            lemma_span_step(unexpl as nat, cost_step(self.cost_cap()));
            lemma_span_step(unexpl as nat, 2 * self.fan_cap());
        }
        let ghost first = self.over_edges(
            self.junctions()[START_I as int].to_vertices@,
            0,
            None,
            unexpl as nat,
            0,
            route0,
            active0,
        );
        let entered = self.fork_edges(
            &self.junction(START_I).to_vertices,
            None,
            unexpl,
            0,
            1,
            workers,
            &mut st,
            collector,
            tasks,
        );
        let ghost received1 = collector@.received;
        let ghost tasks1 = tasks@;
        proof {
            assert(self.handed_out(tasks0, tasks1, vertex_num as nat));
        }
        if unexpl == 0 || !entered {
            self.fork_enter_warps(
                START_I,
                Some(START_I),
                unexpl,
                0,
                1,
                workers,
                &mut st,
                collector,
                tasks,
            );
            proof {
                let through = self.launch(
                    START_I,
                    Some(START_I),
                    unexpl as nat,
                    0,
                    route0,
                    active0,
                );
                assert(self.handed_out(tasks1, tasks@, vertex_num as nat));
                self.lemma_handed_out_then(tasks0, tasks1, tasks@, vertex_num as nat);
                self.lemma_conserved_then(
                    received0,
                    tasks0,
                    received1,
                    tasks1,
                    collector@.received,
                    tasks@,
                    first,
                    through,
                );
                assert((received0 + one.found) + two.found =~= received0 + (one.found + two.found));
                assert((tasks_view(tasks0) + one.handed) + two.handed =~= tasks_view(tasks0) + (
                one.handed + two.handed));
            }
        } else {
            assert(first + Seq::<EntryView>::empty() =~= first);
            assert(one.found + Seq::<EntryView>::empty() =~= one.found);
            assert(one.handed + Seq::<TaskView>::empty() =~= one.handed);
        }
    }

    /// Runs a task and every task that comes of it, one after the other.
    pub fn drain(&self, task: SearchTask, workers: usize, collector: &mut Collector)
        requires
            self.wf(),
            old(collector).wf(),
            self.accepts(task),
        ensures
            final(collector).wf(),
            final(collector)@.capacity == old(collector)@.capacity,
            final(collector)@.received.to_multiset() == old(collector)@.received.to_multiset().add(
                self.task_routes(task).to_multiset(),
            ),
        decreases task.unexpl,
    {
        let ghost received0 = collector@.received;
        let ghost found = self.task_routes(task);
        let ghost bound = task.unexpl;
        let mut tasks: Vec<SearchTask> = Vec::new();
        self.run_task(task, workers, collector, &mut tasks);
        proof {
            assert(self.pending(Seq::<SearchTask>::empty()) =~= Multiset::<EntryView>::empty());
            assert(received0.to_multiset().add(Multiset::<EntryView>::empty()).add(
                found.to_multiset(),
            ) =~= received0.to_multiset().add(found.to_multiset()));
        }
        while tasks.len() > 0
            invariant
                self.wf(),
                collector.wf(),
                collector@.capacity == old(collector)@.capacity,
                self.accepts_all(tasks@),
                bound == task.unexpl,
                forall|i: int| 0 <= i < tasks@.len() ==> (#[trigger] tasks@[i]).unexpl < bound,
                collector@.received.to_multiset().add(self.pending(tasks@))
                    == received0.to_multiset().add(found.to_multiset()),
            decreases tasks@.len(),
        {
            let ghost queued = tasks@;
            let ghost got = collector@.received;
            let next = tasks.pop().unwrap();
            assert(tasks@ =~= queued.drop_last());
            assert(next == queued.last());
            let ghost more = self.task_routes(next);
            self.drain(next, workers, collector);
            proof {
                assert(got.to_multiset().add(more.to_multiset()).add(self.pending(tasks@))
                    =~= got.to_multiset().add(
                    self.pending(tasks@).add(more.to_multiset()),
                ));
            }
        }
        proof {
            assert(self.pending(tasks@) =~= Multiset::<EntryView>::empty());
            assert(collector@.received.to_multiset().add(Multiset::<EntryView>::empty())
                =~= collector@.received.to_multiset());
        }
    }

    /// Searching again finds the same: two collectors of one capacity,
    /// each of which has received the routes of the lobby, each route as
    /// often as the search finds it and in whatever order, have counted
    /// the same number of routes and keep the same routes in the same
    /// order.
    pub proof fn lemma_search_again(&self, first: Seq<EntryView>, second: Seq<EntryView>, k: nat)
        requires
            first.to_multiset() == self.candidates().to_multiset(),
            second.to_multiset() == self.candidates().to_multiset(),
        ensures
            first.len() == second.len(),
            crate::collector::top_k(first, k) == crate::collector::top_k(second, k),
            crate::collector::top_k(first, k) == crate::collector::top_k(self.candidates(), k),
    {
        broadcast use vstd::seq_lib::group_to_multiset_ensures;

        crate::collector::lemma_top_k_order_free(first, second, k);
        crate::collector::lemma_top_k_order_free(first, self.candidates(), k);
        assert(first.len() == first.to_multiset().len());
        assert(second.len() == second.to_multiset().len());
    }

    /// Searches the whole lobby: task by task where the search is shared
    /// among workers, else in one piece. Either way the collector receives
    /// every route of the lobby, each as often as the search finds it.
    pub fn run(&self, collector: &mut Collector)
        requires
            self.wf(),
            old(collector).wf(),
        ensures
            final(collector).wf(),
            final(collector)@.capacity == old(collector)@.capacity,
            final(collector)@.received.to_multiset() == old(collector)@.received.to_multiset().add(
                self.candidates().to_multiset(),
            ),
    {
        match self.thread_num() {
            Some(n) => self.search_forked(n, collector),
            None => {
                let ghost received0 = collector@.received;
                self.search(collector);
                proof {
                    lemma_multiset_commutative(received0, self.candidates());
                }
            },
        }
    }

    /// Searches the whole lobby task by task. The collector receives the
    /// routes that the search in one piece finds, each as often, but in
    /// the order in which the tasks come to them.
    pub fn search_forked(&self, workers: usize, collector: &mut Collector)
        requires
            self.wf(),
            old(collector).wf(),
        ensures
            final(collector).wf(),
            final(collector)@.capacity == old(collector)@.capacity,
            final(collector)@.received.to_multiset() == old(collector)@.received.to_multiset().add(
                self.candidates().to_multiset(),
            ),
    {
        let ghost received0 = collector@.received;
        let ghost found = self.candidates();
        let mut tasks: Vec<SearchTask> = Vec::new();
        self.start(workers, collector, &mut tasks);
        proof {
            assert(self.pending(Seq::<SearchTask>::empty()) =~= Multiset::<EntryView>::empty());
            assert(received0.to_multiset().add(Multiset::<EntryView>::empty()).add(
                found.to_multiset(),
            ) =~= received0.to_multiset().add(found.to_multiset()));
        }
        while tasks.len() > 0
            invariant
                self.wf(),
                collector.wf(),
                collector@.capacity == old(collector)@.capacity,
                self.accepts_all(tasks@),
                collector@.received.to_multiset().add(self.pending(tasks@))
                    == received0.to_multiset().add(found.to_multiset()),
            decreases tasks@.len(),
        {
            let ghost queued = tasks@;
            let ghost got = collector@.received;
            let next = tasks.pop().unwrap();
            assert(tasks@ =~= queued.drop_last());
            assert(next == queued.last());
            let ghost more = self.task_routes(next);
            self.drain(next, workers, collector);
            proof {
                assert(got.to_multiset().add(more.to_multiset()).add(self.pending(tasks@))
                    =~= got.to_multiset().add(
                    self.pending(tasks@).add(more.to_multiset()),
                ));
            }
        }
        proof {
            assert(self.pending(tasks@) =~= Multiset::<EntryView>::empty());
            assert(collector@.received.to_multiset().add(Multiset::<EntryView>::empty())
                =~= collector@.received.to_multiset());
        }
    }
}

} // verus!
