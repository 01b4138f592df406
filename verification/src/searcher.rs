//! The lobby as the search reads it: vertices and warps under dense indices,
//! each with its outgoing edges.

use vstd::prelude::*;

verus! {

/// The index of the vertex every route starts from.
pub const START_I: usize = 0;

/// The index that stands for the end of every route. It is no vertex: no
/// edge list belongs to it and the search never explores it.
pub const END_I: usize = usize::MAX;

/// Added to the cost whenever a route passes through warps.
pub const WARP_PENALTY: u64 = 69;

/// Added to the cost whenever a route goes back to the start.
pub const RESTART_PENALTY: u64 = 69;

/// One edge: where it leads, what it costs, and the warps that are active
/// for the rest of the route once it has been taken.
#[derive(Clone, Debug, PartialEq, Eq)]
pub struct Edge {
    pub dst: usize,
    pub cost: u64,
    pub activates: Vec<usize>,
}

/// The edges that leave one vertex: those to vertices (or the end), and
/// those into warps.
#[derive(Clone, Debug, PartialEq, Eq)]
pub struct Junction {
    pub to_vertices: Vec<Edge>,
    pub to_warps: Vec<Edge>,
}

/// Why a lobby was not accepted.
#[derive(Clone, Copy, Debug, PartialEq, Eq, Structural)]
pub enum GraphError {
    /// An edge names a vertex or a warp that does not exist.
    IndexOutOfRange,
    /// Costs or activation lists are so large that a route's total could
    /// not be held.
    CostOverflow,
}

/// Every warp that `e` activates exists.
pub open spec fn activations_ok(e: Edge, warps: nat) -> bool {
    forall|k: int| 0 <= k < e.activates@.len() ==> (#[trigger] e.activates@[k]) < warps
}

/// `edges` lead to vertices that exist or to the end, and activate warps
/// that exist.
pub open spec fn exits_ok(edges: Seq<Edge>, vertices: nat, warps: nat) -> bool {
    forall|j: int|
        0 <= j < edges.len() ==> {
            &&& ((#[trigger] edges[j]).dst < vertices || edges[j].dst == END_I)
            &&& activations_ok(edges[j], warps)
        }
}

/// `edges` lead into warps that exist, and activate warps that exist.
pub open spec fn entries_ok(edges: Seq<Edge>, warps: nat) -> bool {
    forall|j: int|
        0 <= j < edges.len() ==> {
            &&& (#[trigger] edges[j]).dst < warps
            &&& activations_ok(edges[j], warps)
        }
}

/// The most that one step of a route can add to the cost when its edges
/// cost at most `cap` each: a restart, a warp transit and two edges.
pub open spec fn cost_step(cap: nat) -> nat {
    2 * cap + WARP_PENALTY as nat + RESTART_PENALTY as nat
}

/// A route through `vertices` vertices can hold the cost of `e` at every
/// step, and count its activations at every step.
pub open spec fn edge_fits(e: Edge, vertices: nat) -> bool {
    &&& vertices * cost_step(e.cost as nat) <= u64::MAX
    &&& vertices * (2 * e.activates@.len()) <= u64::MAX
}

/// Every edge of `edges` fits.
pub open spec fn edges_fit(edges: Seq<Edge>, vertices: nat) -> bool {
    forall|j: int| 0 <= j < edges.len() ==> edge_fits(#[trigger] edges[j], vertices)
}

/// Every index in the lobby names something that exists.
pub open spec fn indices_ok(junctions: Seq<Junction>, exits: Seq<Vec<Edge>>) -> bool {
    &&& forall|v: int|
        0 <= v < junctions.len() ==> exits_ok(
            (#[trigger] junctions[v]).to_vertices@,
            junctions.len(),
            exits.len(),
        )
    &&& forall|v: int|
        0 <= v < junctions.len() ==> entries_ok((#[trigger] junctions[v]).to_warps@, exits.len())
    &&& forall|w: int|
        0 <= w < exits.len() ==> exits_ok((#[trigger] exits[w])@, junctions.len(), exits.len())
}

/// The total cost of every route through the lobby can be held.
pub open spec fn lobby_fits(junctions: Seq<Junction>, exits: Seq<Vec<Edge>>) -> bool {
    &&& junctions.len() * cost_step(0) <= u64::MAX
    &&& forall|v: int|
        0 <= v < junctions.len() ==> edges_fit(
            (#[trigger] junctions[v]).to_vertices@,
            junctions.len(),
        )
    &&& forall|v: int|
        0 <= v < junctions.len() ==> edges_fit((#[trigger] junctions[v]).to_warps@, junctions.len())
    &&& forall|w: int| 0 <= w < exits.len() ==> edges_fit((#[trigger] exits[w])@, junctions.len())
}

/// Every edge of `edges` costs at most `cost_cap` and activates at most
/// `fan_cap` warps.
pub open spec fn edges_capped(edges: Seq<Edge>, cost_cap: nat, fan_cap: nat) -> bool {
    forall|j: int|
        0 <= j < edges.len() ==> (#[trigger] edges[j]).cost <= cost_cap
            && edges[j].activates@.len() <= fan_cap
}

/// A validated lobby, ready to be searched.
#[derive(Debug)]
pub struct Searcher {
    vertexes: Vec<Junction>,
    warps: Vec<Vec<Edge>>,
    cost_cap: u64,
    fan_cap: usize,
    thread_num: Option<usize>,
}

fn check_activations(e: &Edge, warps: usize) -> (r: bool)
    ensures
        r == activations_ok(*e, warps as nat),
{
    let mut k: usize = 0;
    while k < e.activates.len()
        invariant
            k <= e.activates.len(),
            forall|i: int| 0 <= i < k ==> (#[trigger] e.activates@[i]) < warps,
        decreases e.activates.len() - k,
    {
        if e.activates[k] >= warps {
            return false;
        }
        k += 1;
    }
    true
}

fn check_exits(edges: &Vec<Edge>, vertices: usize, warps: usize) -> (r: bool)
    ensures
        r == exits_ok(edges@, vertices as nat, warps as nat),
{
    let mut j: usize = 0;
    while j < edges.len()
        invariant
            j <= edges.len(),
            exits_ok(edges@.take(j as int), vertices as nat, warps as nat),
        decreases edges.len() - j,
    {
        let e = &edges[j];
        if !((e.dst < vertices || e.dst == END_I) && check_activations(e, warps)) {
            return false;
        }
        j += 1;
        assert(edges@.take(j as int) =~= edges@.take(j - 1).push(edges@[j - 1]));
    }
    assert(edges@.take(j as int) =~= edges@);
    true
}

fn check_entries(edges: &Vec<Edge>, warps: usize) -> (r: bool)
    ensures
        r == entries_ok(edges@, warps as nat),
{
    let mut j: usize = 0;
    while j < edges.len()
        invariant
            j <= edges.len(),
            entries_ok(edges@.take(j as int), warps as nat),
        decreases edges.len() - j,
    {
        let e = &edges[j];
        if !(e.dst < warps && check_activations(e, warps)) {
            return false;
        }
        j += 1;
        assert(edges@.take(j as int) =~= edges@.take(j - 1).push(edges@[j - 1]));
    }
    assert(edges@.take(j as int) =~= edges@);
    true
}

proof fn lemma_product_bounds(v: nat, x: nat)
    ensures
        v >= 1 && x > u64::MAX ==> v * x > u64::MAX,
        v <= u64::MAX && x <= u64::MAX ==> v * x <= u128::MAX,
{
    assert(v >= 1 && x > u64::MAX ==> v * x > u64::MAX) by (nonlinear_arith);
    assert(v <= 0xffff_ffff_ffff_ffff && x <= 0xffff_ffff_ffff_ffff ==> v * x
        <= 0xffff_ffff_ffff_ffff * 0xffff_ffff_ffff_ffff) by (nonlinear_arith);
}

/// Whether `vertices * x` can be held, for a number `x` that can.
fn product_fits(vertices: usize, x: u64) -> (r: bool)
    ensures
        r == (vertices * x <= u64::MAX),
{
    proof {
        lemma_product_bounds(vertices as nat, x as nat);
    }
    let total: u128 = (vertices as u128) * (x as u128);
    total <= u64::MAX as u128
}

fn check_fit(e: &Edge, vertices: usize) -> (r: bool)
    ensures
        r == edge_fits(*e, vertices as nat),
{
    if vertices == 0 {
        return true;
    }
    let fan = e.activates.len();
    proof {
        lemma_product_bounds(vertices as nat, cost_step(e.cost as nat));
        lemma_product_bounds(vertices as nat, 2 * fan as nat);
    }
    if e.cost > (u64::MAX - WARP_PENALTY - RESTART_PENALTY) / 2 {
        return false;
    }
    if fan as u128 > (u64::MAX / 2) as u128 {
        return false;
    }
    let step: u64 = 2 * e.cost + WARP_PENALTY + RESTART_PENALTY;
    let fan2: u64 = 2 * (fan as u64);
    product_fits(vertices, step) && product_fits(vertices, fan2)
}

fn check_fits(edges: &Vec<Edge>, vertices: usize) -> (r: bool)
    ensures
        r == edges_fit(edges@, vertices as nat),
{
    let mut j: usize = 0;
    while j < edges.len()
        invariant
            j <= edges.len(),
            edges_fit(edges@.take(j as int), vertices as nat),
        decreases edges.len() - j,
    {
        if !check_fit(&edges[j], vertices) {
            return false;
        }
        j += 1;
        assert(edges@.take(j as int) =~= edges@.take(j - 1).push(edges@[j - 1]));
    }
    assert(edges@.take(j as int) =~= edges@);
    true
}

/// The largest cost and the longest activation list among `edges`, given
/// the largest seen before.
fn raise_caps(edges: &Vec<Edge>, vertices: usize, cost_cap: u64, fan_cap: usize) -> (r: (
    u64,
    usize,
))
    requires
        edges_fit(edges@, vertices as nat),
        vertices * cost_step(cost_cap as nat) <= u64::MAX,
        vertices * (2 * fan_cap) <= u64::MAX,
    ensures
        edges_capped(edges@, r.0 as nat, r.1 as nat),
        cost_cap <= r.0,
        fan_cap <= r.1,
        vertices * cost_step(r.0 as nat) <= u64::MAX,
        vertices * (2 * r.1) <= u64::MAX,
{
    let mut c = cost_cap;
    let mut f = fan_cap;
    let mut j: usize = 0;
    while j < edges.len()
        invariant
            j <= edges.len(),
            edges_fit(edges@, vertices as nat),
            cost_cap <= c,
            fan_cap <= f,
            vertices * cost_step(c as nat) <= u64::MAX,
            vertices * (2 * f) <= u64::MAX,
            forall|i: int|
                0 <= i < j ==> (#[trigger] edges@[i]).cost <= c && edges@[i].activates@.len() <= f,
        decreases edges.len() - j,
    {
        let e = &edges[j];
        assert(edge_fits(edges@[j as int], vertices as nat));
        if e.cost > c {
            c = e.cost;
        }
        if e.activates.len() > f {
            f = e.activates.len();
        }
        j += 1;
    }
    (c, f)
}

impl Searcher {
    /// The edge lists of the vertices, by vertex index.
    pub closed spec fn junctions(&self) -> Seq<Junction> {
        self.vertexes@
    }

    /// The edge lists of the warps, by warp index.
    pub closed spec fn warp_exits(&self) -> Seq<Vec<Edge>> {
        self.warps@
    }

    /// A bound on the cost of every edge.
    pub closed spec fn cost_cap(&self) -> nat {
        self.cost_cap as nat
    }

    /// A bound on the number of warps that one edge activates.
    pub closed spec fn fan_cap(&self) -> nat {
        self.fan_cap as nat
    }

    /// The number of workers among which the search is shared, if it is
    /// shared at all.
    pub closed spec fn workers(&self) -> Option<usize> {
        self.thread_num
    }

    /// The invariant of a searcher: every index names something that
    /// exists, no vertex has the index of the end, and the two bounds hold
    /// of every edge and leave room for the longest route.
    pub open spec fn wf(&self) -> bool {
        let junctions = self.junctions();
        let exits = self.warp_exits();
        &&& indices_ok(junctions, exits)
        &&& junctions.len() <= END_I
        &&& exits.len() <= END_I
        &&& junctions.len() * cost_step(self.cost_cap()) <= u64::MAX
        &&& junctions.len() * (2 * self.fan_cap()) <= u64::MAX
        &&& forall|v: int|
            0 <= v < junctions.len() ==> edges_capped(
                (#[trigger] junctions[v]).to_vertices@,
                self.cost_cap(),
                self.fan_cap(),
            )
        &&& forall|v: int|
            0 <= v < junctions.len() ==> edges_capped(
                (#[trigger] junctions[v]).to_warps@,
                self.cost_cap(),
                self.fan_cap(),
            )
        &&& forall|w: int|
            0 <= w < exits.len() ==> edges_capped(
                (#[trigger] exits[w])@,
                self.cost_cap(),
                self.fan_cap(),
            )
    }

    /// Validates a lobby. It is accepted when every index names something
    /// that exists and every route's total cost can be held.
    pub fn new(vertexes: Vec<Junction>, warps: Vec<Vec<Edge>>) -> (r: Result<Searcher, GraphError>)
        ensures
            match r {
                Ok(s) => {
                    &&& s.wf()
                    &&& s.junctions() == vertexes@
                    &&& s.warp_exits() == warps@
                    &&& s.workers() == None::<usize>
                    &&& indices_ok(vertexes@, warps@)
                    &&& lobby_fits(vertexes@, warps@)
                },
                Err(GraphError::IndexOutOfRange) => !indices_ok(vertexes@, warps@),
                Err(GraphError::CostOverflow) => indices_ok(vertexes@, warps@) && !lobby_fits(
                    vertexes@,
                    warps@,
                ),
            },
    {
        let n = vertexes.len();
        let m = warps.len();
        let mut v: usize = 0;
        while v < n
            invariant
                n == vertexes.len(),
                m == warps.len(),
                v <= n,
                forall|i: int|
                    0 <= i < v ==> exits_ok(
                        (#[trigger] vertexes@[i]).to_vertices@,
                        n as nat,
                        m as nat,
                    ) && entries_ok(vertexes@[i].to_warps@, m as nat),
            decreases n - v,
        {
            if !(check_exits(&vertexes[v].to_vertices, n, m) && check_entries(
                &vertexes[v].to_warps,
                m,
            )) {
                return Err(GraphError::IndexOutOfRange);
            }
            v += 1;
        }
        let mut w: usize = 0;
        while w < m
            invariant
                n == vertexes.len(),
                m == warps.len(),
                w <= m,
                forall|i: int| 0 <= i < w ==> exits_ok((#[trigger] warps@[i])@, n as nat, m as nat),
            decreases m - w,
        {
            if !check_exits(&warps[w], n, m) {
                return Err(GraphError::IndexOutOfRange);
            }
            w += 1;
        }
        assert(indices_ok(vertexes@, warps@));
        if !product_fits(n, WARP_PENALTY + RESTART_PENALTY) {
            return Err(GraphError::CostOverflow);
        }
        let mut v: usize = 0;
        while v < n
            invariant
                n == vertexes.len(),
                v <= n,
                indices_ok(vertexes@, warps@),
                forall|i: int|
                    0 <= i < v ==> edges_fit((#[trigger] vertexes@[i]).to_vertices@, n as nat)
                        && edges_fit(vertexes@[i].to_warps@, n as nat),
            decreases n - v,
        {
            if !(check_fits(&vertexes[v].to_vertices, n) && check_fits(&vertexes[v].to_warps, n)) {
                return Err(GraphError::CostOverflow);
            }
            v += 1;
        }
        let mut w: usize = 0;
        while w < m
            invariant
                n == vertexes.len(),
                m == warps.len(),
                w <= m,
                indices_ok(vertexes@, warps@),
                forall|i: int| 0 <= i < w ==> edges_fit((#[trigger] warps@[i])@, n as nat),
            decreases m - w,
        {
            if !check_fits(&warps[w], n) {
                return Err(GraphError::CostOverflow);
            }
            w += 1;
        }
        assert(lobby_fits(vertexes@, warps@));
        let mut cost_cap: u64 = 0;
        let mut fan_cap: usize = 0;
        let mut v: usize = 0;
        while v < n
            invariant
                n == vertexes.len(),
                v <= n,
                lobby_fits(vertexes@, warps@),
                n * cost_step(cost_cap as nat) <= u64::MAX,
                n * (2 * fan_cap) <= u64::MAX,
                forall|i: int|
                    0 <= i < v ==> edges_capped(
                        (#[trigger] vertexes@[i]).to_vertices@,
                        cost_cap as nat,
                        fan_cap as nat,
                    ) && edges_capped(vertexes@[i].to_warps@, cost_cap as nat, fan_cap as nat),
            decreases n - v,
        {
            let (c1, f1) = raise_caps(&vertexes[v].to_vertices, n, cost_cap, fan_cap);
            let (c2, f2) = raise_caps(&vertexes[v].to_warps, n, c1, f1);
            cost_cap = c2;
            fan_cap = f2;
            v += 1;
        }
        let mut w: usize = 0;
        while w < m
            invariant
                n == vertexes.len(),
                m == warps.len(),
                w <= m,
                lobby_fits(vertexes@, warps@),
                n * cost_step(cost_cap as nat) <= u64::MAX,
                n * (2 * fan_cap) <= u64::MAX,
                forall|i: int|
                    0 <= i < n ==> edges_capped(
                        (#[trigger] vertexes@[i]).to_vertices@,
                        cost_cap as nat,
                        fan_cap as nat,
                    ) && edges_capped(vertexes@[i].to_warps@, cost_cap as nat, fan_cap as nat),
                forall|i: int|
                    0 <= i < w ==> edges_capped(
                        (#[trigger] warps@[i])@,
                        cost_cap as nat,
                        fan_cap as nat,
                    ),
            decreases m - w,
        {
            let (c1, f1) = raise_caps(&warps[w], n, cost_cap, fan_cap);
            cost_cap = c1;
            fan_cap = f1;
            w += 1;
        }
        Ok(Searcher { vertexes, warps, cost_cap, fan_cap, thread_num: None })
    }

    /// The same lobby, to be searched by `n` workers.
    pub fn with_workers(self, n: usize) -> (s: Searcher)
        requires
            self.wf(),
        ensures
            s.wf(),
            s.junctions() == self.junctions(),
            s.warp_exits() == self.warp_exits(),
            s.cost_cap() == self.cost_cap(),
            s.fan_cap() == self.fan_cap(),
            s.workers() == Some(n),
    {
        Searcher {
            vertexes: self.vertexes,
            warps: self.warps,
            cost_cap: self.cost_cap,
            fan_cap: self.fan_cap,
            thread_num: Some(n),
        }
    }

    /// The number of workers among which the search is shared, if it is
    /// shared at all.
    pub fn thread_num(&self) -> (n: Option<usize>)
        ensures
            n == self.workers(),
    {
        self.thread_num
    }

    /// The number of vertices.
    pub fn vertex_num(&self) -> (n: usize)
        ensures
            n == self.junctions().len(),
    {
        self.vertexes.len()
    }

    /// The number of warps.
    pub fn warp_num(&self) -> (n: usize)
        ensures
            n == self.warp_exits().len(),
    {
        self.warps.len()
    }

    /// The edges that leave vertex `v`.
    pub fn junction(&self, v: usize) -> (j: &Junction)
        requires
            v < self.junctions().len(),
        ensures
            *j == self.junctions()[v as int],
    {
        &self.vertexes[v]
    }

    /// The edges that leave warp `w`.
    pub fn exits(&self, w: usize) -> (edges: &Vec<Edge>)
        requires
            w < self.warp_exits().len(),
        ensures
            *edges == self.warp_exits()[w as int],
    {
        &self.warps[w]
    }
}

} // verus!
