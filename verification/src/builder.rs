//! From a lobby by names to a lobby by indices.

use vstd::prelude::*;
use crate::error::LobbyError;
use crate::graph::{links_view, node_keys, nodes_view, Link, LinkView, Node};
use crate::index::{find_name, forks_view, leads_to, PlaceName, PlaceNameView, VertexWarpSplit};
use crate::names::{lemma_name_lt_irreflexive, names_ascending, names_view};
use crate::costs::dsts_distinct;
use crate::graph::link_keys;
use crate::searcher::{
    cost_step, edges_fit, entries_ok, exits_ok, indices_ok, lobby_fits, Edge, GraphError, Junction,
    Searcher, END_I,
};

verus! {

/// `e` is the link `l` with indices in place of names.
pub open spec fn edge_resolves(e: Edge, l: LinkView, pn: PlaceNameView, into_warp: bool) -> bool {
    &&& e.dst == if into_warp {
        pn.warp_index(l.dst)
    } else {
        pn.vertex_index(l.dst)
    }
    &&& e.cost == l.cost
    &&& e.activates@.len() == l.activates.len()
    &&& forall|k: int|
        0 <= k < l.activates.len() ==> (#[trigger] e.activates@[k]) == pn.warp_index(l.activates[k])
}

/// `edges` are `links`, one for one, with indices in place of names.
pub open spec fn edges_resolve(
    edges: Seq<Edge>,
    links: Seq<LinkView>,
    pn: PlaceNameView,
    into_warp: bool,
) -> bool {
    &&& edges.len() == links.len()
    &&& forall|j: int|
        0 <= j < links.len() ==> edge_resolves(#[trigger] edges[j], links[j], pn, into_warp)
}

/// Every warp that one of `links` activates is a warp of the lobby.
pub open spec fn activations_known(links: Seq<LinkView>, warps: Seq<Seq<char>>) -> bool {
    forall|j: int, k: int|
        0 <= j < links.len() && 0 <= k < links[j].activates.len() ==> warps.contains(
            #[trigger] links[j].activates[k],
        )
}

/// Every link of `links` fits a lobby of `vertices` vertices: the total of
/// a route can hold its cost, and count its activations, at every step.
pub open spec fn links_fit(links: Seq<LinkView>, vertices: nat) -> bool {
    forall|j: int|
        0 <= j < links.len() ==> vertices * cost_step((#[trigger] links[j]).cost) <= u64::MAX
            && vertices * (2 * links[j].activates.len()) <= u64::MAX
}

impl VertexWarpSplit {
    /// The links of the warp called `name`: none where it has no edges of
    /// its own.
    pub open spec fn exits_of(&self, name: Seq<char>) -> Seq<LinkView> {
        if node_keys(self.warp_nodes()).contains(name) {
            self.warp_nodes()[node_keys(self.warp_nodes()).index_of(name)].links
        } else {
            Seq::empty()
        }
    }

    /// Every warp that an edge activates is a warp of the lobby.
    pub open spec fn knows_activations(&self, warps: Seq<Seq<char>>) -> bool {
        &&& forall|i: int|
            0 <= i < self.forks().len() ==> activations_known(
                (#[trigger] self.forks()[i]).to_vertices,
                warps,
            ) && activations_known(self.forks()[i].to_warps, warps)
        &&& forall|i: int|
            0 <= i < self.warp_nodes().len() ==> activations_known(
                (#[trigger] self.warp_nodes()[i]).links,
                warps,
            )
    }

    /// Every name that an edge activates is a warp of the lobby.
    pub open spec fn activates_warps_only(&self) -> bool {
        &&& forall|i: int, j: int, k: int|
            0 <= i < self.forks().len() && 0 <= j < self.forks()[i].to_vertices.len() && 0 <= k
                < self.forks()[i].to_vertices[j].activates.len() ==> self.is_warp_place(
                #[trigger] self.forks()[i].to_vertices[j].activates[k],
            )
        &&& forall|i: int, j: int, k: int|
            0 <= i < self.forks().len() && 0 <= j < self.forks()[i].to_warps.len() && 0 <= k
                < self.forks()[i].to_warps[j].activates.len() ==> self.is_warp_place(
                #[trigger] self.forks()[i].to_warps[j].activates[k],
            )
        &&& forall|i: int, j: int, k: int|
            0 <= i < self.warp_nodes().len() && 0 <= j < self.warp_nodes()[i].links.len() && 0
                <= k < self.warp_nodes()[i].links[j].activates.len() ==> self.is_warp_place(
                #[trigger] self.warp_nodes()[i].links[j].activates[k],
            )
    }

    /// Under the names of the lobby, the activated names are known as
    /// warps just when they are warps of the lobby.
    pub proof fn lemma_known_activations(&self, pn: PlaceNameView)
        requires
            self.indexed_by(pn),
        ensures
            self.knows_activations(pn.warps) == self.activates_warps_only(),
    {
        if self.knows_activations(pn.warps) {
            assert forall|i: int, j: int, k: int|
                0 <= i < self.forks().len() && 0 <= j < self.forks()[i].to_vertices.len() && 0
                    <= k < self.forks()[i].to_vertices[j].activates.len() implies self.is_warp_place(
                #[trigger] self.forks()[i].to_vertices[j].activates[k],
            ) by {
                assert(activations_known(self.forks()[i].to_vertices, pn.warps));
                assert(pn.warps.contains(self.forks()[i].to_vertices[j].activates[k]));
            }
            assert forall|i: int, j: int, k: int|
                0 <= i < self.forks().len() && 0 <= j < self.forks()[i].to_warps.len() && 0 <= k
                    < self.forks()[i].to_warps[j].activates.len() implies self.is_warp_place(
                #[trigger] self.forks()[i].to_warps[j].activates[k],
            ) by {
                assert(activations_known(self.forks()[i].to_warps, pn.warps));
                assert(pn.warps.contains(self.forks()[i].to_warps[j].activates[k]));
            }
            assert forall|i: int, j: int, k: int|
                0 <= i < self.warp_nodes().len() && 0 <= j < self.warp_nodes()[i].links.len() && 0
                    <= k < self.warp_nodes()[i].links[j].activates.len() implies self.is_warp_place(
                #[trigger] self.warp_nodes()[i].links[j].activates[k],
            ) by {
                assert(activations_known(self.warp_nodes()[i].links, pn.warps));
                assert(pn.warps.contains(self.warp_nodes()[i].links[j].activates[k]));
            }
        }
        if self.activates_warps_only() {
            assert forall|i: int| 0 <= i < self.forks().len() implies activations_known(
                (#[trigger] self.forks()[i]).to_vertices,
                pn.warps,
            ) && activations_known(self.forks()[i].to_warps, pn.warps) by {
                assert forall|j: int, k: int|
                    0 <= j < self.forks()[i].to_vertices.len() && 0 <= k
                        < self.forks()[i].to_vertices[j].activates.len() implies pn.warps.contains(
                    #[trigger] self.forks()[i].to_vertices[j].activates[k],
                ) by {
                    assert(self.is_warp_place(self.forks()[i].to_vertices[j].activates[k]));
                }
                assert forall|j: int, k: int|
                    0 <= j < self.forks()[i].to_warps.len() && 0 <= k
                        < self.forks()[i].to_warps[j].activates.len() implies pn.warps.contains(
                    #[trigger] self.forks()[i].to_warps[j].activates[k],
                ) by {
                    assert(self.is_warp_place(self.forks()[i].to_warps[j].activates[k]));
                }
            }
            assert forall|i: int| 0 <= i < self.warp_nodes().len() implies activations_known(
                (#[trigger] self.warp_nodes()[i]).links,
                pn.warps,
            ) by {
                assert forall|j: int, k: int|
                    0 <= j < self.warp_nodes()[i].links.len() && 0 <= k
                        < self.warp_nodes()[i].links[j].activates.len() implies pn.warps.contains(
                    #[trigger] self.warp_nodes()[i].links[j].activates[k],
                ) by {
                    assert(self.is_warp_place(self.warp_nodes()[i].links[j].activates[k]));
                }
            }
        }
    }

    /// The total cost of every route through the lobby can be held.
    pub open spec fn fits(&self) -> bool {
        let vertices = self.forks().len();
        &&& vertices * cost_step(0) <= u64::MAX
        &&& forall|i: int|
            0 <= i < self.forks().len() ==> links_fit(
                (#[trigger] self.forks()[i]).to_vertices,
                vertices,
            ) && links_fit(self.forks()[i].to_warps, vertices)
        &&& forall|i: int|
            0 <= i < self.warp_nodes().len() ==> links_fit(
                (#[trigger] self.warp_nodes()[i]).links,
                vertices,
            )
    }

    /// Whether the lobby by indices is this lobby under the names `pn`:
    /// vertex for vertex and warp for warp the same edges.
    pub open spec fn resolves_to(
        &self,
        junctions: Seq<Junction>,
        exits: Seq<Vec<Edge>>,
        pn: PlaceNameView,
    ) -> bool {
        &&& junctions.len() == self.forks().len()
        &&& forall|v: int|
            0 <= v < junctions.len() ==> edges_resolve(
                (#[trigger] junctions[v]).to_vertices@,
                self.forks()[v].to_vertices,
                pn,
                false,
            ) && edges_resolve(junctions[v].to_warps@, self.forks()[v].to_warps, pn, true)
        &&& exits.len() == pn.warps.len()
        &&& forall|w: int|
            0 <= w < exits.len() ==> edges_resolve(
                (#[trigger] exits[w])@,
                self.exits_of(pn.warps[w]),
                pn,
                false,
            )
    }
}

/// Among ascending names a name is found where it stands.
proof fn lemma_index_of_found(names: Seq<Seq<char>>, key: Seq<char>, i: int)
    requires
        names_ascending(names),
        0 <= i < names.len(),
        names[i] == key,
    ensures
        names.contains(key),
        names.index_of(key) == i,
{
    let c = names.index_of(key);
    lemma_name_lt_irreflexive(key);
    if c < i {
        assert(crate::names::name_lt(names[c], names[i]));
    } else if c > i {
        assert(crate::names::name_lt(names[i], names[c]));
    }
}

/// The indices of the warps that `names` name. Fails at the first name
/// that names no warp.
fn resolve_activations(names: &Vec<String>, pn: &PlaceName) -> (r: Option<Vec<usize>>)
    requires
        pn.wf(),
    ensures
        match r {
            Some(acts) => {
                &&& acts@.len() == names@.len()
                &&& forall|k: int|
                    0 <= k < names@.len() ==> pn@.warps.contains(#[trigger] names_view(names@)[k])
                &&& forall|k: int|
                    0 <= k < names@.len() ==> (#[trigger] acts@[k]) == pn@.warp_index(
                        names_view(names@)[k],
                    ) && acts@[k] < pn@.warps.len()
            },
            None => exists|k: int|
                0 <= k < names@.len() && !pn@.warps.contains(#[trigger] names_view(names@)[k]),
        },
{
    let warps = pn.warps();
    let mut acts: Vec<usize> = Vec::new();
    let mut k: usize = 0;
    while k < names.len()
        invariant
            k <= names.len(),
            pn.wf(),
            names_view(warps@) == pn@.warps,
            acts@.len() == k,
            forall|i: int| 0 <= i < k ==> pn@.warps.contains(#[trigger] names_view(names@)[i]),
            forall|i: int|
                0 <= i < k ==> (#[trigger] acts@[i]) == pn@.warp_index(names_view(names@)[i])
                    && acts@[i] < pn@.warps.len(),
        decreases names.len() - k,
    {
        match find_name(warps, names[k].as_str()) {
            Some(w) => {
                proof {
                    assert(names_view(warps@)[w as int] == names_view(names@)[k as int]);
                    lemma_index_of_found(pn@.warps, names_view(names@)[k as int], w as int);
                }
                acts.push(w);
            },
            None => {
                assert(!pn@.warps.contains(names_view(names@)[k as int]));
                return None;
            },
        }
        k += 1;
    }
    Some(acts)
}

/// `links` with indices in place of names. Fails where a link activates a
/// name that names no warp.
fn resolve_links(links: &Vec<Link>, pn: &PlaceName, into_warp: bool) -> (r: Option<Vec<Edge>>)
    requires
        pn.wf(),
        into_warp ==> forall|j: int|
            0 <= j < links@.len() ==> pn@.warps.contains((#[trigger] links_view(links@)[j]).dst),
    ensures
        match r {
            Some(edges) => {
                &&& edges_resolve(edges@, links_view(links@), pn@, into_warp)
                &&& activations_known(links_view(links@), pn@.warps)
                &&& into_warp ==> entries_ok(edges@, pn@.warps.len())
                &&& !into_warp ==> exits_ok(edges@, pn@.inters.len(), pn@.warps.len())
            },
            None => !activations_known(links_view(links@), pn@.warps),
        },
{
    let ghost lv = links_view(links@);
    let mut edges: Vec<Edge> = Vec::new();
    let mut j: usize = 0;
    while j < links.len()
        invariant
            j <= links.len(),
            pn.wf(),
            lv == links_view(links@),
            into_warp ==> forall|i: int| 0 <= i < lv.len() ==> pn@.warps.contains((#[trigger] lv[i]).dst),
            edges@.len() == j,
            forall|i: int| 0 <= i < j ==> edge_resolves(#[trigger] edges@[i], lv[i], pn@, into_warp),
            forall|i: int, k: int|
                0 <= i < j && 0 <= k < lv[i].activates.len() ==> pn@.warps.contains(
                    #[trigger] lv[i].activates[k],
                ),
            into_warp ==> entries_ok(edges@, pn@.warps.len()),
            !into_warp ==> exits_ok(edges@, pn@.inters.len(), pn@.warps.len()),
        decreases links.len() - j,
    {
        let l = &links[j];
        assert(lv[j as int] == l@);
        let dst = if into_warp {
            match find_name(pn.warps(), l.dst.as_str()) {
                Some(w) => {
                    proof {
                        lemma_index_of_found(pn@.warps, l@.dst, w as int);
                    }
                    w
                },
                None => {
                    assert(pn@.warps.contains(lv[j as int].dst));
                    assert(false);
                    0
                },
            }
        } else {
            match find_name(pn.inters(), l.dst.as_str()) {
                Some(v) => {
                    proof {
                        lemma_index_of_found(pn@.inters, l@.dst, v as int);
                    }
                    v
                },
                None => END_I,
            }
        };
        let activates = match resolve_activations(&l.activates, pn) {
            Some(acts) => acts,
            None => {
                proof {
                    let k = choose|k: int|
                        0 <= k < l.activates@.len() && !pn@.warps.contains(
                            #[trigger] names_view(l.activates@)[k],
                        );
                    assert(!pn@.warps.contains(lv[j as int].activates[k]));
                }
                return None;
            },
        };
        let ghost before = edges@;
        edges.push(Edge { dst, cost: l.cost, activates });
        proof {
            assert forall|i: int| 0 <= i < j + 1 implies edge_resolves(
                #[trigger] edges@[i],
                lv[i],
                pn@,
                into_warp,
            ) by {
                if i < j {
                    assert(edges@[i] == before[i]);
                }
            }
            if into_warp {
                assert forall|i: int| 0 <= i < edges@.len() implies (#[trigger] edges@[i]).dst
                    < pn@.warps.len() && crate::searcher::activations_ok(
                    edges@[i],
                    pn@.warps.len(),
                ) by {
                    if i < j {
                        assert(edges@[i] == before[i]);
                    }
                }
            } else {
                assert forall|i: int| 0 <= i < edges@.len() implies ((#[trigger] edges@[i]).dst
                    < pn@.inters.len() || edges@[i].dst == END_I)
                    && crate::searcher::activations_ok(edges@[i], pn@.warps.len()) by {
                    if i < j {
                        assert(edges@[i] == before[i]);
                    }
                }
            }
        }
        j += 1;
    }
    Some(edges)
}

/// Where the node called `key` stands among `nodes`.
fn find_node(nodes: &Vec<Node>, key: &str) -> (r: Option<usize>)
    ensures
        match r {
            Some(i) => i < nodes@.len() && nodes@[i as int]@.name == key@,
            None => !node_keys(nodes_view(nodes@)).contains(key@),
        },
{
    let mut i: usize = 0;
    while i < nodes.len()
        invariant
            i <= nodes.len(),
            forall|k: int| 0 <= k < i ==> node_keys(nodes_view(nodes@))[k] != key@,
        decreases nodes.len() - i,
    {
        if crate::index::name_eq(nodes[i].name.as_str(), key) {
            return Some(i);
        }
        i += 1;
    }
    None
}

/// Edges that stand for links fit as the links do.
proof fn lemma_resolved_fit(
    edges: Seq<Edge>,
    links: Seq<LinkView>,
    pn: PlaceNameView,
    into_warp: bool,
    vertices: nat,
)
    requires
        edges_resolve(edges, links, pn, into_warp),
    ensures
        edges_fit(edges, vertices) == links_fit(links, vertices),
{
    if links_fit(links, vertices) {
        assert forall|j: int| 0 <= j < edges.len() implies crate::searcher::edge_fits(
            #[trigger] edges[j],
            vertices,
        ) by {
            assert(edge_resolves(edges[j], links[j], pn, into_warp));
        }
    }
    if edges_fit(edges, vertices) {
        assert forall|j: int| 0 <= j < links.len() implies vertices * cost_step(
            (#[trigger] links[j]).cost,
        ) <= u64::MAX && vertices * (2 * links[j].activates.len()) <= u64::MAX by {
            assert(edge_resolves(edges[j], links[j], pn, into_warp));
            assert(crate::searcher::edge_fits(edges[j], vertices));
        }
    }
}

/// Edges that stand for links to different names lead to different places,
/// where the names that are no vertex all name the end.
proof fn lemma_resolved_distinct(edges: Seq<Edge>, links: Seq<LinkView>, pn: PlaceNameView)
    requires
        edges_resolve(edges, links, pn, false),
        names_ascending(link_keys(links)),
        names_ascending(pn.inters),
        pn.inters.len() <= END_I,
        forall|j: int|
            0 <= j < links.len() && !pn.inters.contains((#[trigger] links[j]).dst) ==> links[j].dst
                == pn.end,
    ensures
        dsts_distinct(edges),
{
    assert forall|i: int, j: int| 0 <= i < j < edges.len() implies (#[trigger] edges[i]).dst != (
    #[trigger] edges[j]).dst by {
        let a = links[i].dst;
        let b = links[j].dst;
        assert(edge_resolves(edges[i], links[i], pn, false));
        assert(edge_resolves(edges[j], links[j], pn, false));
        assert(crate::names::name_lt(link_keys(links)[i], link_keys(links)[j]));
        lemma_name_lt_irreflexive(a);
        assert(a != b);
        if pn.inters.contains(a) && pn.inters.contains(b) {
            let x = pn.inters.index_of(a);
            let y = pn.inters.index_of(b);
            assert(pn.inters[x] == a && pn.inters[y] == b);
        } else if pn.inters.contains(a) {
            let x = pn.inters.index_of(a);
            assert(0 <= x < pn.inters.len());
        } else if pn.inters.contains(b) {
            let y = pn.inters.index_of(b);
            assert(0 <= y < pn.inters.len());
        }
    }
}

/// Makes a searcher from a split lobby.
#[derive(Debug)]
pub struct SearcherBuilder<'a> {
    splited: &'a VertexWarpSplit,
    thread_num: Option<usize>,
}

impl<'a> SearcherBuilder<'a> {
    /// The lobby to build from.
    pub closed spec fn lobby(&self) -> &'a VertexWarpSplit {
        self.splited
    }

    /// The number of workers asked for, if any.
    pub closed spec fn workers(&self) -> Option<usize> {
        self.thread_num
    }

    /// A builder for `splited`, with no number of workers asked for.
    pub fn new(splited: &'a VertexWarpSplit) -> (b: Self)
        ensures
            b.lobby() == splited,
            b.workers() == None::<usize>,
    {
        Self { splited, thread_num: None }
    }

    /// The same builder, asking for `n` workers.
    pub fn thread_num(self, n: usize) -> (b: Self)
        ensures
            b.lobby() == self.lobby(),
            b.workers() == Some(n),
    {
        Self { splited: self.splited, thread_num: Some(n) }
    }

    /// Gives every place its index and every edge the indices of the
    /// places it names. A destination that is no vertex becomes the end.
    ///
    /// Fails when the edges do not agree on one end; else when an edge
    /// activates what is no warp; else when the costs are too large for a
    /// route's total to be held.
    pub fn build(self) -> (r: Result<(PlaceName, Searcher), LobbyError>)
        requires
            self.lobby().wf(),
        ensures
            match r {
                Ok((pn, s)) => {
                    &&& pn.wf()
                    &&& self.lobby().indexed_by(pn@)
                    &&& s.wf()
                    &&& s.workers() == self.workers()
                    &&& self.lobby().resolves_to(s.junctions(), s.warp_exits(), pn@)
                    &&& self.lobby().activates_warps_only()
                    &&& self.lobby().fits()
                    &&& s.edges_distinct()
                },
                Err(LobbyError::NoUniqueEnd) => !self.lobby().has_unique_end(),
                Err(LobbyError::UnknownWarp) => self.lobby().has_unique_end()
                    && !self.lobby().activates_warps_only(),
                Err(LobbyError::CostOverflow) => self.lobby().has_unique_end()
                    && self.lobby().activates_warps_only() && !self.lobby().fits(),
                Err(LobbyError::Malformed) => false,
            },
    {
        let split = self.splited;
        let place_name = match PlaceName::new(split) {
            Ok(pn) => pn,
            Err(_) => {
                return Err(LobbyError::NoUniqueEnd);
            },
        };
        let ghost pn = place_name@;
        let ghost fv = split.forks();
        let ghost wv = split.warp_nodes();
        proof {
            assert(split.is_end_name(pn.end));
            split.lemma_known_activations(pn);
        }
        let forks = split.v();
        let wnodes = split.w();
        let mut vertexes: Vec<Junction> = Vec::new();
        let mut v: usize = 0;
        while v < forks.len()
            invariant
                v <= forks.len(),
                place_name.wf(),
                pn == place_name@,
                split == self.lobby(),
                split.indexed_by(pn),
                split.has_unique_end(),
                split.knows_activations(pn.warps) == split.activates_warps_only(),
                fv == forks_view(forks@),
                fv == split.forks(),
                vertexes@.len() == v,
                forall|i: int|
                    0 <= i < v ==> edges_resolve(
                        (#[trigger] vertexes@[i]).to_vertices@,
                        fv[i].to_vertices,
                        pn,
                        false,
                    ) && edges_resolve(vertexes@[i].to_warps@, fv[i].to_warps, pn, true),
                forall|i: int|
                    0 <= i < v ==> activations_known((#[trigger] fv[i]).to_vertices, pn.warps)
                        && activations_known(fv[i].to_warps, pn.warps),
                forall|i: int|
                    0 <= i < v ==> exits_ok(
                        (#[trigger] vertexes@[i]).to_vertices@,
                        pn.inters.len(),
                        pn.warps.len(),
                    ) && entries_ok(vertexes@[i].to_warps@, pn.warps.len()),
            decreases forks.len() - v,
        {
            let f = &forks[v];
            assert(fv[v as int] == f@);
            proof {
                assert forall|j: int| 0 <= j < f.to_warps@.len() implies pn.warps.contains(
                    (#[trigger] links_view(f.to_warps@)[j]).dst,
                ) by {
                    let n = links_view(f.to_warps@)[j].dst;
                    assert(leads_to(fv[v as int].to_warps, n));
                    assert(split.is_warp_place(n));
                }
            }
            let to_vertices = match resolve_links(&f.to_vertices, &place_name, false) {
                Some(edges) => edges,
                None => {
                    assert(!split.knows_activations(pn.warps));
                    return Err(LobbyError::UnknownWarp);
                },
            };
            let to_warps = match resolve_links(&f.to_warps, &place_name, true) {
                Some(edges) => edges,
                None => {
                    assert(!split.knows_activations(pn.warps));
                    return Err(LobbyError::UnknownWarp);
                },
            };
            let ghost before = vertexes@;
            vertexes.push(Junction { to_vertices, to_warps });
            assert forall|i: int| 0 <= i < v implies vertexes@[i] == before[i] by {}
            v += 1;
        }
        let names = place_name.warps();
        let mut warps: Vec<Vec<Edge>> = Vec::new();
        let mut w: usize = 0;
        while w < names.len()
            invariant
                w <= names.len(),
                place_name.wf(),
                pn == place_name@,
                names_view(names@) == pn.warps,
                split == self.lobby(),
                split.indexed_by(pn),
                split.has_unique_end(),
                split.knows_activations(pn.warps) == split.activates_warps_only(),
                split.wf(),
                wv == nodes_view(wnodes@),
                wv == split.warp_nodes(),
                warps@.len() == w,
                forall|i: int|
                    0 <= i < w ==> edges_resolve(
                        (#[trigger] warps@[i])@,
                        split.exits_of(pn.warps[i]),
                        pn,
                        false,
                    ),
                forall|i: int|
                    0 <= i < w ==> activations_known(
                        split.exits_of(#[trigger] pn.warps[i]),
                        pn.warps,
                    ),
                forall|i: int|
                    0 <= i < w ==> exits_ok(
                        (#[trigger] warps@[i])@,
                        pn.inters.len(),
                        pn.warps.len(),
                    ),
            decreases names.len() - w,
        {
            let ghost name = pn.warps[w as int];
            assert(names_view(names@)[w as int] == name);
            let edges = match find_node(wnodes, names[w].as_str()) {
                Some(k) => {
                    proof {
                        assert(node_keys(wv)[k as int] == name);
                        lemma_index_of_found(node_keys(wv), name, k as int);
                        assert(wv[k as int].links == links_view(wnodes@[k as int].links@));
                    }
                    match resolve_links(&wnodes[k].links, &place_name, false) {
                        Some(edges) => edges,
                        None => {
                            assert(!split.knows_activations(pn.warps));
                            return Err(LobbyError::UnknownWarp);
                        },
                    }
                },
                None => {
                    let edges: Vec<Edge> = Vec::new();
                    edges
                },
            };
            let ghost before = warps@;
            warps.push(edges);
            assert forall|i: int| 0 <= i < w implies warps@[i] == before[i] by {}
            w += 1;
        }
        proof {
            assert forall|i: int| 0 <= i < wv.len() implies activations_known(
                (#[trigger] wv[i]).links,
                pn.warps,
            ) by {
                let name = wv[i].name;
                assert(node_keys(wv)[i] == name);
                lemma_index_of_found(node_keys(wv), name, i);
                assert(split.is_warp_place(name));
                assert(pn.warps.contains(name));
                let k = pn.warps.index_of(name);
                assert(split.exits_of(pn.warps[k]) == wv[i].links);
            }
            assert(split.knows_activations(pn.warps));
            assert(split.resolves_to(vertexes@, warps@, pn));
            // No vertex and no warp has two edges to one place.
            assert(pn.inters.len() == vertexes@.len());
            assert forall|v: int| 0 <= v < vertexes@.len() implies dsts_distinct(
                (#[trigger] vertexes@[v]).to_vertices@,
            ) by {
                let links = fv[v].to_vertices;
                assert forall|j: int|
                    0 <= j < links.len() && !pn.inters.contains((#[trigger] links[j]).dst) implies links[j].dst
                    == pn.end by {
                    assert(leads_to(fv[v].to_vertices, links[j].dst));
                    assert(split.is_end_name(links[j].dst));
                }
                lemma_resolved_distinct(vertexes@[v].to_vertices@, links, pn);
            }
            assert forall|w: int| 0 <= w < warps@.len() implies dsts_distinct(
                (#[trigger] warps@[w])@,
            ) by {
                let name = pn.warps[w];
                let links = split.exits_of(name);
                if node_keys(wv).contains(name) {
                    let k = node_keys(wv).index_of(name);
                    assert(links == wv[k].links);
                    assert forall|j: int|
                        0 <= j < links.len() && !pn.inters.contains((#[trigger] links[j]).dst) implies links[j].dst
                        == pn.end by {
                        assert(leads_to(wv[k].links, links[j].dst));
                        assert(split.is_end_name(links[j].dst));
                    }
                    lemma_resolved_distinct(warps@[w]@, links, pn);
                } else {
                    assert(warps@[w]@.len() == 0);
                }
            }
            assert(indices_ok(vertexes@, warps@));
            // The lobby by indices fits just when the lobby by names does.
            let n = fv.len();
            assert forall|i: int| 0 <= i < n implies edges_fit(
                (#[trigger] vertexes@[i]).to_vertices@,
                n,
            ) == links_fit(fv[i].to_vertices, n) && edges_fit(vertexes@[i].to_warps@, n)
                == links_fit(fv[i].to_warps, n) by {
                lemma_resolved_fit(vertexes@[i].to_vertices@, fv[i].to_vertices, pn, false, n);
                lemma_resolved_fit(vertexes@[i].to_warps@, fv[i].to_warps, pn, true, n);
            }
            assert forall|i: int| 0 <= i < warps@.len() implies edges_fit(
                (#[trigger] warps@[i])@,
                n,
            ) == links_fit(split.exits_of(pn.warps[i]), n) by {
                lemma_resolved_fit(warps@[i]@, split.exits_of(pn.warps[i]), pn, false, n);
            }
            if split.fits() {
                assert forall|i: int| 0 <= i < warps@.len() implies edges_fit(
                    (#[trigger] warps@[i])@,
                    n,
                ) by {
                    let name = pn.warps[i];
                    if node_keys(wv).contains(name) {
                        let k = node_keys(wv).index_of(name);
                        assert(links_fit(wv[k].links, n));
                    }
                }
                assert(lobby_fits(vertexes@, warps@));
            }
            if lobby_fits(vertexes@, warps@) {
                assert forall|i: int| 0 <= i < wv.len() implies links_fit(
                    (#[trigger] wv[i]).links,
                    n,
                ) by {
                    let name = wv[i].name;
                    assert(node_keys(wv)[i] == name);
                    lemma_index_of_found(node_keys(wv), name, i);
                    assert(split.is_warp_place(name));
                    assert(pn.warps.contains(name));
                    let k = pn.warps.index_of(name);
                    assert(split.exits_of(pn.warps[k]) == wv[i].links);
                    assert(edges_fit(warps@[k]@, n));
                }
                assert forall|i: int| 0 <= i < n implies links_fit(
                    (#[trigger] fv[i]).to_vertices,
                    n,
                ) && links_fit(fv[i].to_warps, n) by {
                    assert(edges_fit(vertexes@[i].to_vertices@, n));
                    assert(edges_fit(vertexes@[i].to_warps@, n));
                }
                assert(split.fits());
            }
        }
        match Searcher::new(vertexes, warps) {
            Ok(s) => match self.thread_num {
                Some(n) => Ok((place_name, s.with_workers(n))),
                None => Ok((place_name, s)),
            },
            Err(GraphError::CostOverflow) => Err(LobbyError::CostOverflow),
            Err(GraphError::IndexOutOfRange) => Err(LobbyError::Malformed),
        }
    }
}

} // verus!
