//! From names to indices: the lobby split into vertices and warps, and the
//! names that stand behind the dense indices of the search.

use vstd::prelude::*;
use vstd::seq_lib::group_to_multiset_ensures;
use crate::adapters::{exactly_one_name, lemma_first_occurrences, sorted_names, unique_names};
use crate::error::LobbyError;
use crate::graph::{
    link_keys, links_view, node_keys, nodes_view, Graph, Link, LinkView, Node, NodeView,
};
use crate::names::{
    copy_names, is_warp_name, lemma_name_lt_irreflexive, lemma_name_lt_total, name_less, name_lt,
    names_ascending, names_view, names_warp,
};
use crate::place::Place;

verus! {

/// A vertex by name, with its edges to vertices (or the end) and its edges
/// into warps.
#[derive(Debug)]
pub struct Fork {
    pub name: String,
    pub to_vertices: Vec<Link>,
    pub to_warps: Vec<Link>,
}

/// The mathematical value of a [`Fork`].
pub struct ForkView {
    pub name: Seq<char>,
    pub to_vertices: Seq<LinkView>,
    pub to_warps: Seq<LinkView>,
}

impl View for Fork {
    type V = ForkView;

    open spec fn view(&self) -> ForkView {
        ForkView {
            name: self.name@,
            to_vertices: links_view(self.to_vertices@),
            to_warps: links_view(self.to_warps@),
        }
    }
}

/// The values of a sequence of forks.
pub open spec fn forks_view(v: Seq<Fork>) -> Seq<ForkView> {
    Seq::new(v.len(), |i: int| v[i]@)
}

/// The names of `forks`, in order.
pub open spec fn fork_keys(forks: Seq<ForkView>) -> Seq<Seq<char>> {
    Seq::new(forks.len(), |i: int| forks[i].name)
}

/// The links that lead into a warp.
pub open spec fn leads_to_warp() -> spec_fn(LinkView) -> bool {
    |l: LinkView| is_warp_name(l.dst)
}

/// The links that lead to a vertex or to the end.
pub open spec fn leads_to_vertex() -> spec_fn(LinkView) -> bool {
    |l: LinkView| !is_warp_name(l.dst)
}

/// A node read as a vertex: `None` for a warp; for a vertex its links,
/// parted into those to vertices and those into warps.
pub open spec fn as_fork() -> spec_fn(NodeView) -> Option<ForkView> {
    |n: NodeView|
        if is_warp_name(n.name) {
            None
        } else {
            Some(
                ForkView {
                    name: n.name,
                    to_vertices: n.links.filter(leads_to_vertex()),
                    to_warps: n.links.filter(leads_to_warp()),
                },
            )
        }
}

/// A node read as a warp: `None` for a vertex; for a warp its links to
/// vertices. Links from a warp into a warp are dropped.
pub open spec fn as_warp() -> spec_fn(NodeView) -> Option<NodeView> {
    |n: NodeView|
        if is_warp_name(n.name) {
            Some(NodeView { name: n.name, links: n.links.filter(leads_to_vertex()) })
        } else {
            None
        }
}

/// Whether one of `links` leads to `name`.
pub open spec fn leads_to(links: Seq<LinkView>, name: Seq<char>) -> bool {
    exists|j: int| 0 <= j < links.len() && (#[trigger] links[j]).dst == name
}

/// A copy of `s`.
pub fn copy_name(s: &String) -> (r: String)
    ensures
        r@ == s@,
{
    s.clone()
}

/// A copy of `l`.
pub fn copy_link(l: &Link) -> (r: Link)
    ensures
        r@ == l@,
{
    Link { dst: copy_name(&l.dst), cost: l.cost, activates: copy_names(&l.activates) }
}

/// The links among `links` that lead into a warp, or those that do not.
fn keep_links(links: &Vec<Link>, warps: bool) -> (r: Vec<Link>)
    requires
        names_ascending(link_keys(links_view(links@))),
    ensures
        links_view(r@) == links_view(links@).filter(
            if warps {
                leads_to_warp()
            } else {
                leads_to_vertex()
            },
        ),
        names_ascending(link_keys(links_view(r@))),
{
    let ghost all = links_view(links@);
    let ghost pred = if warps {
        leads_to_warp()
    } else {
        leads_to_vertex()
    };
    let mut r: Vec<Link> = Vec::new();
    let mut i: usize = 0;
    proof {
        reveal(Seq::filter);
        assert(links_view(r@) =~= all.take(0).filter(pred));
    }
    while i < links.len()
        invariant
            i <= links.len(),
            all == links_view(links@),
            pred == if warps {
                leads_to_warp()
            } else {
                leads_to_vertex()
            },
            links_view(r@) == all.take(i as int).filter(pred),
            names_ascending(link_keys(all)),
            names_ascending(link_keys(links_view(r@))),
            forall|k: int, j: int|
                0 <= k < r@.len() && i <= j < all.len() ==> name_lt(
                    #[trigger] link_keys(links_view(r@))[k],
                    #[trigger] link_keys(all)[j],
                ),
        decreases links.len() - i,
    {
        let ghost kept = links_view(r@);
        if names_warp(links[i].dst.as_str()) == warps {
            r.push(copy_link(&links[i]));
            assert(links_view(r@) =~= kept.push(all[i as int]));
            assert forall|a: int, b: int| 0 <= a < b < r@.len() implies name_lt(
                #[trigger] link_keys(links_view(r@))[a],
                #[trigger] link_keys(links_view(r@))[b],
            ) by {
                if b < r@.len() - 1 {
                    assert(name_lt(link_keys(kept)[a], link_keys(kept)[b]));
                } else {
                    assert(name_lt(link_keys(kept)[a], link_keys(all)[i as int]));
                }
            }
            assert forall|k: int, j: int|
                0 <= k < r@.len() && i + 1 <= j < all.len() implies name_lt(
                #[trigger] link_keys(links_view(r@))[k],
                #[trigger] link_keys(all)[j],
            ) by {
                if k < r@.len() - 1 {
                    assert(name_lt(link_keys(kept)[k], link_keys(all)[j]));
                } else {
                    assert(name_lt(link_keys(all)[i as int], link_keys(all)[j]));
                }
            }
        }
        proof {
            reveal(Seq::filter);
            assert(all.take(i + 1).drop_last() =~= all.take(i as int));
        }
        i += 1;
    }
    assert(all.take(i as int) =~= all);
    r
}

/// A lobby by names, split into its vertices and its warps.
#[derive(Debug)]
pub struct VertexWarpSplit {
    vertexes: Vec<Fork>,
    warps: Vec<Node>,
}

impl VertexWarpSplit {
    /// The vertices, in ascending order of their names.
    pub closed spec fn forks(&self) -> Seq<ForkView> {
        forks_view(self.vertexes@)
    }

    /// The warps that have edges of their own, in ascending order of their
    /// names, each with its edges to vertices.
    pub closed spec fn warp_nodes(&self) -> Seq<NodeView> {
        nodes_view(self.warps@)
    }

    /// The invariant of a split lobby: no vertex, no warp and no edge
    /// stands twice, and all are in ascending order of their names. So the
    /// first edge from a vertex into a warp is the one to the warp that
    /// stands first by name.
    pub open spec fn wf(&self) -> bool {
        &&& names_ascending(fork_keys(self.forks()))
        &&& names_ascending(node_keys(self.warp_nodes()))
        &&& forall|i: int|
            0 <= i < self.forks().len() ==> names_ascending(
                link_keys((#[trigger] self.forks()[i]).to_vertices),
            ) && names_ascending(link_keys(self.forks()[i].to_warps))
        &&& forall|i: int|
            0 <= i < self.warp_nodes().len() ==> names_ascending(
                link_keys((#[trigger] self.warp_nodes()[i]).links),
            )
    }

    /// Splits a lobby: the nodes with a warp's name are the warps, the
    /// others the vertices, and the edges of each are parted in the same
    /// way by where they lead.
    pub fn from_graph(graph: Graph) -> (s: Self)
        requires
            graph.wf(),
        ensures
            s.wf(),
            s.forks() == graph@.filter_map(as_fork()),
            s.warp_nodes() == graph@.filter_map(as_warp()),
    {
        let nodes = graph.nodes();
        let ghost all = graph@;
        let ghost keys = node_keys(all);
        let mut vertexes: Vec<Fork> = Vec::new();
        let mut warps: Vec<Node> = Vec::new();
        let mut i: usize = 0;
        assert(forks_view(vertexes@) =~= all.take(0).filter_map(as_fork()));
        assert(nodes_view(warps@) =~= all.take(0).filter_map(as_warp()));
        while i < nodes.len()
            invariant
                i <= nodes.len(),
                all == nodes_view(nodes@),
                keys == node_keys(all),
                names_ascending(keys),
                forks_view(vertexes@) == all.take(i as int).filter_map(as_fork()),
                nodes_view(warps@) == all.take(i as int).filter_map(as_warp()),
                names_ascending(fork_keys(forks_view(vertexes@))),
                names_ascending(node_keys(nodes_view(warps@))),
                forall|k: int| 0 <= k < all.len() ==> names_ascending(link_keys((#[trigger] all[k]).links)),
                forall|k: int|
                    0 <= k < vertexes@.len() ==> names_ascending(
                        link_keys((#[trigger] forks_view(vertexes@)[k]).to_vertices),
                    ) && names_ascending(link_keys(forks_view(vertexes@)[k].to_warps)),
                forall|k: int|
                    0 <= k < warps@.len() ==> names_ascending(
                        link_keys((#[trigger] nodes_view(warps@)[k]).links),
                    ),
                forall|k: int, j: int|
                    0 <= k < vertexes@.len() && i <= j < all.len() ==> name_lt(
                        #[trigger] vertexes@[k]@.name,
                        #[trigger] keys[j],
                    ),
                forall|k: int, j: int|
                    0 <= k < warps@.len() && i <= j < all.len() ==> name_lt(
                        #[trigger] warps@[k]@.name,
                        #[trigger] keys[j],
                    ),
            decreases nodes.len() - i,
        {
            let node = &nodes[i];
            let ghost forks_before = forks_view(vertexes@);
            let ghost warps_before = nodes_view(warps@);
            assert(all.take(i + 1).drop_last() =~= all.take(i as int));
            assert(keys[i as int] == node@.name);
            assert(all[i as int].links == links_view(node.links@));
            if names_warp(node.name.as_str()) {
                let w = Node { name: copy_name(&node.name), links: keep_links(&node.links, false) };
                warps.push(w);
                assert(nodes_view(warps@) =~= warps_before + seq![as_warp()(all[i as int])->0]);
                assert forall|k: int| 0 <= k < warps@.len() implies names_ascending(
                    link_keys((#[trigger] nodes_view(warps@)[k]).links),
                ) by {
                    if k < warps@.len() - 1 {
                        assert(nodes_view(warps@)[k] == warps_before[k]);
                    }
                }
                assert forall|a: int, b: int| 0 <= a < b < warps@.len() implies name_lt(
                    #[trigger] node_keys(nodes_view(warps@))[a],
                    #[trigger] node_keys(nodes_view(warps@))[b],
                ) by {
                    if b < warps@.len() - 1 {
                        assert(name_lt(
                            node_keys(warps_before)[a],
                            node_keys(warps_before)[b],
                        ));
                    } else {
                        assert(name_lt(warps@[a]@.name, keys[i as int]));
                    }
                }
            } else {
                let f = Fork {
                    name: copy_name(&node.name),
                    to_vertices: keep_links(&node.links, false),
                    to_warps: keep_links(&node.links, true),
                };
                vertexes.push(f);
                assert(forks_view(vertexes@) =~= forks_before + seq![as_fork()(all[i as int])->0]);
                assert forall|k: int| 0 <= k < vertexes@.len() implies names_ascending(
                    link_keys((#[trigger] forks_view(vertexes@)[k]).to_vertices),
                ) && names_ascending(link_keys(forks_view(vertexes@)[k].to_warps)) by {
                    if k < vertexes@.len() - 1 {
                        assert(forks_view(vertexes@)[k] == forks_before[k]);
                    }
                }
                assert forall|a: int, b: int| 0 <= a < b < vertexes@.len() implies name_lt(
                    #[trigger] fork_keys(forks_view(vertexes@))[a],
                    #[trigger] fork_keys(forks_view(vertexes@))[b],
                ) by {
                    if b < vertexes@.len() - 1 {
                        assert(name_lt(
                            fork_keys(forks_before)[a],
                            fork_keys(forks_before)[b],
                        ));
                    } else {
                        assert(name_lt(vertexes@[a]@.name, keys[i as int]));
                    }
                }
            }
            proof {
                assert forall|k: int, j: int|
                    0 <= k < vertexes@.len() && i + 1 <= j < all.len() implies name_lt(
                    #[trigger] vertexes@[k]@.name,
                    #[trigger] keys[j],
                ) by {
                    if k == vertexes@.len() - 1 && !is_warp_name(node@.name) {
                        assert(name_lt(keys[i as int], keys[j]));
                    }
                }
                assert forall|k: int, j: int|
                    0 <= k < warps@.len() && i + 1 <= j < all.len() implies name_lt(
                    #[trigger] warps@[k]@.name,
                    #[trigger] keys[j],
                ) by {
                    if k == warps@.len() - 1 && is_warp_name(node@.name) {
                        assert(name_lt(keys[i as int], keys[j]));
                    }
                }
            }
            i += 1;
        }
        assert(all.take(i as int) =~= all);
        VertexWarpSplit { vertexes, warps }
    }

    /// The vertices.
    pub fn v(&self) -> (forks: &Vec<Fork>)
        ensures
            forks_view(forks@) == self.forks(),
    {
        &self.vertexes
    }

    /// The warps that have edges of their own.
    pub fn w(&self) -> (nodes: &Vec<Node>)
        ensures
            nodes_view(nodes@) == self.warp_nodes(),
    {
        &self.warps
    }
}

/// Whether two names are the same.
pub fn name_eq(a: &str, b: &str) -> (r: bool)
    ensures
        r == (a@ == b@),
{
    proof {
        lemma_name_lt_total(a@, b@);
        lemma_name_lt_irreflexive(a@);
    }
    !name_less(a, b) && !name_less(b, a)
}

/// Where `key` stands among `names`: the first position that holds it.
pub fn find_name(names: &Vec<String>, key: &str) -> (r: Option<usize>)
    ensures
        match r {
            Some(i) => i < names@.len() && names@[i as int]@ == key@,
            None => !names_view(names@).contains(key@),
        },
{
    let mut i: usize = 0;
    while i < names.len()
        invariant
            i <= names.len(),
            forall|k: int| 0 <= k < i ==> names_view(names@)[k] != key@,
        decreases names.len() - i,
    {
        if name_eq(names[i].as_str(), key) {
            return Some(i);
        }
        i += 1;
    }
    None
}

/// Puts behind `out` the destinations of `links` that are not in `skip`.
fn gather_dsts(links: &Vec<Link>, skip: &Vec<String>, out: &mut Vec<String>)
    ensures
        forall|n: Seq<char>|
            #![trigger names_view(final(out)@).contains(n)]
            names_view(final(out)@).contains(n) <==> names_view(old(out)@).contains(n) || (
            !names_view(skip@).contains(n) && leads_to(links_view(links@), n)),
{
    let ghost before = names_view(out@);
    let mut j: usize = 0;
    while j < links.len()
        invariant
            j <= links.len(),
            forall|n: Seq<char>|
                #![trigger names_view(out@).contains(n)]
                names_view(out@).contains(n) <==> before.contains(n) || (!names_view(
                    skip@,
                ).contains(n) && exists|k: int|
                    0 <= k < j && (#[trigger] links_view(links@)[k]).dst == n),
        decreases links.len() - j,
    {
        let ghost so_far = names_view(out@);
        let ghost dst = links@[j as int].dst@;
        assert(links_view(links@)[j as int].dst == dst);
        let found = find_name(skip, links[j].dst.as_str());
        if found.is_none() {
            out.push(copy_name(&links[j].dst));
            assert(names_view(out@) =~= so_far.push(dst));
            assert forall|n: Seq<char>| #![trigger names_view(out@).contains(n)]
                names_view(out@).contains(n) <==> so_far.contains(n) || n == dst by {
                if so_far.contains(n) {
                    let k = choose|k: int| 0 <= k < so_far.len() && so_far[k] == n;
                    assert(names_view(out@)[k] == n);
                }
                if n == dst {
                    assert(names_view(out@)[so_far.len() as int] == n);
                }
            }
        } else {
            assert(names_view(skip@)[found->0 as int] == dst);
        }
        proof {
            assert forall|n: Seq<char>| #![trigger names_view(out@).contains(n)]
                names_view(out@).contains(n) <==> before.contains(n) || (!names_view(
                    skip@,
                ).contains(n) && exists|k: int|
                    0 <= k < j + 1 && (#[trigger] links_view(links@)[k]).dst == n) by {
                let earlier = exists|k: int|
                    0 <= k < j && (#[trigger] links_view(links@)[k]).dst == n;
                let now = exists|k: int|
                    0 <= k < j + 1 && (#[trigger] links_view(links@)[k]).dst == n;
                assert(so_far.contains(n) <==> before.contains(n) || (!names_view(
                    skip@,
                ).contains(n) && earlier));
                if now && !earlier {
                    let k = choose|k: int|
                        0 <= k < j + 1 && (#[trigger] links_view(links@)[k]).dst == n;
                    assert(k == j);
                }
                if n == dst {
                    assert(links_view(links@)[j as int].dst == n);
                }
            }
        }
        j += 1;
    }
}

/// Names sorted after their repetitions were taken out ascend strictly and
/// are the same names.
proof fn lemma_sorted_unique_names(u: Seq<Seq<char>>, r: Seq<Seq<char>>)
    requires
        u.no_duplicates(),
        r.to_multiset() == u.to_multiset(),
        forall|i: int, j: int| 0 <= i < j < r.len() ==> !name_lt(#[trigger] r[j], #[trigger] r[i]),
    ensures
        names_ascending(r),
        forall|x: Seq<char>| #![trigger r.contains(x)] r.contains(x) <==> u.contains(x),
{
    broadcast use group_to_multiset_ensures;

    u.lemma_multiset_has_no_duplicates();
    r.lemma_multiset_has_no_duplicates_conv();
    assert forall|x: Seq<char>| #![trigger r.contains(x)] r.contains(x) <==> u.contains(x) by {
        assert(r.contains(x) <==> r.to_multiset().count(x) > 0);
        assert(u.contains(x) <==> u.to_multiset().count(x) > 0);
    }
    assert forall|i: int, j: int| 0 <= i < j < r.len() implies name_lt(
        #[trigger] r[i],
        #[trigger] r[j],
    ) by {
        lemma_name_lt_total(r[i], r[j]);
    }
}

/// The names behind the indices of the search.
#[derive(Debug)]
pub struct PlaceName {
    inters: Vec<String>,
    end: String,
    warps: Vec<String>,
}

/// The mathematical value of a [`PlaceName`].
pub struct PlaceNameView {
    /// The names of the vertices, by vertex index.
    pub inters: Seq<Seq<char>>,
    /// The name of the end.
    pub end: Seq<char>,
    /// The names of the warps, by warp index.
    pub warps: Seq<Seq<char>>,
}

impl PlaceNameView {
    /// The index that a destination of an edge to a vertex gets: the
    /// vertex's index, or the end's for every name that is no vertex.
    pub open spec fn vertex_index(self, name: Seq<char>) -> usize {
        if self.inters.contains(name) {
            self.inters.index_of(name) as usize
        } else {
            crate::searcher::END_I
        }
    }

    /// The index of the warp called `name`.
    pub open spec fn warp_index(self, name: Seq<char>) -> usize {
        self.warps.index_of(name) as usize
    }

    /// The name of `place`. Every vertex index beyond the vertices names
    /// the end.
    pub open spec fn name_of(self, place: Place) -> Seq<char> {
        match place {
            Place::Vertex(v) => if v < self.inters.len() {
                self.inters[v as int]
            } else {
                self.end
            },
            Place::Warp(w) => self.warps[w as int],
        }
    }
}

impl View for PlaceName {
    type V = PlaceNameView;

    closed spec fn view(&self) -> PlaceNameView {
        PlaceNameView {
            inters: names_view(self.inters@),
            end: self.end@,
            warps: names_view(self.warps@),
        }
    }
}

impl VertexWarpSplit {
    /// Whether routes may end at `n`: it is no vertex, and an edge from a
    /// vertex or from a warp leads there.
    pub open spec fn is_end_name(&self, n: Seq<char>) -> bool {
        &&& !fork_keys(self.forks()).contains(n)
        &&& ((exists|i: int|
            0 <= i < self.forks().len() && leads_to((#[trigger] self.forks()[i]).to_vertices, n))
            || (exists|i: int|
            0 <= i < self.warp_nodes().len() && leads_to(
                (#[trigger] self.warp_nodes()[i]).links,
                n,
            )))
    }

    /// Whether the edges agree on one end.
    pub open spec fn has_unique_end(&self) -> bool {
        exists|e: Seq<char>|
            #![trigger self.is_end_name(e)]
            self.is_end_name(e) && forall|n: Seq<char>|
                #![trigger self.is_end_name(n)]
                self.is_end_name(n) ==> n == e
    }

    /// Whether `n` is a warp of the lobby: an edge from a vertex leads into
    /// it, or it has edges of its own.
    pub open spec fn is_warp_place(&self, n: Seq<char>) -> bool {
        (exists|i: int|
            0 <= i < self.forks().len() && leads_to((#[trigger] self.forks()[i]).to_warps, n))
            || node_keys(self.warp_nodes()).contains(n)
    }

    /// Whether `pn` holds the names of this lobby: the vertices in their
    /// order, the one end, and the warps in ascending order.
    pub open spec fn indexed_by(&self, pn: PlaceNameView) -> bool {
        &&& pn.inters == fork_keys(self.forks())
        &&& names_ascending(pn.warps)
        &&& self.is_end_name(pn.end)
        &&& forall|n: Seq<char>| #![trigger self.is_end_name(n)] self.is_end_name(n) ==> n == pn.end
        &&& forall|n: Seq<char>|
            #![trigger pn.warps.contains(n)]
            pn.warps.contains(n) <==> self.is_warp_place(n)
    }
}

impl PlaceName {
    /// The invariant of the names: no vertex and no warp stands twice, and
    /// the end is no vertex.
    pub open spec fn wf(&self) -> bool {
        &&& names_ascending(self@.inters)
        &&& names_ascending(self@.warps)
        &&& !self@.inters.contains(self@.end)
    }

    /// Gives every place of a split lobby its index. The vertices keep
    /// their order; the end is the one name outside the vertices that edges
    /// to vertices lead to; the warps are the names that edges enter or
    /// that have edges of their own, in ascending order. Fails when the
    /// edges do not agree on one end.
    pub fn new(vertex_and_warp: &VertexWarpSplit) -> (r: Result<PlaceName, LobbyError>)
        requires
            vertex_and_warp.wf(),
        ensures
            match r {
                Ok(pn) => pn.wf() && vertex_and_warp.indexed_by(pn@),
                Err(e) => e == LobbyError::NoUniqueEnd && !vertex_and_warp.has_unique_end(),
            },
    {
        let forks = vertex_and_warp.v();
        let wnodes = vertex_and_warp.w();
        let ghost fv = vertex_and_warp.forks();
        let ghost wv = vertex_and_warp.warp_nodes();
        let mut inters: Vec<String> = Vec::new();
        let mut i: usize = 0;
        assert(names_view(inters@) =~= fork_keys(fv).take(0));
        while i < forks.len()
            invariant
                i <= forks.len(),
                fv == forks_view(forks@),
                names_view(inters@) == fork_keys(fv).take(i as int),
            decreases forks.len() - i,
        {
            let ghost before = names_view(inters@);
            inters.push(copy_name(&forks[i].name));
            assert(names_view(inters@) =~= before.push(fv[i as int].name));
            i += 1;
            assert(names_view(inters@) =~= fork_keys(fv).take(i as int));
        }
        assert(fork_keys(fv).take(i as int) =~= fork_keys(fv));
        let ghost iv = names_view(inters@);

        let mut cands: Vec<String> = Vec::new();
        let mut i: usize = 0;
        while i < forks.len()
            invariant
                i <= forks.len(),
                fv == forks_view(forks@),
                iv == names_view(inters@),
                forall|n: Seq<char>|
                    #![trigger names_view(cands@).contains(n)]
                    names_view(cands@).contains(n) <==> !iv.contains(n) && exists|k: int|
                        0 <= k < i && leads_to((#[trigger] fv[k]).to_vertices, n),
            decreases forks.len() - i,
        {
            assert(fv[i as int].to_vertices == links_view(forks@[i as int].to_vertices@));
            gather_dsts(&forks[i].to_vertices, &inters, &mut cands);
            i += 1;
        }
        let mut i: usize = 0;
        while i < wnodes.len()
            invariant
                i <= wnodes.len(),
                fv == forks_view(forks@),
                wv == nodes_view(wnodes@),
                iv == names_view(inters@),
                forall|n: Seq<char>|
                    #![trigger names_view(cands@).contains(n)]
                    names_view(cands@).contains(n) <==> !iv.contains(n) && ((exists|k: int|
                        0 <= k < fv.len() && leads_to((#[trigger] fv[k]).to_vertices, n))
                        || (exists|k: int| 0 <= k < i && leads_to((#[trigger] wv[k]).links, n))),
            decreases wnodes.len() - i,
        {
            assert(wv[i as int].links == links_view(wnodes@[i as int].links@));
            gather_dsts(&wnodes[i].links, &inters, &mut cands);
            i += 1;
        }
        let ghost cv = names_view(cands@);
        assert forall|n: Seq<char>| #![trigger vertex_and_warp.is_end_name(n)]
            vertex_and_warp.is_end_name(n) <==> cv.contains(n) by {}
        let uniq = unique_names(cands);
        let ghost uv = names_view(uniq@);
        proof {
            lemma_first_occurrences(cv);
        }
        let end = match exactly_one_name(uniq) {
            Some(end) => end,
            None => {
                proof {
                    if vertex_and_warp.has_unique_end() {
                        let e = choose|e: Seq<char>|
                            #![trigger vertex_and_warp.is_end_name(e)]
                            vertex_and_warp.is_end_name(e) && forall|n: Seq<char>|
                                #![trigger vertex_and_warp.is_end_name(n)]
                                vertex_and_warp.is_end_name(n) ==> n == e;
                        assert(cv.contains(e));
                        assert(uv.contains(e));
                        assert(uv.len() >= 2);
                        assert(uv.contains(uv[0]));
                        assert(uv.contains(uv[1]));
                        assert(cv.contains(uv[0]));
                        assert(cv.contains(uv[1]));
                        assert(vertex_and_warp.is_end_name(uv[0]));
                        assert(vertex_and_warp.is_end_name(uv[1]));
                    }
                }
                return Err(LobbyError::NoUniqueEnd);
            },
        };
        proof {
            assert(uv.len() == 1);
            assert(uv.contains(uv[0]));
            assert(cv.contains(end@));
            assert forall|n: Seq<char>| #![trigger vertex_and_warp.is_end_name(n)]
                vertex_and_warp.is_end_name(n) implies n == end@ by {
                assert(cv.contains(n));
                assert(uv.contains(n));
            }
        }

        let mut listed: Vec<String> = Vec::new();
        let none: Vec<String> = Vec::new();
        assert(!names_view(none@).contains(end@)) by {
            assert(names_view(none@).len() == 0);
        }
        assert forall|n: Seq<char>| !names_view(none@).contains(n) by {
            assert(names_view(none@).len() == 0);
        }
        let mut i: usize = 0;
        while i < forks.len()
            invariant
                i <= forks.len(),
                fv == forks_view(forks@),
                forall|n: Seq<char>| !names_view(none@).contains(n),
                forall|n: Seq<char>|
                    #![trigger names_view(listed@).contains(n)]
                    names_view(listed@).contains(n) <==> exists|k: int|
                        0 <= k < i && leads_to((#[trigger] fv[k]).to_warps, n),
            decreases forks.len() - i,
        {
            assert(fv[i as int].to_warps == links_view(forks@[i as int].to_warps@));
            gather_dsts(&forks[i].to_warps, &none, &mut listed);
            i += 1;
        }
        let mut i: usize = 0;
        while i < wnodes.len()
            invariant
                i <= wnodes.len(),
                fv == forks_view(forks@),
                wv == nodes_view(wnodes@),
                forall|n: Seq<char>|
                    #![trigger names_view(listed@).contains(n)]
                    names_view(listed@).contains(n) <==> (exists|k: int|
                        0 <= k < fv.len() && leads_to((#[trigger] fv[k]).to_warps, n)) || (
                    exists|k: int| 0 <= k < i && #[trigger] node_keys(wv)[k] == n),
            decreases wnodes.len() - i,
        {
            let ghost so_far = names_view(listed@);
            let ghost name = wv[i as int].name;
            listed.push(copy_name(&wnodes[i].name));
            assert(names_view(listed@) =~= so_far.push(name));
            assert(node_keys(wv)[i as int] == name);
            assert forall|n: Seq<char>| #![trigger names_view(listed@).contains(n)]
                names_view(listed@).contains(n) <==> so_far.contains(n) || n == name by {
                if so_far.contains(n) {
                    let k = choose|k: int| 0 <= k < so_far.len() && so_far[k] == n;
                    assert(names_view(listed@)[k] == n);
                }
                if n == name {
                    assert(names_view(listed@)[so_far.len() as int] == n);
                }
            }
            i += 1;
        }
        let ghost lv = names_view(listed@);
        let once = unique_names(listed);
        let ghost ov = names_view(once@);
        let warps = sorted_names(once);
        proof {
            lemma_first_occurrences(lv);
            lemma_sorted_unique_names(ov, names_view(warps@));
            assert forall|n: Seq<char>| #![trigger names_view(warps@).contains(n)]
                names_view(warps@).contains(n) <==> vertex_and_warp.is_warp_place(n) by {
                assert(names_view(warps@).contains(n) <==> ov.contains(n));
                assert(ov.contains(n) <==> lv.contains(n));
            }
        }
        Ok(PlaceName { inters, end, warps })
    }

    /// The name of `place`.
    pub fn name(&self, place: Place) -> (r: &str)
        requires
            place matches Place::Warp(w) ==> w < self@.warps.len(),
        ensures
            r@ == self@.name_of(place),
    {
        match place {
            Place::Vertex(v) => if v < self.inters.len() {
                self.inters[v].as_str()
            } else {
                self.end.as_str()
            },
            Place::Warp(w) => self.warps[w].as_str(),
        }
    }

    /// The names of the vertices, by vertex index.
    pub fn inters(&self) -> (names: &Vec<String>)
        ensures
            names_view(names@) == self@.inters,
    {
        &self.inters
    }

    /// The names of the warps, by warp index.
    pub fn warps(&self) -> (names: &Vec<String>)
        ensures
            names_view(names@) == self@.warps,
    {
        &self.warps
    }

    /// The name of the end.
    pub fn end(&self) -> (name: &str)
        ensures
            name@ == self@.end,
    {
        self.end.as_str()
    }
}

} // verus!
