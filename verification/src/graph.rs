//! The lobby as it is given: an adjacency structure keyed by place names.
//! It behaves as a map from a place's name to a map from a destination's
//! name to the edge between them, kept in ascending order of the names.

use vstd::prelude::*;
use crate::names::{
    copy_names, lemma_insert_keeps_ascending, lemma_name_found_at_rank, lemma_name_lt_total,
    lemma_name_rank, name_less, name_lt, name_rank, name_rank_from, names_ascending, names_view,
};

verus! {

/// An edge by names: where it leads, what it costs, and the warps it
/// activates.
#[derive(Clone, Debug, PartialEq, Eq)]
pub struct Link {
    pub dst: String,
    pub cost: u64,
    pub activates: Vec<String>,
}

/// The mathematical value of a [`Link`].
pub struct LinkView {
    pub dst: Seq<char>,
    pub cost: nat,
    pub activates: Seq<Seq<char>>,
}

impl View for Link {
    type V = LinkView;

    open spec fn view(&self) -> LinkView {
        LinkView {
            dst: self.dst@,
            cost: self.cost as nat,
            activates: names_view(self.activates@),
        }
    }
}

/// A place with the edges that leave it.
#[derive(Clone, Debug, PartialEq, Eq)]
pub struct Node {
    pub name: String,
    pub links: Vec<Link>,
}

/// The mathematical value of a [`Node`].
pub struct NodeView {
    pub name: Seq<char>,
    pub links: Seq<LinkView>,
}

/// The values of a sequence of links.
pub open spec fn links_view(v: Seq<Link>) -> Seq<LinkView> {
    Seq::new(v.len(), |i: int| v[i]@)
}

impl View for Node {
    type V = NodeView;

    open spec fn view(&self) -> NodeView {
        NodeView { name: self.name@, links: links_view(self.links@) }
    }
}

/// The values of a sequence of nodes.
pub open spec fn nodes_view(v: Seq<Node>) -> Seq<NodeView> {
    Seq::new(v.len(), |i: int| v[i]@)
}

/// The destinations of `links`, in order.
pub open spec fn link_keys(links: Seq<LinkView>) -> Seq<Seq<char>> {
    Seq::new(links.len(), |i: int| links[i].dst)
}

/// The names of `nodes`, in order.
pub open spec fn node_keys(nodes: Seq<NodeView>) -> Seq<Seq<char>> {
    Seq::new(nodes.len(), |i: int| nodes[i].name)
}

/// `links` with `l` put among them: in place of the link to the same
/// destination if there is one, else at its place in the order.
pub open spec fn put_link(links: Seq<LinkView>, l: LinkView) -> Seq<LinkView> {
    let p = name_rank(link_keys(links), l.dst);
    if p < links.len() && links[p].dst == l.dst {
        links.update(p, l)
    } else {
        links.insert(p, l)
    }
}

/// `nodes` with a node called `name` among them: as they are if there is
/// one, else with a new node without links at its place in the order.
pub open spec fn put_node(nodes: Seq<NodeView>, name: Seq<char>) -> Seq<NodeView> {
    let p = name_rank(node_keys(nodes), name);
    if p < nodes.len() && nodes[p].name == name {
        nodes
    } else {
        nodes.insert(p, NodeView { name, links: Seq::empty() })
    }
}

/// `nodes` with the edge `l` from the place `src` put in.
pub open spec fn put_edge(nodes: Seq<NodeView>, src: Seq<char>, l: LinkView) -> Seq<NodeView> {
    let with_node = put_node(nodes, src);
    let p = name_rank(node_keys(with_node), src);
    with_node.update(p, NodeView { name: src, links: put_link(with_node[p].links, l) })
}

/// `nodes` with every link of `links[..n]` put in as an edge from `src`.
pub open spec fn put_edges(nodes: Seq<NodeView>, src: Seq<char>, links: Seq<LinkView>, n: int) -> Seq<
    NodeView,
>
    decreases n,
{
    if n <= 0 {
        nodes
    } else {
        put_edge(put_edges(nodes, src, links, n - 1), src, links[n - 1])
    }
}

/// The lobby that holds the first `n` of `listed`, put in one after the
/// other: each place, then each of its edges. Where a place or an edge is
/// listed again, the later one stays.
pub open spec fn graph_of(listed: Seq<NodeView>, n: int) -> Seq<NodeView>
    decreases n,
{
    if n <= 0 {
        Seq::empty()
    } else {
        let node = listed[n - 1];
        put_edges(
            put_node(graph_of(listed, n - 1), node.name),
            node.name,
            node.links,
            node.links.len() as int,
        )
    }
}

/// Nodes ascend strictly by name, and so do the links of each node by
/// destination: no place and no edge stands twice.
pub open spec fn graph_ok(nodes: Seq<NodeView>) -> bool {
    &&& names_ascending(node_keys(nodes))
    &&& forall|i: int|
        0 <= i < nodes.len() ==> names_ascending(link_keys((#[trigger] nodes[i]).links))
}

proof fn lemma_absent_unless_at_rank(names: Seq<Seq<char>>, key: Seq<char>)
    requires
        names_ascending(names),
        name_rank(names, key) >= names.len() || names[name_rank(names, key)] != key,
    ensures
        !names.contains(key),
{
    if names.contains(key) {
        let k = choose|k: int| 0 <= k < names.len() && names[k] == key;
        lemma_name_found_at_rank(names, key, k);
    }
}

fn link_rank(links: &Vec<Link>, key: &str) -> (p: usize)
    ensures
        p == name_rank(link_keys(links_view(links@)), key@),
        p <= links@.len(),
{
    let ghost keys = link_keys(links_view(links@));
    let mut p: usize = 0;
    while p < links.len() && name_less(links[p].dst.as_str(), key)
        invariant
            p <= links@.len(),
            keys == link_keys(links_view(links@)),
            name_rank(keys, key@) == name_rank_from(keys, key@, p as int),
        decreases links@.len() - p,
    {
        p += 1;
    }
    p
}

fn node_rank(nodes: &Vec<Node>, key: &str) -> (p: usize)
    ensures
        p == name_rank(node_keys(nodes_view(nodes@)), key@),
        p <= nodes@.len(),
{
    let ghost keys = node_keys(nodes_view(nodes@));
    let mut p: usize = 0;
    while p < nodes.len() && name_less(nodes[p].name.as_str(), key)
        invariant
            p <= nodes@.len(),
            keys == node_keys(nodes_view(nodes@)),
            name_rank(keys, key@) == name_rank_from(keys, key@, p as int),
        decreases nodes@.len() - p,
    {
        p += 1;
    }
    p
}

/// Puts `link` among `links`.
fn place_link(links: &mut Vec<Link>, link: Link)
    requires
        names_ascending(link_keys(links_view(old(links)@))),
    ensures
        links_view(final(links)@) == put_link(links_view(old(links)@), link@),
        names_ascending(link_keys(links_view(final(links)@))),
{
    let ghost before = links_view(links@);
    let ghost keys = link_keys(before);
    let ghost l = link@;
    let p = link_rank(links, link.dst.as_str());
    proof {
        lemma_name_rank(keys, l.dst, 0);
    }
    if p < links.len() && !name_less(link.dst.as_str(), links[p].dst.as_str()) {
        proof {
            lemma_name_lt_total(l.dst, keys[p as int]);
        }
        links.set(p, link);
        assert(links_view(links@) =~= before.update(p as int, l));
        assert(link_keys(links_view(links@)) =~= keys);
    } else {
        proof {
            if p < links@.len() {
                lemma_name_lt_total(l.dst, keys[p as int]);
            }
            lemma_absent_unless_at_rank(keys, l.dst);
            lemma_insert_keeps_ascending(keys, l.dst);
        }
        links.insert(p, link);
        assert(links_view(links@) =~= before.insert(p as int, l));
        assert(link_keys(links_view(links@)) =~= keys.insert(p as int, l.dst));
    }
}

/// A lobby by names. Places and edges are put in one by one; a place or an
/// edge that is put in again takes the place of the earlier one.
#[derive(Debug)]
pub struct Graph {
    nodes: Vec<Node>,
}

impl View for Graph {
    type V = Seq<NodeView>;

    closed spec fn view(&self) -> Seq<NodeView> {
        nodes_view(self.nodes@)
    }
}

impl Graph {
    /// The invariant of a graph: no place and no edge stands twice, and
    /// all are in ascending order of their names.
    pub open spec fn wf(&self) -> bool {
        graph_ok(self@)
    }

    /// A lobby without places.
    pub fn new() -> (g: Graph)
        ensures
            g.wf(),
            g@ == Seq::<NodeView>::empty(),
    {
        let g = Graph { nodes: Vec::new() };
        assert(g@ =~= Seq::<NodeView>::empty());
        g
    }

    /// Makes sure that there is a place called `name`.
    pub fn add_node(&mut self, name: String)
        requires
            old(self).wf(),
        ensures
            final(self).wf(),
            final(self)@ == put_node(old(self)@, name@),
    {
        let ghost before = self@;
        let ghost keys = node_keys(before);
        let p = node_rank(&self.nodes, name.as_str());
        proof {
            lemma_name_rank(keys, name@, 0);
        }
        if p < self.nodes.len() && !name_less(name.as_str(), self.nodes[p].name.as_str()) {
            proof {
                lemma_name_lt_total(name@, keys[p as int]);
            }
        } else {
            proof {
                if p < before.len() {
                    lemma_name_lt_total(name@, keys[p as int]);
                }
                lemma_absent_unless_at_rank(keys, name@);
                lemma_insert_keeps_ascending(keys, name@);
            }
            let ghost fresh = NodeView { name: name@, links: Seq::empty() };
            let node = Node { name, links: Vec::new() };
            assert(node@.links =~= Seq::<LinkView>::empty());
            self.nodes.insert(p, node);
            assert(self@ =~= before.insert(p as int, fresh));
            assert(node_keys(self@) =~= keys.insert(p as int, fresh.name));
            assert forall|i: int| 0 <= i < self@.len() implies names_ascending(
                link_keys((#[trigger] self@[i]).links),
            ) by {
                if i < p {
                    assert(self@[i] == before[i]);
                } else if i > p {
                    assert(self@[i] == before[i - 1]);
                }
            }
        }
    }

    /// Puts in the edge `link` from the place called `src`, and the place
    /// itself if it is not there yet.
    pub fn insert(&mut self, src: String, link: Link)
        requires
            old(self).wf(),
        ensures
            final(self).wf(),
            final(self)@ == put_edge(old(self)@, src@, link@),
    {
        let ghost name = src@;
        let ghost l = link@;
        let p = node_rank(&self.nodes, src.as_str());
        self.add_node(src);
        let ghost with_node = self@;
        let ghost keys = node_keys(with_node);
        proof {
            lemma_name_rank(node_keys(old(self)@), name, 0);
            assert(with_node[p as int].name == name);
            assert(keys[p as int] == name);
            lemma_name_found_at_rank(keys, name, p as int);
        }
        let mut node = self.nodes.remove(p);
        place_link(&mut node.links, link);
        let ghost changed = node@;
        self.nodes.insert(p, node);
        assert(self@ =~= with_node.update(p as int, changed));
        assert(node_keys(self@) =~= keys);
    }

    /// The lobby that holds the places and edges of `listed`, put in one
    /// after the other.
    pub fn from_nodes(listed: Vec<Node>) -> (g: Graph)
        ensures
            g.wf(),
            g@ == graph_of(nodes_view(listed@), listed@.len() as int),
    {
        let ghost all = nodes_view(listed@);
        let mut g = Graph::new();
        let mut i: usize = 0;
        while i < listed.len()
            invariant
                i <= listed.len(),
                all == nodes_view(listed@),
                g.wf(),
                g@ == graph_of(all, i as int),
            decreases listed.len() - i,
        {
            let node = &listed[i];
            assert(all[i as int] == node@);
            g.add_node(node.name.clone());
            let mut j: usize = 0;
            while j < node.links.len()
                invariant
                    j <= node.links.len(),
                    i < listed.len(),
                    all == nodes_view(listed@),
                    all[i as int] == node@,
                    g.wf(),
                    g@ == put_edges(
                        put_node(graph_of(all, i as int), node@.name),
                        node@.name,
                        node@.links,
                        j as int,
                    ),
                decreases node.links.len() - j,
            {
                let l = &node.links[j];
                assert(node@.links[j as int] == l@);
                let link = Link {
                    dst: l.dst.clone(),
                    cost: l.cost,
                    activates: copy_names(&l.activates),
                };
                g.insert(node.name.clone(), link);
                j += 1;
            }
            i += 1;
        }
        g
    }

    /// The places with their edges, in ascending order of their names.
    pub fn nodes(&self) -> (nodes: &Vec<Node>)
        ensures
            nodes_view(nodes@) == self@,
    {
        &self.nodes
    }
}

/// Among ascending names a name behind all of them has the last rank.
proof fn lemma_rank_behind_all(names: Seq<Seq<char>>, key: Seq<char>)
    requires
        names_ascending(names),
        forall|k: int| 0 <= k < names.len() ==> name_lt(#[trigger] names[k], key),
    ensures
        name_rank(names, key) == names.len(),
{
    lemma_name_rank(names, key, 0);
    let p = name_rank(names, key);
    if p < names.len() {
        assert(name_lt(names[p], key));
    }
}

/// Links put in in ascending order stand as they were put in.
proof fn lemma_put_edges_in_order(before: Seq<NodeView>, node: NodeView, n: int)
    requires
        graph_ok(before.push(node)),
        0 <= n <= node.links.len(),
    ensures
        put_edges(
            before.push(NodeView { name: node.name, links: Seq::empty() }),
            node.name,
            node.links,
            n,
        ) == before.push(NodeView { name: node.name, links: node.links.take(n) }),
    decreases n,
{
    let whole = before.push(node);
    let empty = before.push(NodeView { name: node.name, links: Seq::empty() });
    assert(whole[before.len() as int] == node);
    if n == 0 {
        assert(node.links.take(0) =~= Seq::<LinkView>::empty());
    } else {
        lemma_put_edges_in_order(before, node, n - 1);
        let so_far = node.links.take(n - 1);
        let x = before.push(NodeView { name: node.name, links: so_far });
        let l = node.links[n - 1];
        let p = before.len() as int;
        assert(node_keys(x) =~= node_keys(whole));
        lemma_name_found_at_rank(node_keys(x), node.name, p);
        assert(put_node(x, node.name) == x);
        assert forall|k: int| 0 <= k < so_far.len() implies name_lt(
            #[trigger] link_keys(so_far)[k],
            l.dst,
        ) by {
            assert(name_lt(link_keys(node.links)[k], link_keys(node.links)[n - 1]));
        }
        assert(names_ascending(link_keys(so_far))) by {
            assert forall|a: int, b: int| 0 <= a < b < so_far.len() implies name_lt(
                #[trigger] link_keys(so_far)[a],
                #[trigger] link_keys(so_far)[b],
            ) by {
                assert(name_lt(link_keys(node.links)[a], link_keys(node.links)[b]));
            }
        }
        lemma_rank_behind_all(link_keys(so_far), l.dst);
        assert(put_link(so_far, l) =~= node.links.take(n));
        assert(x.update(p, NodeView { name: node.name, links: node.links.take(n) })
            =~= before.push(NodeView { name: node.name, links: node.links.take(n) }));
    }
}

/// A lobby that is listed in order, no place and no edge twice, is the
/// lobby as listed.
pub proof fn lemma_graph_of_listed_in_order(listed: Seq<NodeView>, n: int)
    requires
        graph_ok(listed),
        0 <= n <= listed.len(),
    ensures
        graph_of(listed, n) == listed.take(n),
    decreases n,
{
    if n == 0 {
        assert(listed.take(0) =~= Seq::<NodeView>::empty());
    } else {
        lemma_graph_of_listed_in_order(listed, n - 1);
        let before = listed.take(n - 1);
        let node = listed[n - 1];
        assert(before.push(node) =~= listed.take(n));
        assert(graph_ok(before.push(node))) by {
            let t = before.push(node);
            assert forall|a: int, b: int| 0 <= a < b < t.len() implies name_lt(
                #[trigger] node_keys(t)[a],
                #[trigger] node_keys(t)[b],
            ) by {
                assert(name_lt(node_keys(listed)[a], node_keys(listed)[b]));
            }
            assert forall|i: int| 0 <= i < t.len() implies names_ascending(
                link_keys((#[trigger] t[i]).links),
            ) by {
                assert(t[i] == listed[i]);
            }
        }
        assert forall|k: int| 0 <= k < before.len() implies name_lt(
            #[trigger] node_keys(before)[k],
            node.name,
        ) by {
            assert(name_lt(node_keys(listed)[k], node_keys(listed)[n - 1]));
        }
        assert(names_ascending(node_keys(before))) by {
            assert forall|a: int, b: int| 0 <= a < b < before.len() implies name_lt(
                #[trigger] node_keys(before)[a],
                #[trigger] node_keys(before)[b],
            ) by {
                assert(name_lt(node_keys(listed)[a], node_keys(listed)[b]));
            }
        }
        lemma_rank_behind_all(node_keys(before), node.name);
        assert(put_node(before, node.name) =~= before.push(
            NodeView { name: node.name, links: Seq::empty() },
        ));
        lemma_put_edges_in_order(before, node, node.links.len() as int);
        assert(node.links.take(node.links.len() as int) =~= node.links);
    }
}

} // verus!
