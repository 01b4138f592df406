use lobby_router::builder::SearcherBuilder;
use lobby_router::collector::{Collector, DEFAULT_COLLECT, MAX_COLLECT, MIN_COLLECT};
use lobby_router::error::LobbyError;
use lobby_router::graph::{Graph, Link, Node};
use lobby_router::index::{find_name, name_eq, PlaceName, VertexWarpSplit};
use lobby_router::names::{name_less, names_warp};
use lobby_router::place::Place::{Vertex, Warp};
use lobby_router::place::{entry_at_most, place_at_most, route_at_most, Place, ResultEntry};
use lobby_router::render::ShownRoute;
use lobby_router::report::{collect_limit, Report};
use lobby_router::searcher::{Edge, GraphError, Junction, Searcher, END_I, START_I};

fn entry(cost: u64, route: &[Place]) -> ResultEntry {
    ResultEntry { total_cost: cost, route: route.to_vec() }
}

fn link(dst: &str, cost: u64, activates: &[&str]) -> Link {
    Link {
        dst: dst.to_string(),
        cost,
        activates: activates.iter().map(|s| s.to_string()).collect(),
    }
}

fn graph(edges: &[(&str, &str, u64, &[&str])]) -> Graph {
    let mut g = Graph::new();
    for (src, dst, cost, acts) in edges {
        g.insert(src.to_string(), link(dst, *cost, acts));
    }
    g
}

fn edge(dst: usize, cost: u64, activates: &[usize]) -> Edge {
    Edge { dst, cost, activates: activates.to_vec() }
}

#[test]
fn places_and_routes_are_ranked() {
    assert!(place_at_most(Vertex(9), Warp(0)));
    assert!(!place_at_most(Warp(0), Vertex(9)));
    assert!(place_at_most(Vertex(1), Vertex(1)));
    assert!(!place_at_most(Warp(2), Warp(1)));
    assert!(route_at_most(&vec![], &vec![Vertex(0)]));
    assert!(!route_at_most(&vec![Vertex(0)], &vec![]));
    assert!(route_at_most(&vec![Vertex(0), Vertex(1)], &vec![Vertex(0), Warp(0)]));
    assert!(!route_at_most(&vec![Vertex(0), Vertex(2)], &vec![Vertex(0), Vertex(1), Vertex(5)]));
    assert!(entry_at_most(&entry(3, &[Warp(9)]), &entry(4, &[])));
    assert!(!entry_at_most(&entry(4, &[]), &entry(3, &[Warp(9)])));
    assert!(entry_at_most(&entry(4, &[Vertex(1)]), &entry(4, &[Vertex(1)])));
    // the order is that of the derived comparison
    assert!(Vertex(9) < Warp(0));
    assert!(vec![Vertex(0)] < vec![Vertex(0), Vertex(0)]);
}

#[test]
fn collector_keeps_the_cheapest_in_order() {
    let mut c = Collector::new(3);
    assert_eq!(c.capacity(), 3);
    for cost in [50u64, 10, 40, 10, 30, 60, 20] {
        c.send(entry(cost, &[Vertex(cost as usize)]));
        assert!(c.len() <= 3);
        assert!(c.count() >= c.len() as u64);
    }
    assert_eq!(c.count(), 7);
    assert_eq!(c.len(), 3);
    let best = c.into_sorted_vec();
    let costs: Vec<u64> = best.iter().map(|e| e.total_cost).collect();
    assert_eq!(costs, vec![10, 10, 20]);
}

#[test]
fn collector_breaks_ties_by_route() {
    let mut c = Collector::new(2);
    c.send(entry(5, &[Vertex(0), Warp(0)]));
    c.send(entry(5, &[Vertex(0), Vertex(7)]));
    c.send(entry(5, &[Vertex(0)]));
    let best = c.into_sorted_vec();
    assert_eq!(best, vec![entry(5, &[Vertex(0)]), entry(5, &[Vertex(0), Vertex(7)])]);
}

#[test]
fn an_entry_that_arrives_before_the_collector_is_full_is_kept_until_better_ones_come() {
    let mut c = Collector::new(2);
    c.send(entry(100, &[Vertex(1)]));
    assert_eq!(c.len(), 1);
    c.send(entry(90, &[Vertex(2)]));
    c.send(entry(95, &[Vertex(3)]));
    let costs: Vec<u64> = c.into_sorted_vec().iter().map(|e| e.total_cost).collect();
    assert_eq!(costs, vec![90, 95]);
}

#[test]
fn the_number_to_keep_is_brought_into_range() {
    assert_eq!(Collector::new(0).capacity(), MIN_COLLECT);
    assert_eq!(Collector::new(1).capacity(), 1);
    assert_eq!(Collector::new(1000).capacity(), 1000);
    assert_eq!(Collector::new(1001).capacity(), MAX_COLLECT);
    assert_eq!(Collector::new(usize::MAX).capacity(), 1000);
    assert_eq!(Collector::with_capacity(0).capacity(), 0);
    assert_eq!(Collector::with_capacity(5000).capacity(), 5000);
    assert_eq!(collect_limit(None), (DEFAULT_COLLECT, false));
    assert_eq!(collect_limit(None), (3, false));
    assert_eq!(collect_limit(Some(0)), (1, false));
    assert_eq!(collect_limit(Some(7)), (7, false));
    assert_eq!(collect_limit(Some(1000)), (1000, false));
    assert_eq!(collect_limit(Some(1001)), (1000, true));
}

#[test]
fn a_collector_without_room_only_counts() {
    let mut c = Collector::with_capacity(0);
    c.send(entry(1, &[]));
    c.send(entry(2, &[]));
    assert_eq!(c.count(), 2);
    assert!(c.into_sorted_vec().is_empty());
}

#[test]
fn merged_collectors_keep_the_best_of_both() {
    let mut a = Collector::new(3);
    let mut b = Collector::new(4);
    for cost in [9u64, 3, 7] {
        a.send(entry(cost, &[Vertex(1)]));
    }
    for cost in [8u64, 1, 6, 2, 5] {
        b.send(entry(cost, &[Vertex(2)]));
    }
    a.merge(b);
    assert_eq!(a.count(), 8);
    assert_eq!(a.capacity(), 3);
    let costs: Vec<u64> = a.into_sorted_vec().iter().map(|e| e.total_cost).collect();
    assert_eq!(costs, vec![1, 2, 3]);
}

#[test]
fn names_are_ordered_by_character() {
    assert!(name_less("", "0"));
    assert!(name_less("10", "2"));
    assert!(name_less("2", "20"));
    assert!(name_less("9", "A"));
    assert!(name_less("Z", "a"));
    assert!(name_less("z", "é"));
    assert!(!name_less("a", "a"));
    assert!(!name_less("b", "a"));
    assert!(name_eq("abc", "abc"));
    assert!(!name_eq("abc", "abd"));
    assert!(!name_eq("abc", "ab"));
    assert!(names_warp("A"));
    assert!(names_warp("warp"));
    assert!(names_warp("é"));
    assert!(!names_warp(""));
    assert!(!names_warp("9A"));
    assert!(!names_warp("@"));
    let names = vec!["x".to_string(), "y".to_string(), "x".to_string()];
    assert_eq!(find_name(&names, "x"), Some(0));
    assert_eq!(find_name(&names, "y"), Some(1));
    assert_eq!(find_name(&names, "z"), None);
}

#[test]
fn a_graph_keeps_places_and_edges_in_order() {
    let mut g = graph(&[("2", "9", 1, &[]), ("10", "2", 5, &[]), ("2", "10", 3, &["B"])]);
    g.add_node("B".to_string());
    g.add_node("2".to_string());
    g.insert("2".to_string(), link("9", 4, &[]));
    let expect = vec![
        Node { name: "10".to_string(), links: vec![link("2", 5, &[])] },
        Node { name: "2".to_string(), links: vec![link("10", 3, &["B"]), link("9", 4, &[])] },
        Node { name: "B".to_string(), links: vec![] },
    ];
    assert_eq!(g.nodes(), &expect);
    let again = Graph::from_nodes(vec![
        Node { name: "B".to_string(), links: vec![] },
        Node { name: "2".to_string(), links: vec![link("9", 1, &[]), link("10", 3, &["B"])] },
        Node { name: "10".to_string(), links: vec![link("2", 5, &[])] },
        Node { name: "2".to_string(), links: vec![link("9", 4, &[])] },
    ]);
    assert_eq!(again.nodes(), &expect);
}

#[test]
fn a_lobby_is_split_into_vertices_and_warps() {
    let g = graph(&[
        ("0", "1", 1, &[]),
        ("0", "B", 2, &["A"]),
        ("0", "9", 3, &[]),
        ("1", "A", 4, &[]),
        ("B", "1", 5, &[]),
        ("B", "A", 6, &[]),
        ("B", "9", 7, &[]),
    ]);
    let split = VertexWarpSplit::from_graph(g);
    let names: Vec<&str> = split.v().iter().map(|f| f.name.as_str()).collect();
    assert_eq!(names, vec!["0", "1"]);
    assert_eq!(split.v()[0].to_vertices, vec![link("1", 1, &[]), link("9", 3, &[])]);
    assert_eq!(split.v()[0].to_warps, vec![link("B", 2, &["A"])]);
    assert_eq!(split.v()[1].to_vertices, vec![]);
    assert_eq!(split.v()[1].to_warps, vec![link("A", 4, &[])]);
    assert_eq!(split.w().len(), 1);
    assert_eq!(split.w()[0].name, "B");
    // the edge from a warp into a warp is dropped
    assert_eq!(split.w()[0].links, vec![link("1", 5, &[]), link("9", 7, &[])]);

    let pn = PlaceName::new(&split).unwrap();
    assert_eq!(pn.inters(), &vec!["0".to_string(), "1".to_string()]);
    assert_eq!(pn.end(), "9");
    // warps in ascending order, though B is met first
    assert_eq!(pn.warps(), &vec!["A".to_string(), "B".to_string()]);
    assert_eq!(pn.name(Place::Vertex(0)), "0");
    assert_eq!(pn.name(Place::Vertex(1)), "1");
    assert_eq!(pn.name(Place::Vertex(2)), "9");
    assert_eq!(pn.name(Place::Vertex(END_I)), "9");
    assert_eq!(pn.name(Place::Warp(1)), "B");
    assert_eq!(pn.path(&vec![Place::Vertex(0), Place::Warp(1), Place::Warp(0), Place::Vertex(END_I)]), "0-B-A-9");
    assert_eq!(pn.path(&vec![]), "");
    assert_eq!(pn.path(&vec![Place::Vertex(1)]), "1");
    assert_eq!(
        pn.show(&entry(12, &[Place::Vertex(0), Place::Vertex(END_I)])),
        ShownRoute { total_cost: 12, path: "0-9".to_string() }
    );
}

#[test]
fn names_become_indices() {
    let g = graph(&[
        ("0", "1", 1, &[]),
        ("0", "B", 2, &["A", "B"]),
        ("0", "9", 3, &[]),
        ("1", "A", 4, &["B"]),
        ("B", "1", 5, &["A"]),
        ("B", "9", 7, &[]),
    ]);
    let split = VertexWarpSplit::from_graph(g);
    let (_, s) = SearcherBuilder::new(&split).thread_num(2).build().unwrap();
    assert_eq!(s.thread_num(), Some(2));
    assert_eq!(s.vertex_num(), 2);
    assert_eq!(s.warp_num(), 2);
    assert_eq!(
        s.junction(0),
        &Junction {
            to_vertices: vec![edge(1, 1, &[]), edge(END_I, 3, &[])],
            to_warps: vec![edge(1, 2, &[0, 1])],
        }
    );
    assert_eq!(
        s.junction(1),
        &Junction { to_vertices: vec![], to_warps: vec![edge(0, 4, &[1])] }
    );
    assert_eq!(s.exits(0), &vec![]);
    assert_eq!(s.exits(1), &vec![edge(1, 5, &[0]), edge(END_I, 7, &[])]);
}

#[test]
fn a_searcher_is_validated() {
    let ok = Junction { to_vertices: vec![edge(END_I, 1, &[0])], to_warps: vec![edge(0, 1, &[])] };
    assert!(Searcher::new(vec![ok.clone()], vec![vec![edge(0, 2, &[])]]).is_ok());
    let bad_vertex = Junction { to_vertices: vec![edge(1, 1, &[])], to_warps: vec![] };
    assert_eq!(Searcher::new(vec![bad_vertex], vec![]).err(), Some(GraphError::IndexOutOfRange));
    let bad_warp = Junction { to_vertices: vec![], to_warps: vec![edge(0, 1, &[])] };
    assert_eq!(Searcher::new(vec![bad_warp], vec![]).err(), Some(GraphError::IndexOutOfRange));
    let bad_activation = Junction { to_vertices: vec![edge(END_I, 1, &[3])], to_warps: vec![] };
    assert_eq!(
        Searcher::new(vec![bad_activation], vec![vec![]]).err(),
        Some(GraphError::IndexOutOfRange)
    );
    let bad_exit = Junction { to_vertices: vec![], to_warps: vec![] };
    assert_eq!(
        Searcher::new(vec![bad_exit], vec![vec![edge(5, 1, &[])]]).err(),
        Some(GraphError::IndexOutOfRange)
    );
    let costly = Junction { to_vertices: vec![edge(END_I, u64::MAX / 2, &[])], to_warps: vec![] };
    assert_eq!(Searcher::new(vec![costly], vec![]).err(), Some(GraphError::CostOverflow));
    let just = Junction {
        to_vertices: vec![edge(END_I, (u64::MAX - 138) / 2, &[])],
        to_warps: vec![],
    };
    assert!(Searcher::new(vec![just], vec![]).is_ok());
    assert!(Searcher::new(vec![], vec![]).is_ok());
}

#[test]
fn an_empty_lobby_has_no_routes() {
    let s = Searcher::new(vec![], vec![vec![edge(END_I, 1, &[])]]).unwrap();
    let mut c = Collector::new(3);
    s.search(&mut c);
    assert_eq!(c.count(), 0);
    let split = VertexWarpSplit::from_graph(graph(&[("W", "9", 1, &[])]));
    let (pn, s) = SearcherBuilder::new(&split).build().unwrap();
    assert!(matches!(s.report(&pn, 3), Report::NoRoutes));
    let split = VertexWarpSplit::from_graph(Graph::new());
    assert_eq!(SearcherBuilder::new(&split).build().err(), Some(LobbyError::NoUniqueEnd));
}

fn big() -> (PlaceName, Searcher) {
    let g = graph(&[
        ("0", "1", 4, &[]),
        ("0", "2", 6, &["B"]),
        ("0", "3", 9, &[]),
        ("0", "A", 5, &["B"]),
        ("1", "2", 3, &[]),
        ("1", "3", 2, &["A"]),
        ("1", "9", 20, &[]),
        ("1", "A", 1, &[]),
        ("2", "1", 2, &[]),
        ("2", "3", 7, &[]),
        ("2", "9", 11, &[]),
        ("3", "1", 8, &[]),
        ("3", "2", 1, &[]),
        ("3", "9", 5, &[]),
        ("3", "B", 2, &["A"]),
        ("A", "2", 1, &[]),
        ("A", "9", 30, &[]),
        ("B", "1", 2, &[]),
        ("B", "3", 4, &[]),
        ("B", "9", 3, &[]),
    ]);
    let split = VertexWarpSplit::from_graph(g);
    SearcherBuilder::new(&split).build().unwrap()
}

#[test]
fn every_route_visits_every_vertex_once() {
    let (_, s) = big();
    let mut c = Collector::new(1000);
    s.search(&mut c);
    let n = c.count();
    let all = c.into_sorted_vec();
    assert_eq!(all.len() as u64, n);
    assert!(n >= 6);
    for e in &all {
        assert_eq!(e.route.first(), Some(&Place::Vertex(START_I)));
        assert_eq!(e.route.last(), Some(&Place::Vertex(END_I)));
        for v in 0..s.vertex_num() {
            let times = e.route.iter().filter(|p| **p == Place::Vertex(v)).count();
            if v == START_I {
                assert!(times >= 1);
            } else {
                assert_eq!(times, 1);
            }
        }
        assert_eq!(e.route.iter().filter(|p| **p == Place::Vertex(END_I)).count(), 1);
    }
    for pair in all.windows(2) {
        assert!(pair[0].total_cost <= pair[1].total_cost);
        assert!(entry_at_most(&pair[0], &pair[1]));
    }
}

#[test]
fn searching_twice_gives_the_same_routes() {
    let (pn, s) = big();
    let first = s.report(&pn, 4);
    let second = s.report(&pn, 4);
    match (first, second) {
        (Report::Routes { found: f1, best: b1 }, Report::Routes { found: f2, best: b2 }) => {
            assert_eq!(f1, f2);
            assert_eq!(b1, b2);
            assert_eq!(b1.len(), 4);
            assert!(f1 >= b1.len() as u64);
        }
        _ => panic!("routes expected"),
    }
}

#[test]
fn the_cheapest_route_of_a_small_lobby() {
    // 0 -> 1 -> 2 -> end and 0 -> 2 -> 1 -> end
    let g = graph(&[
        ("0", "1", 4, &[]),
        ("0", "2", 6, &[]),
        ("1", "2", 3, &[]),
        ("2", "1", 2, &[]),
        ("1", "9", 20, &[]),
        ("2", "9", 11, &[]),
    ]);
    let split = VertexWarpSplit::from_graph(g);
    let (pn, s) = SearcherBuilder::new(&split).build().unwrap();
    match s.report(&pn, 0) {
        Report::Routes { found, best } => {
            assert_eq!(found, 2);
            assert_eq!(best, vec![ShownRoute { total_cost: 18, path: "0-1-2-9".to_string() }]);
        }
        Report::NoRoutes => panic!("routes expected"),
    }
    match s.report(&pn, 5) {
        Report::Routes { found, best } => {
            assert_eq!(found, 2);
            assert_eq!(
                best,
                vec![
                    ShownRoute { total_cost: 18, path: "0-1-2-9".to_string() },
                    ShownRoute { total_cost: 28, path: "0-2-1-9".to_string() },
                ]
            );
        }
        Report::NoRoutes => panic!("routes expected"),
    }
}

#[test]
fn warps_are_used_only_where_no_direct_edge_can_be_taken() {
    // From 0 the direct edge to 1 can be taken, so the warp A is not entered there.
    // From 1 nothing direct leads on: the route enters A, which makes B active,
    // and leaves through B to 2.
    let g = graph(&[
        ("0", "1", 4, &[]),
        ("0", "A", 1, &["B"]),
        ("1", "A", 2, &["B"]),
        ("B", "2", 3, &[]),
        ("2", "9", 5, &[]),
    ]);
    let split = VertexWarpSplit::from_graph(g);
    let (pn, s) = SearcherBuilder::new(&split).build().unwrap();
    match s.report(&pn, 5) {
        Report::Routes { found, best } => {
            assert_eq!(found, 1);
            assert_eq!(
                best,
                vec![ShownRoute { total_cost: 4 + 2 + 69 + 3 + 5, path: "0-1-A-B-2-9".to_string() }]
            );
        }
        Report::NoRoutes => panic!("routes expected"),
    }
}

#[test]
fn an_activation_lasts_for_the_rest_of_the_route() {
    // The edge 0 -> 1 makes B active; the warp edge 1 -> A activates nothing.
    let g = graph(&[
        ("0", "1", 4, &["B"]),
        ("1", "A", 2, &[]),
        ("B", "2", 3, &[]),
        ("2", "9", 5, &[]),
    ]);
    let split = VertexWarpSplit::from_graph(g);
    let (pn, s) = SearcherBuilder::new(&split).build().unwrap();
    match s.report(&pn, 5) {
        Report::Routes { found, best } => {
            assert_eq!(found, 1);
            assert_eq!(best[0], ShownRoute { total_cost: 83, path: "0-1-A-B-2-9".to_string() });
        }
        Report::NoRoutes => panic!("routes expected"),
    }
    // Without the activation the search goes back to the start, from where nothing leads on.
    let g = graph(&[
        ("0", "1", 4, &[]),
        ("1", "A", 2, &[]),
        ("B", "2", 3, &[]),
        ("2", "9", 5, &[]),
    ]);
    let split = VertexWarpSplit::from_graph(g);
    let (pn, s) = SearcherBuilder::new(&split).build().unwrap();
    assert!(matches!(s.report(&pn, 5), Report::NoRoutes));
}

fn step_cost(s: &Searcher, a: Place, b: Place) -> u64 {
    match b {
        Vertex(d) if d == START_I => 69,
        Vertex(d) => {
            let edges = match a {
                Vertex(v) => &s.junction(v).to_vertices,
                Warp(w) => s.exits(w),
            };
            edges.iter().find(|e| e.dst == d).unwrap().cost
        }
        Warp(_) => match a {
            Vertex(v) => s.junction(v).to_warps[0].cost + 69,
            Warp(_) => 0,
        },
    }
}

#[test]
fn every_route_costs_what_its_steps_cost() {
    let (_, s) = big();
    let mut c = Collector::new(1000);
    s.search(&mut c);
    let all = c.into_sorted_vec();
    assert!(all.len() >= 6);
    let mut with_warps = 0;
    let mut with_restarts = 0;
    for e in &all {
        let steps: u64 = e.route.windows(2).map(|p| step_cost(&s, p[0], p[1])).sum();
        assert_eq!(e.total_cost, steps);
        if e.route.iter().any(|p| matches!(p, Warp(_))) {
            with_warps += 1;
        }
        if e.route.iter().skip(1).any(|p| *p == Vertex(START_I)) {
            with_restarts += 1;
        }
    }
    assert!(with_warps + with_restarts > 0);
}
