use lobby_router::builder::SearcherBuilder;
use lobby_router::collector::Collector;
use lobby_router::fork::{grow, should_fork, SearchTask};
use lobby_router::graph::Graph;
use lobby_router::graph::Link as NamedLink;
use lobby_router::index::VertexWarpSplit;
use lobby_router::json::parse_lobby;
use lobby_router::place::Place;
use lobby_router::report::Report;
use lobby_router::searcher::Searcher;

const LOBBY: &str = r#"{
    "0": {"1": [4, []], "2": [6, ["B"]], "3": [9, []], "A": [5, ["B"]]},
    "1": {"2": [3, []], "3": [2, ["A"]], "9": [20, []], "A": [1, []]},
    "2": {"1": [2, []], "3": [7, []], "9": [11, []]},
    "3": {"1": [8, []], "2": [1, []], "9": [5, []], "B": [2, ["A"]]},
    "A": {"2": [1, []], "9": [30, []]},
    "B": {"1": [2, []], "3": [4, []], "9": [3, []]}
}"#;

fn searcher(workers: Option<usize>) -> Searcher {
    let g: Graph = parse_lobby(LOBBY).unwrap();
    let split = VertexWarpSplit::from_graph(g);
    let b = SearcherBuilder::new(&split);
    let b = match workers {
        Some(n) => b.thread_num(n),
        None => b,
    };
    b.build().unwrap().1
}

fn in_one_piece(k: usize) -> (u64, Vec<(u64, Vec<lobby_router::place::Place>)>) {
    let s = searcher(None);
    let mut c = Collector::new(k);
    s.search(&mut c);
    let n = c.count();
    (n, c.into_sorted_vec().into_iter().map(|e| (e.total_cost, e.route)).collect())
}

#[test]
fn forked_search_finds_what_the_search_in_one_piece_finds() {
    let (n, best) = in_one_piece(1000);
    assert!(n > 3);
    for workers in [0usize, 1, 2, 8, 1000] {
        let s = searcher(None);
        let mut c = Collector::new(1000);
        s.search_forked(workers, &mut c);
        assert_eq!(c.count(), n);
        let forked: Vec<_> =
            c.into_sorted_vec().into_iter().map(|e| (e.total_cost, e.route)).collect();
        assert_eq!(forked, best);
    }
}

#[test]
fn tasks_run_in_any_order_and_collectors_merge() {
    let (n, best) = in_one_piece(4);
    let s = searcher(None);
    let mut first = Collector::new(4);
    let mut tasks: Vec<SearchTask> = Vec::new();
    s.start(3, &mut first, &mut tasks);
    assert!(!tasks.is_empty());
    let mut second = Collector::new(4);
    let mut turn = 0;
    while !tasks.is_empty() {
        // take tasks from the front, and share them between two collectors
        let t = tasks.remove(0);
        turn += 1;
        if turn % 2 == 0 {
            s.run_task(t, 3, &mut first, &mut tasks);
        } else {
            s.run_task(t, 3, &mut second, &mut tasks);
        }
    }
    first.merge(second);
    assert_eq!(first.count(), n);
    let merged: Vec<_> =
        first.into_sorted_vec().into_iter().map(|e| (e.total_cost, e.route)).collect();
    assert_eq!(merged, best);
}

#[test]
fn report_does_not_depend_on_workers() {
    let g: Graph = parse_lobby(LOBBY).unwrap();
    let split = VertexWarpSplit::from_graph(g);
    let (pn, s) = SearcherBuilder::new(&split).build().unwrap();
    let (pn4, s4) = SearcherBuilder::new(&split).thread_num(4).build().unwrap();
    assert_eq!(s.thread_num(), None);
    assert_eq!(s4.thread_num(), Some(4));
    match (s.report(&pn, 3), s4.report(&pn4, 3)) {
        (Report::Routes { found, best }, Report::Routes { found: f4, best: b4 }) => {
            assert_eq!(found, f4);
            assert_eq!(best, b4);
            assert_eq!(best.len(), 3);
            assert!(best[0].total_cost <= best[1].total_cost);
            assert!(best[1].total_cost <= best[2].total_cost);
            assert!(best[0].path.starts_with("0-"));
            assert!(best[0].path.ends_with("-9"));
        }
        _ => panic!("routes expected"),
    }
}

#[test]
fn fork_while_little_work_is_handed_out() {
    assert!(should_fork(1, 3, 1));
    assert!(should_fork(1, 31, 1));
    assert!(!should_fork(1, 32, 1));
    assert!(!should_fork(8, 4, 1));
    assert!(should_fork(8, 4, 2));
    assert!(!should_fork(1, 1, 0));
    assert!(!should_fork(u64::MAX, usize::MAX, usize::MAX));
    assert_eq!(grow(3, 4), 12);
    assert_eq!(grow(u64::MAX, 2), u64::MAX);
    assert_eq!(grow(7, 0), 0);
}

#[test]
fn json_that_is_no_lobby_is_malformed() {
    assert_eq!(parse_lobby("{").err(), Some(lobby_router::error::LobbyError::Malformed));
    assert_eq!(
        parse_lobby(r#"{"0": {"9": [-1, []]}}"#).err(),
        Some(lobby_router::error::LobbyError::Malformed)
    );
    assert_eq!(
        parse_lobby(r#"{"0": ["9"]}"#).err(),
        Some(lobby_router::error::LobbyError::Malformed)
    );
}

#[test]
fn json_lobby_is_read_in_order_of_names() {
    let g = parse_lobby(r#"{"2": {"9": [1, ["B", "A"]], "10": [2, []]}, "10": {}, "B": {"2": [3, []]}}"#)
        .unwrap();
    let names: Vec<&str> = g.nodes().iter().map(|n| n.name.as_str()).collect();
    assert_eq!(names, vec!["10", "2", "B"]);
    let two = &g.nodes()[1];
    assert_eq!(
        two.links,
        vec![
            NamedLink { dst: "10".to_string(), cost: 2, activates: vec![] },
            NamedLink {
                dst: "9".to_string(),
                cost: 1,
                activates: vec!["B".to_string(), "A".to_string()]
            },
        ]
    );
}

#[test]
fn a_branching_below_the_threshold_is_handed_out_edge_by_edge() {
    let s = searcher(None);
    let mut c = Collector::new(10);
    let mut tasks: Vec<SearchTask> = Vec::new();
    s.start(1, &mut c, &mut tasks);
    // three direct edges leave the start: 1 * 3 < 1 * 32
    assert_eq!(c.count(), 0);
    assert_eq!(tasks.len(), 3);
    let seen: Vec<(usize, usize, u64, u64)> =
        tasks.iter().map(|t| (t.vertex, t.unexpl, t.excur, t.extent)).collect();
    assert_eq!(seen, vec![(1, 2, 4, 3), (2, 2, 6, 3), (3, 2, 9, 3)]);
    assert_eq!(tasks[0].state.route, vec![Place::Vertex(0), Place::Vertex(1)]);
    assert_eq!(tasks[0].state.active_warps, vec![0, 0]);
    assert_eq!(tasks[1].state.route, vec![Place::Vertex(0), Place::Vertex(2)]);
    assert_eq!(tasks[1].state.active_warps, vec![0, 1]);

    // beyond the first branching the extent is 3; two more edges would make 6 < 32
    let first = tasks.remove(0);
    let mut more: Vec<SearchTask> = Vec::new();
    s.run_task(first, 1, &mut c, &mut more);
    assert_eq!(c.count(), 0);
    let seen: Vec<(usize, usize, u64, u64)> =
        more.iter().map(|t| (t.vertex, t.unexpl, t.excur, t.extent)).collect();
    // vertex 1 has direct edges to 2, 3 and the end: three edges, two of which can be entered
    assert_eq!(seen, vec![(2, 1, 7, 9), (3, 1, 6, 9)]);
    assert_eq!(more[1].state.active_warps, vec![1, 0]);
}

#[test]
fn nothing_is_handed_out_once_enough_is() {
    let s = searcher(None);
    let (n, _) = in_one_piece(10);
    let mut c = Collector::new(10);
    let mut tasks: Vec<SearchTask> = Vec::new();
    s.start(0, &mut c, &mut tasks);
    assert!(tasks.is_empty());
    assert_eq!(c.count(), n);

    let mut c = Collector::new(10);
    let task = SearchTask {
        vertex: 0,
        unexpl: 3,
        excur: 0,
        extent: 64,
        state: {
            let mut st = lobby_router::search::SearchState::new(2);
            st.route.push(Place::Vertex(0));
            st
        },
    };
    s.run_task(task, 2, &mut c, &mut tasks);
    assert!(tasks.is_empty());
    assert!(c.count() > 0);
}
