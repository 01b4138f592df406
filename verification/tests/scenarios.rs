use lobby_router::builder::SearcherBuilder;
use lobby_router::collector::Collector;
use lobby_router::error::LobbyError;
use lobby_router::graph::{Graph, Link};
use lobby_router::index::{PlaceName, VertexWarpSplit};
use lobby_router::place::ResultEntry;
use lobby_router::report::Report;
use lobby_router::searcher::Searcher;

fn link(dst: &str, cost: u64, activates: &[&str]) -> Link {
    Link {
        dst: dst.to_string(),
        cost,
        activates: activates.iter().map(|s| s.to_string()).collect(),
    }
}

fn lobby(edges: &[(&str, &str, u64, &[&str])]) -> Result<(PlaceName, Searcher), LobbyError> {
    let mut g = Graph::new();
    for (src, dst, cost, acts) in edges {
        g.insert(src.to_string(), link(dst, *cost, acts));
    }
    let split = VertexWarpSplit::from_graph(g);
    SearcherBuilder::new(&split).build()
}

fn run(pn: &PlaceName, s: &Searcher, k: usize) -> (u64, Vec<(u64, String)>) {
    let mut c = Collector::new(k);
    s.search(&mut c);
    let total = c.count();
    let best: Vec<ResultEntry> = c.into_sorted_vec();
    (total, best.iter().map(|e| (e.total_cost, pn.path(&e.route))).collect())
}

#[test]
fn two_places_one_direct_edge() {
    let (pn, s) = lobby(&[("0", "9", 10, &[])]).unwrap();
    let (total, best) = run(&pn, &s, 3);
    assert_eq!(total, 1);
    assert_eq!(best, vec![(10, "0-9".to_string())]);
    match s.report(&pn, 3) {
        Report::Routes { found, best } => {
            assert_eq!(found, 1);
            assert_eq!(best.len(), 1);
            assert_eq!(best[0].total_cost, 10);
            assert_eq!(best[0].path, "0-9");
        }
        Report::NoRoutes => panic!("a route expected"),
    }
}

#[test]
fn a_warp_gives_a_second_way_to_finish() {
    let (pn, s) = lobby(&[
        ("0", "9", 10, &[]),
        ("0", "A", 5, &["W"]),
        ("W", "9", 3, &[]),
    ])
    .unwrap();
    let (total, best) = run(&pn, &s, 3);
    assert_eq!(total, 2);
    assert_eq!(best, vec![(10, "0-9".to_string()), (5 + 69 + 3, "0-A-W-9".to_string())]);
    assert_eq!(best[1].0, 77);
}

#[test]
fn the_warp_just_entered_is_not_left_through() {
    let (pn, s) = lobby(&[
        ("0", "9", 10, &[]),
        ("0", "W", 5, &["W"]),
        ("W", "9", 3, &[]),
    ])
    .unwrap();
    let (total, best) = run(&pn, &s, 3);
    assert_eq!(total, 1);
    assert_eq!(best, vec![(10, "0-9".to_string())]);
}

#[test]
fn keeping_one_route_keeps_the_cheaper() {
    let (pn, s) = lobby(&[
        ("0", "9", 10, &[]),
        ("0", "A", 5, &["W"]),
        ("W", "9", 3, &[]),
    ])
    .unwrap();
    let (total, best) = run(&pn, &s, 1);
    assert_eq!(total, 2);
    assert_eq!(best, vec![(10, "0-9".to_string())]);
}

#[test]
fn no_way_to_the_end_gives_no_routes() {
    let (pn, s) = lobby(&[
        ("0", "1", 5, &[]),
        ("1", "0", 5, &[]),
        ("W", "9", 3, &[]),
    ])
    .unwrap();
    let (total, best) = run(&pn, &s, 3);
    assert_eq!(total, 0);
    assert!(best.is_empty());
    assert!(matches!(s.report(&pn, 3), Report::NoRoutes));
}

#[test]
fn restart_costs_69() {
    // 0 -> 1 -> (restart) -> 2 -> 9; vertex 1 has no way on.
    let (pn, s) = lobby(&[
        ("0", "1", 4, &[]),
        ("0", "2", 6, &[]),
        ("2", "9", 1, &[]),
        ("1", "9", 100, &[]),
        ("2", "1", 2, &[]),
    ])
    .unwrap();
    let (total, best) = run(&pn, &s, 5);
    // 0-1-0-2-9: 4 + 69 + 6 + 1; 0-2-1-9: 6 + 2 + 100
    assert_eq!(total, 2);
    assert_eq!(
        best,
        vec![(80, "0-1-0-2-9".to_string()), (108, "0-2-1-9".to_string())]
    );
}

#[test]
fn two_end_names_are_rejected() {
    assert_eq!(
        lobby(&[("0", "8", 1, &[]), ("0", "9", 1, &[])]).err(),
        Some(LobbyError::NoUniqueEnd)
    );
}

#[test]
fn no_end_name_is_rejected() {
    assert_eq!(
        lobby(&[("0", "1", 1, &[]), ("1", "0", 1, &[])]).err(),
        Some(LobbyError::NoUniqueEnd)
    );
}

#[test]
fn unknown_activation_is_rejected() {
    assert_eq!(
        lobby(&[("0", "9", 1, &["Nowhere"])]).err(),
        Some(LobbyError::UnknownWarp)
    );
}

#[test]
fn costs_too_large_are_rejected() {
    assert_eq!(
        lobby(&[("0", "9", u64::MAX, &[])]).err(),
        Some(LobbyError::CostOverflow)
    );
}
