use lobby_router::collector::Collector;
use lobby_router::place::Place;
use lobby_router::search::SearchState;
use lobby_router::searcher::{Edge, Junction, Searcher, END_I, START_I};

fn edge(dst: usize, cost: u64, activates: &[usize]) -> Edge {
    Edge { dst, cost, activates: activates.to_vec() }
}

#[test]
fn direct_edge_to_end_is_the_only_route() {
    let s = Searcher::new(
        vec![Junction { to_vertices: vec![edge(END_I, 10, &[])], to_warps: vec![] }],
        vec![],
    )
    .unwrap();
    let mut c = Collector::new(3);
    s.search(&mut c);
    assert_eq!(c.count(), 1);
    let best = c.into_sorted_vec();
    assert_eq!(best.len(), 1);
    assert_eq!(best[0].total_cost, 10);
    assert_eq!(best[0].route, vec![Place::Vertex(START_I), Place::Vertex(END_I)]);
}

#[test]
fn state_is_restored_after_search_place() {
    let s = Searcher::new(
        vec![
            Junction { to_vertices: vec![edge(1, 4, &[0])], to_warps: vec![edge(0, 5, &[1])] },
            Junction { to_vertices: vec![edge(END_I, 2, &[])], to_warps: vec![edge(0, 1, &[1])] },
        ],
        vec![vec![edge(1, 7, &[])], vec![edge(END_I, 3, &[])]],
    )
    .unwrap();
    let mut st = SearchState::new(s.warp_num());
    st.route.push(Place::Vertex(START_I));
    let mut c = Collector::new(10);
    s.search_place(START_I, s.vertex_num() - 1, 0, &mut st, &mut c);
    assert_eq!(st.route, vec![Place::Vertex(START_I)]);
    assert_eq!(st.active_warps, vec![0, 0]);
    assert!(c.count() >= 1);
}

#[test]
fn state_is_restored_at_every_depth() {
    // Every vertex leads to every other; A and B are entered and left along the way.
    let s = Searcher::new(
        vec![
            Junction {
                to_vertices: vec![edge(1, 4, &[1]), edge(2, 6, &[0, 1]), edge(END_I, 9, &[])],
                to_warps: vec![edge(0, 5, &[1, 1])],
            },
            Junction { to_vertices: vec![edge(END_I, 2, &[])], to_warps: vec![edge(1, 1, &[0])] },
            Junction { to_vertices: vec![edge(1, 3, &[])], to_warps: vec![edge(0, 1, &[1])] },
        ],
        vec![vec![edge(2, 7, &[1])], vec![edge(1, 3, &[0]), edge(2, 2, &[]), edge(END_I, 3, &[])]],
    )
    .unwrap();
    let mut st = SearchState::new(s.warp_num());
    st.route.push(Place::Vertex(START_I));
    st.active_warps[1] = 5;
    let mut c = Collector::new(100);
    s.search_place(START_I, s.vertex_num() - 1, 1000, &mut st, &mut c);
    assert_eq!(st.route, vec![Place::Vertex(START_I)]);
    assert_eq!(st.active_warps, vec![0, 5]);
    assert!(c.count() >= 2);
    for e in c.into_sorted_vec() {
        assert!(e.total_cost > 1000);
        assert_eq!(e.route[0], Place::Vertex(START_I));
    }
}
