use lobby_router::lobby::{route, Lobby};
use lobby_router::text::{plan_tours, Tours};

fn lobby(arcs: &[(u32, u32, u32)]) -> Lobby {
    let mut l = Lobby::new();
    for &(a, b, w) in arcs {
        l.insert(a, b, w);
    }
    l
}

#[test]
fn route_finds_every_tour_and_keeps_the_quickest() {
    let l = lobby(&[(1, 2, 10), (1, 3, 4), (2, 3, 1), (3, 2, 2), (2, 4, 7), (3, 4, 20)]);
    // 1-2-3-4: 10 + 1 + 20 = 31; 1-3-2-4: 4 + 2 + 7 = 13
    let (count, best) = route(&l, &1, &4, &5);
    assert_eq!(count, 2);
    assert_eq!(best, vec![(13, vec![1, 3, 2, 4]), (31, vec![1, 2, 3, 4])]);
    let (count, best) = route(&l, &1, &4, &1);
    assert_eq!(count, 2);
    assert_eq!(best, vec![(13, vec![1, 3, 2, 4])]);
    let (count, best) = route(&l, &1, &4, &0);
    assert_eq!(count, 2);
    assert!(best.is_empty());
}

#[test]
fn route_on_an_empty_lobby_finds_nothing() {
    let (count, best) = route(&Lobby::new(), &1, &2, &3);
    assert_eq!(count, 0);
    assert!(best.is_empty());
}

#[test]
fn tours_of_equal_cost_rank_by_their_places() {
    let l = lobby(&[(1, 2, 1), (1, 3, 1), (2, 3, 1), (3, 2, 1), (2, 4, 1), (3, 4, 1)]);
    let (count, best) = route(&l, &1, &4, &9);
    assert_eq!(count, 2);
    assert_eq!(best, vec![(3, vec![1, 2, 3, 4]), (3, vec![1, 3, 2, 4])]);
}

#[test]
fn a_later_arc_replaces_an_earlier_one() {
    let mut l = lobby(&[(1, 2, 10)]);
    l.insert(1, 2, 3);
    assert_eq!(l.get(1, 2), Some(3));
    assert_eq!(l.get(2, 1), None);
    assert_eq!(l.arcs().len(), 1);
    assert_eq!(l.nodes(), vec![1, 2]);
    assert_eq!(l.bounds(), Some((1, 2)));
    assert_eq!(Lobby::new().bounds(), None);
}

#[test]
fn restarts_are_put_in_where_no_arc_is() {
    let l = lobby(&[(1, 2, 10), (1, 3, 4), (2, 4, 7), (3, 2, 5)]);
    let full = l.with_restarts(1, 4).unwrap();
    // from the first place: to 2 in 10, to 3 in 4
    assert_eq!(full.get(1, 2), Some(10));
    assert_eq!(full.get(3, 2), Some(5)); // an arc of its own stays
    assert_eq!(full.get(2, 3), Some(4 + 69)); // back to 1, then to 3
    assert_eq!(full.get(4, 2), None); // not from the last place
    assert_eq!(full.get(4, 3), None);
    assert_eq!(full.get(2, 2), None); // not to itself
    assert_eq!(full.get(2, 4), Some(7));
    assert_eq!(full.get(3, 4), None); // the first place has no arc to 4
    assert_eq!(full.arcs().len(), 5);
}

#[test]
fn restarts_that_take_too_long_are_refused() {
    let l = lobby(&[(1, 2, u32::MAX - 68), (3, 4, 1)]);
    assert!(l.with_restarts(1, 4).is_none());
    let l = lobby(&[(1, 2, u32::MAX - 69), (3, 4, 1)]);
    assert_eq!(l.with_restarts(1, 4).unwrap().get(3, 2), Some(u32::MAX));
}

#[test]
fn tours_are_shown_with_and_without_times() {
    let l = lobby(&[(1, 2, 10), (1, 3, 4), (2, 3, 1), (3, 2, 2), (2, 4, 7), (3, 4, 20)]);
    match plan_tours(&l, 1, false) {
        Tours::Found { count, best } => {
            assert_eq!(count, 2);
            assert_eq!(best, vec![(13, b"1-3-2-4".to_vec())]);
        }
        other => panic!("{other:?}"),
    }
    match plan_tours(&l, 2, true) {
        Tours::Found { best, .. } => {
            assert_eq!(best[0], (13, b"1-<4>-3-<2>-2-<7>-4".to_vec()));
            assert_eq!(best[1], (31, b"1-<10>-2-<1>-3-<20>-4".to_vec()));
        }
        other => panic!("{other:?}"),
    }
    assert!(matches!(plan_tours(&Lobby::new(), 1, false), Tours::Empty));
    let long = lobby(&[(1, 2, u32::MAX), (3, 4, 1)]);
    assert!(matches!(plan_tours(&long, 1, false), Tours::TooLong));
}

#[test]
fn a_tour_can_go_back_to_the_first_place() {
    // 2 has no arc to 3; going back to 1 and on to 3 takes 4 + 69.
    let l = lobby(&[(1, 2, 10), (1, 3, 4), (3, 4, 1), (2, 4, 50), (3, 2, 100)]);
    match plan_tours(&l, 5, true) {
        Tours::Found { count, best } => {
            assert_eq!(count, 2);
            assert_eq!(best[0], (10 + 73 + 1, b"1-<10>-2-<73>-3-<1>-4".to_vec()));
            assert_eq!(best[1], (4 + 100 + 50, b"1-<4>-3-<100>-2-<50>-4".to_vec()));
        }
        other => panic!("{other:?}"),
    }
}

#[test]
fn the_table_has_a_row_for_each_place() {
    let l = lobby(&[(1, 2, 10), (2, 3, 5), (3, 1, 120)]);
    assert_eq!(l.table(1, 3), b",10,\n,,5\n120,,\n".to_vec());
    assert_eq!(l.info_table(), Some(b",10,\n,,5\n120,,\n".to_vec()));
    assert_eq!(lobby(&[(1, 2, 10)]).info_table(), None);
    assert_eq!(l.table(3, 1), b"".to_vec());
    assert_eq!(l.tour_string(&vec![], true), b"".to_vec());
    assert_eq!(l.tour_string(&vec![7], true), b"7".to_vec());
    assert_eq!(l.tour_string(&vec![1, 3, 1], true), b"13-<120>-1".to_vec());
    assert_eq!(l.tour_string(&vec![0, 4294967295], false), b"0-4294967295".to_vec());
}
