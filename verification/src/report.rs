//! The outcome of a search as it is reported: how many routes there are,
//! and the best of them by name.

use vstd::prelude::*;
use crate::collector::{
    clamp_collect, entries_view, lemma_top_k_members, top_k, Collector, DEFAULT_COLLECT,
    MAX_COLLECT,
};
use crate::index::{PlaceName, PlaceNameView};
use crate::invariants::within;
use crate::place::EntryView;
use crate::render::{nameable, shown, ShownRoute, ShownRouteView};
use crate::searcher::Searcher;

verus! {

/// What a search found.
#[derive(Debug)]
pub enum Report {
    /// The lobby has no route from the start to the end.
    NoRoutes,
    /// The lobby has `found` routes, counted up to the largest number that
    /// can be held; `best` are the cheapest of them, the cheapest first.
    Routes { found: u64, best: Vec<ShownRoute> },
}

/// The values of a sequence of shown routes.
pub open spec fn shown_view(v: Seq<ShownRoute>) -> Seq<ShownRouteView> {
    Seq::new(v.len(), |i: int| v[i]@)
}

/// How each of `entries` is shown under the names `pn`.
pub open spec fn all_shown(pn: PlaceNameView, entries: Seq<EntryView>) -> Seq<ShownRouteView> {
    Seq::new(entries.len(), |i: int| shown(pn, entries[i]))
}

/// How many routes are kept where `requested` were asked for: the default
/// where none were, and at most the largest number accepted.
pub open spec fn collect_limit_of(requested: Option<usize>) -> nat {
    match requested {
        Some(n) => clamp_collect(n as nat),
        None => DEFAULT_COLLECT as nat,
    }
}

/// The number of routes to keep for a request, and whether the request
/// asked for more than can be kept and is cut down.
pub fn collect_limit(requested: Option<usize>) -> (r: (usize, bool))
    ensures
        r.0 == collect_limit_of(requested),
        r.1 == (requested matches Some(n) && n > MAX_COLLECT),
{
    match requested {
        Some(n) => {
            let c = Collector::new(n);
            (c.capacity(), n > MAX_COLLECT)
        },
        None => (DEFAULT_COLLECT, false),
    }
}

impl Searcher {
    /// Searches the lobby and reports what was found: that there are no
    /// routes, or how many there are and the `max_collect` cheapest of
    /// them under the names `names`, the cheapest first. `max_collect` is
    /// brought into the accepted range. The report is the same whether the
    /// search is shared among workers or not.
    pub fn report(&self, names: &PlaceName, max_collect: usize) -> (r: Report)
        requires
            self.wf(),
            names@.warps.len() == self.warp_exits().len(),
        ensures
            match r {
                Report::NoRoutes => self.candidates().len() == 0,
                Report::Routes { found, best } => {
                    &&& self.candidates().len() > 0
                    &&& found as nat == if self.candidates().len() <= u64::MAX {
                        self.candidates().len()
                    } else {
                        u64::MAX as nat
                    }
                    &&& shown_view(best@) == all_shown(
                        names@,
                        top_k(self.candidates(), clamp_collect(max_collect as nat)),
                    )
                    &&& 1 <= best@.len() <= found
                    &&& best@.len() <= clamp_collect(max_collect as nat)
                    &&& forall|i: int, j: int|
                        0 <= i < j < best@.len() ==> (#[trigger] best@[i]).total_cost <= (
                        #[trigger] best@[j]).total_cost
                },
            },
    {
        let mut collector = Collector::new(max_collect);
        self.run(&mut collector);
        let ghost found_all = self.candidates();
        let ghost k = clamp_collect(max_collect as nat);
        proof {
            broadcast use vstd::seq_lib::group_to_multiset_ensures;

            crate::fork::lemma_nothing_found();
            assert(collector@.received.to_multiset() =~= found_all.to_multiset());
            assert(collector@.received.len() == collector@.received.to_multiset().len());
            assert(found_all.len() == found_all.to_multiset().len());
            crate::collector::lemma_top_k_order_free(collector@.received, found_all, k);
        }
        let found = collector.count();
        if found == 0 {
            return Report::NoRoutes;
        }
        let kept = collector.into_sorted_vec();
        proof {
            self.lemma_routes_are_simple();
            lemma_top_k_members(found_all, k);
            crate::collector::lemma_top_k_len(found_all, k);
            assert forall|i: int| 0 <= i < kept@.len() implies nameable(
                names@,
                (#[trigger] kept@[i])@.route,
            ) by {
                let e = entries_view(kept@)[i];
                assert(found_all.contains(e));
                let c = choose|c: int| 0 <= c < found_all.len() && found_all[c] == e;
                let r = found_all[c].route;
                assert(within(r.drop_last(), self.junctions().len(), self.warp_exits().len()));
                assert forall|x: int| 0 <= x < r.len() implies ((#[trigger] r[x]) matches crate::place::Place::Warp(
                    w,
                ) ==> w < names@.warps.len()) by {
                    if x < r.len() - 1 {
                        assert(r[x] == r.drop_last()[x]);
                    }
                }
            }
        }
        let mut best: Vec<ShownRoute> = Vec::new();
        let mut i: usize = 0;
        while i < kept.len()
            invariant
                i <= kept.len(),
                forall|x: int| 0 <= x < kept@.len() ==> nameable(names@, (#[trigger] kept@[x])@.route),
                best@.len() == i,
                forall|x: int| 0 <= x < i ==> (#[trigger] best@[x])@ == shown(names@, kept@[x]@),
            decreases kept.len() - i,
        {
            let ghost before = best@;
            best.push(names.show(&kept[i]));
            assert forall|x: int| 0 <= x < i + 1 implies (#[trigger] best@[x])@ == shown(
                names@,
                kept@[x]@,
            ) by {
                if x < i {
                    assert(best@[x] == before[x]);
                }
            }
            i += 1;
        }
        proof {
            assert(shown_view(best@) =~= all_shown(names@, top_k(found_all, k))) by {
                assert forall|x: int| 0 <= x < best@.len() implies shown_view(best@)[x]
                    == all_shown(names@, top_k(found_all, k))[x] by {
                    assert(entries_view(kept@)[x] == kept@[x]@);
                }
            }
            assert forall|x: int, y: int| 0 <= x < y < best@.len() implies (
            #[trigger] best@[x]).total_cost <= (#[trigger] best@[y]).total_cost by {
                assert(best@[x]@ == shown(names@, kept@[x]@));
                assert(best@[y]@ == shown(names@, kept@[y]@));
                assert(kept@[x].total_cost <= kept@[y].total_cost);
            }
        }
        Report::Routes { found, best }
    }
}

} // verus!
