//! From indices back to names: routes as they are shown.

use vstd::prelude::*;
use crate::adapters::{join_names, joined};
use crate::index::{PlaceName, PlaceNameView};
use crate::names::names_view;
use crate::place::{EntryView, Place, ResultEntry};

verus! {

/// What stands between two places of a shown route.
pub const SEPARATOR: &'static str = "-";

/// A route as it is shown: its total cost and the names of its places,
/// joined by the separator.
#[derive(Clone, Debug, PartialEq, Eq)]
pub struct ShownRoute {
    pub total_cost: u64,
    pub path: String,
}

/// The mathematical value of a [`ShownRoute`].
pub struct ShownRouteView {
    pub total_cost: nat,
    pub path: Seq<char>,
}

impl View for ShownRoute {
    type V = ShownRouteView;

    open spec fn view(&self) -> ShownRouteView {
        ShownRouteView { total_cost: self.total_cost as nat, path: self.path@ }
    }
}

/// Whether every warp on `route` has a name in `pn`.
pub open spec fn nameable(pn: PlaceNameView, route: Seq<Place>) -> bool {
    forall|i: int|
        0 <= i < route.len() ==> ((#[trigger] route[i]) matches Place::Warp(w) ==> w
            < pn.warps.len())
}

/// The names of the places of `route`, in order.
pub open spec fn route_names(pn: PlaceNameView, route: Seq<Place>) -> Seq<Seq<char>> {
    Seq::new(route.len(), |i: int| pn.name_of(route[i]))
}

/// How `entry` is shown under the names `pn`.
pub open spec fn shown(pn: PlaceNameView, entry: EntryView) -> ShownRouteView {
    ShownRouteView {
        total_cost: entry.total_cost,
        path: joined(route_names(pn, entry.route), SEPARATOR@),
    }
}

impl PlaceName {
    /// The names of the places of `route`, joined by the separator.
    pub fn path(&self, route: &Vec<Place>) -> (r: String)
        requires
            nameable(self@, route@),
        ensures
            r@ == joined(route_names(self@, route@), SEPARATOR@),
    {
        let mut names: Vec<String> = Vec::new();
        let mut i: usize = 0;
        assert(names_view(names@) =~= route_names(self@, route@).take(0));
        while i < route.len()
            invariant
                i <= route.len(),
                nameable(self@, route@),
                names_view(names@) == route_names(self@, route@).take(i as int),
            decreases route.len() - i,
        {
            let ghost before = names_view(names@);
            let name = self.name(route[i]);
            let owned = name.to_owned();
            names.push(owned);
            assert(names_view(names@) =~= before.push(self@.name_of(route@[i as int])));
            i += 1;
            assert(names_view(names@) =~= route_names(self@, route@).take(i as int));
        }
        assert(route_names(self@, route@).take(i as int) =~= route_names(self@, route@));
        join_names(&names, SEPARATOR)
    }

    /// How `entry` is shown: its cost, and its route by names.
    pub fn show(&self, entry: &ResultEntry) -> (r: ShownRoute)
        requires
            nameable(self@, entry@.route),
        ensures
            r@ == shown(self@, entry@),
    {
        ShownRoute { total_cost: entry.total_cost, path: self.path(&entry.route) }
    }
}

} // verus!
