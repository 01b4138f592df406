//! Places on a route, completed routes, and the total order in which
//! completed routes are ranked.

use vstd::prelude::*;

verus! {

/// A stop on a route: a waypoint that has to be visited, or a warp that is
/// only passed through. The two index spaces are separate.
#[derive(Clone, Copy, Debug, PartialEq, Eq, Structural, PartialOrd, Ord, Hash)]
pub enum Place {
    Vertex(usize),
    Warp(usize),
}

/// A completed route with its total cost.
#[derive(Clone, Debug, PartialEq, Eq)]
pub struct ResultEntry {
    pub total_cost: u64,
    pub route: Vec<Place>,
}

/// The mathematical value of a [`ResultEntry`].
pub struct EntryView {
    pub total_cost: nat,
    pub route: Seq<Place>,
}

impl View for ResultEntry {
    type V = EntryView;

    open spec fn view(&self) -> EntryView {
        EntryView { total_cost: self.total_cost as nat, route: self.route@ }
    }
}

/// Vertices rank before warps; within one kind the index decides.
pub open spec fn place_le(a: Place, b: Place) -> bool {
    match (a, b) {
        (Place::Vertex(i), Place::Vertex(j)) => i <= j,
        (Place::Vertex(_), Place::Warp(_)) => true,
        (Place::Warp(_), Place::Vertex(_)) => false,
        (Place::Warp(i), Place::Warp(j)) => i <= j,
    }
}

/// Lexicographic order of two routes, compared from position `i` on.
pub open spec fn route_le_from(a: Seq<Place>, b: Seq<Place>, i: int) -> bool
    decreases a.len() - i,
{
    if i >= a.len() {
        true
    } else if i >= b.len() {
        false
    } else if a[i] == b[i] {
        route_le_from(a, b, i + 1)
    } else {
        place_le(a[i], b[i])
    }
}

/// Lexicographic order of two routes: the first differing place decides, and
/// a proper prefix ranks first.
pub open spec fn route_le(a: Seq<Place>, b: Seq<Place>) -> bool {
    route_le_from(a, b, 0)
}

/// The ranking of completed routes: lower total cost first, equal costs by
/// the lexicographic order of the routes.
pub open spec fn entry_le(a: EntryView, b: EntryView) -> bool {
    a.total_cost < b.total_cost || (a.total_cost == b.total_cost && route_le(a.route, b.route))
}

/// A copy of `route`.
pub fn copy_route(route: &Vec<Place>) -> (r: Vec<Place>)
    ensures
        r@ == route@,
{
    let mut r: Vec<Place> = Vec::new();
    let mut i: usize = 0;
    while i < route.len()
        invariant
            i <= route.len(),
            r@ == route@.take(i as int),
        decreases route.len() - i,
    {
        r.push(route[i]);
        i += 1;
        assert(r@ =~= route@.take(i as int));
    }
    assert(route@.take(i as int) =~= route@);
    r
}

/// Whether `a` ranks at or before `b`.
pub fn place_at_most(a: Place, b: Place) -> (r: bool)
    ensures
        r == place_le(a, b),
{
    match a {
        Place::Vertex(i) => match b {
            Place::Vertex(j) => i <= j,
            Place::Warp(_) => true,
        },
        Place::Warp(i) => match b {
            Place::Vertex(_) => false,
            Place::Warp(j) => i <= j,
        },
    }
}

/// Whether route `a` ranks at or before route `b`.
pub fn route_at_most(a: &Vec<Place>, b: &Vec<Place>) -> (r: bool)
    ensures
        r == route_le(a@, b@),
{
    let mut i: usize = 0;
    while i < a.len() && i < b.len()
        invariant
            i <= a.len(),
            i <= b.len(),
            route_le(a@, b@) == route_le_from(a@, b@, i as int),
        decreases a.len() - i,
    {
        if a[i] != b[i] {
            return place_at_most(a[i], b[i]);
        }
        i += 1;
    }
    i >= a.len()
}

/// Whether entry `a` ranks at or before entry `b`.
pub fn entry_at_most(a: &ResultEntry, b: &ResultEntry) -> (r: bool)
    ensures
        r == entry_le(a@, b@),
{
    if a.total_cost != b.total_cost {
        a.total_cost < b.total_cost
    } else {
        route_at_most(&a.route, &b.route)
    }
}

/// The relation [`entry_le`] as a value, for the sequence library.
pub open spec fn entry_order() -> spec_fn(EntryView, EntryView) -> bool {
    |a: EntryView, b: EntryView| entry_le(a, b)
}

proof fn lemma_route_le_refl(a: Seq<Place>, i: int)
    requires
        0 <= i,
    ensures
        route_le_from(a, a, i),
    decreases a.len() - i,
{
    if i < a.len() {
        lemma_route_le_refl(a, i + 1);
    }
}

proof fn lemma_route_le_total(a: Seq<Place>, b: Seq<Place>, i: int)
    requires
        0 <= i,
    ensures
        route_le_from(a, b, i) || route_le_from(b, a, i),
    decreases a.len() - i,
{
    if i < a.len() && i < b.len() && a[i] == b[i] {
        lemma_route_le_total(a, b, i + 1);
    }
}

proof fn lemma_route_le_antisym(a: Seq<Place>, b: Seq<Place>, i: int)
    requires
        0 <= i <= a.len(),
        i <= b.len(),
        route_le_from(a, b, i),
        route_le_from(b, a, i),
        forall|k: int| 0 <= k < i ==> a[k] == b[k],
    ensures
        a == b,
    decreases a.len() - i,
{
    if i >= a.len() || i >= b.len() {
        assert(a =~= b);
    } else {
        lemma_route_le_antisym(a, b, i + 1);
    }
}

proof fn lemma_route_le_trans(a: Seq<Place>, b: Seq<Place>, c: Seq<Place>, i: int)
    requires
        0 <= i,
        route_le_from(a, b, i),
        route_le_from(b, c, i),
    ensures
        route_le_from(a, c, i),
    decreases a.len() - i,
{
    if i < a.len() && i < b.len() && i < c.len() && a[i] == b[i] && b[i] == c[i] {
        lemma_route_le_trans(a, b, c, i + 1);
    }
}

/// The ranking of completed routes is a total order: any two entries are
/// comparable, and two entries that rank at or before each other are equal.
pub proof fn lemma_entry_order_total()
    ensures
        vstd::relations::total_ordering(entry_order()),
{
    let r = entry_order();
    assert forall|x: EntryView| #[trigger] r(x, x) by {
        lemma_route_le_refl(x.route, 0);
    }
    assert forall|x: EntryView, y: EntryView| #[trigger] r(x, y) && #[trigger] r(y, x) implies x
        == y by {
        lemma_route_le_antisym(x.route, y.route, 0);
    }
    assert forall|x: EntryView, y: EntryView, z: EntryView| #[trigger]
        r(x, y) && #[trigger] r(y, z) implies r(x, z) by {
        if x.total_cost == y.total_cost && y.total_cost == z.total_cost {
            lemma_route_le_trans(x.route, y.route, z.route, 0);
        }
    }
    assert forall|x: EntryView, y: EntryView| #[trigger] r(x, y) || #[trigger] r(y, x) by {
        lemma_route_le_total(x.route, y.route, 0);
    }
}

} // verus!
