//! What a plain lobby and its tours look like in writing. Text is made of
//! bytes.

use vstd::prelude::*;
use crate::collector::top_k;
use crate::lobby::{
    all_tours, is_node, restart_weight, route, time_between, tours_view, weight_of, Arc, Lobby,
};

verus! {

/// The byte `-`, which joins the places of a tour.
pub const HYPHEN: u8 = 0x2d;

/// The byte `<`, which opens the time of an arc in a tour.
pub const OPEN: u8 = 0x3c;

/// The byte `>`, which closes the time of an arc in a tour.
pub const CLOSE: u8 = 0x3e;

/// The byte `,`, which parts the cells of a table.
pub const COMMA: u8 = 0x2c;

/// The byte that ends a row of a table.
pub const ROW_END: u8 = 0x0a;

/// The decimal digits of `n`, the first digit first, without leading
/// zeros.
pub open spec fn digits_of(n: nat) -> Seq<u8>
    decreases n,
{
    if n < 10 {
        seq![(0x30 + n) as u8]
    } else {
        digits_of(n / 10).push((0x30 + n % 10) as u8)
    }
}

/// What stands before the `n`-th place of a tour, for `n` from 2 on: a
/// hyphen; or, where the times are shown, the time of the arc from the
/// place before in pointed brackets between two hyphens, and nothing where
/// the lobby has no such arc.
pub open spec fn joint(path: Seq<u32>, arcs: Seq<Arc>, show_arc: bool, n: int) -> Seq<u8> {
    if n <= 1 {
        Seq::empty()
    } else if !show_arc {
        seq![HYPHEN]
    } else {
        match weight_of(arcs, path[n - 2], path[n - 1]) {
            Some(w) => seq![HYPHEN, OPEN] + digits_of(w as nat) + seq![CLOSE, HYPHEN],
            None => Seq::empty(),
        }
    }
}

/// The first `n` places of a tour in writing.
pub open spec fn tour_text(path: Seq<u32>, arcs: Seq<Arc>, show_arc: bool, n: int) -> Seq<u8>
    decreases n,
{
    if n <= 0 {
        Seq::empty()
    } else {
        tour_text(path, arcs, show_arc, n - 1) + joint(path, arcs, show_arc, n) + digits_of(
            path[n - 1] as nat,
        )
    }
}

/// The cell of the table for the arc from `i` to `j`: its time if there
/// is such an arc, and a comma unless `j` is the last place.
pub open spec fn cell(arcs: Seq<Arc>, i: u32, j: u32, last: u32) -> Seq<u8> {
    (match weight_of(arcs, i, j) {
        Some(w) => digits_of(w as nat),
        None => Seq::empty(),
    }) + if j != last {
        seq![COMMA]
    } else {
        Seq::empty()
    }
}

/// The first `n` cells of the row of the table for the place `i`; the row
/// begins with the place `first`.
pub open spec fn row_cells(arcs: Seq<Arc>, i: u32, first: u32, last: u32, n: int) -> Seq<u8>
    decreases n,
{
    if n <= 0 {
        Seq::empty()
    } else {
        row_cells(arcs, i, first, last, n - 1) + cell(arcs, i, (first + n - 1) as u32, last)
    }
}

/// The first `n` rows of the table of times between the places from
/// `first` to `last`, each row with its end.
pub open spec fn table_rows(arcs: Seq<Arc>, first: u32, last: u32, n: int) -> Seq<u8>
    decreases n,
{
    if n <= 0 {
        Seq::empty()
    } else {
        table_rows(arcs, first, last, n - 1) + row_cells(
            arcs,
            (first + n - 1) as u32,
            first,
            last,
            last - first + 1,
        ) + seq![ROW_END]
    }
}

/// The table of times between the places from `first` to `last`: a row
/// for each place the arcs leave, a cell for each place they reach. No
/// rows where `first` is behind `last`.
pub open spec fn table_of(arcs: Seq<Arc>, first: u32, last: u32) -> Seq<u8> {
    table_rows(arcs, first, last, last - first + 1)
}

/// Puts the decimal digits of `n` behind `out`.
pub fn push_decimal(out: &mut Vec<u8>, n: u64)
    ensures
        final(out)@ == old(out)@ + digits_of(n as nat),
    decreases n,
{
    let ghost before = out@;
    if n >= 10 {
        push_decimal(out, n / 10);
    }
    out.push(0x30 + (n % 10) as u8);
    assert(out@ =~= before + digits_of(n as nat));
}

/// Puts `more` behind `out`.
pub fn push_all(out: &mut Vec<u8>, more: &[u8])
    ensures
        final(out)@ == old(out)@ + more@,
{
    let ghost before = out@;
    let mut i: usize = 0;
    while i < more.len()
        invariant
            i <= more@.len(),
            out@ == before + more@.take(i as int),
        decreases more@.len() - i,
    {
        out.push(more[i]);
        i += 1;
        assert(out@ =~= before + more@.take(i as int));
    }
    assert(more@.take(i as int) =~= more@);
}

impl Lobby {
    /// A tour in writing: the numbers of its places joined by hyphens,
    /// with the time of each arc between them if `show_arc` is set.
    pub fn tour_string(&self, path: &Vec<u32>, show_arc: bool) -> (r: Vec<u8>)
        requires
            self.wf(),
        ensures
            r@ == tour_text(path@, self@, show_arc, path@.len() as int),
    {
        let mut out: Vec<u8> = Vec::new();
        let mut n: usize = 0;
        while n < path.len()
            invariant
                n <= path.len(),
                self.wf(),
                out@ == tour_text(path@, self@, show_arc, n as int),
            decreases path.len() - n,
        {
            let ghost before = out@;
            if n >= 1 {
                if !show_arc {
                    out.push(HYPHEN);
                } else {
                    match self.get(path[n - 1], path[n]) {
                        Some(w) => {
                            out.push(HYPHEN);
                            out.push(OPEN);
                            push_decimal(&mut out, w as u64);
                            out.push(CLOSE);
                            out.push(HYPHEN);
                        },
                        None => {},
                    }
                }
            }
            assert(out@ =~= before + joint(path@, self@, show_arc, n + 1));
            push_decimal(&mut out, path[n] as u64);
            n += 1;
        }
        out
    }

    /// The table of times between the places from `first` to `last`.
    pub fn table(&self, first: u32, last: u32) -> (r: Vec<u8>)
        requires
            self.wf(),
        ensures
            r@ == table_of(self@, first, last),
    {
        let mut out: Vec<u8> = Vec::new();
        if first > last {
            return out;
        }
        let width: u64 = (last - first) as u64 + 1;
        let mut n: u64 = 0;
        while n < width
            invariant
                n <= width,
                first <= last,
                width == last - first + 1,
                self.wf(),
                out@ == table_rows(self@, first, last, n as int),
            decreases width - n,
        {
            let i: u32 = (first as u64 + n) as u32;
            let ghost rows = out@;
            let mut m: u64 = 0;
            while m < width
                invariant
                    m <= width,
                    n < width,
                    first <= last,
                    width == last - first + 1,
                    i == first + n,
                    self.wf(),
                    out@ == rows + row_cells(self@, i, first, last, m as int),
                decreases width - m,
            {
                let j: u32 = (first as u64 + m) as u32;
                let ghost cells = out@;
                match self.get(i, j) {
                    Some(w) => {
                        push_decimal(&mut out, w as u64);
                    },
                    None => {},
                }
                if j != last {
                    out.push(COMMA);
                }
                assert(out@ =~= cells + cell(self@, i, j, last));
                m += 1;
                assert(out@ =~= rows + row_cells(self@, i, first, last, m as int));
            }
            out.push(ROW_END);
            n += 1;
            assert(out@ =~= table_rows(self@, first, last, n as int));
        }
        out
    }

    /// The table of times between all the places of the lobby, from the
    /// smallest to the largest; none for a lobby of fewer than two arcs.
    pub fn info_table(&self) -> (r: Option<Vec<u8>>)
        requires
            self.wf(),
        ensures
            match r {
                Some(text) => self@.len() >= 2 && exists|first: u32, last: u32|
                    {
                        &&& is_node(self@, first)
                        &&& is_node(self@, last)
                        &&& forall|n: u32| is_node(self@, n) ==> first <= n <= last
                        &&& #[trigger] table_of(self@, first, last) == text@
                    },
                None => self@.len() < 2,
            },
    {
        if self.arcs().len() < 2 {
            return None;
        }
        match self.bounds() {
            Some((first, last)) => Some(self.table(first, last)),
            None => None,
        }
    }
}

/// The quickest tours of a lobby, as they are shown.
#[derive(Debug)]
pub enum Tours {
    /// The lobby has no arcs.
    Empty,
    /// Going back to the first place takes longer on some arc than a time
    /// can be.
    TooLong,
    /// The lobby has `count` tours, counted up to the largest number that
    /// can be held; `best` are the quickest of them, the quickest first,
    /// each with its time and in writing.
    Found { count: u64, best: Vec<(u64, Vec<u8>)> },
}

/// Whether `shown` are the tours `kept`, each with its time and in
/// writing.
pub open spec fn tours_shown(
    shown: Seq<(u64, Vec<u8>)>,
    kept: Seq<(u64, Vec<u32>)>,
    arcs: Seq<Arc>,
    show_arc: bool,
) -> bool {
    &&& shown.len() == kept.len()
    &&& forall|k: int|
        0 <= k < kept.len() ==> (#[trigger] shown[k]).0 == kept[k].0 && shown[k].1@ == tour_text(
            kept[k].1@,
            arcs,
            show_arc,
            kept[k].1@.len() as int,
        )
}

/// Whether going back to the first place from `x` to reach `y` takes
/// longer than a time can be; `first` and `last` are the smallest and the
/// largest place of the lobby.
pub open spec fn too_long(arcs: Seq<Arc>, first: u32, last: u32, x: u32, y: u32) -> bool {
    &&& is_node(arcs, first)
    &&& is_node(arcs, last)
    &&& forall|n: u32| is_node(arcs, n) ==> first <= n <= last
    &&& restart_weight(arcs, first, last, x, y) matches Some(w) && w > u32::MAX
}

/// Whether `count` and `best` are what the search finds in the lobby
/// `arcs`: `first` and `last` are its smallest and its largest place,
/// `full` is the lobby with the arcs that go back to the first place,
/// `count` is the number of its tours from the first place to the last,
/// `kept` are the quickest `buffer_size` of them, and `best` shows them.
pub open spec fn tours_found(
    arcs: Seq<Arc>,
    first: u32,
    last: u32,
    full: Lobby,
    kept: Seq<(u64, Vec<u32>)>,
    count: u64,
    best: Seq<(u64, Vec<u8>)>,
    buffer_size: nat,
    show_arc: bool,
) -> bool {
    &&& is_node(arcs, first)
    &&& is_node(arcs, last)
    &&& forall|n: u32| is_node(arcs, n) ==> first <= n <= last
    &&& full.wf()
    &&& forall|x: u32, y: u32|
        #![trigger weight_of(full@, x, y)]
        time_between(full@, x, y) == restart_weight(arcs, first, last, x, y)
    &&& count as nat == if all_tours(full@, first, last).len() <= u64::MAX {
        all_tours(full@, first, last).len()
    } else {
        u64::MAX as nat
    }
    &&& tours_view(kept) == top_k(all_tours(full@, first, last), buffer_size)
    &&& tours_shown(best, kept, full@, show_arc)
}

/// Finds the quickest tours of a lobby from its smallest place through
/// every other place to its largest, and shows them. Before the search the
/// arcs that go back to the first place are put in.
pub fn plan_tours(lobby: &Lobby, buffer_size: u32, show_arc: bool) -> (r: Tours)
    requires
        lobby.wf(),
    ensures
        match r {
            Tours::Empty => lobby@.len() == 0,
            Tours::TooLong => exists|first: u32, last: u32, x: u32, y: u32| #[trigger]
                too_long(lobby@, first, last, x, y),
            Tours::Found { count, best } => exists|
                first: u32,
                last: u32,
                full: Lobby,
                kept: Seq<(u64, Vec<u32>)>,
            | #[trigger]
                tours_found(
                    lobby@,
                    first,
                    last,
                    full,
                    kept,
                    count,
                    best@,
                    buffer_size as nat,
                    show_arc,
                ),
        },
{
    let (first, last) = match lobby.bounds() {
        Some(b) => b,
        None => {
            return Tours::Empty;
        },
    };
    let full = match lobby.with_restarts(first, last) {
        Some(full) => full,
        None => {
            proof {
                let (x, y) = choose|x: u32, y: u32|
                    #![trigger restart_weight(lobby@, first, last, x, y)]
                    restart_weight(lobby@, first, last, x, y) matches Some(w) && w > u32::MAX;
                assert(too_long(lobby@, first, last, x, y));
            }
            return Tours::TooLong;
        },
    };
    let (count, kept) = route(&full, &first, &last, &buffer_size);
    let mut best: Vec<(u64, Vec<u8>)> = Vec::new();
    let mut i: usize = 0;
    while i < kept.len()
        invariant
            i <= kept@.len(),
            full.wf(),
            best@.len() == i,
            forall|k: int|
                0 <= k < i ==> (#[trigger] best@[k]).0 == kept@[k].0 && best@[k].1@ == tour_text(
                    kept@[k].1@,
                    full@,
                    show_arc,
                    kept@[k].1@.len() as int,
                ),
        decreases kept@.len() - i,
    {
        let ghost before = best@;
        best.push((kept[i].0, full.tour_string(&kept[i].1, show_arc)));
        assert forall|k: int| 0 <= k < i + 1 implies (#[trigger] best@[k]).0 == kept@[k].0
            && best@[k].1@ == tour_text(kept@[k].1@, full@, show_arc, kept@[k].1@.len() as int) by {
            if k < i {
                assert(best@[k] == before[k]);
            }
        }
        i += 1;
    }
    assert(tours_shown(best@, kept@, full@, show_arc));
    let ghost all = kept@;
    let r = Tours::Found { count, best };
    assert(r matches Tours::Found { count: c, best: b } && tours_found(
        lobby@,
        first,
        last,
        full,
        all,
        c,
        b@,
        buffer_size as nat,
        show_arc,
    ));
    r
}

} // verus!
