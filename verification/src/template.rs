//! Filling a template for each step of a tour: the names of the two places
//! of the step, and what a table says of them, take the place of the marks
//! in the template. Text is made of bytes.

use vstd::prelude::*;
use vstd::slice::{slice_subrange, slice_to_vec};
use crate::format::{lines, lines_of, texts_view};
use crate::text::{push_all, COMMA, HYPHEN};

verus! {

/// The byte `%`, which opens and closes a mark.
pub const PERCENT: u8 = 0x25;

/// The byte `:`, which stands before the number of a column in a mark.
pub const COLON: u8 = 0x3a;

/// Whether `pat` stands in `text` at `i`.
pub open spec fn stands_at(text: Seq<u8>, i: int, pat: Seq<u8>) -> bool {
    0 <= i && i + pat.len() <= text.len() && text.subrange(i, i + pat.len()) == pat
}

/// `text` from `i` on with `with` in place of each `pat`, read from the
/// left; where two of them overlap, the first counts.
pub open spec fn replaced_from(text: Seq<u8>, i: int, pat: Seq<u8>, with: Seq<u8>) -> Seq<u8>
    decreases text.len() - i,
{
    if i < 0 || i >= text.len() || pat.len() == 0 {
        Seq::empty()
    } else if stands_at(text, i, pat) {
        with + replaced_from(text, i + pat.len(), pat, with)
    } else {
        seq![text[i]] + replaced_from(text, i + 1, pat, with)
    }
}

/// `text` with `with` in place of each `pat`.
pub open spec fn replaced(text: Seq<u8>, pat: Seq<u8>, with: Seq<u8>) -> Seq<u8> {
    replaced_from(text, 0, pat, with)
}

/// The pieces of `text` between the bytes `sep`, from the piece that
/// begins at `start` on, when the text has been read up to `i`. There is
/// always a last piece, which may be empty.
pub open spec fn pieces_from(text: Seq<u8>, sep: u8, start: int, i: int) -> Seq<Seq<u8>>
    decreases text.len() - i,
{
    if i >= text.len() {
        seq![text.subrange(start, text.len() as int)]
    } else if text[i] == sep {
        seq![text.subrange(start, i)] + pieces_from(text, sep, i + 1, i + 1)
    } else {
        pieces_from(text, sep, start, i + 1)
    }
}

/// The pieces of `text` between the bytes `sep`.
pub open spec fn pieces_of(text: Seq<u8>, sep: u8) -> Seq<Seq<u8>> {
    pieces_from(text, sep, 0, 0)
}

/// The steps among the first `n` places of a tour: each place with the
/// next, where neither is the empty name.
pub open spec fn steps_of(places: Seq<Seq<u8>>, n: int) -> Seq<(Seq<u8>, Seq<u8>)>
    decreases n,
{
    if n <= 1 {
        Seq::empty()
    } else if places[n - 2].len() > 0 && places[n - 1].len() > 0 {
        steps_of(places, n - 1).push((places[n - 2], places[n - 1]))
    } else {
        steps_of(places, n - 1)
    }
}

/// The cells behind the first of the last of the first `n` rows that
/// begins with `key`; none where no row does.
pub open spec fn row_of(rows: Seq<Seq<Seq<u8>>>, key: Seq<u8>, n: int) -> Option<Seq<Seq<u8>>>
    decreases n,
{
    if n <= 0 {
        None
    } else if rows[n - 1].len() > 0 && rows[n - 1][0] == key {
        Some(rows[n - 1].skip(1))
    } else {
        row_of(rows, key, n - 1)
    }
}

/// The rows of a table in writing: line for line the cells between the
/// commas.
pub open spec fn rows_of(csv: Seq<u8>) -> Seq<Seq<Seq<u8>>> {
    Seq::new(lines_of(csv).len(), |i: int| pieces_of(lines_of(csv)[i], COMMA))
}

/// The mark for the place itself: `%src%` or `%dst%`.
pub open spec fn place_mark(src: bool) -> Seq<u8> {
    if src {
        seq![PERCENT, 0x73u8, 0x72u8, 0x63u8, PERCENT]
    } else {
        seq![PERCENT, 0x64u8, 0x73u8, 0x74u8, PERCENT]
    }
}

/// The mark for the `i`-th cell of the place's row: `%src:i%` or
/// `%dst:i%`.
pub open spec fn cell_mark(src: bool, i: int) -> Seq<u8> {
    if src {
        seq![PERCENT, 0x73u8, 0x72u8, 0x63u8, COLON, (0x30 + i) as u8, PERCENT]
    } else {
        seq![PERCENT, 0x64u8, 0x73u8, 0x74u8, COLON, (0x30 + i) as u8, PERCENT]
    }
}

/// `text` with the marks for the first `n` cells filled in from `row`:
/// each mark whose cell the row has.
pub open spec fn cells_filled(text: Seq<u8>, src: bool, row: Option<Seq<Seq<u8>>>, n: int) -> Seq<
    u8,
>
    decreases n,
{
    if n <= 0 {
        text
    } else {
        let before = cells_filled(text, src, row, n - 1);
        match row {
            Some(cells) => if n - 1 < cells.len() {
                replaced(before, cell_mark(src, n), cells[n - 1])
            } else {
                before
            },
            None => before,
        }
    }
}

/// The template filled in for the step from `src` to `dst`: first the
/// marks of the places, then the marks of the nine first cells of the row
/// of `src`, then those of the row of `dst`.
pub open spec fn filled(
    template: Seq<u8>,
    src: Seq<u8>,
    dst: Seq<u8>,
    rows: Seq<Seq<Seq<u8>>>,
) -> Seq<u8> {
    let places = replaced(replaced(template, place_mark(true), src), place_mark(false), dst);
    let with_src = cells_filled(places, true, row_of(rows, src, rows.len() as int), 9);
    cells_filled(with_src, false, row_of(rows, dst, rows.len() as int), 9)
}

/// Whether `pat` stands in `text` at `i`.
pub fn is_at(text: &[u8], i: usize, pat: &[u8]) -> (r: bool)
    requires
        i <= text@.len(),
    ensures
        r == stands_at(text@, i as int, pat@),
{
    let n = text.len();
    if pat.len() > n - i {
        return false;
    }
    let mut k: usize = 0;
    while k < pat.len()
        invariant
            k <= pat@.len(),
            n == text@.len(),
            i + pat@.len() <= text@.len(),
            forall|x: int| 0 <= x < k ==> text@[i + x] == pat@[x],
        decreases pat@.len() - k,
    {
        if text[i + k] != pat[k] {
            assert(text@.subrange(i as int, i + pat@.len())[k as int] != pat@[k as int]);
            return false;
        }
        k += 1;
    }
    assert(text@.subrange(i as int, i + pat@.len()) =~= pat@);
    true
}

/// `text` with `with` in place of each `pat`.
pub fn replace_all(text: &[u8], pat: &[u8], with: &[u8]) -> (r: Vec<u8>)
    requires
        pat@.len() > 0,
    ensures
        r@ == replaced(text@, pat@, with@),
{
    let ghost all = replaced(text@, pat@, with@);
    let mut out: Vec<u8> = Vec::new();
    let mut i: usize = 0;
    while i < text.len()
        invariant
            i <= text@.len(),
            pat@.len() > 0,
            out@ + replaced_from(text@, i as int, pat@, with@) == all,
        decreases text@.len() - i,
    {
        let ghost before = out@;
        if is_at(text, i, pat) {
            let ghost rest = replaced_from(text@, i + pat@.len(), pat@, with@);
            push_all(&mut out, with);
            assert((before + with@) + rest =~= before + (with@ + rest));
            i += pat.len();
        } else {
            let ghost rest = replaced_from(text@, i + 1, pat@, with@);
            out.push(text[i]);
            assert(before.push(text@[i as int]) + rest =~= before + (seq![text@[i as int]] + rest));
            i += 1;
        }
    }
    assert(out@ + Seq::<u8>::empty() =~= out@);
    out
}

/// The pieces of `text` between the bytes `sep`.
pub fn split(text: &[u8], sep: u8) -> (r: Vec<Vec<u8>>)
    ensures
        texts_view(r@) == pieces_of(text@, sep),
        r@.len() >= 1,
{
    let ghost all = pieces_of(text@, sep);
    let n = text.len();
    let mut r: Vec<Vec<u8>> = Vec::new();
    let mut start: usize = 0;
    let mut i: usize = 0;
    assert(texts_view(r@) + pieces_from(text@, sep, 0, 0) =~= all);
    while i < n
        invariant
            n == text@.len(),
            start <= i <= n,
            texts_view(r@) + pieces_from(text@, sep, start as int, i as int) == all,
        decreases n - i,
    {
        if text[i] == sep {
            let ghost before = texts_view(r@);
            let ghost rest = pieces_from(text@, sep, i as int + 1, i as int + 1);
            let piece = slice_subrange(text, start, i);
            r.push(slice_to_vec(piece));
            assert(texts_view(r@) =~= before.push(piece@));
            assert(before.push(piece@) + rest =~= before + (seq![piece@] + rest));
            start = i + 1;
        }
        i += 1;
    }
    let ghost before = texts_view(r@);
    let piece = slice_subrange(text, start, n);
    r.push(slice_to_vec(piece));
    assert(texts_view(r@) =~= before.push(piece@));
    assert(before.push(piece@) =~= before + seq![piece@]);
    r
}

/// Whether two texts are the same.
pub fn same_text(a: &[u8], b: &[u8]) -> (r: bool)
    ensures
        r == (a@ == b@),
{
    if a.len() != b.len() {
        return false;
    }
    let mut i: usize = 0;
    while i < a.len()
        invariant
            i <= a@.len(),
            a@.len() == b@.len(),
            forall|k: int| 0 <= k < i ==> a@[k] == b@[k],
        decreases a@.len() - i,
    {
        if a[i] != b[i] {
            return false;
        }
        i += 1;
    }
    assert(a@ =~= b@);
    true
}

/// The values of the rows of a table.
pub open spec fn rows_view(v: Seq<Vec<Vec<u8>>>) -> Seq<Seq<Seq<u8>>> {
    Seq::new(v.len(), |i: int| texts_view(v[i]@))
}

/// The rows of a table in writing.
pub fn read_rows(csv: &[u8]) -> (r: Vec<Vec<Vec<u8>>>)
    ensures
        rows_view(r@) == rows_of(csv@),
{
    let all = lines(csv);
    let mut r: Vec<Vec<Vec<u8>>> = Vec::new();
    let mut i: usize = 0;
    while i < all.len()
        invariant
            i <= all@.len(),
            texts_view(all@) == lines_of(csv@),
            r@.len() == i,
            forall|k: int| 0 <= k < i ==> texts_view((#[trigger] r@[k])@) == rows_of(csv@)[k],
        decreases all@.len() - i,
    {
        let ghost before = r@;
        assert(texts_view(all@)[i as int] == all@[i as int]@);
        r.push(split(all[i].as_slice(), COMMA));
        assert forall|k: int| 0 <= k < i + 1 implies texts_view((#[trigger] r@[k])@) == rows_of(
            csv@,
        )[k] by {
            if k < i {
                assert(r@[k] == before[k]);
            }
        }
        i += 1;
    }
    assert(rows_view(r@) =~= rows_of(csv@));
    r
}

/// Where the last row that begins with `key` stands.
pub fn find_row(rows: &Vec<Vec<Vec<u8>>>, key: &[u8]) -> (r: Option<usize>)
    ensures
        match r {
            Some(i) => i < rows@.len() && rows@[i as int]@.len() > 0 && row_of(
                rows_view(rows@),
                key@,
                rows@.len() as int,
            ) == Some(texts_view(rows@[i as int]@).skip(1)),
            None => row_of(rows_view(rows@), key@, rows@.len() as int) is None,
        },
{
    let ghost all = rows_view(rows@);
    let mut n: usize = rows.len();
    while n > 0
        invariant
            n <= rows@.len(),
            all == rows_view(rows@),
            row_of(all, key@, rows@.len() as int) == row_of(all, key@, n as int),
        decreases n,
    {
        let row = &rows[n - 1];
        assert(all[n - 1] == texts_view(row@));
        if row.len() > 0 {
            assert(texts_view(row@)[0] == row@[0]@);
            if same_text(row[0].as_slice(), key) {
                return Some(n - 1);
            }
        }
        n -= 1;
    }
    None
}

/// The mark for the `i`-th cell of the place's row.
fn make_cell_mark(src: bool, i: u8) -> (r: Vec<u8>)
    requires
        1 <= i <= 9,
    ensures
        r@ == cell_mark(src, i as int),
{
    let mut r: Vec<u8> = Vec::new();
    r.push(PERCENT);
    if src {
        r.push(0x73);
        r.push(0x72);
        r.push(0x63);
    } else {
        r.push(0x64);
        r.push(0x73);
        r.push(0x74);
    }
    r.push(COLON);
    r.push(0x30 + i);
    r.push(PERCENT);
    assert(r@ =~= cell_mark(src, i as int));
    r
}

/// The mark for the place itself.
fn make_place_mark(src: bool) -> (r: Vec<u8>)
    ensures
        r@ == place_mark(src),
{
    let mut r: Vec<u8> = Vec::new();
    r.push(PERCENT);
    if src {
        r.push(0x73);
        r.push(0x72);
        r.push(0x63);
    } else {
        r.push(0x64);
        r.push(0x73);
        r.push(0x74);
    }
    r.push(PERCENT);
    assert(r@ =~= place_mark(src));
    r
}

/// `text` with the marks for the nine first cells filled in from the row
/// of `key`.
fn fill_cells(text: Vec<u8>, src: bool, rows: &Vec<Vec<Vec<u8>>>, key: &[u8]) -> (r: Vec<u8>)
    ensures
        r@ == cells_filled(
            text@,
            src,
            row_of(rows_view(rows@), key@, rows@.len() as int),
            9,
        ),
{
    let ghost start = text@;
    let ghost row = row_of(rows_view(rows@), key@, rows@.len() as int);
    let found = find_row(rows, key);
    let mut s = text;
    let mut i: u8 = 1;
    while i <= 9
        invariant
            1 <= i <= 10,
            row == row_of(rows_view(rows@), key@, rows@.len() as int),
            match found {
                Some(x) => x < rows@.len() && rows@[x as int]@.len() > 0 && row == Some(
                    texts_view(rows@[x as int]@).skip(1),
                ),
                None => row is None,
            },
            s@ == cells_filled(start, src, row, i - 1),
        decreases 10 - i,
    {
        match found {
            Some(x) => {
                let cells = &rows[x];
                if (i as usize) < cells.len() {
                    let mark = make_cell_mark(src, i);
                    assert(texts_view(cells@).skip(1)[i - 1] == cells@[i as int]@);
                    s = replace_all(s.as_slice(), mark.as_slice(), cells[i as usize].as_slice());
                }
            },
            None => {},
        }
        i += 1;
    }
    s
}

/// The template filled in for the step from `src` to `dst`.
pub fn fill(template: &[u8], src: &[u8], dst: &[u8], rows: &Vec<Vec<Vec<u8>>>) -> (r: Vec<u8>)
    ensures
        r@ == filled(template@, src@, dst@, rows_view(rows@)),
{
    let src_mark = make_place_mark(true);
    let dst_mark = make_place_mark(false);
    let a = replace_all(template, src_mark.as_slice(), src);
    let b = replace_all(a.as_slice(), dst_mark.as_slice(), dst);
    let c = fill_cells(b, true, rows, src);
    fill_cells(c, false, rows, dst)
}

/// The templates filled in for the steps of a tour: `string` holds the
/// places of the tour, joined by hyphens; `csv` holds the table, a row for
/// each place that begins with the place's name.
pub fn generate_input(string: &[u8], csv: &[u8], template: &[u8]) -> (r: Vec<Vec<u8>>)
    ensures
        r@.len() == steps_of(pieces_of(string@, HYPHEN), pieces_of(string@, HYPHEN).len() as int).len(),
        forall|k: int|
            0 <= k < r@.len() ==> {
                let step = steps_of(
                    pieces_of(string@, HYPHEN),
                    pieces_of(string@, HYPHEN).len() as int,
                )[k];
                (#[trigger] r@[k])@ == filled(template@, step.0, step.1, rows_of(csv@))
            },
{
    let rows = read_rows(csv);
    let places = split(string, HYPHEN);
    let ghost names = pieces_of(string@, HYPHEN);
    let mut out: Vec<Vec<u8>> = Vec::new();
    let mut n: usize = 1;
    while n < places.len()
        invariant
            1 <= n <= places@.len(),
            texts_view(places@) == names,
            rows_view(rows@) == rows_of(csv@),
            out@.len() == steps_of(names, n as int).len(),
            forall|k: int|
                0 <= k < out@.len() ==> (#[trigger] out@[k])@ == filled(
                    template@,
                    steps_of(names, n as int)[k].0,
                    steps_of(names, n as int)[k].1,
                    rows_of(csv@),
                ),
        decreases places@.len() - n,
    {
        let src = &places[n - 1];
        let dst = &places[n];
        assert(names[n - 1] == src@ && names[n as int] == dst@);
        let ghost before = out@;
        if src.len() > 0 && dst.len() > 0 {
            out.push(fill(template, src.as_slice(), dst.as_slice(), &rows));
            assert forall|k: int| 0 <= k < out@.len() implies (#[trigger] out@[k])@ == filled(
                template@,
                steps_of(names, n + 1)[k].0,
                steps_of(names, n + 1)[k].1,
                rows_of(csv@),
            ) by {
                if k < before.len() {
                    assert(out@[k] == before[k]);
                }
            }
        }
        n += 1;
    }
    out
}

} // verus!
