//! Looking through the text of a script, given as bytes, for the lines that
//! matter: breakpoints and start labels.

use vstd::prelude::*;
use vstd::slice::{slice_subrange, slice_to_vec};

verus! {

/// The byte that ends a line.
pub const NEWLINE: u8 = 10;

/// The byte that may stand before the byte that ends a line, and is then
/// part of the line's end.
pub const RETURN: u8 = 13;

/// The byte of which three in a row make a breakpoint.
pub const STAR: u8 = 42;

/// What a line is looked at for.
#[derive(Clone, Copy, Debug, PartialEq, Eq, Structural)]
pub enum Mark {
    /// Three stars in a row, anywhere in the line.
    Breakpoint,
    /// The word `#Start` at the beginning of the line.
    StartLabel,
}

/// What was found in one script.
#[derive(Debug)]
pub struct Critique {
    /// The lines with a breakpoint, each with its number, counted from 1.
    pub breakpoints: Vec<(usize, Vec<u8>)>,
    /// The lines with a start label, each with its number, counted from 1.
    pub start_labels: Vec<(usize, Vec<u8>)>,
    /// Whether there is a breakpoint.
    pub mark_bp: bool,
    /// Whether something is wrong with the start label: there is none, or
    /// there are several.
    pub mark_sl: bool,
}

/// The line that begins at `start` and ends before the newline at `stop`.
/// A return before the newline is left out.
pub open spec fn line_before(content: Seq<u8>, start: int, stop: int) -> Seq<u8> {
    if start < stop && content[stop - 1] == RETURN {
        content.subrange(start, stop - 1)
    } else {
        content.subrange(start, stop)
    }
}

/// The lines of the text from the line that begins at `start` on, when the
/// text has been read up to `i` and no newline stands between the two.
/// Text that ends with a newline has no further, empty line behind it; a
/// return at the end of text that does not end with a newline is part of
/// the last line.
pub open spec fn lines_from(content: Seq<u8>, start: int, i: int) -> Seq<Seq<u8>>
    decreases content.len() - i,
{
    if i >= content.len() {
        if start < content.len() {
            seq![content.subrange(start, content.len() as int)]
        } else {
            Seq::empty()
        }
    } else if content[i] == NEWLINE {
        seq![line_before(content, start, i)] + lines_from(content, i + 1, i + 1)
    } else {
        lines_from(content, start, i + 1)
    }
}

/// The lines of the text.
pub open spec fn lines_of(content: Seq<u8>) -> Seq<Seq<u8>> {
    lines_from(content, 0, 0)
}

/// Whether `line` holds three stars in a row.
pub open spec fn has_breakpoint(line: Seq<u8>) -> bool {
    exists|k: int|
        0 <= k && k + 3 <= line.len() && #[trigger] line[k] == STAR && line[k + 1] == STAR
            && line[k + 2] == STAR
}

/// The bytes of the word that makes a start label.
pub open spec fn start_word() -> Seq<u8> {
    seq![35u8, 83u8, 116u8, 97u8, 114u8, 116u8]
}

/// Whether `line` begins with the start word.
pub open spec fn has_start_label(line: Seq<u8>) -> bool {
    line.len() >= 6 && line.subrange(0, 6) == start_word()
}

/// Whether `line` shows `mark`.
pub open spec fn shows(line: Seq<u8>, mark: Mark) -> bool {
    match mark {
        Mark::Breakpoint => has_breakpoint(line),
        Mark::StartLabel => has_start_label(line),
    }
}

/// Of the first `n` of `lines`, those that show `mark`, each with its
/// number; the first line has the number `first`.
pub open spec fn marked(lines: Seq<Seq<u8>>, mark: Mark, first: int, n: int) -> Seq<
    (int, Seq<u8>),
>
    decreases n,
{
    if n <= 0 {
        Seq::empty()
    } else {
        let before = marked(lines, mark, first, n - 1);
        if shows(lines[n - 1], mark) {
            before.push((first + n - 1, lines[n - 1]))
        } else {
            before
        }
    }
}

/// The values of numbered lines.
pub open spec fn numbered_view(v: Seq<(usize, Vec<u8>)>) -> Seq<(int, Seq<u8>)> {
    Seq::new(v.len(), |i: int| (v[i].0 as int, v[i].1@))
}

/// Whether `line` holds three stars in a row.
pub fn is_breakpoint(line: &[u8]) -> (r: bool)
    ensures
        r == has_breakpoint(line@),
{
    let n = line.len();
    if n < 3 {
        return false;
    }
    let mut k: usize = 0;
    while k <= n - 3
        invariant
            n == line@.len(),
            n >= 3,
            k <= n - 2,
            forall|x: int|
                0 <= x < k ==> !(#[trigger] line@[x] == STAR && line@[x + 1] == STAR && line@[x
                    + 2] == STAR),
        decreases n - k,
    {
        if line[k] == STAR && line[k + 1] == STAR && line[k + 2] == STAR {
            return true;
        }
        k += 1;
    }
    false
}

/// Whether `line` begins with the start word.
pub fn is_start_label(line: &[u8]) -> (r: bool)
    ensures
        r == has_start_label(line@),
{
    if line.len() < 6 {
        return false;
    }
    let r = line[0] == 35 && line[1] == 83 && line[2] == 116 && line[3] == 97 && line[4] == 114
        && line[5] == 116;
    proof {
        let head = line@.subrange(0, 6);
        if r {
            assert(head =~= start_word());
        } else {
            assert(head[0] == line@[0] && head[1] == line@[1] && head[2] == line@[2] && head[3]
                == line@[3] && head[4] == line@[4] && head[5] == line@[5]);
        }
    }
    r
}

/// The values of a sequence of texts.
pub open spec fn texts_view(v: Seq<Vec<u8>>) -> Seq<Seq<u8>> {
    Seq::new(v.len(), |i: int| v[i]@)
}

/// The lines of `content`.
pub fn lines(content: &[u8]) -> (r: Vec<Vec<u8>>)
    ensures
        texts_view(r@) == lines_of(content@),
{
    let ghost text = content@;
    let ghost all = lines_of(text);
    let n = content.len();
    let mut r: Vec<Vec<u8>> = Vec::new();
    let mut start: usize = 0;
    let mut i: usize = 0;
    proof {
        assert(all.skip(0) =~= all);
        assert(texts_view(r@) =~= all.take(0));
    }
    while i < n
        invariant
            n == text.len(),
            text == content@,
            all == lines_of(text),
            start <= i <= n,
            r@.len() <= all.len(),
            all.skip(r@.len() as int) == lines_from(text, start as int, i as int),
            texts_view(r@) == all.take(r@.len() as int),
        decreases n - i,
    {
        if content[i] == NEWLINE {
            let stop = if start < i && content[i - 1] == RETURN {
                i - 1
            } else {
                i
            };
            let line = slice_subrange(content, start, stop);
            let ghost seen = r@.len() as int;
            let ghost before = texts_view(r@);
            proof {
                let tail = lines_from(text, start as int, i as int);
                assert(tail == seq![line@] + lines_from(text, i as int + 1, i as int + 1));
                assert(tail[0] == line@);
                assert(all.skip(seen).len() > 0);
                assert(all.skip(seen)[0] == all[seen]);
                assert(all.skip(seen + 1) =~= tail.skip(1));
                assert(tail.skip(1) =~= lines_from(text, i as int + 1, i as int + 1));
            }
            r.push(slice_to_vec(line));
            assert(texts_view(r@) =~= before.push(line@));
            assert(texts_view(r@) =~= all.take(seen + 1));
            start = i + 1;
        }
        i += 1;
    }
    if start < n {
        let line = slice_subrange(content, start, n);
        let ghost seen = r@.len() as int;
        let ghost before = texts_view(r@);
        proof {
            let tail = lines_from(text, start as int, i as int);
            assert(tail == seq![line@]);
            assert(all.skip(seen).len() == 1);
            assert(all.skip(seen)[0] == all[seen]);
        }
        r.push(slice_to_vec(line));
        assert(texts_view(r@) =~= before.push(line@));
        assert(texts_view(r@) =~= all.take(seen + 1));
        assert(all.take(seen + 1) =~= all);
    } else {
        assert(all.skip(r@.len() as int).len() == 0);
        assert(all.take(r@.len() as int) =~= all);
    }
    r
}

/// The lines of `content` that show `mark`, each with its number; the
/// first line has the number `first`.
fn marked_lines(content: &[u8], mark: Mark, first: usize) -> (r: Vec<(usize, Vec<u8>)>)
    requires
        first <= 1,
    ensures
        numbered_view(r@) == marked(
            lines_of(content@),
            mark,
            first as int,
            lines_of(content@).len() as int,
        ),
{
    let all = lines(content);
    let ghost text = lines_of(content@);
    let mut r: Vec<(usize, Vec<u8>)> = Vec::new();
    let mut i: usize = 0;
    assert(numbered_view(r@) =~= marked(text, mark, first as int, 0));
    while i < all.len()
        invariant
            i <= all@.len(),
            first <= 1,
            texts_view(all@) == text,
            numbered_view(r@) == marked(text, mark, first as int, i as int),
        decreases all@.len() - i,
    {
        let line = all[i].as_slice();
        assert(text[i as int] == line@);
        let shown = match mark {
            Mark::Breakpoint => is_breakpoint(line),
            Mark::StartLabel => is_start_label(line),
        };
        if shown {
            let ghost before = numbered_view(r@);
            r.push((first + i, slice_to_vec(line)));
            assert(numbered_view(r@) =~= before.push((first + i, line@)));
        }
        i += 1;
    }
    r
}

/// The lines of `content` that show `mark`, each with its number, counted
/// from 1.
pub fn filter_lines(content: &[u8], mark: Mark) -> (r: Vec<(usize, Vec<u8>)>)
    ensures
        numbered_view(r@) == marked(lines_of(content@), mark, 1, lines_of(content@).len() as int),
{
    marked_lines(content, mark, 1)
}

/// The lines of `content` with a breakpoint, each with its number, counted
/// from 1.
pub fn find_breakpoints(content: &[u8]) -> (r: Vec<(usize, Vec<u8>)>)
    ensures
        numbered_view(r@) == marked(
            lines_of(content@),
            Mark::Breakpoint,
            1,
            lines_of(content@).len() as int,
        ),
{
    filter_lines(content, Mark::Breakpoint)
}

/// The lines of `content` with a start label, each with its number,
/// counted from 1.
pub fn find_start_labels(content: &[u8]) -> (r: Vec<(usize, Vec<u8>)>)
    ensures
        numbered_view(r@) == marked(
            lines_of(content@),
            Mark::StartLabel,
            1,
            lines_of(content@).len() as int,
        ),
{
    filter_lines(content, Mark::StartLabel)
}

/// The lines of `content` with a breakpoint, each with its number, counted
/// from 0.
pub fn breakpoint_lines(content: &[u8]) -> (r: Vec<(usize, Vec<u8>)>)
    ensures
        numbered_view(r@) == marked(
            lines_of(content@),
            Mark::Breakpoint,
            0,
            lines_of(content@).len() as int,
        ),
{
    marked_lines(content, Mark::Breakpoint, 0)
}

/// Looks through one script: lists its breakpoints and its start labels,
/// and says whether there is a breakpoint and whether the script has
/// anything but exactly one start label.
pub fn criticize_format_issue(content: &[u8]) -> (r: Critique)
    ensures
        numbered_view(r.breakpoints@) == marked(
            lines_of(content@),
            Mark::Breakpoint,
            1,
            lines_of(content@).len() as int,
        ),
        numbered_view(r.start_labels@) == marked(
            lines_of(content@),
            Mark::StartLabel,
            1,
            lines_of(content@).len() as int,
        ),
        r.mark_bp == (r.breakpoints@.len() > 0),
        r.mark_sl == (r.start_labels@.len() != 1),
{
    let breakpoints = find_breakpoints(content);
    let start_labels = find_start_labels(content);
    let mark_bp = breakpoints.len() > 0;
    let mark_sl = start_labels.len() != 1;
    Critique { breakpoints, start_labels, mark_bp, mark_sl }
}

} // verus!
