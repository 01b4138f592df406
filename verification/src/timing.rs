//! Reading the arcs of a plain lobby from its script files: the name of a
//! file says which places its arc joins, and a line of its text says how
//! long the arc takes. Names and text are given as bytes.

use vstd::prelude::*;
use vstd::slice::slice_subrange;

verus! {

/// Whether `b` is a letter of the alphabet, small or capital.
pub open spec fn is_letter(b: u8) -> bool {
    (0x41 <= b <= 0x5a) || (0x61 <= b <= 0x7a)
}

/// Whether `b` is a decimal digit.
pub open spec fn is_digit(b: u8) -> bool {
    0x30 <= b <= 0x39
}

/// Whether `b` can stand in the clock reading before a time in frames: a
/// digit, a point or a colon.
pub open spec fn is_clock(b: u8) -> bool {
    is_digit(b) || b == 0x2e || b == 0x3a
}

/// The kinds of bytes that make up the parts of a name or of a time.
#[derive(Clone, Copy, Debug, PartialEq, Eq, Structural)]
pub enum Kind {
    Letter,
    Digit,
    Clock,
}

/// Whether `b` is of the kind `kind`.
pub open spec fn is_kind(b: u8, kind: Kind) -> bool {
    match kind {
        Kind::Letter => is_letter(b),
        Kind::Digit => is_digit(b),
        Kind::Clock => is_clock(b),
    }
}

/// Where the run of bytes of one kind that begins at `i` ends: at the
/// first byte of another kind, or at the end of the text.
pub open spec fn run_end(s: Seq<u8>, i: int, kind: Kind) -> int
    decreases s.len() - i,
{
    if i < 0 || i >= s.len() || !is_kind(s[i], kind) {
        i
    } else {
        run_end(s, i + 1, kind)
    }
}

/// The number that the decimal digits `digits` stand for.
pub open spec fn decimal_value(digits: Seq<u8>) -> nat
    decreases digits.len(),
{
    if digits.len() == 0 {
        0
    } else {
        decimal_value(digits.drop_last()) * 10 + (digits.last() - 0x30) as nat
    }
}

/// The bytes that end the name of a script file: `.tas`.
pub open spec fn script_suffix() -> Seq<u8> {
    seq![0x2eu8, 0x74u8, 0x61u8, 0x73u8]
}

/// The two numbers in the name of a script file that holds an arc, as
/// they are written: the name is made of letters, an underscore, the
/// number of the place the arc leaves, a hyphen, the number of the place
/// it reaches, and `.tas`, with nothing before or behind. `None` for every
/// other name.
pub open spec fn arc_name_parts(name: Seq<u8>) -> Option<(Seq<u8>, Seq<u8>)> {
    let l = run_end(name, 0, Kind::Letter);
    let a = run_end(name, l + 1, Kind::Digit);
    let b = run_end(name, a + 1, Kind::Digit);
    if 0 < l < name.len() && name[l] == 0x5f && l + 1 < a < name.len() && name[a] == 0x2d && a + 1
        < b && b + 4 == name.len() && name.subrange(b, b + 4) == script_suffix() {
        Some((name.subrange(l + 1, a), name.subrange(a + 1, b)))
    } else {
        None
    }
}

/// What the name of a file says.
#[derive(Clone, Copy, Debug, PartialEq, Eq, Structural)]
pub enum ArcName {
    /// The file holds no arc.
    Other,
    /// The file holds the arc from the first place to the second.
    Arc(u32, u32),
    /// The file is named as one that holds an arc, but one of the numbers
    /// is larger than the number of a place can be.
    TooLarge,
}

/// What the name `name` says.
pub open spec fn arc_name_of(name: Seq<u8>) -> ArcName {
    match arc_name_parts(name) {
        None => ArcName::Other,
        Some((from, to)) => if decimal_value(from) <= u32::MAX && decimal_value(to) <= u32::MAX {
            ArcName::Arc(decimal_value(from) as u32, decimal_value(to) as u32)
        } else {
            ArcName::TooLarge
        },
    }
}

/// The time in frames that stands at `s` in `line`, as it is written: a
/// clock reading that begins at `s`, then in round brackets the digits of
/// the time. `None` where no such thing begins at `s`.
pub open spec fn stamp_at(line: Seq<u8>, s: int) -> Option<Seq<u8>> {
    let p = run_end(line, s, Kind::Clock);
    let d = run_end(line, p + 1, Kind::Digit);
    if 0 <= s < p < line.len() && line[p] == 0x28 && p + 1 < d < line.len() && line[d] == 0x29 {
        Some(line.subrange(p + 1, d))
    } else {
        None
    }
}

/// The first time in frames that stands in `line` at `s` or behind, as it
/// is written.
pub open spec fn stamp_from(line: Seq<u8>, s: int) -> Option<Seq<u8>>
    decreases line.len() - s,
{
    if s < 0 || s >= line.len() {
        None
    } else if stamp_at(line, s) is Some {
        stamp_at(line, s)
    } else {
        stamp_from(line, s + 1)
    }
}

/// The time of the first of `lines[i..]` that holds one, as it is written.
pub open spec fn first_stamp(lines: Seq<Seq<u8>>, i: int) -> Option<Seq<u8>>
    decreases lines.len() - i,
{
    if i < 0 || i >= lines.len() {
        None
    } else if stamp_from(lines[i], 0) is Some {
        stamp_from(lines[i], 0)
    } else {
        first_stamp(lines, i + 1)
    }
}

/// The time that the text of a script gives for its arc: the number
/// written in the first line that holds a time. `None` where no line holds
/// one, and where that number is larger than a time can be.
pub open spec fn time_of(content: Seq<u8>) -> Option<u32> {
    match first_stamp(crate::format::lines_of(content), 0) {
        Some(digits) => if decimal_value(digits) <= u32::MAX {
            Some(decimal_value(digits) as u32)
        } else {
            None
        },
        None => None,
    }
}

/// Whether `b` is of the kind `kind`.
pub fn of_kind(b: u8, kind: Kind) -> (r: bool)
    ensures
        r == is_kind(b, kind),
{
    match kind {
        Kind::Letter => (0x41 <= b && b <= 0x5a) || (0x61 <= b && b <= 0x7a),
        Kind::Digit => 0x30 <= b && b <= 0x39,
        Kind::Clock => (0x30 <= b && b <= 0x39) || b == 0x2e || b == 0x3a,
    }
}

/// Where the run of bytes of one kind that begins at `i` ends.
pub fn find_run_end(s: &[u8], i: usize, kind: Kind) -> (r: usize)
    requires
        i <= s@.len(),
    ensures
        r == run_end(s@, i as int, kind),
        i <= r <= s@.len(),
        forall|k: int| i <= k < r ==> is_kind(#[trigger] s@[k], kind),
        r < s@.len() ==> !is_kind(s@[r as int], kind),
{
    let mut r = i;
    while r < s.len() && of_kind(s[r], kind)
        invariant
            i <= r <= s@.len(),
            run_end(s@, i as int, kind) == run_end(s@, r as int, kind),
            forall|k: int| i <= k < r ==> is_kind(#[trigger] s@[k], kind),
        decreases s@.len() - r,
    {
        r += 1;
    }
    r
}

/// The number that `digits` stand for, if it is no larger than the number
/// of a place or a time can be.
pub fn parse_number(digits: &[u8]) -> (r: Option<u32>)
    requires
        forall|k: int| 0 <= k < digits@.len() ==> is_digit(#[trigger] digits@[k]),
    ensures
        match r {
            Some(v) => v == decimal_value(digits@),
            None => decimal_value(digits@) > u32::MAX,
        },
{
    let mut v: u64 = 0;
    let mut i: usize = 0;
    assert(digits@.take(0) =~= Seq::<u8>::empty());
    while i < digits.len()
        invariant
            i <= digits@.len(),
            forall|k: int| 0 <= k < digits@.len() ==> is_digit(#[trigger] digits@[k]),
            v == decimal_value(digits@.take(i as int)),
            v <= u32::MAX,
        decreases digits@.len() - i,
    {
        let d = digits[i] - 0x30;
        proof {
            assert(digits@.take(i + 1).drop_last() =~= digits@.take(i as int));
            assert(digits@.take(i + 1).last() == digits@[i as int]);
        }
        v = v * 10 + d as u64;
        i += 1;
        if v > 0xFFFF_FFFF {
            proof {
                lemma_value_grows(digits@, i as int);
            }
            return None;
        }
    }
    assert(digits@.take(i as int) =~= digits@);
    Some(v as u32)
}

/// More digits do not make a smaller number.
proof fn lemma_value_grows(digits: Seq<u8>, n: int)
    requires
        0 <= n <= digits.len(),
        forall|k: int| 0 <= k < digits.len() ==> is_digit(#[trigger] digits[k]),
    ensures
        decimal_value(digits.take(n)) <= decimal_value(digits),
    decreases digits.len() - n,
{
    if n < digits.len() {
        lemma_value_grows(digits, n + 1);
        assert(digits.take(n + 1).drop_last() =~= digits.take(n));
    } else {
        assert(digits.take(n) =~= digits);
    }
}

/// What the name of a file says: whether the file holds an arc, and
/// between which places.
pub fn parse_arc_name(name: &[u8]) -> (r: ArcName)
    ensures
        r == arc_name_of(name@),
{
    let n = name.len();
    let l = find_run_end(name, 0, Kind::Letter);
    if !(0 < l && l < n && name[l] == 0x5f) {
        proof {
            lemma_run_end_bounds(name@, l as int + 1, Kind::Digit);
            lemma_run_end_bounds(
                name@,
                run_end(name@, l as int + 1, Kind::Digit) + 1,
                Kind::Digit,
            );
        }
        return ArcName::Other;
    }
    let a = find_run_end(name, l + 1, Kind::Digit);
    if !(l + 1 < a && a < n && name[a] == 0x2d) {
        proof {
            lemma_run_end_bounds(name@, a as int + 1, Kind::Digit);
        }
        return ArcName::Other;
    }
    let b = find_run_end(name, a + 1, Kind::Digit);
    if !(a + 1 < b && n - b == 4 && name[b] == 0x2e && name[b + 1] == 0x74 && name[b + 2] == 0x61
        && name[b + 3] == 0x73) {
        proof {
            if a + 1 < b && b + 4 == n {
                let tail = name@.subrange(b as int, b + 4);
                assert(tail[0] == name@[b as int] && tail[1] == name@[b + 1] && tail[2] == name@[b
                    + 2] && tail[3] == name@[b + 3]);
            }
        }
        return ArcName::Other;
    }
    assert(name@.subrange(b as int, b + 4) =~= script_suffix());
    let from = parse_number(slice_subrange(name, l + 1, a));
    let to = parse_number(slice_subrange(name, a + 1, b));
    match (from, to) {
        (Some(from), Some(to)) => ArcName::Arc(from, to),
        _ => ArcName::TooLarge,
    }
}

proof fn lemma_run_end_bounds(s: Seq<u8>, i: int, kind: Kind)
    ensures
        i <= run_end(s, i, kind),
        0 <= i <= s.len() ==> run_end(s, i, kind) <= s.len(),
    decreases s.len() - i,
{
    if 0 <= i < s.len() && is_kind(s[i], kind) {
        lemma_run_end_bounds(s, i + 1, kind);
    }
}

/// The first time in frames that stands in `line`, as it is written.
pub fn find_stamp(line: &[u8]) -> (r: Option<(usize, usize)>)
    ensures
        match r {
            Some((from, to)) => from <= to <= line@.len() && stamp_from(line@, 0) == Some(
                line@.subrange(from as int, to as int),
            ) && forall|k: int| from <= k < to ==> is_digit(#[trigger] line@[k]),
            None => stamp_from(line@, 0) is None,
        },
{
    let n = line.len();
    let mut s: usize = 0;
    while s < n
        invariant
            n == line@.len(),
            s <= n,
            stamp_from(line@, 0) == stamp_from(line@, s as int),
        decreases n - s,
    {
        let p = find_run_end(line, s, Kind::Clock);
        if s < p && p < n && line[p] == 0x28 {
            let d = find_run_end(line, p + 1, Kind::Digit);
            if p + 1 < d && d < n && line[d] == 0x29 {
                return Some((p + 1, d));
            }
        } else {
            proof {
                lemma_run_end_bounds(line@, p as int + 1, Kind::Digit);
            }
        }
        s += 1;
    }
    None
}

/// The time that the text of a script gives for its arc.
pub fn parse_time(content: &[u8]) -> (r: Option<u32>)
    ensures
        r == time_of(content@),
{
    let all = crate::format::lines(content);
    let ghost text = crate::format::lines_of(content@);
    let mut i: usize = 0;
    while i < all.len()
        invariant
            i <= all@.len(),
            crate::format::texts_view(all@) == text,
            text == crate::format::lines_of(content@),
            first_stamp(text, 0) == first_stamp(text, i as int),
        decreases all@.len() - i,
    {
        let line = all[i].as_slice();
        assert(text[i as int] == line@);
        match find_stamp(line) {
            Some((from, to)) => {
                return parse_number(slice_subrange(line, from, to));
            },
            None => {},
        }
        i += 1;
    }
    None
}

/// What one file says of the lobby.
#[derive(Clone, Copy, Debug, PartialEq, Eq, Structural)]
pub enum Reading {
    /// The file holds no arc.
    Other,
    /// The file is named as one that holds an arc, but one of the numbers
    /// in its name is larger than the number of a place can be.
    TooLarge,
    /// The file holds the arc between the two places, which takes the
    /// given time.
    Timed(u32, u32, u32),
    /// The file holds the arc between the two places, but its text could
    /// not be read or gives no time for it.
    Untimed(u32, u32),
}

/// What the file called `name` says of the lobby, where `content` is its
/// text, if the text could be read.
pub open spec fn reading_of(name: Seq<u8>, content: Option<Seq<u8>>) -> Reading {
    match arc_name_of(name) {
        ArcName::Other => Reading::Other,
        ArcName::TooLarge => Reading::TooLarge,
        ArcName::Arc(from, to) => match content {
            Some(text) => match time_of(text) {
                Some(w) => Reading::Timed(from, to, w),
                None => Reading::Untimed(from, to),
            },
            None => Reading::Untimed(from, to),
        },
    }
}

/// What the file called `name` says of the lobby.
pub fn read_arc(name: &[u8], content: Option<&[u8]>) -> (r: Reading)
    ensures
        r == reading_of(
            name@,
            match content {
                Some(text) => Some(text@),
                None => None,
            },
        ),
{
    match parse_arc_name(name) {
        ArcName::Other => Reading::Other,
        ArcName::TooLarge => Reading::TooLarge,
        ArcName::Arc(from, to) => match content {
            Some(text) => match parse_time(text) {
                Some(w) => Reading::Timed(from, to, w),
                None => Reading::Untimed(from, to),
            },
            None => Reading::Untimed(from, to),
        },
    }
}

/// The word that marks the line with the time of an edge: `Time:`.
pub open spec fn time_word() -> Seq<u8> {
    seq![0x54u8, 0x69u8, 0x6du8, 0x65u8, 0x3au8]
}

/// Whether `word` stands somewhere in `line`.
pub open spec fn holds_word(line: Seq<u8>, word: Seq<u8>) -> bool {
    exists|k: int| 0 <= k && k + word.len() <= line.len() && #[trigger] line.subrange(
        k,
        k + word.len(),
    ) == word
}

/// Where the first round bracket, opening or closing, stands in `line` at
/// `i` or behind; the length of the line where none does.
pub open spec fn bracket_from(line: Seq<u8>, i: int) -> int
    decreases line.len() - i,
{
    if i < 0 || i >= line.len() || line[i] == 0x28 || line[i] == 0x29 {
        i
    } else {
        bracket_from(line, i + 1)
    }
}

/// What stands between the first and the second round bracket of `line`,
/// or behind the first where there is no second; none where the line has
/// no round bracket.
pub open spec fn bracketed(line: Seq<u8>) -> Option<Seq<u8>> {
    let p = bracket_from(line, 0);
    if 0 <= p < line.len() {
        Some(line.subrange(p + 1, bracket_from(line, p + 1)))
    } else {
        None
    }
}

/// What is written for the time of an edge in the first of `lines[i..]`
/// that holds the word for it and a round bracket.
pub open spec fn first_time(lines: Seq<Seq<u8>>, i: int) -> Option<Seq<u8>>
    decreases lines.len() - i,
{
    if i < 0 || i >= lines.len() {
        None
    } else if holds_word(lines[i], time_word()) && bracketed(lines[i]) is Some {
        bracketed(lines[i])
    } else {
        first_time(lines, i + 1)
    }
}

/// Whether `text` is a number as it is written: decimal digits, at least
/// one, with or without a plus sign before them.
pub open spec fn is_number(text: Seq<u8>) -> bool {
    if text.len() > 0 && text[0] == 0x2b {
        all_digits(text.skip(1))
    } else {
        all_digits(text)
    }
}

/// Whether `text` is made of decimal digits, at least one.
pub open spec fn all_digits(text: Seq<u8>) -> bool {
    text.len() > 0 && forall|k: int| 0 <= k < text.len() ==> is_digit(#[trigger] text[k])
}

/// The number that `text` stands for, without bound.
pub open spec fn number_of(text: Seq<u8>) -> nat {
    if text.len() > 0 && text[0] == 0x2b {
        decimal_value(text.skip(1))
    } else {
        decimal_value(text)
    }
}

/// What the text of a script says of the time of its edge.
#[derive(Clone, Copy, Debug, PartialEq, Eq, Structural)]
pub enum EdgeTime {
    /// No line holds the word for the time and a round bracket.
    Missing,
    /// What is written in the brackets is no number, or a number larger
    /// than a time can be.
    Malformed,
    /// The time.
    Time(u64),
}

/// What the text `content` says of the time of its edge.
pub open spec fn edge_time_of(content: Seq<u8>) -> EdgeTime {
    match first_time(crate::format::lines_of(content), 0) {
        None => EdgeTime::Missing,
        Some(text) => if is_number(text) && number_of(text) <= u64::MAX {
            EdgeTime::Time(number_of(text) as u64)
        } else {
            EdgeTime::Malformed
        },
    }
}

/// Whether `word` stands somewhere in `line`.
pub fn find_word(line: &[u8], word: &[u8]) -> (r: bool)
    ensures
        r == holds_word(line@, word@),
{
    let n = line.len();
    let m = word.len();
    if m > n {
        return false;
    }
    let mut k: usize = 0;
    loop
        invariant
            n == line@.len(),
            m == word@.len(),
            m <= n,
            k <= n - m,
            forall|x: int| 0 <= x < k ==> #[trigger] line@.subrange(x, x + m) != word@,
        decreases n - m - k,
    {
        if crate::template::is_at(line, k, word) {
            return true;
        }
        if k == n - m {
            return false;
        }
        k += 1;
    }
}

/// Where the first round bracket stands in `line` at `i` or behind.
pub fn find_bracket(line: &[u8], i: usize) -> (r: usize)
    requires
        i <= line@.len(),
    ensures
        r == bracket_from(line@, i as int),
        i <= r <= line@.len(),
{
    let mut r = i;
    while r < line.len() && line[r] != 0x28 && line[r] != 0x29
        invariant
            i <= r <= line@.len(),
            bracket_from(line@, i as int) == bracket_from(line@, r as int),
        decreases line@.len() - r,
    {
        r += 1;
    }
    r
}

/// The number that `text` stands for, where it is a number that can be
/// held.
pub fn parse_count(text: &[u8]) -> (r: Option<u64>)
    ensures
        match r {
            Some(v) => is_number(text@) && v == number_of(text@),
            None => !is_number(text@) || number_of(text@) > u64::MAX,
        },
{
    let n = text.len();
    let first: usize = if n > 0 && text[0] == 0x2b {
        1
    } else {
        0
    };
    let ghost digits = if first == 1 {
        text@.skip(1)
    } else {
        text@
    };
    if first == n {
        return None;
    }
    let mut v: u64 = 0;
    let mut i: usize = first;
    assert(digits.take(0) =~= Seq::<u8>::empty());
    while i < n
        invariant
            first <= i <= n,
            n == text@.len(),
            first <= 1,
            (first == 1) == (text@.len() > 0 && text@[0] == 0x2b),
            digits == if first == 1 {
                text@.skip(1)
            } else {
                text@
            },
            forall|k: int| 0 <= k < i - first ==> is_digit(#[trigger] digits[k]),
            v == decimal_value(digits.take(i - first)),
        decreases n - i,
    {
        let b = text[i];
        assert(digits[i - first] == b);
        if !(0x30 <= b && b <= 0x39) {
            assert(!is_digit(digits[i - first]));
            return None;
        }
        proof {
            assert(digits.take(i - first + 1).drop_last() =~= digits.take(i - first));
            assert(digits.take(i - first + 1).last() == b);
        }
        let d = (b - 0x30) as u64;
        if v > (u64::MAX - d) / 10 {
            proof {
                assert(decimal_value(digits.take(i - first + 1)) == v * 10 + d);
                assert(v * 10 + d > u64::MAX);
                lemma_value_grows_from(digits, i - first + 1);
                if exists|k: int| i - first + 1 <= k < digits.len() && !is_digit(#[trigger] digits[k]) {
                    let k = choose|k: int|
                        i - first + 1 <= k < digits.len() && !is_digit(#[trigger] digits[k]);
                    assert(!is_digit(digits[k]));
                }
            }
            return None;
        }
        v = v * 10 + d;
        i += 1;
    }
    assert(digits.take(i - first) =~= digits);
    Some(v)
}

/// More digits do not make a smaller number, whatever follows them.
proof fn lemma_value_grows_from(digits: Seq<u8>, n: int)
    requires
        0 <= n <= digits.len(),
    ensures
        decimal_value(digits.take(n)) <= decimal_value(digits) || exists|k: int|
            n <= k < digits.len() && !is_digit(#[trigger] digits[k]),
    decreases digits.len() - n,
{
    if n < digits.len() {
        if is_digit(digits[n]) {
            lemma_value_grows_from(digits, n + 1);
            assert(digits.take(n + 1).drop_last() =~= digits.take(n));
        }
    } else {
        assert(digits.take(n) =~= digits);
    }
}

/// What the text of a script says of the time of its edge.
pub fn edge_time(content: &[u8]) -> (r: EdgeTime)
    ensures
        r == edge_time_of(content@),
{
    let all = crate::format::lines(content);
    let ghost lines = crate::format::lines_of(content@);
    let mut word: Vec<u8> = Vec::new();
    word.push(0x54);
    word.push(0x69);
    word.push(0x6d);
    word.push(0x65);
    word.push(0x3a);
    assert(word@ =~= time_word());
    let mut i: usize = 0;
    while i < all.len()
        invariant
            i <= all@.len(),
            crate::format::texts_view(all@) == lines,
            lines == crate::format::lines_of(content@),
            word@ == time_word(),
            first_time(lines, 0) == first_time(lines, i as int),
        decreases all@.len() - i,
    {
        let line = all[i].as_slice();
        assert(lines[i as int] == line@);
        if find_word(line, word.as_slice()) {
            let p = find_bracket(line, 0);
            if p < line.len() {
                let q = find_bracket(line, p + 1);
                assert(bracketed(line@) == Some(line@.subrange(p + 1, q as int)));
                assert(first_time(lines, i as int) == bracketed(line@));
                return match parse_count(slice_subrange(line, p + 1, q)) {
                    Some(v) => EdgeTime::Time(v),
                    None => EdgeTime::Malformed,
                };
            }
        }
        i += 1;
    }
    EdgeTime::Missing
}

/// The two places in the name of a script file that holds an edge of a
/// lobby with warps: the name ends with `.tas`, and what stands before is
/// parted by hyphens into at least two pieces, of which the first names
/// the place the edge leaves and the second the place it reaches. `None`
/// for every other name.
pub open spec fn edge_name_of(name: Seq<u8>) -> Option<(Seq<u8>, Seq<u8>)> {
    if name.len() >= 4 && name.subrange(name.len() - 4, name.len() as int) == script_suffix() {
        let pieces = crate::template::pieces_of(name.subrange(0, name.len() - 4), 0x2d);
        if pieces.len() >= 2 {
            Some((pieces[0], pieces[1]))
        } else {
            None
        }
    } else {
        None
    }
}

/// The two places in the name of a script file that holds an edge.
pub fn edge_file_name(name: &[u8]) -> (r: Option<(Vec<u8>, Vec<u8>)>)
    ensures
        match r {
            Some((src, dst)) => edge_name_of(name@) == Some((src@, dst@)),
            None => edge_name_of(name@) is None,
        },
{
    let n = name.len();
    if n < 4 {
        return None;
    }
    let tail = slice_subrange(name, n - 4, n);
    if !(tail[0] == 0x2e && tail[1] == 0x74 && tail[2] == 0x61 && tail[3] == 0x73) {
        return None;
    }
    assert(tail@ =~= script_suffix());
    let mut pieces = crate::template::split(slice_subrange(name, 0, n - 4), 0x2d);
    if pieces.len() < 2 {
        return None;
    }
    let ghost all = crate::format::texts_view(pieces@);
    assert(all[0] == pieces@[0]@ && all[1] == pieces@[1]@);
    let dst = pieces.swap_remove(1);
    let src = pieces.swap_remove(0);
    Some((src, dst))
}

/// Whether `name` names a warp from which edges start: it is not empty
/// and made of letters only.
pub fn is_warp_source(name: &[u8]) -> (r: bool)
    ensures
        r == (name@.len() > 0 && forall|k: int|
            0 <= k < name@.len() ==> is_letter(#[trigger] name@[k])),
{
    let n = name.len();
    n > 0 && find_run_end(name, 0, Kind::Letter) == n
}

} // verus!
