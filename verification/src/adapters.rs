//! The calls into the `itertools` crate. Each function here hands its
//! arguments to one iterator adaptor of that crate; what it states of the
//! result is taken from the adaptor's documentation and is not proved.

use itertools::Itertools;
use vstd::prelude::*;
use crate::names::{name_lt, names_view};

verus! {

/// `s` without the repetitions: of each name only the first occurrence
/// stays, in the order of those first occurrences.
pub open spec fn first_occurrences(s: Seq<Seq<char>>) -> Seq<Seq<char>>
    decreases s.len(),
{
    if s.len() == 0 {
        Seq::empty()
    } else {
        let rest = first_occurrences(s.drop_last());
        if rest.contains(s.last()) {
            rest
        } else {
            rest.push(s.last())
        }
    }
}

/// The names of `names` one after the other with `sep` between each two.
pub open spec fn joined(names: Seq<Seq<char>>, sep: Seq<char>) -> Seq<char>
    decreases names.len(),
{
    if names.len() == 0 {
        Seq::empty()
    } else if names.len() == 1 {
        names[0]
    } else {
        joined(names.drop_last(), sep) + sep + names.last()
    }
}

/// Calls `Itertools::unique` on the names. The adaptor yields each name the
/// first time it occurs and skips it from then on, so the result is
/// [`first_occurrences`] of the input.
#[verifier::external_body]
pub(crate) fn unique_names(names: Vec<String>) -> (r: Vec<String>)
    ensures
        names_view(r@) == first_occurrences(names_view(names@)),
{
    names.into_iter().unique().collect()
}

/// Calls `Itertools::sorted` on the names. The adaptor sorts with the order
/// of `String`, which compares character by character, a proper prefix
/// first; the result holds the same names as often as the input, and no
/// later name stands before an earlier one.
#[verifier::external_body]
pub(crate) fn sorted_names(names: Vec<String>) -> (r: Vec<String>)
    ensures
        names_view(r@).to_multiset() == names_view(names@).to_multiset(),
        forall|i: int, j: int|
            0 <= i < j < r@.len() ==> !name_lt(#[trigger] r@[j]@, #[trigger] r@[i]@),
{
    names.into_iter().sorted().collect()
}

/// Calls `Itertools::exactly_one` on the names. The adaptor hands back the
/// only name where there is exactly one, and fails otherwise.
#[verifier::external_body]
pub(crate) fn exactly_one_name(names: Vec<String>) -> (r: Option<String>)
    ensures
        r is Some <==> names@.len() == 1,
        r matches Some(name) ==> name@ == names@[0]@,
{
    names.into_iter().exactly_one().ok()
}

/// Calls `Itertools::join` on the names. The adaptor writes the names one
/// after the other with `sep` between each two.
#[verifier::external_body]
pub(crate) fn join_names(names: &Vec<String>, sep: &str) -> (r: String)
    ensures
        r@ == joined(names_view(names@), sep@),
{
    names.iter().join(sep)
}

/// Nothing stands twice among the first occurrences, and they hold the
/// names of the input, no more and no fewer.
pub proof fn lemma_first_occurrences(s: Seq<Seq<char>>)
    ensures
        first_occurrences(s).no_duplicates(),
        forall|x: Seq<char>|
            #![trigger first_occurrences(s).contains(x)]
            #![trigger s.contains(x)]
            first_occurrences(s).contains(x) <==> s.contains(x),
        first_occurrences(s).len() <= s.len(),
        s.len() > 0 ==> first_occurrences(s).len() > 0 && first_occurrences(s)[0] == s[0],
    decreases s.len(),
{
    if s.len() > 0 {
        let rest = first_occurrences(s.drop_last());
        lemma_first_occurrences(s.drop_last());
        assert forall|x: Seq<char>|
            #![trigger first_occurrences(s).contains(x)]
            #![trigger s.contains(x)]
            first_occurrences(s).contains(x) <==> s.contains(x) by {
            if s.contains(x) {
                let k = choose|k: int| 0 <= k < s.len() && s[k] == x;
                if k < s.len() - 1 {
                    assert(s.drop_last()[k] == x);
                    assert(s.drop_last().contains(x));
                    let m = choose|m: int| 0 <= m < rest.len() && rest[m] == x;
                    assert(first_occurrences(s)[m] == x);
                } else if !rest.contains(s.last()) {
                    assert(first_occurrences(s)[rest.len() as int] == x);
                } else {
                    let m = choose|m: int| 0 <= m < rest.len() && rest[m] == x;
                    assert(first_occurrences(s)[m] == x);
                }
            }
            if first_occurrences(s).contains(x) {
                let m = choose|m: int|
                    0 <= m < first_occurrences(s).len() && first_occurrences(s)[m] == x;
                if m < rest.len() {
                    assert(rest[m] == x);
                    assert(rest.contains(x));
                    let k = choose|k: int| 0 <= k < s.drop_last().len() && s.drop_last()[k] == x;
                    assert(s[k] == x);
                } else {
                    assert(s[s.len() - 1] == x);
                }
            }
        }
        if s.len() == 1 {
            assert(s.drop_last().len() == 0);
        } else {
            assert(s.drop_last()[0] == s[0]);
        }
    }
}

} // verus!
