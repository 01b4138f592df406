//! Place names: their order, and which of them name warps.

use vstd::prelude::*;
use vstd::string::StrSliceExecFns;

verus! {

/// Strict lexicographic order of two names by character, compared from
/// position `i` on.
pub open spec fn name_before_from(a: Seq<char>, b: Seq<char>, i: int) -> bool
    decreases a.len() - i,
{
    if i >= b.len() {
        false
    } else if i >= a.len() {
        true
    } else if a[i] == b[i] {
        name_before_from(a, b, i + 1)
    } else {
        (a[i] as int) < (b[i] as int)
    }
}

/// Whether name `a` stands strictly before name `b`: the first differing
/// character decides, and a proper prefix stands first.
pub open spec fn name_lt(a: Seq<char>, b: Seq<char>) -> bool {
    name_before_from(a, b, 0)
}

/// Whether `name` names a warp: it begins with a character from `A` on.
/// Every other name, the empty one too, names a vertex.
pub open spec fn is_warp_name(name: Seq<char>) -> bool {
    name.len() > 0 && name[0] as int >= 0x41
}

/// Whether name `a` stands strictly before name `b`.
pub fn name_less(a: &str, b: &str) -> (r: bool)
    ensures
        r == name_lt(a@, b@),
{
    let la = a.unicode_len();
    let lb = b.unicode_len();
    let mut i: usize = 0;
    while i < la && i < lb
        invariant
            la == a@.len(),
            lb == b@.len(),
            i <= la,
            i <= lb,
            name_lt(a@, b@) == name_before_from(a@, b@, i as int),
        decreases la - i,
    {
        let ca = a.get_char(i);
        let cb = b.get_char(i);
        if ca != cb {
            return ca < cb;
        }
        i += 1;
    }
    i < lb
}

/// Whether `name` names a warp.
pub fn names_warp(name: &str) -> (r: bool)
    ensures
        r == is_warp_name(name@),
{
    name.unicode_len() > 0 && name.get_char(0) >= 'A'
}

/// The views of a sequence of names.
pub open spec fn names_view(v: Seq<String>) -> Seq<Seq<char>> {
    Seq::new(v.len(), |i: int| v[i]@)
}

/// A copy of `names`.
pub fn copy_names(names: &Vec<String>) -> (r: Vec<String>)
    ensures
        names_view(r@) == names_view(names@),
{
    let mut r: Vec<String> = Vec::new();
    let mut i: usize = 0;
    while i < names.len()
        invariant
            i <= names.len(),
            names_view(r@) == names_view(names@).take(i as int),
        decreases names.len() - i,
    {
        let ghost before = names_view(r@);
        r.push(names[i].clone());
        assert(names_view(r@) =~= before.push(names@[i as int]@));
        i += 1;
        assert(names_view(r@) =~= names_view(names@).take(i as int));
    }
    assert(names_view(names@).take(i as int) =~= names_view(names@));
    r
}

/// Whether `names` ascend strictly, so that no name stands twice.
pub open spec fn names_ascending(names: Seq<Seq<char>>) -> bool {
    forall|i: int, j: int| 0 <= i < j < names.len() ==> name_lt(#[trigger] names[i], #[trigger] names[j])
}

/// The position of `key` among ascending names: behind every name that
/// stands before it, scanning from `i`.
pub open spec fn name_rank_from(names: Seq<Seq<char>>, key: Seq<char>, i: int) -> int
    decreases names.len() - i,
{
    if i >= names.len() {
        names.len() as int
    } else if name_lt(names[i], key) {
        name_rank_from(names, key, i + 1)
    } else {
        i
    }
}

/// The position of `key` among ascending names.
pub open spec fn name_rank(names: Seq<Seq<char>>, key: Seq<char>) -> int {
    name_rank_from(names, key, 0)
}

proof fn lemma_before_irreflexive(a: Seq<char>, i: int)
    requires
        0 <= i,
    ensures
        !name_before_from(a, a, i),
    decreases a.len() - i,
{
    if i < a.len() {
        lemma_before_irreflexive(a, i + 1);
    }
}

proof fn lemma_before_transitive(a: Seq<char>, b: Seq<char>, c: Seq<char>, i: int)
    requires
        0 <= i,
        name_before_from(a, b, i),
        name_before_from(b, c, i),
    ensures
        name_before_from(a, c, i),
    decreases a.len() - i,
{
    if i < a.len() && i < b.len() && i < c.len() && a[i] == b[i] && b[i] == c[i] {
        lemma_before_transitive(a, b, c, i + 1);
    }
}

proof fn lemma_before_connected(a: Seq<char>, b: Seq<char>, i: int)
    requires
        0 <= i <= a.len(),
        i <= b.len(),
        forall|k: int| 0 <= k < i ==> a[k] == b[k],
        !name_before_from(a, b, i),
        !name_before_from(b, a, i),
    ensures
        a == b,
    decreases a.len() - i,
{
    if i < a.len() && i < b.len() {
        if a[i] == b[i] {
            lemma_before_connected(a, b, i + 1);
        } else {
            assert(a[i] as int != b[i] as int);
        }
    } else {
        assert(a =~= b);
    }
}

/// No name stands before itself.
pub proof fn lemma_name_lt_irreflexive(a: Seq<char>)
    ensures
        !name_lt(a, a),
{
    lemma_before_irreflexive(a, 0);
}

/// The order of names is transitive.
pub proof fn lemma_name_lt_transitive(a: Seq<char>, b: Seq<char>, c: Seq<char>)
    requires
        name_lt(a, b),
        name_lt(b, c),
    ensures
        name_lt(a, c),
{
    lemma_before_transitive(a, b, c, 0);
}

/// Of two different names one stands before the other, and never both.
pub proof fn lemma_name_lt_total(a: Seq<char>, b: Seq<char>)
    ensures
        name_lt(a, b) || a == b || name_lt(b, a),
        !(name_lt(a, b) && name_lt(b, a)),
{
    if !name_lt(a, b) && !name_lt(b, a) {
        lemma_before_connected(a, b, 0);
    }
    if name_lt(a, b) && name_lt(b, a) {
        lemma_name_lt_transitive(a, b, a);
        lemma_name_lt_irreflexive(a);
    }
}

/// Where the scan for `key` stops: every name before that position stands
/// before `key`, and among ascending names `key` stands at that position or
/// before every name from there on.
pub proof fn lemma_name_rank(names: Seq<Seq<char>>, key: Seq<char>, i: int)
    requires
        0 <= i <= names.len(),
        names_ascending(names),
    ensures
        i <= name_rank_from(names, key, i) <= names.len(),
        forall|j: int| i <= j < name_rank_from(names, key, i) ==> name_lt(#[trigger] names[j], key),
        forall|j: int|
            name_rank_from(names, key, i) <= j < names.len() ==> !name_lt(#[trigger] names[j], key),
    decreases names.len() - i,
{
    if i < names.len() {
        if name_lt(names[i], key) {
            lemma_name_rank(names, key, i + 1);
        } else {
            assert forall|j: int| i <= j < names.len() implies !name_lt(#[trigger] names[j], key) by {
                if j > i && name_lt(names[j], key) {
                    lemma_name_lt_transitive(names[i], names[j], key);
                }
            }
        }
    }
}

/// Among ascending names a name stands at most once, and then at its rank.
pub proof fn lemma_name_found_at_rank(names: Seq<Seq<char>>, key: Seq<char>, k: int)
    requires
        names_ascending(names),
        0 <= k < names.len(),
        names[k] == key,
    ensures
        name_rank(names, key) == k,
{
    lemma_name_rank(names, key, 0);
    let p = name_rank(names, key);
    lemma_name_lt_irreflexive(key);
    if p < k {
        assert(name_lt(names[p], names[k]));
    } else if p > k {
        assert(name_lt(names[k], key));
    }
}

/// Putting `key` at its rank into ascending names that lack it keeps them
/// ascending.
pub proof fn lemma_insert_keeps_ascending(names: Seq<Seq<char>>, key: Seq<char>)
    requires
        names_ascending(names),
        !names.contains(key),
    ensures
        names_ascending(names.insert(name_rank(names, key), key)),
{
    let p = name_rank(names, key);
    let t = names.insert(p, key);
    lemma_name_rank(names, key, 0);
    assert forall|i: int, j: int| 0 <= i < j < t.len() implies name_lt(
        #[trigger] t[i],
        #[trigger] t[j],
    ) by {
        if j == p {
            assert(t[i] == names[i]);
        } else if i == p {
            assert(t[j] == names[j - 1]);
            assert(names.contains(names[j - 1]));
            lemma_name_lt_total(names[j - 1], key);
        } else {
            let si = if i < p { i } else { i - 1 };
            let sj = if j < p { j } else { j - 1 };
            assert(t[i] == names[si]);
            assert(t[j] == names[sj]);
        }
    }
}

} // verus!
