//! Lexicographic order on sequences.
//!
//! Two sequences are compared at the first position where they differ; if
//! there is none, the shorter one comes first. Strings are ordered this way
//! by the code points of their characters, and entry names by their
//! components, each component ordered as a string.

use vstd::prelude::*;
use crate::text::views;

verus! {

/// How one value stands to another in a total order.
#[derive(Clone, Copy, Debug, PartialEq, Eq, Structural)]
pub enum Rank {
    Before,
    Same,
    After,
}

/// The number of leading positions at which `a` and `b` agree.
pub open spec fn shared_len<T>(a: Seq<T>, b: Seq<T>) -> nat
    decreases a.len(),
{
    if a.len() == 0 || b.len() == 0 || a[0] != b[0] {
        0
    } else {
        1 + shared_len(a.drop_first(), b.drop_first())
    }
}

/// `a` comes strictly before `b`: at the first difference `a` is smaller by
/// `lt`, or `a` is a proper prefix of `b`.
pub open spec fn lex_lt<T>(a: Seq<T>, b: Seq<T>, lt: spec_fn(T, T) -> bool) -> bool {
    let k = shared_len(a, b) as int;
    k < b.len() && (k == a.len() || lt(a[k], b[k]))
}

/// Characters are ordered by code point.
pub open spec fn char_lt(x: char, y: char) -> bool {
    (x as int) < (y as int)
}

/// Strings are ordered lexicographically by code point.
pub open spec fn chars_lt(a: Seq<char>, b: Seq<char>) -> bool {
    lex_lt(a, b, |x: char, y: char| char_lt(x, y))
}

/// Lists of strings are ordered lexicographically, string by string.
pub open spec fn parts_lt(a: Seq<Seq<char>>, b: Seq<Seq<char>>) -> bool {
    lex_lt(a, b, |p: Seq<char>, q: Seq<char>| chars_lt(p, q))
}

/// `a` comes before `b` or equals it.
pub open spec fn parts_le(a: Seq<Seq<char>>, b: Seq<Seq<char>>) -> bool {
    a == b || parts_lt(a, b)
}

/// The rank of the string `a` relative to `b`.
pub open spec fn chars_rank(a: Seq<char>, b: Seq<char>) -> Rank {
    if a == b {
        Rank::Same
    } else if chars_lt(a, b) {
        Rank::Before
    } else {
        Rank::After
    }
}

/// The rank of the list `a` relative to `b`.
pub open spec fn parts_rank(a: Seq<Seq<char>>, b: Seq<Seq<char>>) -> Rank {
    if a == b {
        Rank::Same
    } else if parts_lt(a, b) {
        Rank::Before
    } else {
        Rank::After
    }
}

/// `shared_len` stops within both sequences, everything before it agrees,
/// and it stops only at an end or at a difference.
pub proof fn lemma_shared_len_props<T>(a: Seq<T>, b: Seq<T>)
    ensures
        shared_len(a, b) <= a.len(),
        shared_len(a, b) <= b.len(),
        forall|j: int| 0 <= j < shared_len(a, b) ==> a[j] == b[j],
        shared_len(a, b) == a.len() || shared_len(a, b) == b.len() || a[shared_len(a, b) as int]
            != b[shared_len(a, b) as int],
    decreases a.len(),
{
    if !(a.len() == 0 || b.len() == 0 || a[0] != b[0]) {
        let a1 = a.drop_first();
        let b1 = b.drop_first();
        lemma_shared_len_props(a1, b1);
        let k1 = shared_len(a1, b1);
        assert forall|j: int| 0 <= j < shared_len(a, b) implies a[j] == b[j] by {
            if j > 0 {
                assert(a1[j - 1] == b1[j - 1]);
            }
        }
        if k1 < a1.len() && k1 < b1.len() {
            assert(a1[k1 as int] == a[k1 as int + 1]);
            assert(b1[k1 as int] == b[k1 as int + 1]);
        }
    }
}

/// A position with the properties of `shared_len` is `shared_len`.
pub proof fn lemma_shared_len_at<T>(a: Seq<T>, b: Seq<T>, k: int)
    requires
        0 <= k <= a.len(),
        k <= b.len(),
        forall|j: int| 0 <= j < k ==> a[j] == b[j],
        k == a.len() || k == b.len() || a[k] != b[k],
    ensures
        shared_len(a, b) == k,
    decreases k,
{
    if k > 0 {
        let a1 = a.drop_first();
        let b1 = b.drop_first();
        assert(a[0] == b[0]);
        assert forall|j: int| 0 <= j < k - 1 implies a1[j] == b1[j] by {
            assert(a[j + 1] == b[j + 1]);
        }
        lemma_shared_len_at(a1, b1, k - 1);
    }
}

/// `shared_len` does not depend on the order of its arguments.
pub proof fn lemma_shared_len_symmetric<T>(a: Seq<T>, b: Seq<T>)
    ensures
        shared_len(a, b) == shared_len(b, a),
{
    lemma_shared_len_props(a, b);
    lemma_shared_len_at(b, a, shared_len(a, b) as int);
}

/// Nothing comes strictly before itself.
pub proof fn lemma_lex_irreflexive<T>(a: Seq<T>, lt: spec_fn(T, T) -> bool)
    ensures
        !lex_lt(a, a, lt),
{
    lemma_shared_len_at(a, a, a.len() as int);
}

/// Of two different sequences one comes strictly before the other, when the
/// same holds of their elements.
pub proof fn lemma_lex_total<T>(a: Seq<T>, b: Seq<T>, lt: spec_fn(T, T) -> bool)
    requires
        forall|x: T, y: T| x != y ==> #[trigger] lt(x, y) || lt(y, x),
    ensures
        a == b || lex_lt(a, b, lt) || lex_lt(b, a, lt),
{
    lemma_shared_len_props(a, b);
    lemma_shared_len_symmetric(a, b);
    let k = shared_len(a, b) as int;
    if k == a.len() && k == b.len() {
        assert(a =~= b);
    }
}

/// The order is transitive when the order of the elements is transitive and
/// irreflexive.
pub proof fn lemma_lex_transitive<T>(a: Seq<T>, b: Seq<T>, c: Seq<T>, lt: spec_fn(T, T) -> bool)
    requires
        forall|x: T| !#[trigger] lt(x, x),
        forall|x: T, y: T, z: T| #[trigger] lt(x, y) && #[trigger] lt(y, z) ==> lt(x, z),
        lex_lt(a, b, lt),
        lex_lt(b, c, lt),
    ensures
        lex_lt(a, c, lt),
{
    lemma_shared_len_props(a, b);
    lemma_shared_len_props(b, c);
    let k1 = shared_len(a, b) as int;
    let k2 = shared_len(b, c) as int;
    if k1 < k2 {
        assert(b[k1] == c[k1]);
        lemma_shared_len_at(a, c, k1);
    } else if k2 < k1 {
        assert(a[k2] == b[k2]);
        lemma_shared_len_at(a, c, k2);
    } else {
        if k1 == a.len() {
            lemma_shared_len_at(a, c, k1);
        } else {
            assert(lt(a[k1], b[k1]) && lt(b[k1], c[k1]));
            assert(lt(a[k1], c[k1]));
            lemma_shared_len_at(a, c, k1);
        }
    }
}

/// The order on characters is a strict total order.
pub proof fn lemma_char_order()
    ensures
        forall|x: char| !char_lt(x, x),
        forall|x: char, y: char| x != y ==> #[trigger] char_lt(x, y) || char_lt(y, x),
        forall|x: char, y: char, z: char| #[trigger]
            char_lt(x, y) && #[trigger] char_lt(y, z) ==> char_lt(x, z),
{
    assert forall|x: char, y: char| x != y implies #[trigger] char_lt(x, y) || char_lt(y, x) by {
        assert(x as int != y as int);
    }
}

/// The order on strings is a strict total order.
pub proof fn lemma_chars_order()
    ensures
        forall|a: Seq<char>| !#[trigger] chars_lt(a, a),
        forall|a: Seq<char>, b: Seq<char>| a != b ==> #[trigger] chars_lt(a, b) || chars_lt(b, a),
        forall|a: Seq<char>, b: Seq<char>, c: Seq<char>| #[trigger]
            chars_lt(a, b) && #[trigger] chars_lt(b, c) ==> chars_lt(a, c),
{
    lemma_char_order();
    let lt = |x: char, y: char| char_lt(x, y);
    assert forall|a: Seq<char>| !#[trigger] chars_lt(a, a) by {
        lemma_lex_irreflexive(a, lt);
    }
    assert forall|a: Seq<char>, b: Seq<char>| a != b implies #[trigger] chars_lt(a, b) || chars_lt(
        b,
        a,
    ) by {
        lemma_lex_total(a, b, lt);
    }
    assert forall|a: Seq<char>, b: Seq<char>, c: Seq<char>| #[trigger]
        chars_lt(a, b) && #[trigger] chars_lt(b, c) implies chars_lt(a, c) by {
        lemma_lex_transitive(a, b, c, lt);
    }
}

/// No list of strings comes strictly before itself.
pub proof fn lemma_parts_irreflexive(a: Seq<Seq<char>>)
    ensures
        !parts_lt(a, a),
{
    lemma_lex_irreflexive(a, |p: Seq<char>, q: Seq<char>| chars_lt(p, q));
}

/// Of two different lists of strings one comes strictly before the other.
pub proof fn lemma_parts_total(a: Seq<Seq<char>>, b: Seq<Seq<char>>)
    ensures
        a == b || parts_lt(a, b) || parts_lt(b, a),
{
    lemma_chars_order();
    lemma_lex_total(a, b, |p: Seq<char>, q: Seq<char>| chars_lt(p, q));
}

/// The order on lists of strings is transitive.
pub proof fn lemma_parts_transitive(a: Seq<Seq<char>>, b: Seq<Seq<char>>, c: Seq<Seq<char>>)
    requires
        parts_lt(a, b),
        parts_lt(b, c),
    ensures
        parts_lt(a, c),
{
    lemma_chars_order();
    lemma_lex_transitive(a, b, c, |p: Seq<char>, q: Seq<char>| chars_lt(p, q));
}

/// No two lists of strings come strictly before each other.
pub proof fn lemma_parts_asymmetric(a: Seq<Seq<char>>, b: Seq<Seq<char>>)
    requires
        parts_lt(a, b),
    ensures
        !parts_lt(b, a),
        a != b,
{
    lemma_parts_irreflexive(a);
    if parts_lt(b, a) {
        lemma_parts_transitive(a, b, a);
    }
}

/// A list comes strictly before each of its proper extensions.
pub proof fn lemma_prefix_before(a: Seq<Seq<char>>, b: Seq<Seq<char>>)
    requires
        a.len() < b.len(),
        forall|j: int| 0 <= j < a.len() ==> a[j] == b[j],
    ensures
        parts_lt(a, b),
{
    lemma_shared_len_at(a, b, a.len() as int);
}

/// Before-or-equal is transitive.
pub proof fn lemma_parts_le_transitive(a: Seq<Seq<char>>, b: Seq<Seq<char>>, c: Seq<Seq<char>>)
    requires
        parts_le(a, b),
        parts_le(b, c),
    ensures
        parts_le(a, c),
{
    if a != b && b != c {
        lemma_parts_transitive(a, b, c);
    }
}

/// Strictly before something that is before-or-equal is strictly before.
pub proof fn lemma_parts_lt_le(a: Seq<Seq<char>>, b: Seq<Seq<char>>, c: Seq<Seq<char>>)
    requires
        parts_lt(a, b),
        parts_le(b, c),
    ensures
        parts_lt(a, c),
{
    if b != c {
        lemma_parts_transitive(a, b, c);
    }
}

/// Before-or-equal something that is strictly before is strictly before.
pub proof fn lemma_parts_le_lt(a: Seq<Seq<char>>, b: Seq<Seq<char>>, c: Seq<Seq<char>>)
    requires
        parts_le(a, b),
        parts_lt(b, c),
    ensures
        parts_lt(a, c),
{
    if a != b {
        lemma_parts_transitive(a, b, c);
    }
}

/// Putting the same components in front of two lists keeps their order.
pub proof fn lemma_prepend_keeps_order(p: Seq<Seq<char>>, a: Seq<Seq<char>>, b: Seq<Seq<char>>)
    requires
        parts_lt(a, b),
    ensures
        parts_lt(p + a, p + b),
{
    lemma_shared_len_props(a, b);
    let k = shared_len(a, b) as int;
    let pa = p + a;
    let pb = p + b;
    assert forall|j: int| 0 <= j < p.len() + k implies pa[j] == pb[j] by {
        if j >= p.len() {
            assert(pa[j] == a[j - p.len()]);
            assert(pb[j] == b[j - p.len()]);
        }
    }
    if k < a.len() {
        assert(pa[p.len() + k] == a[k]);
    }
    assert(pb[p.len() + k] == b[k]);
    lemma_shared_len_at(pa, pb, p.len() + k);
}

/// The rank of the string `a` relative to `b`.
pub fn rank_chars(a: &Vec<char>, b: &Vec<char>) -> (r: Rank)
    ensures
        r == chars_rank(a@, b@),
{
    let mut i: usize = 0;
    while i < a.len() && i < b.len()
        invariant
            i <= a.len(),
            i <= b.len(),
            forall|j: int| 0 <= j < i ==> a@[j] == b@[j],
        decreases a.len() - i,
    {
        let x = a[i];
        let y = b[i];
        if x != y {
            proof {
                lemma_shared_len_at(a@, b@, i as int);
            }
            if x < y {
                return Rank::Before;
            } else {
                return Rank::After;
            }
        }
        i += 1;
    }
    proof {
        lemma_shared_len_at(a@, b@, i as int);
    }
    if a.len() == b.len() {
        proof {
            assert(a@ =~= b@);
        }
        Rank::Same
    } else if a.len() < b.len() {
        Rank::Before
    } else {
        Rank::After
    }
}

/// The rank of the list of strings `a` relative to `b`.
pub fn rank_parts(a: &Vec<Vec<char>>, b: &Vec<Vec<char>>) -> (r: Rank)
    ensures
        r == parts_rank(views(a@), views(b@)),
{
    let ghost va = views(a@);
    let ghost vb = views(b@);
    let mut i: usize = 0;
    while i < a.len() && i < b.len()
        invariant
            va == views(a@),
            vb == views(b@),
            i <= a.len(),
            i <= b.len(),
            forall|j: int| 0 <= j < i ==> va[j] == vb[j],
        decreases a.len() - i,
    {
        let r = rank_chars(&a[i], &b[i]);
        match r {
            Rank::Same => {},
            Rank::Before => {
                proof {
                    lemma_shared_len_at(va, vb, i as int);
                }
                return Rank::Before;
            },
            Rank::After => {
                proof {
                    lemma_shared_len_at(va, vb, i as int);
                }
                return Rank::After;
            },
        }
        i += 1;
    }
    proof {
        lemma_shared_len_at(va, vb, i as int);
    }
    if a.len() == b.len() {
        proof {
            assert(va =~= vb);
        }
        Rank::Same
    } else if a.len() < b.len() {
        Rank::Before
    } else {
        Rank::After
    }
}

} // verus!
