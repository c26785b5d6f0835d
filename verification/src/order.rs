//! Orders used by the ranked output: lexicographic order on tokens by
//! Unicode scalar value, and the ranking order on (token, count) pairs —
//! higher count first, ties broken by ascending token.

use vstd::prelude::*;
use vstd::relations::total_ordering;

verus! {

/// Strict lexicographic order on character sequences, comparing characters
/// by their Unicode scalar values; a proper prefix comes first.
pub open spec fn lex_lt(a: Seq<char>, b: Seq<char>) -> bool
    decreases a.len(),
{
    if b.len() == 0 {
        false
    } else if a.len() == 0 {
        true
    } else if a[0] != b[0] {
        (a[0] as u32) < (b[0] as u32)
    } else {
        lex_lt(a.drop_first(), b.drop_first())
    }
}

/// Total order on (token, count) pairs by token first, count second.
pub open spec fn key_order(a: (Seq<char>, nat), b: (Seq<char>, nat)) -> bool {
    lex_lt(a.0, b.0) || (a.0 == b.0 && a.1 <= b.1)
}

/// Ranking order on (token, count) pairs: greater count first, equal counts
/// broken by ascending token order.
pub open spec fn rank_order(a: (Seq<char>, nat), b: (Seq<char>, nat)) -> bool {
    a.1 > b.1 || (a.1 == b.1 && lex_lt(a.0, b.0)) || a == b
}

/// Strict part of the ranking order.
pub open spec fn rank_lt(a: (Seq<char>, nat), b: (Seq<char>, nat)) -> bool {
    rank_order(a, b) && a != b
}

/// `key_order` as a relation value.
pub open spec fn key_leq() -> spec_fn((Seq<char>, nat), (Seq<char>, nat)) -> bool {
    |a: (Seq<char>, nat), b: (Seq<char>, nat)| key_order(a, b)
}

/// `rank_order` as a relation value.
pub open spec fn rank_leq() -> spec_fn((Seq<char>, nat), (Seq<char>, nat)) -> bool {
    |a: (Seq<char>, nat), b: (Seq<char>, nat)| rank_order(a, b)
}

/// No sequence is lexicographically below itself.
pub proof fn lemma_lex_irrefl(a: Seq<char>)
    ensures
        !lex_lt(a, a),
    decreases a.len(),
{
    if a.len() > 0 {
        lemma_lex_irrefl(a.drop_first());
    }
}

/// Lexicographic order is asymmetric.
pub proof fn lemma_lex_asym(a: Seq<char>, b: Seq<char>)
    requires
        lex_lt(a, b),
    ensures
        !lex_lt(b, a),
    decreases a.len(),
{
    if a.len() > 0 && b.len() > 0 && a[0] == b[0] {
        lemma_lex_asym(a.drop_first(), b.drop_first());
    }
}

/// Two distinct sequences are lexicographically comparable.
pub proof fn lemma_lex_connected(a: Seq<char>, b: Seq<char>)
    requires
        a != b,
    ensures
        lex_lt(a, b) || lex_lt(b, a),
    decreases a.len(),
{
    broadcast use vstd::utf8::char_is_scalar, vstd::utf8::char_u32_cast;

    if a.len() == 0 || b.len() == 0 {
        if a.len() == 0 && b.len() == 0 {
            assert(a =~= b);
        }
    } else if a[0] == b[0] {
        if a.drop_first() == b.drop_first() {
            assert(a.drop_first().len() == a.len() - 1);
            assert(b.drop_first().len() == b.len() - 1);
            assert(a.len() == b.len());
            assert forall|i: int| 0 <= i < a.len() implies a[i] == b[i] by {
                if i > 0 {
                    assert(a[i] == a.drop_first()[i - 1]);
                    assert(b[i] == b.drop_first()[i - 1]);
                }
            }
            assert(a =~= b);
        } else {
            lemma_lex_connected(a.drop_first(), b.drop_first());
        }
    } else {
        let x = a[0] as u32;
        let y = b[0] as u32;
        if x == y {
            vstd::utf8::char_u32_cast(a[0], x);
            vstd::utf8::char_u32_cast(b[0], y);
            assert(false);
        }
    }
}

/// Lexicographic order is transitive.
pub proof fn lemma_lex_trans(a: Seq<char>, b: Seq<char>, c: Seq<char>)
    requires
        lex_lt(a, b),
        lex_lt(b, c),
    ensures
        lex_lt(a, c),
    decreases a.len(),
{
    if a.len() > 0 && b.len() > 0 && c.len() > 0 && a[0] == b[0] && b[0] == c[0] {
        lemma_lex_trans(a.drop_first(), b.drop_first(), c.drop_first());
    }
}

/// Dropping an equal prefix does not change the lexicographic comparison.
pub proof fn lemma_lex_skip_prefix(a: Seq<char>, b: Seq<char>, i: int)
    requires
        0 <= i <= a.len(),
        i <= b.len(),
        forall|k: int| 0 <= k < i ==> a[k] == b[k],
    ensures
        lex_lt(a, b) == lex_lt(a.skip(i), b.skip(i)),
    decreases i,
{
    if i == 0 {
        assert(a.skip(0) =~= a);
        assert(b.skip(0) =~= b);
    } else {
        assert(a[0] == b[0]);
        lemma_lex_skip_prefix(a.drop_first(), b.drop_first(), i - 1);
        assert(a.drop_first().skip(i - 1) =~= a.skip(i));
        assert(b.drop_first().skip(i - 1) =~= b.skip(i));
    }
}

/// `key_order` is a total ordering.
pub proof fn lemma_key_order_total()
    ensures
        total_ordering(key_leq()),
{
    let r = key_leq();
    assert forall|x: (Seq<char>, nat)| #[trigger] r(x, x) by {
    }
    assert forall|x: (Seq<char>, nat), y: (Seq<char>, nat)| #[trigger]
        r(x, y) && #[trigger] r(y, x) implies x == y by {
        if lex_lt(x.0, y.0) {
            lemma_lex_asym(x.0, y.0);
            lemma_lex_irrefl(x.0);
        } else {
            lemma_lex_irrefl(x.0);
            assert(x.0 == y.0 && x.1 == y.1);
        }
    }
    assert forall|x: (Seq<char>, nat), y: (Seq<char>, nat), z: (Seq<char>, nat)|
        #[trigger] r(x, y) && #[trigger] r(y, z) implies r(x, z) by {
        if lex_lt(x.0, y.0) && lex_lt(y.0, z.0) {
            lemma_lex_trans(x.0, y.0, z.0);
        }
    }
    assert forall|x: (Seq<char>, nat), y: (Seq<char>, nat)| #[trigger]
        r(x, y) || #[trigger] r(y, x) by {
        if x.0 != y.0 {
            lemma_lex_connected(x.0, y.0);
        }
    }
}

/// `rank_order` is a total ordering.
pub proof fn lemma_rank_order_total()
    ensures
        total_ordering(rank_leq()),
{
    let r = rank_leq();
    assert forall|x: (Seq<char>, nat)| #[trigger] r(x, x) by {
    }
    assert forall|x: (Seq<char>, nat), y: (Seq<char>, nat)| #[trigger]
        r(x, y) && #[trigger] r(y, x) implies x == y by {
        if x != y {
            if x.1 == y.1 && lex_lt(x.0, y.0) {
                lemma_lex_asym(x.0, y.0);
            }
        }
    }
    assert forall|x: (Seq<char>, nat), y: (Seq<char>, nat), z: (Seq<char>, nat)|
        #[trigger] r(x, y) && #[trigger] r(y, z) implies r(x, z) by {
        if x.1 == y.1 && y.1 == z.1 && lex_lt(x.0, y.0) && lex_lt(y.0, z.0) {
            lemma_lex_trans(x.0, y.0, z.0);
        }
    }
    assert forall|x: (Seq<char>, nat), y: (Seq<char>, nat)| #[trigger]
        r(x, y) || #[trigger] r(y, x) by {
        if x != y && x.1 == y.1 {
            if x.0 == y.0 {
                assert(x =~= y);
            } else {
                lemma_lex_connected(x.0, y.0);
            }
        }
    }
}

/// Whether the characters of `a` equal those of `b`.
pub(crate) fn tokens_equal(a: &Vec<char>, b: &Vec<char>) -> (r: bool)
    ensures
        r == (a@ == b@),
{
    if a.len() != b.len() {
        return false;
    }
    let mut i: usize = 0;
    while i < a.len()
        invariant
            i <= a.len(),
            a.len() == b.len(),
            forall|k: int| 0 <= k < i ==> a@[k] == b@[k],
        decreases a.len() - i,
    {
        if a[i] != b[i] {
            return false;
        }
        i += 1;
    }
    proof {
        assert(a@ =~= b@);
    }
    true
}

/// Whether `a` comes strictly before `b` in lexicographic order.
pub(crate) fn token_lt(a: &Vec<char>, b: &Vec<char>) -> (r: bool)
    ensures
        r == lex_lt(a@, b@),
{
    let mut i: usize = 0;
    loop
        invariant
            i <= a.len(),
            i <= b.len(),
            forall|k: int| 0 <= k < i ==> a@[k] == b@[k],
        decreases a.len() - i,
    {
        proof {
            lemma_lex_skip_prefix(a@, b@, i as int);
        }
        if i >= b.len() {
            return false;
        }
        if i >= a.len() {
            return true;
        }
        let ca = a[i];
        let cb = b[i];
        if ca != cb {
            proof {
                assert(a@.skip(i as int)[0] == a@[i as int]);
                assert(b@.skip(i as int)[0] == b@[i as int]);
            }
            return (ca as u32) < (cb as u32);
        }
        i += 1;
    }
}

/// Whether the pair `a` comes strictly before `b` in ranking order.
pub(crate) fn pair_rank_lt(a: &(Vec<char>, usize), b: &(Vec<char>, usize)) -> (r: bool)
    ensures
        r == rank_lt((a.0@, a.1 as nat), (b.0@, b.1 as nat)),
{
    if a.1 != b.1 {
        a.1 > b.1
    } else {
        proof {
            lemma_lex_irrefl(a.0@);
        }
        token_lt(&a.0, &b.0)
    }
}

} // verus!
