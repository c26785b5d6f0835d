//! Word counting: an association list sorted strictly by token, holding
//! each word of a word list together with its occurrence count.

use vstd::prelude::*;
use crate::model::count_of;
use crate::model::lemma_count_of_absent;
use crate::model::lemma_count_of_le_len;
use crate::model::lemma_count_of_push;
use crate::order::lemma_lex_connected;
use crate::order::lemma_lex_irrefl;
use crate::order::lemma_lex_trans;
use crate::order::lex_lt;
use crate::order::token_lt;
use crate::order::tokens_equal;
use crate::tokenize::toks_view;

verus! {

/// The model pairs of a list of owned (token, count) pairs.
pub open spec fn cpairs_view(ps: Seq<(Vec<char>, usize)>) -> Seq<(Seq<char>, nat)> {
    ps.map_values(|p: (Vec<char>, usize)| (p.0@, p.1 as nat))
}

/// The model pairs of a list of (string, count) pairs.
pub open spec fn spairs_view(ps: Seq<(String, usize)>) -> Seq<(Seq<char>, nat)> {
    ps.map_values(|p: (String, usize)| (p.0@, p.1 as nat))
}

/// Keys ascend strictly in lexicographic order.
pub open spec fn sorted_by_key(ps: Seq<(Seq<char>, nat)>) -> bool {
    forall|i: int, j: int|
        0 <= i < j < ps.len() ==> lex_lt(#[trigger] ps[i].0, #[trigger] ps[j].0)
}

/// Some position of `ps` holds the key `w`.
pub open spec fn has_key(ps: Seq<(Seq<char>, nat)>, w: Seq<char>) -> bool {
    exists|i: int| 0 <= i < ps.len() && #[trigger] ps[i].0 == w
}

/// The keys at two distinct positions differ.
pub open spec fn distinct_keys(ps: Seq<(Seq<char>, nat)>) -> bool {
    forall|i: int, j: int|
        0 <= i < j < ps.len() ==> (#[trigger] ps[i]).0 != (#[trigger] ps[j]).0
}

/// Every entry of `ps` pairs a word of `ws` with its occurrence count.
pub open spec fn entries_of(ps: Seq<(Seq<char>, nat)>, ws: Seq<Seq<char>>) -> bool {
    forall|i: int|
        0 <= i < ps.len() ==> ws.contains((#[trigger] ps[i]).0) && ps[i].1 == count_of(
            ws,
            ps[i].0,
        )
}

/// Every word of `ws` appears as a key of `ps`.
pub open spec fn covers(ps: Seq<(Seq<char>, nat)>, ws: Seq<Seq<char>>) -> bool {
    forall|w: Seq<char>| #[trigger] ws.contains(w) ==> has_key(ps, w)
}

/// `ps` is the word count of the word list `ws`: keys strictly ascending,
/// each entry a word of `ws` paired with its occurrence count, and every
/// word of `ws` present under its key.
pub open spec fn is_count_list(ps: Seq<(Seq<char>, nat)>, ws: Seq<Seq<char>>) -> bool {
    &&& sorted_by_key(ps)
    &&& entries_of(ps, ws)
    &&& covers(ps, ws)
}

/// Strictly ascending keys are pairwise distinct.
pub proof fn lemma_sorted_distinct(ps: Seq<(Seq<char>, nat)>)
    requires
        sorted_by_key(ps),
    ensures
        distinct_keys(ps),
{
    assert forall|i: int, j: int|
        0 <= i < j < ps.len() implies (#[trigger] ps[i]).0 != (#[trigger] ps[j]).0 by {
        lemma_lex_irrefl(ps[i].0);
    }
}

/// The sum of all counts in `ps`.
pub open spec fn sum_counts(ps: Seq<(Seq<char>, nat)>) -> nat
    decreases ps.len(),
{
    if ps.len() == 0 {
        0
    } else {
        sum_counts(ps.drop_last()) + ps.last().1
    }
}

/// Inserting a pair adds its count to the sum.
pub proof fn lemma_sum_counts_insert(ps: Seq<(Seq<char>, nat)>, p: int, x: (Seq<char>, nat))
    requires
        0 <= p <= ps.len(),
    ensures
        sum_counts(ps.insert(p, x)) == sum_counts(ps) + x.1,
    decreases ps.len(),
{
    let qs = ps.insert(p, x);
    if p == ps.len() {
        assert(qs =~= ps.push(x));
        assert(ps.push(x).drop_last() =~= ps);
    } else {
        assert(qs.last() == ps.last());
        assert(qs.drop_last() =~= ps.drop_last().insert(p, x));
        lemma_sum_counts_insert(ps.drop_last(), p, x);
    }
}

/// Replacing the pair at `p` changes the sum by the difference of counts.
pub proof fn lemma_sum_counts_update(ps: Seq<(Seq<char>, nat)>, p: int, x: (Seq<char>, nat))
    requires
        0 <= p < ps.len(),
    ensures
        sum_counts(ps.update(p, x)) + ps[p].1 == sum_counts(ps) + x.1,
    decreases ps.len(),
{
    let qs = ps.update(p, x);
    if p == ps.len() - 1 {
        assert(qs.last() == x);
        assert(qs.drop_last() =~= ps.drop_last());
    } else {
        assert(qs.last() == ps.last());
        assert(qs.drop_last() =~= ps.drop_last().update(p, x));
        lemma_sum_counts_update(ps.drop_last(), p, x);
    }
}

/// If every key before `p` is below `w` and, at `p`, `w` is below the key,
/// then `w` is no key of the sorted list at all.
pub proof fn lemma_no_key(ps: Seq<(Seq<char>, nat)>, w: Seq<char>, p: int)
    requires
        sorted_by_key(ps),
        0 <= p <= ps.len(),
        forall|k: int| 0 <= k < p ==> lex_lt(#[trigger] ps[k].0, w),
        p < ps.len() ==> lex_lt(w, ps[p].0),
    ensures
        !has_key(ps, w),
{
    assert forall|i: int| 0 <= i < ps.len() implies ps[i].0 != w by {
        if i < p {
            lemma_lex_irrefl(w);
        } else {
            lemma_lex_irrefl(w);
            if i > p {
                lemma_lex_trans(w, ps[p].0, ps[i].0);
            }
        }
    }
}

/// Counting one more occurrence of the key at `p` keeps the list a word
/// count of the word list extended by that key.
pub proof fn lemma_count_list_bump(ps: Seq<(Seq<char>, nat)>, ws: Seq<Seq<char>>, p: int)
    requires
        is_count_list(ps, ws),
        0 <= p < ps.len(),
    ensures
        is_count_list(
            ps.update(p, (ps[p].0, (ps[p].1 + 1) as nat)),
            ws.push(ps[p].0),
        ),
{
    let w = ps[p].0;
    let qs = ps.update(p, (w, (ps[p].1 + 1) as nat));
    let vs = ws.push(w);
    assert forall|i: int| 0 <= i < qs.len() implies vs.contains((#[trigger] qs[i]).0)
        && qs[i].1 == count_of(vs, qs[i].0) by {
        lemma_count_of_push(ws, w, qs[i].0);
        if i != p {
            lemma_lex_irrefl(qs[i].0);
            assert(ws.contains(ps[i].0));
            let k = choose|k: int| 0 <= k < ws.len() && ws[k] == ps[i].0;
            assert(vs[k] == ps[i].0);
        } else {
            assert(vs[ws.len() as int] == w);
        }
    }
    assert forall|x: Seq<char>| #[trigger] vs.contains(x) implies has_key(qs, x) by {
        let k = choose|k: int| 0 <= k < vs.len() && vs[k] == x;
        if k < ws.len() {
            assert(ws[k] == x);
            assert(ws.contains(x));
            let i = choose|i: int| 0 <= i < ps.len() && #[trigger] ps[i].0 == x;
            assert(qs[i].0 == x);
        } else {
            assert(x == w);
            assert(qs[p].0 == x);
        }
    }
}

/// Inserting a fresh key at its sorted slot, with count one, keeps the list
/// a word count of the word list extended by that key.
pub proof fn lemma_count_list_insert(
    ps: Seq<(Seq<char>, nat)>,
    ws: Seq<Seq<char>>,
    w: Seq<char>,
    p: int,
)
    requires
        is_count_list(ps, ws),
        0 <= p <= ps.len(),
        forall|k: int| 0 <= k < p ==> lex_lt(#[trigger] ps[k].0, w),
        p < ps.len() ==> lex_lt(w, ps[p].0),
    ensures
        is_count_list(ps.insert(p, (w, 1nat)), ws.push(w)),
{
    let qs = ps.insert(p, (w, 1nat));
    let vs = ws.push(w);
    lemma_no_key(ps, w, p);
    assert(!ws.contains(w)) by {
        if ws.contains(w) {
            assert(has_key(ps, w));
        }
    }
    assert(sorted_by_key(qs)) by {
        assert forall|i: int, j: int| 0 <= i < j < qs.len() implies lex_lt(
            #[trigger] qs[i].0,
            #[trigger] qs[j].0,
        ) by {
            if i < p && j == p {
            } else if i == p && j > p {
                if j - 1 > p {
                    lemma_lex_trans(w, ps[p].0, ps[j - 1].0);
                }
            } else if i < p && j > p {
                if p < ps.len() {
                    if i == j - 1 {
                    } else {
                        assert(lex_lt(ps[i].0, ps[j - 1].0));
                    }
                } else {
                    assert(lex_lt(ps[i].0, ps[j - 1].0));
                }
            } else if i > p && j > p {
                assert(lex_lt(ps[i - 1].0, ps[j - 1].0));
            }
        }
    }
    assert forall|i: int| 0 <= i < qs.len() implies vs.contains((#[trigger] qs[i]).0)
        && qs[i].1 == count_of(vs, qs[i].0) by {
        lemma_count_of_push(ws, w, qs[i].0);
        if i == p {
            lemma_count_of_absent(ws, w);
            assert(vs[ws.len() as int] == w);
        } else {
            let io: int = if i < p {
                i
            } else {
                i - 1
            };
            assert(qs[i] == ps[io]);
            assert(ps[io].0 != w) by {
                if ps[io].0 == w {
                    assert(has_key(ps, w));
                }
            }
            assert(ws.contains(ps[io].0));
            let k = choose|k: int| 0 <= k < ws.len() && ws[k] == ps[io].0;
            assert(vs[k] == ps[io].0);
        }
    }
    assert forall|x: Seq<char>| #[trigger] vs.contains(x) implies has_key(qs, x) by {
        let k = choose|k: int| 0 <= k < vs.len() && vs[k] == x;
        if k < ws.len() {
            assert(ws[k] == x);
            assert(ws.contains(x));
            let i = choose|i: int| 0 <= i < ps.len() && #[trigger] ps[i].0 == x;
            let j: int = if i < p {
                i
            } else {
                i + 1
            };
            assert(qs[j].0 == x);
        } else {
            assert(x == w);
            assert(qs[p].0 == x);
        }
    }
}

/// A copy of a token.
pub(crate) fn clone_token(t: &Vec<char>) -> (r: Vec<char>)
    ensures
        r@ == t@,
{
    let mut r: Vec<char> = Vec::new();
    let mut k: usize = 0;
    while k < t.len()
        invariant
            k <= t.len(),
            r@ == t@.take(k as int),
        decreases t.len() - k,
    {
        r.push(t[k]);
        proof {
            assert(r@ =~= t@.take(k as int + 1));
        }
        k += 1;
    }
    proof {
        assert(t@.take(t@.len() as int) =~= t@);
    }
    r
}

/// The slot where `w` belongs in a key-sorted pair list: the first position
/// whose key is not below `w`.
fn find_slot(out: &Vec<(Vec<char>, usize)>, w: &Vec<char>) -> (p: usize)
    ensures
        p <= out@.len(),
        forall|k: int| 0 <= k < p ==> lex_lt(#[trigger] out@[k].0@, w@),
        p < out@.len() ==> !lex_lt(out@[p as int].0@, w@),
{
    let mut p: usize = 0;
    while p < out.len()
        invariant
            p <= out.len(),
            forall|k: int| 0 <= k < p ==> lex_lt(#[trigger] out@[k].0@, w@),
        decreases out.len() - p,
    {
        if !token_lt(&out[p].0, w) {
            return p;
        }
        p += 1;
    }
    p
}

/// The word count of the word list `ws`, as a pair list sorted strictly by
/// token.  The counts sum to the length of `ws`.
pub(crate) fn count_words(ws: &Vec<Vec<char>>) -> (r: Vec<(Vec<char>, usize)>)
    ensures
        is_count_list(cpairs_view(r@), toks_view(ws@)),
        sum_counts(cpairs_view(r@)) == toks_view(ws@).len(),
{
    let ghost wsv = toks_view(ws@);
    let mut out: Vec<(Vec<char>, usize)> = Vec::new();
    let mut idx: usize = 0;
    proof {
        assert(cpairs_view(out@) =~= Seq::<(Seq<char>, nat)>::empty());
        assert(wsv.take(0) =~= Seq::<Seq<char>>::empty());
    }
    while idx < ws.len()
        invariant
            idx <= ws.len(),
            wsv == toks_view(ws@),
            is_count_list(cpairs_view(out@), wsv.take(idx as int)),
            sum_counts(cpairs_view(out@)) == idx,
        decreases ws.len() - idx,
    {
        let w = clone_token(&ws[idx]);
        let p = find_slot(&out, &w);
        let ghost prev = cpairs_view(out@);
        let ghost wprev = wsv.take(idx as int);
        proof {
            assert(wsv[idx as int] == ws@[idx as int]@);
            assert(wsv.take(idx as int + 1) =~= wprev.push(w@));
        }
        let hit = p < out.len() && tokens_equal(&out[p].0, &w);
        if hit {
            proof {
                assert(prev[p as int].0 == w@);
                lemma_count_of_le_len(wprev, w@);
                assert(prev[p as int].1 <= idx);
            }
            let pair = out.remove(p);
            let tok = pair.0;
            let c = pair.1;
            out.insert(p, (tok, c + 1));
            proof {
                assert(out@ =~= out@.subrange(0, out@.len() as int));
                assert(cpairs_view(out@) =~= prev.update(
                    p as int,
                    (prev[p as int].0, (prev[p as int].1 + 1) as nat),
                ));
                lemma_count_list_bump(prev, wprev, p as int);
                lemma_sum_counts_update(
                    prev,
                    p as int,
                    (prev[p as int].0, (prev[p as int].1 + 1) as nat),
                );
            }
        } else {
            proof {
                if p < out@.len() {
                    assert(prev[p as int].0 != w@);
                    lemma_lex_connected(w@, prev[p as int].0);
                    assert(lex_lt(w@, prev[p as int].0));
                }
                lemma_no_key(prev, w@, p as int);
            }
            out.insert(p, (w, 1));
            proof {
                assert(cpairs_view(out@) =~= prev.insert(p as int, (out@[p as int].0@, 1nat)));
                lemma_count_list_insert(prev, wprev, out@[p as int].0@, p as int);
                lemma_sum_counts_insert(prev, p as int, (out@[p as int].0@, 1nat));
            }
        }
        idx += 1;
    }
    proof {
        assert(wsv.take(ws@.len() as int) =~= wsv);
    }
    out
}

} // verus!
