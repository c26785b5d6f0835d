//! Ranking of word counts: sorting the count list by descending count with
//! alphabetical tie-break, and the specification of a top-`n` prefix.

use vstd::prelude::*;
use vstd::relations::sorted_by;
use crate::counting::cpairs_view;
use crate::counting::covers;
use crate::counting::distinct_keys;
use crate::counting::entries_of;
use crate::counting::has_key;
use crate::counting::is_count_list;
use crate::counting::lemma_sorted_distinct;
use crate::model::count_of;
use crate::order::lemma_rank_order_total;
use crate::order::pair_rank_lt;
use crate::order::rank_leq;
use crate::order::rank_lt;
use crate::order::rank_order;

verus! {

/// The model pair of one owned (token, count) pair.
pub open spec fn pair_model(p: (Vec<char>, usize)) -> (Seq<char>, nat) {
    (p.0@, p.1 as nat)
}

/// `ps` ranks the word list `ws`: every word of `ws` exactly once with its
/// occurrence count, ordered by descending count, ties broken by ascending
/// token.
pub open spec fn is_ranking(ps: Seq<(Seq<char>, nat)>, ws: Seq<Seq<char>>) -> bool {
    &&& sorted_by(ps, rank_leq())
    &&& distinct_keys(ps)
    &&& entries_of(ps, ws)
    &&& covers(ps, ws)
}

/// `ps` is the top-`n` prefix of the ranking of `ws`.
pub open spec fn is_top_n(ps: Seq<(Seq<char>, nat)>, ws: Seq<Seq<char>>, n: int) -> bool {
    exists|full: Seq<(Seq<char>, nat)>|
        #[trigger] is_ranking(full, ws) && ps == full.take(
            if n <= full.len() {
                n
            } else {
                full.len() as int
            },
        )
}

/// Inserting an element anywhere in a sequence inserts it into the multiset.
pub proof fn lemma_to_multiset_insert(s: Seq<(Seq<char>, nat)>, q: int, x: (Seq<char>, nat))
    requires
        0 <= q <= s.len(),
    ensures
        s.insert(q, x).to_multiset() == s.to_multiset().insert(x),
{
    broadcast use vstd::seq_lib::group_to_multiset_ensures;
    broadcast use vstd::multiset::group_multiset_axioms;

    let t = s.insert(q, x);
    assert(t.remove(q) =~= s);
    assert(t[q] == x);
    assert(t.contains(x));
    assert(t.remove(q).to_multiset() =~= t.to_multiset().remove(t[q]));
    assert(t.to_multiset().count(x) > 0);
    assert forall|y: (Seq<char>, nat)|
        #[trigger] t.to_multiset().count(y) == s.to_multiset().insert(x).count(y) by {
        if y == x {
            assert(s.to_multiset().count(x) == t.to_multiset().remove(x).count(x));
        } else {
            assert(s.to_multiset().count(y) == t.to_multiset().remove(x).count(y));
        }
    }
    assert(t.to_multiset() =~= s.to_multiset().insert(x));
}

/// A reordering of a word count list still pairs each word with its count,
/// still covers every word, and still has pairwise distinct keys.
pub proof fn lemma_rearranged_count_list(
    ps: Seq<(Seq<char>, nat)>,
    qs: Seq<(Seq<char>, nat)>,
    ws: Seq<Seq<char>>,
)
    requires
        is_count_list(ps, ws),
        qs.to_multiset() == ps.to_multiset(),
    ensures
        distinct_keys(qs),
        entries_of(qs, ws),
        covers(qs, ws),
{
    broadcast use vstd::seq_lib::group_to_multiset_ensures;
    broadcast use vstd::multiset::group_multiset_axioms;

    lemma_sorted_distinct(ps);
    assert(ps.no_duplicates()) by {
        assert forall|i: int, j: int| 0 <= i < j < ps.len() implies ps[i] != ps[j] by {
            assert(ps[i].0 != ps[j].0);
        }
    }
    ps.lemma_multiset_has_no_duplicates();
    assert forall|i: int| 0 <= i < qs.len() implies ws.contains((#[trigger] qs[i]).0)
        && qs[i].1 == count_of(ws, qs[i].0) by {
        assert(qs.contains(qs[i]));
        assert(qs.to_multiset().count(qs[i]) > 0);
        assert(ps.contains(qs[i]));
        let j = choose|j: int| 0 <= j < ps.len() && ps[j] == qs[i];
        assert(ws.contains(ps[j].0));
    }
    assert forall|w: Seq<char>| #[trigger] ws.contains(w) implies has_key(qs, w) by {
        assert(has_key(ps, w));
        let j = choose|j: int| 0 <= j < ps.len() && #[trigger] ps[j].0 == w;
        assert(ps.contains(ps[j]));
        assert(ps.to_multiset().count(ps[j]) > 0);
        assert(qs.contains(ps[j]));
        let i = choose|i: int| 0 <= i < qs.len() && qs[i] == ps[j];
        assert(qs[i].0 == w);
    }
    assert forall|i: int, j: int|
        0 <= i < j < qs.len() implies (#[trigger] qs[i]).0 != (#[trigger] qs[j]).0 by {
        if qs[i].0 == qs[j].0 {
            if qs[i] == qs[j] {
                let r = qs.remove(j);
                assert(r.to_multiset() =~= qs.to_multiset().remove(qs[j]));
                assert(r[i] == qs[i]);
                assert(r.contains(qs[i]));
                assert(r.to_multiset().count(qs[i]) > 0);
                assert(qs.to_multiset().count(qs[i]) >= 2);
                assert(ps.to_multiset().count(qs[i]) >= 2);
                assert(ps.contains(qs[i]));
                assert(false);
            } else {
                assert(qs.contains(qs[i]));
                assert(qs.to_multiset().count(qs[i]) > 0);
                assert(ps.contains(qs[i]));
                assert(qs.contains(qs[j]));
                assert(qs.to_multiset().count(qs[j]) > 0);
                assert(ps.contains(qs[j]));
                let a = choose|a: int| 0 <= a < ps.len() && ps[a] == qs[i];
                let b = choose|b: int| 0 <= b < ps.len() && ps[b] == qs[j];
                assert(a != b);
                assert(ps[a].0 != ps[b].0);
                assert(false);
            }
        }
    }
}

/// The slot where `x` belongs in a rank-sorted pair list: the first
/// position whose pair does not rank strictly before `x`.
fn rank_slot(out: &Vec<(Vec<char>, usize)>, x: &(Vec<char>, usize)) -> (q: usize)
    ensures
        q <= out@.len(),
        forall|k: int| 0 <= k < q ==> rank_lt(pair_model(#[trigger] out@[k]), pair_model(*x)),
        q < out@.len() ==> !rank_lt(pair_model(out@[q as int]), pair_model(*x)),
{
    let mut q: usize = 0;
    while q < out.len()
        invariant
            q <= out.len(),
            forall|k: int| 0 <= k < q ==> rank_lt(pair_model(#[trigger] out@[k]), pair_model(*x)),
        decreases out.len() - q,
    {
        if !pair_rank_lt(&out[q], x) {
            return q;
        }
        q += 1;
    }
    q
}

/// The pairs of `ps` arranged in ranking order: descending count, ties
/// broken by ascending token.
pub(crate) fn rank_sort(ps: Vec<(Vec<char>, usize)>) -> (r: Vec<(Vec<char>, usize)>)
    ensures
        sorted_by(cpairs_view(r@), rank_leq()),
        cpairs_view(r@).to_multiset() == cpairs_view(ps@).to_multiset(),
{
    broadcast use vstd::seq_lib::group_to_multiset_ensures;
    broadcast use vstd::multiset::group_multiset_axioms;

    let ghost target = cpairs_view(ps@);
    let mut src = ps;
    let mut out: Vec<(Vec<char>, usize)> = Vec::new();
    proof {
        lemma_rank_order_total();
        assert(cpairs_view(out@) =~= Seq::<(Seq<char>, nat)>::empty());
        assert(cpairs_view(out@).to_multiset().add(cpairs_view(src@).to_multiset())
            =~= target.to_multiset());
    }
    while src.len() > 0
        invariant
            sorted_by(cpairs_view(out@), rank_leq()),
            cpairs_view(out@).to_multiset().add(cpairs_view(src@).to_multiset())
                == target.to_multiset(),
        decreases src.len(),
    {
        let ghost prev_src = cpairs_view(src@);
        let ghost prev_out = cpairs_view(out@);
        let x = match src.pop() {
            Some(x) => x,
            None => {
                proof {
                    assert(false);
                }
                unreached()
            },
        };
        proof {
            broadcast use vstd::seq_lib::group_to_multiset_ensures;
            broadcast use vstd::multiset::group_multiset_axioms;

            lemma_rank_order_total();
            assert(cpairs_view(src@) =~= prev_src.drop_last());
            assert(pair_model(x) == prev_src.last());
            assert(prev_src =~= prev_src.drop_last().push(prev_src.last()));
            assert(prev_src.drop_last().push(prev_src.last()).to_multiset()
                =~= prev_src.drop_last().to_multiset().insert(prev_src.last()));
            assert(prev_src.to_multiset() =~= cpairs_view(src@).to_multiset().insert(
                pair_model(x),
            ));
        }
        let q = rank_slot(&out, &x);
        out.insert(q, x);
        proof {
            broadcast use vstd::multiset::group_multiset_axioms;

            lemma_rank_order_total();
            assert(cpairs_view(out@) =~= prev_out.insert(q as int, pair_model(x)));
            lemma_to_multiset_insert(prev_out, q as int, pair_model(x));
            let nowv = cpairs_view(out@);
            assert(nowv.to_multiset().add(cpairs_view(src@).to_multiset())
                =~= target.to_multiset());
            assert forall|i: int, j: int| 0 <= i < j < nowv.len() implies rank_leq()(
                nowv[i],
                nowv[j],
            ) by {
                let r = rank_leq();
                if j < q {
                    assert(r(prev_out[i], prev_out[j]));
                } else if j == q {
                    assert(rank_lt(prev_out[i], pair_model(x)));
                } else if i == q {
                    assert(!rank_lt(prev_out[q as int], pair_model(x)));
                    assert(r(prev_out[q as int], pair_model(x)) || r(
                        pair_model(x),
                        prev_out[q as int],
                    ));
                    assert(r(pair_model(x), prev_out[q as int]));
                    if j - 1 > q {
                        assert(r(prev_out[q as int], prev_out[j - 1]));
                    }
                } else if i < q && j > q {
                    if i == j - 1 {
                        assert(r(nowv[i], nowv[j]));
                    } else {
                        assert(r(prev_out[i], prev_out[j - 1]));
                    }
                } else {
                    assert(r(prev_out[i - 1], prev_out[j - 1]));
                }
            }
        }
    }
    proof {
        assert(cpairs_view(src@) =~= Seq::<(Seq<char>, nat)>::empty());
        assert(cpairs_view(out@).to_multiset().add(cpairs_view(src@).to_multiset())
            =~= cpairs_view(out@).to_multiset());
    }
    out
}

} // verus!
