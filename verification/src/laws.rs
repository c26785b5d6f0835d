//! The general laws of the library, stated and proved over the model:
//! word counts and rankings are uniquely determined by the text, so two
//! calls on the same analyzer always agree, and a top-`n` prefix has
//! exactly the shape the ranking order dictates.

use vstd::prelude::*;
use vstd::relations::sorted_by;
use crate::counting::covers;
use crate::counting::distinct_keys;
use crate::counting::entries_of;
use crate::counting::has_key;
use crate::counting::is_count_list;
use crate::counting::lemma_sorted_distinct;
use crate::model::count_of;
use crate::model::vocab_size;
use crate::order::key_leq;
use crate::order::key_order;
use crate::order::lemma_key_order_total;
use crate::order::lemma_rank_order_total;
use crate::order::rank_leq;
use crate::order::rank_order;
use crate::ranking::is_ranking;
use crate::ranking::is_top_n;

verus! {

/// Two pair lists with pairwise distinct keys that both enumerate the word
/// counts of `ws` hold the same pairs, as multisets.
pub proof fn lemma_enum_multiset(
    a: Seq<(Seq<char>, nat)>,
    b: Seq<(Seq<char>, nat)>,
    ws: Seq<Seq<char>>,
)
    requires
        distinct_keys(a),
        entries_of(a, ws),
        covers(a, ws),
        distinct_keys(b),
        entries_of(b, ws),
        covers(b, ws),
    ensures
        a.to_multiset() == b.to_multiset(),
{
    broadcast use vstd::seq_lib::group_to_multiset_ensures;
    broadcast use vstd::multiset::group_multiset_axioms;

    assert(a.no_duplicates()) by {
        assert forall|i: int, j: int| 0 <= i < j < a.len() implies a[i] != a[j] by {
            assert(a[i].0 != a[j].0);
        }
    }
    assert(b.no_duplicates()) by {
        assert forall|i: int, j: int| 0 <= i < j < b.len() implies b[i] != b[j] by {
            assert(b[i].0 != b[j].0);
        }
    }
    a.lemma_multiset_has_no_duplicates();
    b.lemma_multiset_has_no_duplicates();
    assert forall|x: (Seq<char>, nat)| a.contains(x) implies b.contains(x) by {
        let i = choose|i: int| 0 <= i < a.len() && a[i] == x;
        assert(ws.contains(x.0));
        assert(has_key(b, x.0));
        let j = choose|j: int| 0 <= j < b.len() && #[trigger] b[j].0 == x.0;
        assert(b[j].1 == count_of(ws, x.0));
        assert(a[i].1 == count_of(ws, x.0));
        assert(b[j] == x);
    }
    assert forall|x: (Seq<char>, nat)| b.contains(x) implies a.contains(x) by {
        let i = choose|i: int| 0 <= i < b.len() && b[i] == x;
        assert(ws.contains(x.0));
        assert(has_key(a, x.0));
        let j = choose|j: int| 0 <= j < a.len() && #[trigger] a[j].0 == x.0;
        assert(a[j].1 == count_of(ws, x.0));
        assert(b[i].1 == count_of(ws, x.0));
        assert(a[j] == x);
    }
    assert forall|x: (Seq<char>, nat)|
        #[trigger] a.to_multiset().count(x) == b.to_multiset().count(x) by {
        if a.contains(x) {
            assert(b.contains(x));
            assert(a.to_multiset().count(x) == 1);
            assert(b.to_multiset().count(x) == 1);
        } else {
            assert(!b.contains(x));
            assert(a.to_multiset().count(x) == 0);
            assert(b.to_multiset().count(x) == 0);
        }
    }
    assert(a.to_multiset() =~= b.to_multiset());
}

/// The word count of a word list is unique: any two key-sorted count lists
/// of the same words are equal.  In particular, repeated calls of
/// `word_count` on one analyzer return the same pairs.
pub proof fn lemma_word_count_unique(
    a: Seq<(Seq<char>, nat)>,
    b: Seq<(Seq<char>, nat)>,
    ws: Seq<Seq<char>>,
)
    requires
        is_count_list(a, ws),
        is_count_list(b, ws),
    ensures
        a == b,
{
    lemma_sorted_distinct(a);
    lemma_sorted_distinct(b);
    lemma_enum_multiset(a, b, ws);
    lemma_key_order_total();
    assert(sorted_by(a, key_leq())) by {
        assert forall|i: int, j: int| 0 <= i < j < a.len() implies #[trigger] key_leq()(
            a[i],
            a[j],
        ) by {
            assert(key_order(a[i], a[j]));
        }
    }
    assert(sorted_by(b, key_leq())) by {
        assert forall|i: int, j: int| 0 <= i < j < b.len() implies #[trigger] key_leq()(
            b[i],
            b[j],
        ) by {
            assert(key_order(b[i], b[j]));
        }
    }
    vstd::seq_lib::lemma_sorted_unique(a, b, key_leq());
}

/// The ranking of a word list is unique: any two rank-sorted enumerations
/// of the word counts of `ws` are equal.
pub proof fn lemma_ranking_unique(
    a: Seq<(Seq<char>, nat)>,
    b: Seq<(Seq<char>, nat)>,
    ws: Seq<Seq<char>>,
)
    requires
        is_ranking(a, ws),
        is_ranking(b, ws),
    ensures
        a == b,
{
    lemma_enum_multiset(a, b, ws);
    lemma_rank_order_total();
    vstd::seq_lib::lemma_sorted_unique(a, b, rank_leq());
}

/// The top-`n` list of a word list is unique.  In particular, repeated
/// calls of `most_common` with the same argument return the same pairs.
pub proof fn lemma_top_n_unique(
    p: Seq<(Seq<char>, nat)>,
    q: Seq<(Seq<char>, nat)>,
    ws: Seq<Seq<char>>,
    n: int,
)
    requires
        is_top_n(p, ws, n),
        is_top_n(q, ws, n),
    ensures
        p == q,
{
    let fp = choose|f: Seq<(Seq<char>, nat)>|
        #[trigger] is_ranking(f, ws) && p == f.take(
            if n <= f.len() {
                n
            } else {
                f.len() as int
            },
        );
    let fq = choose|f: Seq<(Seq<char>, nat)>|
        #[trigger] is_ranking(f, ws) && q == f.take(
            if n <= f.len() {
                n
            } else {
                f.len() as int
            },
        );
    lemma_ranking_unique(fp, fq, ws);
}

/// A ranking of `ws` lists exactly the distinct words of `ws`.
pub proof fn lemma_ranking_len(full: Seq<(Seq<char>, nat)>, ws: Seq<Seq<char>>)
    requires
        is_ranking(full, ws),
    ensures
        full.len() == vocab_size(ws),
{
    let keys = full.map_values(|p: (Seq<char>, nat)| p.0);
    assert(keys.len() == full.len());
    assert(keys.no_duplicates()) by {
        assert forall|i: int, j: int|
            0 <= i < keys.len() && 0 <= j < keys.len() && i != j implies keys[i] != keys[j] by {
            if i < j {
                assert(full[i].0 != full[j].0);
            } else {
                assert(full[j].0 != full[i].0);
            }
        }
    }
    assert(keys.to_set() =~= ws.to_set()) by {
        assert forall|w: Seq<char>| #[trigger] keys.to_set().contains(w) implies ws.to_set()
            .contains(w) by {
            let i = choose|i: int| 0 <= i < keys.len() && keys[i] == w;
            assert(full[i].0 == w);
            assert(ws.contains(w));
        }
        assert forall|w: Seq<char>| #[trigger] ws.to_set().contains(w) implies keys.to_set()
            .contains(w) by {
            assert(ws.contains(w));
            assert(has_key(full, w));
            let i = choose|i: int| 0 <= i < full.len() && #[trigger] full[i].0 == w;
            assert(keys[i] == w);
            assert(keys.contains(w));
        }
    }
    keys.unique_seq_to_set();
}

/// What the top-`n` list looks like: rank-sorted pairs of distinct words
/// of `ws` with their exact counts, of length the smaller of `n` and the
/// vocabulary size, and every word left out ranks no better than any word
/// listed.
pub proof fn lemma_top_n_properties(p: Seq<(Seq<char>, nat)>, ws: Seq<Seq<char>>, n: int)
    requires
        is_top_n(p, ws, n),
        n >= 0,
    ensures
        sorted_by(p, rank_leq()),
        distinct_keys(p),
        entries_of(p, ws),
        p.len() == if n <= vocab_size(ws) {
            n
        } else {
            vocab_size(ws) as int
        },
        forall|w: Seq<char>, i: int|
            #![trigger ws.contains(w), p[i]]
            ws.contains(w) && !has_key(p, w) && 0 <= i < p.len() ==> rank_order(
                p[i],
                (w, count_of(ws, w)),
            ),
{
    let full = choose|f: Seq<(Seq<char>, nat)>|
        #[trigger] is_ranking(f, ws) && p == f.take(
            if n <= f.len() {
                n
            } else {
                f.len() as int
            },
        );
    lemma_ranking_len(full, ws);
    let m: int = if n <= full.len() {
        n
    } else {
        full.len() as int
    };
    assert(p == full.take(m));
    assert(p.len() == m);
    assert forall|i: int, j: int| 0 <= i < j < p.len() implies #[trigger] rank_leq()(
        p[i],
        p[j],
    ) by {
        assert(rank_leq()(full[i], full[j]));
    }
    assert forall|i: int, j: int|
        0 <= i < j < p.len() implies (#[trigger] p[i]).0 != (#[trigger] p[j]).0 by {
        assert(full[i].0 != full[j].0);
    }
    assert forall|i: int|
        0 <= i < p.len() implies ws.contains((#[trigger] p[i]).0) && p[i].1 == count_of(
        ws,
        p[i].0,
    ) by {
        assert(p[i] == full[i]);
    }
    assert forall|w: Seq<char>, i: int|
        #![trigger ws.contains(w), p[i]]
        ws.contains(w) && !has_key(p, w) && 0 <= i < p.len() implies rank_order(
        p[i],
        (w, count_of(ws, w)),
    ) by {
        assert(has_key(full, w));
        let j = choose|j: int| 0 <= j < full.len() && #[trigger] full[j].0 == w;
        if j < m {
            assert(p[j].0 == w);
            assert(false);
        }
        assert(full[j].1 == count_of(ws, w));
        assert(full[j] == (w, count_of(ws, w)));
        assert(rank_leq()(full[i], full[j]));
        assert(p[i] == full[i]);
    }
}

} // verus!
