//! Executable tokenization, proved equal to the model in `model`.

use vstd::prelude::*;
use vstd::string::StrSliceExecFns;
use crate::model::normalize;
use crate::model::split_ws;
use crate::model::split_ws_rec;
use crate::model::trim_end;
use crate::model::trim_start;
use crate::model::trim_token;
use crate::model::words;
use crate::unicode::is_alphanumeric_char;
use crate::unicode::is_whitespace_char;

verus! {

/// The character sequences of a list of owned tokens.
pub open spec fn toks_view(ts: Seq<Vec<char>>) -> Seq<Seq<char>> {
    ts.map_values(|t: Vec<char>| t@)
}

/// Appending a token to the list appends its character sequence to the view.
pub proof fn lemma_toks_view_push(ts: Seq<Vec<char>>, t: Vec<char>)
    ensures
        toks_view(ts.push(t)) == toks_view(ts).push(t@),
{
    assert(toks_view(ts.push(t)) =~= toks_view(ts).push(t@));
}

/// The characters of `s`, in order.
pub(crate) fn chars_of_text(s: &str) -> (r: Vec<char>)
    ensures
        r@ == s@,
{
    let n = s.unicode_len();
    let mut r: Vec<char> = Vec::new();
    let mut i: usize = 0;
    while i < n
        invariant
            n == s@.len(),
            i <= n,
            r@ == s@.take(i as int),
        decreases n - i,
    {
        let c = s.get_char(i);
        r.push(c);
        proof {
            assert(r@ =~= s@.take(i as int + 1));
        }
        i += 1;
    }
    proof {
        assert(s@.take(n as int) =~= s@);
    }
    r
}

/// The maximal whitespace-free chunks of `v`, in order.
pub(crate) fn split_chunks(v: &Vec<char>) -> (r: Vec<Vec<char>>)
    ensures
        toks_view(r@) == split_ws(v@),
{
    let mut out: Vec<Vec<char>> = Vec::new();
    let mut cur: Vec<char> = Vec::new();
    let mut i: usize = 0;
    proof {
        assert(v@.skip(0) =~= v@);
        assert(cur@ =~= Seq::<char>::empty());
        assert(toks_view(out@) =~= Seq::<Seq<char>>::empty());
    }
    while i < v.len()
        invariant
            i <= v.len(),
            split_ws_rec(v@.skip(i as int), cur@, toks_view(out@)) == split_ws(v@),
        decreases v.len() - i,
    {
        let ghost prev_out = out@;
        let ghost prev_cur = cur@;
        let c = v[i];
        proof {
            assert(v@.skip(i as int).len() > 0);
            assert(v@.skip(i as int)[0] == v@[i as int]);
            assert(v@.skip(i as int).drop_first() =~= v@.skip(i as int + 1));
        }
        if is_whitespace_char(c) {
            if cur.len() > 0 {
                out.push(cur);
                cur = Vec::new();
                proof {
                    lemma_toks_view_push(prev_out, out@.last());
                    assert(out@ =~= prev_out.push(out@.last()));
                    assert(toks_view(out@) =~= toks_view(prev_out).push(prev_cur));
                }
            }
            proof {
                assert(cur@ =~= Seq::<char>::empty());
            }
        } else {
            cur.push(c);
        }
        i += 1;
    }
    proof {
        assert(v@.skip(v@.len() as int) =~= Seq::<char>::empty());
    }
    if cur.len() > 0 {
        let ghost prev_out = out@;
        let ghost prev_cur = cur@;
        out.push(cur);
        proof {
            lemma_toks_view_push(prev_out, out@.last());
            assert(out@ =~= prev_out.push(out@.last()));
            assert(toks_view(out@) =~= toks_view(prev_out).push(prev_cur));
        }
    } else {
        proof {
            assert(cur@ =~= Seq::<char>::empty());
        }
    }
    out
}

/// Whether the character at position `i` of `s` is alphanumeric.
pub open spec fn alphanumeric_at(s: Seq<char>, i: int) -> bool {
    crate::unicode::alphanumeric(s[i])
}

/// The chunk `t` with both edges stripped of non-alphanumeric characters.
pub(crate) fn trim_chunk(t: &Vec<char>) -> (r: Vec<char>)
    ensures
        r@ == trim_token(t@),
{
    let n = t.len();
    let mut i: usize = 0;
    proof {
        assert(t@.skip(0) =~= t@);
    }
    loop
        invariant_except_break
            i <= n,
            n == t@.len(),
            trim_start(t@) == trim_start(t@.skip(i as int)),
        ensures
            i <= n,
            n == t@.len(),
            trim_start(t@) == trim_start(t@.skip(i as int)),
            i == n || alphanumeric_at(t@, i as int),
        decreases n - i,
    {
        if i >= n {
            break;
        }
        if is_alphanumeric_char(t[i]) {
            proof {
                assert(t@.skip(i as int)[0] == t@[i as int]);
            }
            break;
        }
        proof {
            assert(t@.skip(i as int)[0] == t@[i as int]);
            assert(t@.skip(i as int).drop_first() =~= t@.skip(i as int + 1));
        }
        i += 1;
    }
    if i == n {
        proof {
            assert(t@.skip(n as int) =~= Seq::<char>::empty());
            assert(trim_token(t@) =~= Seq::<char>::empty());
        }
        return Vec::new();
    }
    proof {
        assert(t@.skip(i as int).len() > 0);
        assert(t@.skip(i as int)[0] == t@[i as int]);
        assert(trim_start(t@) == t@.skip(i as int));
        assert(t@.subrange(i as int, n as int) =~= t@.skip(i as int));
    }
    let mut j: usize = n;
    loop
        invariant_except_break
            i < j <= n,
            n == t@.len(),
            alphanumeric_at(t@, i as int),
            trim_end(t@.subrange(i as int, j as int)) == trim_end(t@.skip(i as int)),
        ensures
            i < j <= n,
            n == t@.len(),
            trim_end(t@.subrange(i as int, j as int)) == trim_end(t@.skip(i as int)),
            alphanumeric_at(t@, j as int - 1),
        decreases j,
    {
        proof {
            let sub = t@.subrange(i as int, j as int);
            assert(sub.len() == j - i);
            assert(sub.last() == t@[j as int - 1]);
        }
        if is_alphanumeric_char(t[j - 1]) {
            break;
        }
        proof {
            let sub = t@.subrange(i as int, j as int);
            assert(sub.drop_last() =~= t@.subrange(i as int, j as int - 1));
        }
        j -= 1;
    }
    proof {
        let sub = t@.subrange(i as int, j as int);
        assert(sub.len() > 0);
        assert(sub.last() == t@[j as int - 1]);
        assert(trim_end(sub) == sub);
        assert(trim_token(t@) == t@.subrange(i as int, j as int));
    }
    let mut r: Vec<char> = Vec::new();
    let mut k: usize = i;
    while k < j
        invariant
            i <= k <= j <= n,
            n == t@.len(),
            r@ == t@.subrange(i as int, k as int),
        decreases j - k,
    {
        r.push(t[k]);
        proof {
            assert(r@ =~= t@.subrange(i as int, k as int + 1));
        }
        k += 1;
    }
    r
}

/// The words of the character sequence `v`: chunks split at whitespace,
/// trimmed, empties discarded.
pub(crate) fn tokens_of(v: &Vec<char>) -> (r: Vec<Vec<char>>)
    ensures
        toks_view(r@) == words(v@),
{
    let chunks = split_chunks(v);
    let ghost cv = toks_view(chunks@);
    let mut out: Vec<Vec<char>> = Vec::new();
    let mut i: usize = 0;
    while i < chunks.len()
        invariant
            i <= chunks.len(),
            cv == toks_view(chunks@),
            cv == split_ws(v@),
            toks_view(out@) == normalize(cv.take(i as int)),
        decreases chunks.len() - i,
    {
        let ghost prev_out = out@;
        let w = trim_chunk(&chunks[i]);
        proof {
            assert(cv.take(i as int + 1).drop_last() =~= cv.take(i as int));
            assert(cv.take(i as int + 1).last() == cv[i as int]);
            assert(cv[i as int] == chunks@[i as int]@);
        }
        if w.len() > 0 {
            out.push(w);
            proof {
                lemma_toks_view_push(prev_out, out@.last());
                assert(out@ =~= prev_out.push(out@.last()));
            }
        }
        i += 1;
    }
    proof {
        assert(cv.take(chunks@.len() as int) =~= cv);
    }
    out
}

} // verus!
