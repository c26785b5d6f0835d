//! The mathematical model of tokenization and word counting.
//!
//! A text is modelled as its character sequence.  Its words are obtained by
//! lower-casing it, splitting it at runs of whitespace, trimming each chunk
//! of leading and trailing non-alphanumeric characters, and dropping chunks
//! that trim to nothing.

use vstd::prelude::*;
use crate::unicode::alphanumeric;
use crate::unicode::lower_of;
use crate::unicode::whitespace;

verus! {

/// The whitespace-separated chunks of `s`, read left to right: `cur` is the
/// chunk under construction and `acc` the chunks already completed.
pub open spec fn split_ws_rec(s: Seq<char>, cur: Seq<char>, acc: Seq<Seq<char>>) -> Seq<
    Seq<char>,
>
    decreases s.len(),
{
    if s.len() == 0 {
        if cur.len() == 0 {
            acc
        } else {
            acc.push(cur)
        }
    } else if whitespace(s[0]) {
        if cur.len() == 0 {
            split_ws_rec(s.drop_first(), Seq::empty(), acc)
        } else {
            split_ws_rec(s.drop_first(), Seq::empty(), acc.push(cur))
        }
    } else {
        split_ws_rec(s.drop_first(), cur.push(s[0]), acc)
    }
}

/// The maximal whitespace-free chunks of `s`, in order.
pub open spec fn split_ws(s: Seq<char>) -> Seq<Seq<char>> {
    split_ws_rec(s, Seq::empty(), Seq::empty())
}

/// `t` without its leading non-alphanumeric characters.
pub open spec fn trim_start(t: Seq<char>) -> Seq<char>
    decreases t.len(),
{
    if t.len() == 0 {
        t
    } else if !alphanumeric(t[0]) {
        trim_start(t.drop_first())
    } else {
        t
    }
}

/// `t` without its trailing non-alphanumeric characters.
pub open spec fn trim_end(t: Seq<char>) -> Seq<char>
    decreases t.len(),
{
    if t.len() == 0 {
        t
    } else if !alphanumeric(t.last()) {
        trim_end(t.drop_last())
    } else {
        t
    }
}

/// A chunk normalized to a token: both edges stripped of non-alphanumeric
/// characters.  Interior punctuation is kept.
pub open spec fn trim_token(t: Seq<char>) -> Seq<char> {
    trim_end(trim_start(t))
}

/// The tokens of the chunk list `ts`: each chunk trimmed, empty results
/// discarded, order kept.
pub open spec fn normalize(ts: Seq<Seq<char>>) -> Seq<Seq<char>>
    decreases ts.len(),
{
    if ts.len() == 0 {
        Seq::empty()
    } else {
        let rest = normalize(ts.drop_last());
        let w = trim_token(ts.last());
        if w.len() == 0 {
            rest
        } else {
            rest.push(w)
        }
    }
}

/// The words of an already lower-cased character sequence `s`,
/// in order of occurrence.
pub open spec fn words(s: Seq<char>) -> Seq<Seq<char>> {
    normalize(split_ws(s))
}

/// The words of the original text `t`: `t` lower-cased, then tokenized.
pub open spec fn words_of_text(t: Seq<char>) -> Seq<Seq<char>> {
    words(lower_of(t))
}

/// How many times the word `w` occurs in the word list `ws`.
pub open spec fn count_of(ws: Seq<Seq<char>>, w: Seq<char>) -> nat {
    ws.filter(|x: Seq<char>| x == w).len()
}

/// The distinct words of `ws`.
pub open spec fn vocab(ws: Seq<Seq<char>>) -> Set<Seq<char>> {
    ws.to_set()
}

/// How many distinct words `ws` holds.
pub open spec fn vocab_size(ws: Seq<Seq<char>>) -> nat {
    vocab(ws).len()
}

/// Appending one word raises its own count by one and leaves every other
/// count unchanged.
pub proof fn lemma_count_of_push(ws: Seq<Seq<char>>, x: Seq<char>, w: Seq<char>)
    ensures
        x == w ==> count_of(ws.push(x), w) == count_of(ws, w) + 1,
        x != w ==> count_of(ws.push(x), w) == count_of(ws, w),
{
    reveal(Seq::filter);
    assert(ws.push(x).drop_last() =~= ws);
    assert(ws.push(x).last() == x);
}

/// A word that does not occur has count zero.
pub proof fn lemma_count_of_absent(ws: Seq<Seq<char>>, w: Seq<char>)
    requires
        !ws.contains(w),
    ensures
        count_of(ws, w) == 0,
    decreases ws.len(),
{
    reveal(Seq::filter);
    if ws.len() > 0 {
        assert(!ws.drop_last().contains(w)) by {
            assert(forall|i: int|
                0 <= i < ws.drop_last().len() ==> ws.drop_last()[i] == ws[i]);
        }
        lemma_count_of_absent(ws.drop_last(), w);
    }
}

/// A count never exceeds the length of the word list.
pub proof fn lemma_count_of_le_len(ws: Seq<Seq<char>>, w: Seq<char>)
    ensures
        count_of(ws, w) <= ws.len(),
{
    ws.lemma_filter_len(|x: Seq<char>| x == w);
}

} // verus!
