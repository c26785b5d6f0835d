//! The text analyzer: an immutable owned text and the statistics derived
//! from it on demand.

use vstd::prelude::*;
use vstd::string::StrSliceExecFns;
use vstd::string::StringExecFns;
use crate::counting::count_words;
use crate::counting::cpairs_view;
use crate::counting::is_count_list;
use crate::counting::spairs_view;
use crate::counting::sum_counts;
use crate::model::words_of_text;
use crate::ranking::is_ranking;
use crate::ranking::is_top_n;
use crate::ranking::lemma_rearranged_count_list;
use crate::ranking::rank_sort;
use crate::tokenize::chars_of_text;
use crate::tokenize::tokens_of;
use crate::tokenize::toks_view;
use crate::unicode::lowercase;
use crate::unicode::string_from_chars;

verus! {

/// The one failure of this library: a request for a top-`n` list with
/// `n == 0`.
#[derive(Clone, Copy, Debug, PartialEq, Eq, Structural)]
pub enum AnalyzerError {
    InvalidArgument,
}

impl AnalyzerError {
    /// The human-readable description of the violated constraint.
    pub fn message(&self) -> (m: &'static str)
        ensures
            m@ == "n must be greater than 0"@,
    {
        "n must be greater than 0"
    }
}

/// How many characters of the text the debug representation shows.
pub open spec fn repr_prefix_len(s: Seq<char>) -> int {
    if s.len() < 50 {
        s.len() as int
    } else {
        50
    }
}

/// An analyzer owning one immutable text, set at construction and never
/// mutated; every statistic is a pure function of it.
pub struct TextAnalyzer {
    text: String,
}

impl View for TextAnalyzer {
    type V = Seq<char>;

    closed spec fn view(&self) -> Seq<char> {
        self.text@
    }
}

impl TextAnalyzer {
    /// A new analyzer owning the given text.  Any string is accepted.
    pub fn new(text: String) -> (a: TextAnalyzer)
        ensures
            a@ == text@,
    {
        TextAnalyzer { text }
    }

    /// A copy of the owned text, exactly as it was given.
    pub fn get_text(&self) -> (r: String)
        ensures
            r@ == self@,
    {
        self.text.clone()
    }

    /// The number of Unicode scalar values in the text.
    pub fn char_count(&self) -> (r: usize)
        ensures
            r == self@.len(),
    {
        self.text.as_str().unicode_len()
    }

    /// The words of the text, as owned character sequences.
    fn word_list(&self) -> (ws: Vec<Vec<char>>)
        ensures
            toks_view(ws@) == words_of_text(self@),
    {
        let lowered = lowercase(self.text.as_str());
        let chars = chars_of_text(lowered.as_str());
        tokens_of(&chars)
    }

    /// The word-frequency mapping of the text, as an association list
    /// sorted strictly by token: each distinct word of the lower-cased,
    /// tokenized text paired with its occurrence count.  The counts sum to
    /// the total number of words.
    pub fn word_count(&self) -> (r: Vec<(String, usize)>)
        ensures
            is_count_list(spairs_view(r@), words_of_text(self@)),
            sum_counts(spairs_view(r@)) == words_of_text(self@).len(),
    {
        let ws = self.word_list();
        let counts = count_words(&ws);
        let ghost clist = cpairs_view(counts@);
        let mut r: Vec<(String, usize)> = Vec::new();
        let mut i: usize = 0;
        proof {
            assert(spairs_view(r@) =~= clist.take(0));
        }
        while i < counts.len()
            invariant
                i <= counts.len(),
                clist == cpairs_view(counts@),
                spairs_view(r@) == clist.take(i as int),
            decreases counts.len() - i,
        {
            let ghost prev = r@;
            let s = string_from_chars(&counts[i].0);
            let c = counts[i].1;
            r.push((s, c));
            proof {
                assert(r@ == prev.push((s, c)));
                assert(spairs_view(prev).len() == prev.len());
                assert(clist.take(i as int).len() == i as int);
                assert(prev.len() == i as int);
                assert(r@.len() == i + 1);
                assert forall|j: int|
                    0 <= j < i + 1 implies spairs_view(r@)[j] == clist.take(i as int + 1)[j] by {
                    if j < i {
                        assert(r@[j] == prev[j]);
                        assert(spairs_view(prev)[j] == clist.take(i as int)[j]);
                    } else {
                        assert(r@[j] == (s, c));
                        assert(clist[i as int] == (counts@[i as int].0@, counts@[i as int].1 as nat));
                    }
                }
                assert(spairs_view(r@) =~= clist.take(i as int + 1));
            }
            i += 1;
        }
        proof {
            assert(clist.take(counts@.len() as int) =~= clist);
        }
        r
    }

    /// The `n` most common words with their counts, ordered by count
    /// descending, ties broken by ascending token; fewer than `n` entries
    /// when the vocabulary is smaller.  Fails if and only if `n == 0`.
    pub fn most_common(&self, n: usize) -> (r: Result<Vec<(String, usize)>, AnalyzerError>)
        ensures
            r is Err <==> n == 0,
            r is Err ==> r->Err_0 == AnalyzerError::InvalidArgument,
            r is Ok ==> is_top_n(spairs_view(r->Ok_0@), words_of_text(self@), n as int),
    {
        if n == 0 {
            return Err(AnalyzerError::InvalidArgument);
        }
        let ws = self.word_list();
        let ghost wsv = toks_view(ws@);
        let counts = count_words(&ws);
        let ghost clist = cpairs_view(counts@);
        let ranked = rank_sort(counts);
        let ghost full = cpairs_view(ranked@);
        proof {
            lemma_rearranged_count_list(clist, full, wsv);
            assert(is_ranking(full, wsv));
        }
        let k = if n < ranked.len() {
            n
        } else {
            ranked.len()
        };
        let mut r: Vec<(String, usize)> = Vec::new();
        let mut i: usize = 0;
        proof {
            assert(spairs_view(r@) =~= full.take(0));
        }
        while i < k
            invariant
                i <= k,
                k <= ranked@.len(),
                full == cpairs_view(ranked@),
                spairs_view(r@) == full.take(i as int),
            decreases k - i,
        {
            let ghost prev = r@;
            let s = string_from_chars(&ranked[i].0);
            let c = ranked[i].1;
            r.push((s, c));
            proof {
                assert(r@ == prev.push((s, c)));
                assert(spairs_view(prev).len() == prev.len());
                assert(full.take(i as int).len() == i as int);
                assert(prev.len() == i as int);
                assert(r@.len() == i + 1);
                assert forall|j: int|
                    0 <= j < i + 1 implies spairs_view(r@)[j] == full.take(i as int + 1)[j] by {
                    if j < i {
                        assert(r@[j] == prev[j]);
                        assert(spairs_view(prev)[j] == full.take(i as int)[j]);
                    } else {
                        assert(r@[j] == (s, c));
                        assert(full[i as int] == (ranked@[i as int].0@, ranked@[i as int].1 as nat));
                    }
                }
                assert(spairs_view(r@) =~= full.take(i as int + 1));
            }
            i += 1;
        }
        proof {
            assert(k as int == if n as int <= full.len() {
                n as int
            } else {
                full.len() as int
            });
            assert(is_top_n(spairs_view(r@), wsv, n as int));
        }
        Ok(r)
    }

    /// A deterministic debug representation embedding the first characters
    /// of the text (at most fifty), followed by an ellipsis.
    pub fn repr(&self) -> (r: String)
        ensures
            r@ == "TextAnalyzer(text=\""@ + self@.take(repr_prefix_len(self@)) + "...\")"@,
    {
        let n = self.text.as_str().unicode_len();
        let m = if n < 50 {
            n
        } else {
            50
        };
        let prefix = self.text.as_str().substring_char(0, m);
        let mut r = String::from_str("TextAnalyzer(text=\"");
        r.append(prefix);
        r.append("...\")");
        proof {
            assert(self@.subrange(0, m as int) =~= self@.take(repr_prefix_len(self@)));
        }
        r
    }
}

} // verus!
