use text_stats::AnalyzerError;
use text_stats::TextAnalyzer;

fn pairs(v: &[(&str, usize)]) -> Vec<(String, usize)> {
    v.iter().map(|(w, c)| (w.to_string(), *c)).collect()
}

#[test]
fn word_count_folds_case_and_strips_punctuation() {
    let a = TextAnalyzer::new("The quick brown fox. The QUICK fox!".to_string());
    let wc = a.word_count();
    assert_eq!(wc, pairs(&[("brown", 1), ("fox", 2), ("quick", 2), ("the", 2)]));
}

#[test]
fn most_common_breaks_ties_alphabetically() {
    let a = TextAnalyzer::new("The quick brown fox. The QUICK fox!".to_string());
    let top = a.most_common(2).unwrap();
    assert_eq!(top, pairs(&[("fox", 2), ("quick", 2)]));
}

#[test]
fn most_common_full_ranking() {
    let a = TextAnalyzer::new("The quick brown fox. The QUICK fox!".to_string());
    let top = a.most_common(10).unwrap();
    assert_eq!(top, pairs(&[("fox", 2), ("quick", 2), ("the", 2), ("brown", 1)]));
}

#[test]
fn empty_text_yields_empty_statistics() {
    let a = TextAnalyzer::new("".to_string());
    assert_eq!(a.word_count(), pairs(&[]));
    assert_eq!(a.char_count(), 0);
    assert_eq!(a.most_common(1).unwrap(), pairs(&[]));
}

#[test]
fn most_common_zero_fails() {
    let a = TextAnalyzer::new("a".to_string());
    let e = a.most_common(0).unwrap_err();
    assert_eq!(e, AnalyzerError::InvalidArgument);
    assert_eq!(e.message(), "n must be greater than 0");
}

#[test]
fn most_common_zero_fails_on_empty_text() {
    let a = TextAnalyzer::new("".to_string());
    assert_eq!(a.most_common(0).unwrap_err(), AnalyzerError::InvalidArgument);
}

#[test]
fn punctuation_only_text_has_no_words() {
    let a = TextAnalyzer::new("!!! ??? ...".to_string());
    assert_eq!(a.word_count(), pairs(&[]));
}

#[test]
fn char_count_counts_unicode_scalars() {
    let a = TextAnalyzer::new("h\u{e9}llo \u{1F30D}".to_string());
    assert_eq!(a.char_count(), 7);
}

#[test]
fn char_count_counts_whitespace() {
    let a = TextAnalyzer::new("a b\tc\n".to_string());
    assert_eq!(a.char_count(), 6);
}

#[test]
fn get_text_returns_the_original() {
    let text = "  Some TEXT, unchanged!  ";
    let a = TextAnalyzer::new(text.to_string());
    assert_eq!(a.get_text(), text);
}

#[test]
fn interior_punctuation_is_preserved() {
    let a = TextAnalyzer::new("Don't stop, don't!".to_string());
    let wc = a.word_count();
    assert_eq!(wc, pairs(&[("don't", 2), ("stop", 1)]));
}

#[test]
fn edges_are_trimmed_not_interiors() {
    let a = TextAnalyzer::new("--hello-- ...world!!".to_string());
    assert_eq!(a.word_count(), pairs(&[("hello", 1), ("world", 1)]));
}

#[test]
fn ranking_orders_by_count_then_token() {
    let a = TextAnalyzer::new("b a b a c".to_string());
    let top = a.most_common(10).unwrap();
    assert_eq!(top, pairs(&[("a", 2), ("b", 2), ("c", 1)]));
}

#[test]
fn most_common_truncates_to_n() {
    let a = TextAnalyzer::new("b a b a c".to_string());
    let top = a.most_common(1).unwrap();
    assert_eq!(top, pairs(&[("a", 2)]));
}

#[test]
fn word_count_sums_to_word_total() {
    let a = TextAnalyzer::new("one two two three three three".to_string());
    let wc = a.word_count();
    let total: usize = wc.iter().map(|p| p.1).sum();
    assert_eq!(total, 6);
}

#[test]
fn repeated_calls_agree() {
    let a = TextAnalyzer::new("The quick brown fox. The QUICK fox!".to_string());
    assert_eq!(a.word_count(), a.word_count());
    assert_eq!(a.char_count(), a.char_count());
    assert_eq!(a.most_common(3).unwrap(), a.most_common(3).unwrap());
}

#[test]
fn repr_embeds_a_short_text_whole() {
    let a = TextAnalyzer::new("hi".to_string());
    assert_eq!(a.repr(), "TextAnalyzer(text=\"hi...\")");
}

#[test]
fn repr_truncates_to_fifty_characters() {
    let text: String = "x".repeat(60);
    let a = TextAnalyzer::new(text);
    let expected = format!("TextAnalyzer(text=\"{}...\")", "x".repeat(50));
    assert_eq!(a.repr(), expected);
}

#[test]
fn whitespace_runs_are_one_separator() {
    let a = TextAnalyzer::new("a  \t b \n\n a".to_string());
    assert_eq!(a.word_count(), pairs(&[("a", 2), ("b", 1)]));
}

#[test]
fn numbers_count_as_words() {
    let a = TextAnalyzer::new("42 cats, 42 dogs".to_string());
    assert_eq!(a.word_count(), pairs(&[("42", 2), ("cats", 1), ("dogs", 1)]));
}
