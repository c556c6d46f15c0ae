use coolwords_ui::highlight::{highlight, highlight_segments};

fn p(items: &[(&str, bool)]) -> Vec<(String, bool)> {
    items.iter().map(|(s, b)| (s.to_string(), *b)).collect()
}

#[test]
fn marks_whole_word_matches_in_any_case() {
    assert_eq!(
        highlight_segments("The whale, the Whale!", "whale"),
        p(&[("The ", false), ("whale", true), (", the ", false), ("Whale", true), ("!", false)])
    );
    assert_eq!(highlight_segments("whaler whale", "WHALE"), p(&[("whaler ", false), ("whale", true)]));
    assert_eq!(highlight_segments("Café café", "café"), p(&[("Café", true), (" ", false), ("café", true)]));
}

#[test]
fn unmarked_text_stays_whole() {
    assert_eq!(highlight_segments("nothing here", "whale"), p(&[("nothing here", false)]));
    assert_eq!(highlight_segments("a whale", ""), p(&[("a whale", false)]));
    assert_eq!(highlight_segments("", "whale"), p(&[("", false)]));
    assert_eq!(highlight(" whale", "whale"), Some(p(&[(" ", false), ("whale", true)])));
}

#[test]
fn refuses_cuts_that_lowercasing_moved() {
    // 'İ' lowercases to two characters, so the lowercased text is a byte longer
    // and the match of "a" would end past the text's end.
    assert_eq!(highlight("İ a", "a"), None);
}
