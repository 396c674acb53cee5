use aho_corasick_etna::automaton::{AhoCorasick, AhoCorasickBuilder};
use aho_corasick_etna::semantics::{Match, MatchKind};

fn pats(ps: &[&str]) -> Vec<Vec<u8>> {
    ps.iter().map(|p| p.as_bytes().to_vec()).collect()
}

fn build(ps: &[&str], kind: MatchKind, prefilter: bool) -> AhoCorasick {
    AhoCorasickBuilder::new().match_kind(kind).prefilter(prefilter).build(&pats(ps))
}

fn triples(ms: &[Match]) -> Vec<(usize, usize, usize)> {
    ms.iter().map(|m| (m.pattern, m.start, m.end)).collect()
}

#[test]
fn standard_reports_earliest_end() {
    // Patterns "b", "abc", "abcd" on "abcd": "b" ends first.
    let ac = AhoCorasick::new(&pats(&["b", "abc", "abcd"]));
    assert_eq!(ac.match_kind(), MatchKind::Standard);
    assert_eq!(triples(&ac.find_iter(b"abcd")), vec![(0, 1, 2)]);
}

#[test]
fn standard_prefers_longest_at_same_end() {
    let ac = AhoCorasick::new(&pats(&["bc", "abc"]));
    assert_eq!(triples(&ac.find_iter(b"abc")), vec![(1, 0, 3)]);
}

#[test]
fn leftmost_first_prefers_earlier_pattern() {
    let ac = build(&["abcd", "abcdxy", "mnop", "wxyz"], MatchKind::LeftmostFirst, false);
    assert_eq!(
        triples(&ac.find_iter(b"abcdxy abcd mnop wxyz")),
        vec![(0, 0, 4), (0, 7, 11), (2, 12, 16), (3, 17, 21)]
    );
}

#[test]
fn leftmost_longest_prefers_longer_pattern() {
    let ac = build(&["abcd", "abcdxy", "mnop", "wxyz"], MatchKind::LeftmostLongest, true);
    assert_eq!(
        triples(&ac.find_iter(b"abcdxy abcd mnop wxyz")),
        vec![(1, 0, 6), (0, 7, 11), (2, 12, 16), (3, 17, 21)]
    );
}

#[test]
fn prefilter_does_not_change_matches() {
    let hay = b"xxabcdabcdxyzz mnopwxyz abcabcd";
    for kind in [MatchKind::Standard, MatchKind::LeftmostFirst, MatchKind::LeftmostLongest] {
        let a = build(&["abcd", "abcdxy", "mnop", "wxyz", "cd"], kind, true);
        let b = build(&["abcd", "abcdxy", "mnop", "wxyz", "cd"], kind, false);
        assert!(a.uses_prefilter());
        assert!(!b.uses_prefilter());
        assert_eq!(triples(&a.find_iter(hay)), triples(&b.find_iter(hay)));
    }
}

#[test]
fn prefilter_needs_nonempty_patterns() {
    let ac = build(&["", "a"], MatchKind::LeftmostFirst, true);
    assert!(!ac.uses_prefilter());
}

#[test]
fn matches_do_not_overlap() {
    let ac = build(&["aa"], MatchKind::LeftmostFirst, true);
    assert_eq!(triples(&ac.find_iter(b"aaaaa")), vec![(0, 0, 2), (0, 2, 4)]);
}

#[test]
fn empty_pattern_matches_between_bytes() {
    let ac = build(&[""], MatchKind::LeftmostFirst, false);
    assert_eq!(
        triples(&ac.find_iter(b"ab")),
        vec![(0, 0, 0), (0, 1, 1), (0, 2, 2)]
    );
}

#[test]
fn empty_match_right_after_a_match_is_skipped() {
    let ac = build(&["a", ""], MatchKind::LeftmostFirst, false);
    assert_eq!(triples(&ac.find_iter(b"ab")), vec![(0, 0, 1), (1, 2, 2)]);
}

#[test]
fn no_patterns_no_matches() {
    let ac = build(&[], MatchKind::Standard, true);
    assert_eq!(ac.patterns_len(), 0);
    assert!(ac.find_iter(b"anything").is_empty());
}

#[test]
fn find_at_starts_later() {
    let ac = build(&["ab"], MatchKind::LeftmostFirst, true);
    let m = ac.find_at(b"abab", 1).unwrap();
    assert_eq!((m.pattern, m.start, m.end), (0, 2, 4));
    assert!(ac.find_at(b"abab", 3).is_none());
}

#[test]
fn replace_all_replaces_each_match() {
    let ac = AhoCorasick::new(&pats(&["cat", "dog"]));
    assert_eq!(ac.replace_all("a cat and a dog", &["tiger", "wolf"]), "a tiger and a wolf");
}

#[test]
fn replace_all_skips_split_codepoint() {
    let ac = AhoCorasick::new(&vec![vec![0xC3u8]]);
    assert_eq!(ac.replace_all("éx", &["Z"]), "éx");
}

#[test]
fn replace_all_keeps_whole_codepoint_matches() {
    let ac = AhoCorasick::new(&vec![vec![0xC3u8, 0xA9u8], vec![0xA9u8]]);
    assert_eq!(ac.replace_all("éxé", &["e", "?"]), "exe");
}

#[test]
fn replace_all_on_multibyte_haystack() {
    let ac = build(&["あ", "字"], MatchKind::LeftmostFirst, true);
    assert_eq!(ac.replace_all("xあy字z", &["A", "J"]), "xAyJz");
}
