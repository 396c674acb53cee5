//! Deterministic, minimal reproducers: each calls a property function with
//! frozen inputs, and every one of them must pass.

use aho_corasick_etna::etna::{
    property_find_iter_prefilter_parity, property_replace_all_utf8_safe, PropertyResult,
};

fn assert_pass(result: PropertyResult) {
    match result {
        PropertyResult::Pass | PropertyResult::Discard => {}
        PropertyResult::Fail(m) => panic!("property failed: {m}"),
    }
}

// --- replace_all_utf8_safe ----------------------------------------------

#[test]
fn witness_replace_all_utf8_safe_case_split_codepoint() {
    // The haystack is "é" (bytes 0xC3 0xA9) followed by "x"; the only
    // pattern is the lead byte 0xC3. Its match at 0..1 splits the character
    // and must be skipped.
    let patterns: Vec<Vec<u8>> = vec![vec![0xC3u8]];
    let haystack = "éx".to_string();
    let replacement = "Z".to_string();
    assert_pass(property_replace_all_utf8_safe(
        patterns,
        haystack,
        replacement,
    ));
}

// --- find_iter_prefilter_parity -----------------------------------------

#[test]
fn witness_find_iter_prefilter_parity_case_leftmost_prefix_collision() {
    // "abcdxy" extends the earlier "abcd", so under leftmost-first it is
    // never reported; the patterns after it must keep their indices whether
    // or not the prefilter is used.
    let patterns: Vec<String> = vec![
        "abcd".into(),
        "abcdxy".into(),
        "mnop".into(),
        "wxyz".into(),
    ];
    let haystack = "abcdxy abcd mnop wxyz".to_string();
    assert_pass(property_find_iter_prefilter_parity(patterns, haystack));
}
