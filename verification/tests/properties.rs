use aho_corasick_etna::etna::{
    canonical_find_iter_prefilter_parity, canonical_replace_all_utf8_safe,
    check_find_iter_prefilter_parity, check_replace_all_utf8_safe, debug_triples_string,
    property_find_iter_prefilter_parity, property_replace_all_utf8_safe, to_err, to_opt,
    PropertyResult,
};

fn is_pass(r: &PropertyResult) -> bool {
    matches!(r, PropertyResult::Pass)
}

fn is_discard(r: &PropertyResult) -> bool {
    matches!(r, PropertyResult::Discard)
}

#[test]
fn replace_property_discards_outside_domain() {
    let rep = "Z".to_string();
    assert!(is_discard(&property_replace_all_utf8_safe(vec![], "a".into(), rep.clone())));
    assert!(is_discard(&property_replace_all_utf8_safe(vec![vec![b'a']; 9], "a".into(), rep.clone())));
    assert!(is_discard(&property_replace_all_utf8_safe(vec![vec![b'a']], "a".repeat(257), rep.clone())));
    assert!(is_discard(&property_replace_all_utf8_safe(vec![vec![b'a']], "a".into(), "Z".repeat(17))));
    assert!(is_discard(&property_replace_all_utf8_safe(vec![vec![]], "a".into(), rep.clone())));
    assert!(is_discard(&property_replace_all_utf8_safe(vec![vec![b'a'; 9]], "a".into(), rep)));
}

#[test]
fn replace_property_passes_on_short_haystack() {
    let r = property_replace_all_utf8_safe(vec![vec![b'a']], "a".repeat(128), "Z".repeat(16));
    assert!(is_pass(&r));
}

#[test]
fn replace_property_passes_when_every_byte_is_replaced() {
    // 256 one-byte matches, each replaced by 16 bytes: 4096 bytes, exactly the
    // haystack plus the replacement's growth for each match.
    let r = property_replace_all_utf8_safe(vec![vec![b'a']], "a".repeat(256), "Z".repeat(16));
    assert!(is_pass(&r));
}

#[test]
fn match_lists_render_as_debug() {
    let v: Vec<(usize, usize, usize)> = vec![(0, 0, 4), (2, 12, 16), (10, 123, 4567)];
    assert_eq!(debug_triples_string(&v), "[(0, 0, 4), (2, 12, 16), (10, 123, 4567)]");
    assert_eq!(debug_triples_string(&v), format!("{:?}", v));
    assert_eq!(debug_triples_string(&vec![]), "[]");
    assert_eq!(debug_triples_string(&vec![(7, 8, 9)]), format!("{:?}", vec![(7usize, 8usize, 9usize)]));
}

#[test]
fn parity_property_discards_outside_domain() {
    let p = |n: usize| vec!["ab".to_string(); n];
    assert!(is_discard(&property_find_iter_prefilter_parity(p(0), "ab".into())));
    assert!(is_discard(&property_find_iter_prefilter_parity(p(7), "ab".into())));
    assert!(is_discard(&property_find_iter_prefilter_parity(p(1), "a".repeat(257))));
    assert!(is_discard(&property_find_iter_prefilter_parity(vec![String::new()], "ab".into())));
    assert!(is_discard(&property_find_iter_prefilter_parity(vec!["a".repeat(17)], "ab".into())));
}

#[test]
fn parity_property_passes_in_domain() {
    let r = property_find_iter_prefilter_parity(
        vec!["abc".into(), "abcd".into(), "é".into(), "c".into()],
        "abcdé abc cé".into(),
    );
    assert!(is_pass(&r));
}

#[test]
fn verdict_conversions() {
    assert_eq!(to_opt(PropertyResult::Pass), Some(true));
    assert_eq!(to_opt(PropertyResult::Fail("x".into())), Some(false));
    assert_eq!(to_opt(PropertyResult::Discard), None);
    assert_eq!(to_err(PropertyResult::Pass), Ok(()));
    assert_eq!(to_err(PropertyResult::Discard), Ok(()));
    assert_eq!(to_err(PropertyResult::Fail("x".into())), Err("x".to_string()));
}

#[test]
fn canonical_inputs() {
    let (p, h, r) = canonical_replace_all_utf8_safe();
    assert_eq!(p, vec![vec![0xC3u8]]);
    assert_eq!(h, "éx");
    assert_eq!(r, "Z");
    let (p, h) = canonical_find_iter_prefilter_parity();
    assert_eq!(p, vec!["abcd", "abcdxy", "mnop", "wxyz"]);
    assert_eq!(h, "abcdxy abcd mnop wxyz");
}

#[test]
fn witnesses_replay_ok() {
    assert_eq!(check_replace_all_utf8_safe(), Ok(()));
    assert_eq!(check_find_iter_prefilter_parity(), Ok(()));
}
