use aho_corasick_etna::generate::{
    assemble_mix_haystack, assemble_pattern_set, mutate_pattern_set, parts_fit, remove_char_at,
    replace_char_at, set_pattern_byte, shrink_find_iter, without_last_char,
};

fn s(x: &str) -> String {
    x.to_string()
}

#[test]
fn pattern_set_dedups_and_inserts_superstring() {
    let parts = vec![(s("abcd"), s("")), (s("mnop"), s("x")), (s("abcd"), s("")), (s(""), s(""))];
    let r = assemble_pattern_set(&parts, &s("xy"));
    assert_eq!(r, vec!["abcd", "abcdxy", "mnopx"]);
}

#[test]
fn pattern_set_defaults_when_all_empty() {
    let r = assemble_pattern_set(&vec![(s(""), s(""))], &s("z"));
    assert_eq!(r, vec!["abcd", "abcdz"]);
}

#[test]
fn pattern_set_keeps_existing_superstring() {
    let parts = vec![(s("ab"), s("")), (s("ab"), s("c"))];
    let r = assemble_pattern_set(&parts, &s("c"));
    assert_eq!(r, vec!["ab", "abc"]);
}

#[test]
fn mix_haystack_from_segments() {
    let ps = vec![s("abcd"), s("mnop")];
    let segs = vec![(0u8, 3usize, s("")), (1u8, 0usize, s("xz")), (2u8, 0usize, s("")), (0u8, 2usize, s(""))];
    assert_eq!(assemble_mix_haystack(&ps, &segs), "mnopxz abcd");
    assert_eq!(assemble_mix_haystack(&vec![], &vec![(0u8, 5usize, s(""))]), "");
}

#[test]
fn single_point_mutations() {
    let v = set_pattern_byte(vec![vec![1u8, 2], vec![3]], 0, 1, 9);
    assert_eq!(v, vec![vec![1u8, 9], vec![3]]);
    assert_eq!(replace_char_at("aéc", 1, 'b'), "abc");
    assert_eq!(remove_char_at("aéc", 1), "ac");
    assert_eq!(without_last_char("aé"), "a");
    let ps = vec![s("abcd"), s("abce")];
    // 'd' leaves the pattern as it is and 'e' would repeat "abce": 'z' is taken.
    assert_eq!(mutate_pattern_set(ps.clone(), 0, 3, &vec!['d', 'e', 'z']), Some(vec![s("abcz"), s("abce")]));
    assert_eq!(mutate_pattern_set(ps.clone(), 0, 0, &vec!['z']), Some(vec![s("zbcd"), s("abce")]));
    assert_eq!(mutate_pattern_set(ps.clone(), 0, 3, &vec!['d', 'e']), None);
    // The set ["ab", "ac"] with character 1 of "ab" changed: 'c' would repeat "ac".
    let two = vec![s("ab"), s("ac")];
    assert_eq!(mutate_pattern_set(two, 0, 1, &vec!['c', 'a', 'b']), Some(vec![s("aa"), s("ac")]));
}

#[test]
fn shrink_candidates_in_order() {
    let ps = vec![s("ab"), s("c"), s("de")];
    let out = shrink_find_iter(&ps, &s("xy"));
    let expect: Vec<(Vec<String>, String)> = vec![
        (vec![s("c"), s("de")], s("xy")),
        (vec![s("ab"), s("de")], s("xy")),
        (vec![s("ab"), s("c")], s("xy")),
        (ps.clone(), s("y")),
        (ps.clone(), s("x")),
        (vec![s("a"), s("c"), s("de")], s("xy")),
        (vec![s("ab"), s("c"), s("d")], s("xy")),
    ];
    assert_eq!(out, expect);
}

#[test]
fn shrink_keeps_two_patterns_and_one_char() {
    let out = shrink_find_iter(&vec![s("a"), s("b")], &s("z"));
    assert!(out.is_empty());
}

#[test]
fn pattern_set_from_distinct_parts_has_extension_second() {
    let parts: Vec<(String, String)> = vec![
        ("abcd".into(), "".into()),
        ("mnop".into(), "x".into()),
        ("wxyz".into(), "01".into()),
        ("abcd".into(), "y".into()),
    ];
    let ps = assemble_pattern_set(&parts, &"zz".to_string());
    assert_eq!(ps, vec!["abcd", "abcdzz", "mnopx", "wxyz01", "abcdy"]);
    assert_eq!(ps.len(), parts.len() + 1);
    assert_eq!(ps[1], format!("{}zz", ps[0]));
}

#[test]
fn parts_fit_the_shape() {
    let parts = vec![(s("abcd"), s("")), (s("mnop"), s("x"))];
    assert!(parts_fit(&parts, &s("z")));
    // the extension of the first repeats a later pattern
    assert!(!parts_fit(&vec![(s("abcd"), s("")), (s("abcd"), s("z"))], &s("z")));
    // two parts join to the same pattern
    assert!(!parts_fit(&vec![(s("ab"), s("cd")), (s("abc"), s("d"))], &s("z")));
    // an empty pattern, and no parts at all
    assert!(!parts_fit(&vec![(s(""), s(""))], &s("z")));
    assert!(!parts_fit(&vec![], &s("z")));
}
