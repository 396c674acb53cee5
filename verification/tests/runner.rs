use aho_corasick_etna::runner::{
    budget_from, classify_hegel_failure, decimal_string, etna_replay, is_all, json_report,
    json_str, parse_tool, parse_u64, run_all_next, str_eq, HegelFailure, Metrics, RunAllStep,
    Tool,
};

#[test]
fn parse_u64_like_std() {
    for s in ["0", "42", "+7", "007", "18446744073709551615", "", "+", "-1", "1a", " 1", "18446744073709551616", "++1"] {
        assert_eq!(parse_u64(s), s.parse::<u64>().ok(), "{s:?}");
    }
}

#[test]
fn budget_defaults_to_max() {
    assert_eq!(budget_from(None), u64::MAX);
    assert_eq!(budget_from(Some("oops".into())), u64::MAX);
    assert_eq!(budget_from(Some("200".into())), 200);
}

#[test]
fn json_str_escapes() {
    assert_eq!(json_str("plain"), "\"plain\"");
    assert_eq!(json_str("a\"b\\c\nd\re\tf"), "\"a\\\"b\\\\c\\nd\\re\\tf\"");
    assert_eq!(json_str("\u{1}\u{1f}"), "\"\\u0001\\u001f\"");
    assert_eq!(json_str("é🎉"), "\"é🎉\"");
}

#[test]
fn decimal_digits() {
    assert_eq!(decimal_string(0), "0");
    assert_eq!(decimal_string(1234567890), "1234567890");
    assert_eq!(decimal_string(u128::MAX), u128::MAX.to_string());
}

#[test]
fn json_report_line() {
    let m = Metrics { inputs: 3, elapsed_us: 17 };
    assert_eq!(
        json_report("etna", "All", "passed", m, None, None),
        "{\"status\":\"passed\",\"tests\":3,\"discards\":0,\"time\":\"17us\",\"counterexample\":null,\"error\":null,\"tool\":\"etna\",\"property\":\"All\"}"
    );
    assert_eq!(
        json_report("hegel", "X", "failed", Metrics::default(), Some("(\"a\")"), Some("e")),
        "{\"status\":\"failed\",\"tests\":0,\"discards\":0,\"time\":\"0us\",\"counterexample\":\"(\\\"a\\\")\",\"error\":\"e\",\"tool\":\"hegel\",\"property\":\"X\"}"
    );
}

#[test]
fn tools_by_name() {
    assert_eq!(parse_tool("etna"), Some(Tool::Etna));
    assert_eq!(parse_tool("proptest"), Some(Tool::Proptest));
    assert_eq!(parse_tool("quickcheck"), Some(Tool::Quickcheck));
    assert_eq!(parse_tool("crabcheck"), Some(Tool::Crabcheck));
    assert_eq!(parse_tool("hegel"), Some(Tool::Hegel));
    assert_eq!(parse_tool("Hegel"), None);
    assert!(is_all("All"));
    assert!(!is_all("all"));
    assert!(str_eq("é", "é"));
    assert!(!str_eq("é", "e"));
}

#[test]
fn etna_replays_known_witnesses() {
    assert_eq!(etna_replay("ReplaceAllUtf8Safe"), Some(Ok(())));
    assert_eq!(etna_replay("FindIterPrefilterParity"), Some(Ok(())));
    assert_eq!(etna_replay("Nope"), None);
}

#[test]
fn run_all_stops_at_first_failure() {
    let total = Metrics { inputs: 1, elapsed_us: 10 };
    match run_all_next(total, (Ok(()), Metrics { inputs: 2, elapsed_us: 5 })) {
        RunAllStep::Continue(m) => assert_eq!((m.inputs, m.elapsed_us), (3, 15)),
        RunAllStep::Stop(..) => panic!("should continue"),
    }
    match run_all_next(total, (Err("boom".into()), Metrics { inputs: 2, elapsed_us: 5 })) {
        RunAllStep::Stop(e, m) => {
            assert_eq!(e, "boom");
            assert_eq!((m.inputs, m.elapsed_us), (3, 15));
        }
        RunAllStep::Continue(_) => panic!("should stop"),
    }
}

#[test]
fn metrics_combine_adds() {
    let m = Metrics { inputs: 4, elapsed_us: 9 }.combine(Metrics { inputs: 6, elapsed_us: 1 });
    assert_eq!((m.inputs, m.elapsed_us), (10, 10));
}

#[test]
fn hegel_failures_are_classified() {
    match classify_hegel_failure("__unknown_property:Foo") {
        HegelFailure::UnknownProperty(n) => assert_eq!(n, "Foo"),
        HegelFailure::Failed(_) => panic!(),
    }
    match classify_hegel_failure("Property test failed: (x)") {
        HegelFailure::Failed(m) => assert_eq!(m, "(x)"),
        HegelFailure::UnknownProperty(_) => panic!(),
    }
    match classify_hegel_failure("other") {
        HegelFailure::Failed(m) => assert_eq!(m, "other"),
        HegelFailure::UnknownProperty(_) => panic!(),
    }
}

fn decode_json_string(lit: &str) -> Option<String> {
    let inner = lit.strip_prefix('"')?.strip_suffix('"')?;
    let mut out = String::new();
    let mut it = inner.chars();
    while let Some(c) = it.next() {
        match c {
            '"' => return None,
            c if (c as u32) < 0x20 => return None,
            '\\' => match it.next()? {
                '"' => out.push('"'),
                '\\' => out.push('\\'),
                '/' => out.push('/'),
                'b' => out.push('\u{8}'),
                'f' => out.push('\u{c}'),
                'n' => out.push('\n'),
                'r' => out.push('\r'),
                't' => out.push('\t'),
                'u' => {
                    let hex: String = (0..4).map(|_| it.next()).collect::<Option<String>>()?;
                    out.push(char::from_u32(u32::from_str_radix(&hex, 16).ok()?)?);
                }
                _ => return None,
            },
            c => out.push(c),
        }
    }
    Some(out)
}

#[test]
fn json_str_round_trips() {
    for s in ["", "plain", "a\"b\\c", "\n\r\t", "\u{0}\u{7}\u{1f} ", "é🎉/", "\\u0041"] {
        let lit = json_str(s);
        assert_eq!(decode_json_string(&lit).as_deref(), Some(s), "{lit}");
        assert!(lit.chars().all(|c| (c as u32) >= 0x20));
    }
    assert_eq!(json_str("no escapes here"), format!("\"{}\"", "no escapes here"));
}
