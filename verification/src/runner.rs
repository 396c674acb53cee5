//! The decisions of the workload runner: run metrics, which tool and
//! witness to run, the case budget, and the one-line JSON report.

use vstd::prelude::*;
use vstd::string::StringSliceAdditionalSpecFns;
use crate::etna::{check_replace_all_utf8_safe, check_find_iter_prefilter_parity};
use crate::text::lemma_encode_injective;

verus! {

/// What one run of a property measured.
#[derive(Clone, Copy, Debug)]
pub struct Metrics {
    /// The number of inputs tried.
    pub inputs: u64,
    /// The wall-clock time taken, in microseconds.
    pub elapsed_us: u128,
}

impl Default for Metrics {
    fn default() -> (m: Metrics)
        ensures
            m.inputs == 0,
            m.elapsed_us == 0,
    {
        Metrics { inputs: 0, elapsed_us: 0 }
    }
}

/// The metrics of two runs taken together.
pub open spec fn spec_combine(a: Metrics, b: Metrics) -> (int, int) {
    (a.inputs + b.inputs, a.elapsed_us + b.elapsed_us)
}

impl Metrics {
    /// The metrics of two runs taken together: the inputs and the times add up.
    pub fn combine(self, other: Metrics) -> (m: Metrics)
        requires
            self.inputs + other.inputs <= u64::MAX,
            self.elapsed_us + other.elapsed_us <= u128::MAX,
        ensures
            (m.inputs as int, m.elapsed_us as int) == spec_combine(self, other),
    {
        Metrics { inputs: self.inputs + other.inputs, elapsed_us: self.elapsed_us + other.elapsed_us }
    }
}

/// The next move of a run over all properties, after one property's outcome.
pub enum RunAllStep {
    /// Go on to the next property, with the metrics so far.
    Continue(Metrics),
    /// Stop with this failure and the metrics so far.
    Stop(String, Metrics),
}

/// Adds one property's outcome to the running total; a failure stops the run.
pub fn run_all_next(total: Metrics, outcome: (Result<(), String>, Metrics)) -> (step: RunAllStep)
    requires
        total.inputs + outcome.1.inputs <= u64::MAX,
        total.elapsed_us + outcome.1.elapsed_us <= u128::MAX,
    ensures
        match step {
            RunAllStep::Continue(m) => outcome.0 is Ok && (m.inputs as int, m.elapsed_us as int)
                == spec_combine(total, outcome.1),
            RunAllStep::Stop(e, m) => outcome.0 == Err::<(), String>(e) && (
            m.inputs as int,
            m.elapsed_us as int,
            ) == spec_combine(total, outcome.1),
        },
{
    let (r, m) = outcome;
    let total = total.combine(m);
    match r {
        Ok(()) => RunAllStep::Continue(total),
        Err(e) => RunAllStep::Stop(e, total),
    }
}

/// Whether two string slices hold the same characters.
pub fn str_eq(a: &str, b: &str) -> (r: bool)
    ensures
        r == (a@ == b@),
{
    let x = a.as_bytes();
    let y = b.as_bytes();
    if x.len() != y.len() {
        return false;
    }
    let mut i: usize = 0;
    while i < x.len()
        invariant
            x@ == a.spec_bytes(),
            y@ == b.spec_bytes(),
            x@.len() == y@.len(),
            i <= x@.len(),
            forall|j: int| 0 <= j < i ==> x@[j] == y@[j],
        decreases x@.len() - i,
    {
        if x[i] != y[i] {
            return false;
        }
        i += 1;
    }
    proof {
        assert(x@ =~= y@);
        lemma_encode_injective(a@, b@);
    }
    true
}

/// A test framework that the runner can drive.
#[derive(Clone, Copy, Debug, PartialEq, Eq, Structural)]
pub enum Tool {
    /// Replays the fixed witnesses.
    Etna,
    Proptest,
    Quickcheck,
    Crabcheck,
    Hegel,
}

/// The tool a name selects.
pub open spec fn spec_parse_tool(name: Seq<char>) -> Option<Tool> {
    if name == "etna"@ {
        Some(Tool::Etna)
    } else if name == "proptest"@ {
        Some(Tool::Proptest)
    } else if name == "quickcheck"@ {
        Some(Tool::Quickcheck)
    } else if name == "crabcheck"@ {
        Some(Tool::Crabcheck)
    } else if name == "hegel"@ {
        Some(Tool::Hegel)
    } else {
        None
    }
}

/// Selects a tool by name; an unknown name selects none.
pub fn parse_tool(name: &str) -> (r: Option<Tool>)
    ensures
        r == spec_parse_tool(name@),
{
    if str_eq(name, "etna") {
        Some(Tool::Etna)
    } else if str_eq(name, "proptest") {
        Some(Tool::Proptest)
    } else if str_eq(name, "quickcheck") {
        Some(Tool::Quickcheck)
    } else if str_eq(name, "crabcheck") {
        Some(Tool::Crabcheck)
    } else if str_eq(name, "hegel") {
        Some(Tool::Hegel)
    } else {
        None
    }
}

/// The name that asks for every property in turn.
pub open spec fn spec_is_all(name: Seq<char>) -> bool {
    name == "All"@
}

/// Whether a property name asks for every property in turn.
pub fn is_all(name: &str) -> (r: bool)
    ensures
        r == spec_is_all(name@),
{
    str_eq(name, "All")
}

/// A property that the runner can check.
#[derive(Clone, Copy, Debug, PartialEq, Eq, Structural)]
pub enum PropertyName {
    ReplaceAllUtf8Safe,
    FindIterPrefilterParity,
}

/// The property a name selects.
pub open spec fn spec_parse_property(name: Seq<char>) -> Option<PropertyName> {
    if name == "ReplaceAllUtf8Safe"@ {
        Some(PropertyName::ReplaceAllUtf8Safe)
    } else if name == "FindIterPrefilterParity"@ {
        Some(PropertyName::FindIterPrefilterParity)
    } else {
        None
    }
}

/// Selects a property by name; an unknown name selects none.
pub fn parse_property(name: &str) -> (r: Option<PropertyName>)
    ensures
        r == spec_parse_property(name@),
{
    if str_eq(name, "ReplaceAllUtf8Safe") {
        Some(PropertyName::ReplaceAllUtf8Safe)
    } else if str_eq(name, "FindIterPrefilterParity") {
        Some(PropertyName::FindIterPrefilterParity)
    } else {
        None
    }
}

/// The name of a property, as the runner's command line writes it.
pub open spec fn property_label(p: PropertyName) -> Seq<char> {
    match p {
        PropertyName::ReplaceAllUtf8Safe => "ReplaceAllUtf8Safe"@,
        PropertyName::FindIterPrefilterParity => "FindIterPrefilterParity"@,
    }
}

/// Selecting a property by name gives the property of that name: every
/// property is selected by its own name, and a name selects only the
/// property it names, so two different properties are never confused.
pub proof fn law_parse_property_by_name(name: Seq<char>, p: PropertyName)
    ensures
        spec_parse_property(property_label(p)) == Some(p),
        spec_parse_property(name) matches Some(q) ==> name == property_label(q),
{
    reveal_strlit("ReplaceAllUtf8Safe");
    reveal_strlit("FindIterPrefilterParity");
    assert("ReplaceAllUtf8Safe"@ != "FindIterPrefilterParity"@) by {
        assert("ReplaceAllUtf8Safe"@.len() != "FindIterPrefilterParity"@.len());
    }
}

/// The name of a tool, as the runner's command line writes it.
pub open spec fn tool_label(t: Tool) -> Seq<char> {
    match t {
        Tool::Etna => "etna"@,
        Tool::Proptest => "proptest"@,
        Tool::Quickcheck => "quickcheck"@,
        Tool::Crabcheck => "crabcheck"@,
        Tool::Hegel => "hegel"@,
    }
}

/// Selecting a tool by name gives the tool of that name: every tool is
/// selected by its own name, and a name selects only the tool it names.
pub proof fn law_parse_tool_by_name(name: Seq<char>, t: Tool)
    ensures
        spec_parse_tool(tool_label(t)) == Some(t),
        spec_parse_tool(name) matches Some(u) ==> name == tool_label(u),
{
    reveal_strlit("etna");
    reveal_strlit("proptest");
    reveal_strlit("quickcheck");
    reveal_strlit("crabcheck");
    reveal_strlit("hegel");
    assert("etna"@ != "proptest"@ && "etna"@ != "quickcheck"@ && "etna"@ != "crabcheck"@
        && "etna"@ != "hegel"@) by {
        assert("etna"@.len() == 4);
        assert("hegel"@[0] != "etna"@[0]);
    }
    assert("proptest"@ != "quickcheck"@ && "proptest"@ != "crabcheck"@ && "proptest"@ != "hegel"@) by {
        assert("proptest"@[0] != "quickcheck"@[0]);
        assert("proptest"@[0] != "crabcheck"@[0]);
    }
    assert("quickcheck"@ != "crabcheck"@ && "quickcheck"@ != "hegel"@) by {
        assert("quickcheck"@[0] != "crabcheck"@[0]);
    }
    assert("crabcheck"@ != "hegel"@) by {
        assert("crabcheck"@[0] != "hegel"@[0]);
    }
}

/// Replays the witness of the named property; `None` for an unknown name.
/// Both witnesses pass.
pub fn etna_replay(property: &str) -> (r: Option<Result<(), String>>)
    ensures
        spec_parse_property(property@) is Some ==> (r matches Some(res) && res is Ok),
        spec_parse_property(property@) is None ==> r is None,
{
    match parse_property(property) {
        Some(PropertyName::ReplaceAllUtf8Safe) => Some(check_replace_all_utf8_safe()),
        Some(PropertyName::FindIterPrefilterParity) => Some(check_find_iter_prefilter_parity()),
        None => None,
    }
}

// --------------------------------------------------------------------
// The case budget

/// `c` is an ASCII decimal digit.
pub open spec fn is_digit(c: char) -> bool {
    '0' <= c <= '9'
}

/// The value of a string of decimal digits.
pub open spec fn digits_value(s: Seq<char>) -> int
    decreases s.len(),
{
    if s.len() == 0 {
        0
    } else {
        digits_value(s.drop_last()) * 10 + (s.last() as int - '0' as int)
    }
}

/// The digits of a decimal number, after an optional leading `+`.
pub open spec fn unsigned_digits(s: Seq<char>) -> Seq<char> {
    if s.len() > 0 && s[0] == '+' {
        s.drop_first()
    } else {
        s
    }
}

/// The `u64` that a string denotes: an optional `+`, then one or more
/// decimal digits whose value fits in 64 bits.
pub open spec fn spec_parse_u64(s: Seq<char>) -> Option<u64> {
    let d = unsigned_digits(s);
    if d.len() > 0 && (forall|i: int| 0 <= i < d.len() ==> is_digit(#[trigger] d[i]))
        && digits_value(d) <= u64::MAX {
        Some(digits_value(d) as u64)
    } else {
        None
    }
}

proof fn lemma_digits_value_nonneg(s: Seq<char>)
    requires
        forall|i: int| 0 <= i < s.len() ==> is_digit(#[trigger] s[i]),
    ensures
        digits_value(s) >= 0,
    decreases s.len(),
{
    if s.len() > 0 {
        lemma_digits_value_nonneg(s.drop_last());
    }
}

/// Appending digits never makes the value smaller.
proof fn lemma_digits_value_monotone(s: Seq<char>, k: int)
    requires
        0 <= k <= s.len(),
        forall|i: int| 0 <= i < s.len() ==> is_digit(#[trigger] s[i]),
    ensures
        digits_value(s.subrange(0, k)) <= digits_value(s),
    decreases s.len() - k,
{
    if k < s.len() {
        let t = s.subrange(0, k + 1);
        assert(t.drop_last() =~= s.subrange(0, k));
        lemma_digits_value_nonneg(s.subrange(0, k));
        lemma_digits_value_monotone(s, k + 1);
    } else {
        assert(s.subrange(0, k) =~= s);
    }
}

/// Parses a decimal `u64` as `str::parse` does: an optional `+` and at least
/// one digit, nothing else, no overflow.
pub fn parse_u64(s: &str) -> (r: Option<u64>)
    ensures
        r == spec_parse_u64(s@),
{
    let ghost d = unsigned_digits(s@);
    let mut value: u64 = 0;
    let mut seen: usize = 0;
    let mut k: usize = 0;
    let mut skipped_sign = false;
    let _nbytes: usize = s.as_bytes().len();
    proof {
        crate::etna::lemma_encode_len(s@);
    }
    for c in it: s.chars()
        invariant
            k == it.index(),
            it.seq() == s@,
            s@.len() <= usize::MAX,
            d == unsigned_digits(s@),
            skipped_sign == (k > 0 && s@[0] == '+'),
            seen == if skipped_sign { k - 1 } else { k as int },
            forall|i: int| 0 <= i < seen ==> is_digit(#[trigger] d[i]),
            value == digits_value(d.subrange(0, seen as int)),
    {
        if k == 0 && c == '+' {
            skipped_sign = true;
        } else {
            proof {
                assert(d[seen as int] == c);
            }
            if c < '0' || c > '9' {
                return None;
            }
            let digit: u64 = (c as u32 - '0' as u32) as u64;
            proof {
                assert(d.subrange(0, seen + 1).drop_last() =~= d.subrange(0, seen as int));
                lemma_digits_value_nonneg(d.subrange(0, seen as int));
            }
            match value.checked_mul(10) {
                None => {
                    proof {
                        lemma_digits_value_nonneg(d.subrange(0, seen + 1));
                        if forall|j: int| 0 <= j < d.len() ==> is_digit(#[trigger] d[j]) {
                            lemma_digits_value_monotone(d, seen + 1);
                        }
                    }
                    return None;
                },
                Some(tens) => match tens.checked_add(digit) {
                    None => {
                        proof {
                            if forall|j: int| 0 <= j < d.len() ==> is_digit(#[trigger] d[j]) {
                                lemma_digits_value_monotone(d, seen + 1);
                            }
                        }
                        return None;
                    },
                    Some(v) => {
                        value = v;
                    },
                },
            }
            seen = seen + 1;
        }
        k = k + 1;
    }
    proof {
        if skipped_sign {
            assert(d.len() == s@.len() - 1);
        }
        assert(d.subrange(0, seen as int) =~= d);
    }
    if seen == 0 {
        return None;
    }
    Some(value)
}

/// The case budget from the value of the budget variable: the number it
/// denotes, or `u64::MAX` when it is unset or not a number.
pub fn budget_from(value: Option<String>) -> (n: u64)
    ensures
        n == match value {
            Some(s) => match spec_parse_u64(s@) {
                Some(v) => v,
                None => u64::MAX,
            },
            None => u64::MAX,
        },
{
    match value {
        Some(s) => match parse_u64(s.as_str()) {
            Some(v) => v,
            None => u64::MAX,
        },
        None => u64::MAX,
    }
}


// --------------------------------------------------------------------
// The JSON report

/// Lower-case hexadecimal digits; the first ten are the decimal digits.
pub const HEX_LOWER: [char; 16] = [
    '0', '1', '2', '3', '4', '5', '6', '7', '8', '9', 'a', 'b', 'c', 'd', 'e', 'f',
];

/// How one character is written inside a JSON string.
pub open spec fn escape_char(c: char) -> Seq<char> {
    if c == '"' {
        seq!['\\', '"']
    } else if c == '\\' {
        seq!['\\', '\\']
    } else if c == '\n' {
        seq!['\\', 'n']
    } else if c == '\r' {
        seq!['\\', 'r']
    } else if c == '\t' {
        seq!['\\', 't']
    } else if (c as u32) < 0x20 {
        seq!['\\', 'u', '0', '0', HEX_LOWER@[((c as u32) / 16) as int], HEX_LOWER@[((c as u32) % 16) as int]]
    } else {
        seq![c]
    }
}

/// The characters of `s`, each written as inside a JSON string.
pub open spec fn json_escaped(s: Seq<char>) -> Seq<char>
    decreases s.len(),
{
    if s.len() == 0 {
        seq![]
    } else {
        json_escaped(s.drop_last()) + escape_char(s.last())
    }
}

/// `s` as a JSON string literal.
pub open spec fn json_quoted(s: Seq<char>) -> Seq<char> {
    seq!['"'] + json_escaped(s) + seq!['"']
}

/// Writes `s` as a JSON string literal: quotes around it, and quotes,
/// backslashes and control characters escaped.
pub fn json_str(s: &str) -> (r: String)
    ensures
        r@ == json_quoted(s@),
{
    let _nbytes: usize = s.as_bytes().len();
    let mut out = String::new();
    out.push('"');
    let mut k: usize = 0;
    proof {
        crate::etna::lemma_encode_len(s@);
        assert(s@.subrange(0, 0) =~= Seq::<char>::empty());
    }
    for c in it: s.chars()
        invariant
            k == it.index(),
            it.seq() == s@,
            s@.len() <= usize::MAX,
            out@ == seq!['"'] + json_escaped(s@.subrange(0, k as int)),
    {
        let ghost before = out@;
        if c == '"' {
            out.push('\\');
            out.push('"');
        } else if c == '\\' {
            out.push('\\');
            out.push('\\');
        } else if c == '\n' {
            out.push('\\');
            out.push('n');
        } else if c == '\r' {
            out.push('\\');
            out.push('r');
        } else if c == '\t' {
            out.push('\\');
            out.push('t');
        } else if (c as u32) < 0x20 {
            let v = c as u32;
            out.push('\\');
            out.push('u');
            out.push('0');
            out.push('0');
            out.push(HEX_LOWER[(v / 16) as usize]);
            out.push(HEX_LOWER[(v % 16) as usize]);
        } else {
            out.push(c);
        }
        proof {
            assert(s@.subrange(0, k + 1).drop_last() =~= s@.subrange(0, k as int));
            assert(s@.subrange(0, k + 1).last() == c);
            assert(out@ =~= before + escape_char(c));
        }
        k += 1;
    }
    let ghost before = out@;
    out.push('"');
    proof {
        assert(s@.subrange(0, k as int) =~= s@);
        assert(out@ =~= before + seq!['"']);
    }
    out
}

/// The value of a hexadecimal digit of either case.
pub open spec fn hex_value(c: char) -> Option<int> {
    if '0' <= c <= '9' {
        Some(c as int - '0' as int)
    } else if 'a' <= c <= 'f' {
        Some(c as int - 'a' as int + 10)
    } else if 'A' <= c <= 'F' {
        Some(c as int - 'A' as int + 10)
    } else {
        None
    }
}

/// The value of the four hexadecimal digits of `t` at `i`, if they are such.
pub open spec fn hex4(t: Seq<char>, i: int) -> Option<int> {
    if 0 <= i && i + 4 <= t.len() && hex_value(t[i]) is Some && hex_value(t[i + 1]) is Some
        && hex_value(t[i + 2]) is Some && hex_value(t[i + 3]) is Some {
        Some(
            ((hex_value(t[i])->0 * 16 + hex_value(t[i + 1])->0) * 16 + hex_value(t[i + 2])->0) * 16
                + hex_value(t[i + 3])->0,
        )
    } else {
        None
    }
}

/// The character a two-character escape `\e` stands for in JSON.
pub open spec fn json_simple_escape(e: char) -> Option<char> {
    if e == '"' {
        Some('"')
    } else if e == '\\' {
        Some('\\')
    } else if e == '/' {
        Some('/')
    } else if e == 'b' {
        Some('\u{8}')
    } else if e == 'f' {
        Some('\u{c}')
    } else if e == 'n' {
        Some('\n')
    } else if e == 'r' {
        Some('\r')
    } else if e == 't' {
        Some('\t')
    } else {
        None
    }
}

/// `c` in front of the decoded rest, if the rest decoded.
pub open spec fn prepend_decoded(c: char, rest: Option<Seq<char>>) -> Option<Seq<char>> {
    match rest {
        Some(r) => Some(seq![c] + r),
        None => None,
    }
}

/// Decodes the body of a JSON string literal (the text between its quotes):
/// a quote or a control character must be escaped; escapes are the
/// two-character ones, `\uXXXX` for a character outside the surrogate range,
/// and two such escapes for a surrogate pair.
pub open spec fn json_unescape(t: Seq<char>) -> Option<Seq<char>>
    decreases t.len(),
{
    if t.len() == 0 {
        Some(seq![])
    } else if t[0] == '"' || (t[0] as u32) < 0x20 {
        None
    } else if t[0] != '\\' {
        prepend_decoded(t[0], json_unescape(t.drop_first()))
    } else if t.len() < 2 {
        None
    } else if json_simple_escape(t[1]) is Some {
        prepend_decoded(json_simple_escape(t[1])->0, json_unescape(t.subrange(2, t.len() as int)))
    } else if t[1] != 'u' || t.len() < 6 || hex4(t, 2) is None {
        None
    } else {
        let v = hex4(t, 2)->0;
        if 0xD800 <= v < 0xDC00 {
            if t.len() >= 12 && t[6] == '\\' && t[7] == 'u' && hex4(t, 8) is Some && 0xDC00 <= hex4(
                t,
                8,
            )->0 < 0xE000 {
                let w = hex4(t, 8)->0;
                prepend_decoded(
                    (0x10000 + (v - 0xD800) * 0x400 + (w - 0xDC00)) as char,
                    json_unescape(t.subrange(12, t.len() as int)),
                )
            } else {
                None
            }
        } else if 0xDC00 <= v < 0xE000 {
            None
        } else {
            prepend_decoded(v as char, json_unescape(t.subrange(6, t.len() as int)))
        }
    }
}

/// Decodes a JSON string literal: a quote, the escaped body, a quote.
pub open spec fn json_decode_string(lit: Seq<char>) -> Option<Seq<char>> {
    if lit.len() >= 2 && lit[0] == '"' && lit.last() == '"' {
        json_unescape(lit.subrange(1, lit.len() - 1))
    } else {
        None
    }
}

/// `s` needs no escaping in a JSON string: no quote, no backslash, no
/// control character.
pub open spec fn json_plain(s: Seq<char>) -> bool {
    forall|i: int| 0 <= i < s.len() ==> #[trigger] s[i] != '"' && s[i] != '\\' && (s[i] as u32)
        >= 0x20
}

/// Escaping, read from the front: the first character's escape, then the rest.
proof fn lemma_json_escaped_front(s: Seq<char>)
    requires
        s.len() > 0,
    ensures
        json_escaped(s) == escape_char(s[0]) + json_escaped(s.drop_first()),
    decreases s.len(),
{
    if s.len() == 1 {
        assert(s.drop_last() =~= Seq::<char>::empty());
        assert(s.drop_first() =~= Seq::<char>::empty());
        assert(json_escaped(s.drop_last()) =~= Seq::<char>::empty());
        assert(s.last() == s[0]);
        assert(json_escaped(s) =~= escape_char(s[0]));
        assert(escape_char(s[0]) + json_escaped(s.drop_first()) =~= escape_char(s[0]));
    } else {
        let d = s.drop_last();
        lemma_json_escaped_front(d);
        assert(d.drop_first() =~= s.drop_first().drop_last());
        assert(s.drop_first().last() == s.last());
        assert(d[0] == s[0]);
        assert(json_escaped(s) =~= escape_char(s[0]) + json_escaped(s.drop_first()));
    }
}

/// A two-character escape decodes to the character it was written for.
proof fn lemma_json_unescape_short(c: char, rest: Seq<char>)
    requires
        c == '"' || c == '\\' || c == '\n' || c == '\r' || c == '\t',
    ensures
        json_unescape(escape_char(c) + rest) == prepend_decoded(c, json_unescape(rest)),
{
    let t = escape_char(c) + rest;
    assert(t.subrange(2, t.len() as int) =~= rest);
    assert(t[0] == '\\');
}

/// A `\u00XX` escape decodes to the control character it was written for.
proof fn lemma_json_unescape_control(c: char, rest: Seq<char>)
    requires
        (c as u32) < 0x20,
        c != '\n' && c != '\r' && c != '\t',
    ensures
        json_unescape(escape_char(c) + rest) == prepend_decoded(c, json_unescape(rest)),
{
    let t = escape_char(c) + rest;
    let v = c as u32;
    assert(t.subrange(6, t.len() as int) =~= rest);
    assert(t[0] == '\\' && t[1] == 'u' && t[2] == '0' && t[3] == '0');
    assert(t[4] == HEX_LOWER@[(v / 16) as int]);
    assert(t[5] == HEX_LOWER@[(v % 16) as int]);
    assert(hex_value(t[4]) == Some((v / 16) as int));
    assert(hex_value(t[5]) == Some((v % 16) as int));
    assert(((0 * 16 + 0) * 16 + (v / 16) as int) * 16 + (v % 16) as int == v as int) by (nonlinear_arith);
    assert(hex4(t, 2) == Some(v as int));
    assert((v as int) as char == c);
}

/// A character written as it is decodes to itself.
proof fn lemma_json_unescape_plain_char(c: char, rest: Seq<char>)
    requires
        c != '"' && c != '\\' && (c as u32) >= 0x20,
    ensures
        json_unescape(escape_char(c) + rest) == prepend_decoded(c, json_unescape(rest)),
{
    let t = escape_char(c) + rest;
    assert(escape_char(c) == seq![c]);
    assert(t.drop_first() =~= rest);
}

/// Decoding the escaped characters gives them back.
proof fn lemma_json_unescape_escaped(s: Seq<char>)
    ensures
        json_unescape(json_escaped(s)) == Some(s),
    decreases s.len(),
{
    if s.len() == 0 {
        assert(json_escaped(s) =~= Seq::<char>::empty());
    } else {
        let c = s[0];
        let rest = json_escaped(s.drop_first());
        lemma_json_escaped_front(s);
        lemma_json_unescape_escaped(s.drop_first());
        assert(seq![c] + s.drop_first() =~= s);
        if c == '"' || c == '\\' || c == '\n' || c == '\r' || c == '\t' {
            lemma_json_unescape_short(c, rest);
        } else if (c as u32) < 0x20 {
            lemma_json_unescape_control(c, rest);
        } else {
            lemma_json_unescape_plain_char(c, rest);
        }
    }
}

/// Characters that need no escaping are written as they are.
proof fn lemma_json_escaped_plain(s: Seq<char>)
    requires
        json_plain(s),
    ensures
        json_escaped(s) == s,
    decreases s.len(),
{
    if s.len() > 0 {
        assert(json_plain(s.drop_last()));
        lemma_json_escaped_plain(s.drop_last());
        assert(s.drop_last().push(s.last()) =~= s);
        assert(s[s.len() - 1] == s.last());
    }
}

/// No escaped character is a control character.
proof fn lemma_json_escaped_no_control(s: Seq<char>)
    ensures
        forall|i: int| 0 <= i < json_escaped(s).len() ==> (#[trigger] json_escaped(s)[i] as u32) >= 0x20,
    decreases s.len(),
{
    if s.len() > 0 {
        lemma_json_escaped_no_control(s.drop_last());
        let a = json_escaped(s.drop_last());
        let e = escape_char(s.last());
        let c = s.last();
        if (c as u32) < 0x20 && c != '\n' && c != '\r' && c != '\t' {
            let v = c as u32;
            assert(HEX_LOWER@[(v / 16) as int] as u32 >= 0x30);
            assert(HEX_LOWER@[(v % 16) as int] as u32 >= 0x30);
        }
        assert forall|i: int| 0 <= i < e.len() implies (#[trigger] e[i] as u32) >= 0x20 by {}
        assert forall|i: int| 0 <= i < (a + e).len() implies (#[trigger] (a + e)[i] as u32) >= 0x20 by {
            if i < a.len() {
                assert((a + e)[i] == a[i]);
            } else {
                assert((a + e)[i] == e[i - a.len()]);
            }
        }
    }
}

/// A JSON string literal written by `json_str` decodes back to the text it
/// was written from; it begins and ends with a quote, holds no control
/// character, and is the text in quotes when the text needs no escaping.
pub proof fn law_json_str_round_trip(s: Seq<char>)
    ensures
        json_decode_string(json_quoted(s)) == Some(s),
        json_quoted(s)[0] == '"',
        json_quoted(s).last() == '"',
        forall|i: int| 0 <= i < json_quoted(s).len() ==> (#[trigger] json_quoted(s)[i] as u32) >= 0x20,
        json_plain(s) ==> json_quoted(s) == seq!['"'] + s + seq!['"'],
{
    let q = json_quoted(s);
    let body = json_escaped(s);
    assert(q.subrange(1, q.len() - 1) =~= body);
    lemma_json_unescape_escaped(s);
    lemma_json_escaped_no_control(s);
    assert forall|i: int| 0 <= i < q.len() implies (#[trigger] q[i] as u32) >= 0x20 by {
        if 0 < i < q.len() - 1 {
            assert(q[i] == body[i - 1]);
        }
    }
    if json_plain(s) {
        lemma_json_escaped_plain(s);
    }
}

/// The decimal digits of `n`.
pub open spec fn decimal(n: nat) -> Seq<char>
    decreases n,
{
    if n < 10 {
        seq![HEX_LOWER@[n as int]]
    } else {
        decimal(n / 10).push(HEX_LOWER@[(n % 10) as int])
    }
}

/// Writes `n` in decimal.
pub fn decimal_string(n: u128) -> (r: String)
    ensures
        r@ == decimal(n as nat),
    decreases n,
{
    if n < 10 {
        let mut s = String::new();
        s.push(HEX_LOWER[n as usize]);
        assert(s@ =~= decimal(n as nat));
        s
    } else {
        let mut s = decimal_string(n / 10);
        s.push(HEX_LOWER[(n % 10) as usize]);
        s
    }
}

/// A JSON literal for an optional string: the string, or `null`.
pub open spec fn json_optional(s: Option<Seq<char>>) -> Seq<char> {
    match s {
        Some(t) => json_quoted(t),
        None => "null"@,
    }
}

/// The one-line JSON report of a run.
pub open spec fn json_report_text(
    tool: Seq<char>,
    property: Seq<char>,
    status: Seq<char>,
    inputs: u64,
    elapsed_us: u128,
    counterexample: Option<Seq<char>>,
    error: Option<Seq<char>>,
) -> Seq<char> {
    "{\"status\":"@ + json_quoted(status) + ",\"tests\":"@ + decimal(inputs as nat)
        + ",\"discards\":0,\"time\":"@ + json_quoted(decimal(elapsed_us as nat) + "us"@)
        + ",\"counterexample\":"@ + json_optional(counterexample) + ",\"error\":"@ + json_optional(
        error,
    ) + ",\"tool\":"@ + json_quoted(tool) + ",\"property\":"@ + json_quoted(property) + "}"@
}

/// The view of an optional string slice.
pub open spec fn optional_view(s: Option<&str>) -> Option<Seq<char>> {
    match s {
        Some(t) => Some(t@),
        None => None,
    }
}

fn json_optional_str(s: Option<&str>) -> (r: String)
    ensures
        r@ == json_optional(optional_view(s)),
{
    match s {
        Some(t) => json_str(t),
        None => "null".to_owned(),
    }
}

/// Builds the one-line JSON report of a run.
pub fn json_report(
    tool: &str,
    property: &str,
    status: &str,
    metrics: Metrics,
    counterexample: Option<&str>,
    error: Option<&str>,
) -> (r: String)
    ensures
        r@ == json_report_text(
            tool@,
            property@,
            status@,
            metrics.inputs,
            metrics.elapsed_us,
            optional_view(counterexample),
            optional_view(error),
        ),
{
    let mut time = decimal_string(metrics.elapsed_us);
    time.append("us");
    let mut out = "{\"status\":".to_owned();
    out.append(json_str(status).as_str());
    out.append(",\"tests\":");
    out.append(decimal_string(metrics.inputs as u128).as_str());
    out.append(",\"discards\":0,\"time\":");
    out.append(json_str(time.as_str()).as_str());
    out.append(",\"counterexample\":");
    out.append(json_optional_str(counterexample).as_str());
    out.append(",\"error\":");
    out.append(json_optional_str(error).as_str());
    out.append(",\"tool\":");
    out.append(json_str(tool).as_str());
    out.append(",\"property\":");
    out.append(json_str(property).as_str());
    out.append("}");
    out
}

// --------------------------------------------------------------------
// Hegel failures

/// How a failed hegel run is reported.
pub enum HegelFailure {
    /// The property name was unknown; the name.
    UnknownProperty(String),
    /// The property failed; the message.
    Failed(String),
}

/// `p` is a prefix of `s`.
pub open spec fn starts_with(s: Seq<char>, p: Seq<char>) -> bool {
    p.len() <= s.len() && s.subrange(0, p.len() as int) == p
}

/// `s` without its prefix `p`, if it starts with `p`.
pub fn strip_prefix(s: &str, p: &str) -> (r: Option<String>)
    ensures
        starts_with(s@, p@) ==> (r matches Some(t) && t@ == s@.skip(p@.len() as int)),
        !starts_with(s@, p@) ==> r is None,
{
    let np = crate::generate::char_count(p);
    let _nbytes: usize = s.as_bytes().len();
    proof {
        crate::etna::lemma_encode_len(s@);
    }
    let mut out = String::new();
    let mut k: usize = 0;
    for c in it: s.chars()
        invariant
            k == it.index(),
            it.seq() == s@,
            s@.len() <= usize::MAX,
            np == p@.len(),
            forall|j: int| 0 <= j < k && j < np ==> s@[j] == p@[j],
            k <= np ==> out@ == Seq::<char>::empty(),
            k > np ==> out@ == s@.subrange(np as int, k as int),
    {
        if k < np {
            if c != p.get_char(k) {
                return None;
            }
        } else {
            out.push(c);
            proof {
                assert(out@ =~= s@.subrange(np as int, k + 1));
            }
        }
        k += 1;
    }
    if k < np {
        return None;
    }
    proof {
        assert(s@.subrange(0, np as int) =~= p@);
        if k > np {
            assert(out@ =~= s@.skip(np as int));
        } else {
            assert(s@.skip(np as int) =~= Seq::<char>::empty());
        }
    }
    Some(out)
}

/// The prefix of a panic message that marks an unknown property name.
pub open spec fn unknown_marker() -> Seq<char> {
    "__unknown_property:"@
}

/// The prefix that hegel puts before a property failure.
pub open spec fn failure_marker() -> Seq<char> {
    "Property test failed: "@
}

/// Reads the message of a failed hegel run: an unknown-property marker gives
/// the name after it; otherwise the message, without hegel's failure prefix.
pub fn classify_hegel_failure(msg: &str) -> (r: HegelFailure)
    ensures
        starts_with(msg@, unknown_marker()) ==> (r matches HegelFailure::UnknownProperty(name)
            && name@ == msg@.skip(unknown_marker().len() as int)),
        !starts_with(msg@, unknown_marker()) && starts_with(msg@, failure_marker()) ==> (
        r matches HegelFailure::Failed(m) && m@ == msg@.skip(failure_marker().len() as int)),
        !starts_with(msg@, unknown_marker()) && !starts_with(msg@, failure_marker()) ==> (
        r matches HegelFailure::Failed(m) && m@ == msg@),
{
    match strip_prefix(msg, "__unknown_property:") {
        Some(rest) => HegelFailure::UnknownProperty(rest),
        None => match strip_prefix(msg, "Property test failed: ") {
            Some(rest) => HegelFailure::Failed(rest),
            None => HegelFailure::Failed(msg.to_owned()),
        },
    }
}

} // verus!
