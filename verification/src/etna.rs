//! Property functions over the searcher, each a pure function of owned
//! inputs, and the fixed inputs that replay their witnesses.

use vstd::prelude::*;
use vstd::string::StringSliceAdditionalSpecFns;
use vstd::utf8::encode_utf8;
use crate::semantics::{MatchKind, Match, find_all, all_nonempty, lemma_find_all_ordered, lemma_ordered_count};
use crate::automaton::{AhoCorasick, bytes_view};
use crate::replace::{replaced, strs_bytes, lemma_replaced_len};
use crate::runner::{decimal, decimal_string};

verus! {

/// The verdict of a property on one input.
#[derive(Debug)]
pub enum PropertyResult {
    /// The property holds.
    Pass,
    /// The property fails, with a description of the failure.
    Fail(String),
    /// The input is outside the property's domain.
    Discard,
}

/// The UTF-8 bytes of a string.
pub open spec fn string_bytes(s: String) -> Seq<u8> {
    encode_utf8(s@)
}

/// The UTF-8 bytes of each string.
pub open spec fn strings_bytes(v: Seq<String>) -> Seq<Seq<u8>> {
    v.map_values(|s: String| encode_utf8(s@))
}

/// The number of bytes in a string slice.
pub fn byte_len(s: &str) -> (n: usize)
    ensures
        n == s.spec_bytes().len(),
{
    s.as_bytes().len()
}

/// Encoding takes at least one and at most four bytes per character.
pub proof fn lemma_encode_len(s: Seq<char>)
    ensures
        s.len() <= encode_utf8(s).len() <= 4 * s.len(),
    decreases s.len(),
{
    if s.len() > 0 {
        lemma_encode_len(s.drop_first());
    }
}

// --------------------------------------------------------------------
// Property: replace_all_utf8_safe

/// The inputs that the replacement property leaves out of its domain.
pub open spec fn replace_inputs_rejected(patterns: Seq<Seq<u8>>, hay_len: int, rep_len: int) -> bool {
    ||| patterns.len() == 0
    ||| patterns.len() > 8
    ||| hay_len > 256
    ||| rep_len > 16
    ||| exists|i: int| 0 <= i < patterns.len() && (#[trigger] patterns[i].len() == 0 || patterns[i].len() > 8)
}

/// The bytes that replacing every match of `patterns` in `hay` with `rep`
/// produces, under standard match semantics.
pub open spec fn replace_output(patterns: Seq<Seq<u8>>, hay: Seq<u8>, rep: Seq<u8>) -> Seq<u8> {
    replaced(
        hay,
        find_all(patterns, MatchKind::Standard, hay, 0, false),
        Seq::new(patterns.len(), |i: int| rep),
        0,
    )
}

/// The replacement property's domain in terms of counts and lengths alone.
pub open spec fn replace_domain(patterns: Seq<Vec<u8>>, hay_len: int, rep_len: int) -> bool {
    &&& 1 <= patterns.len() <= 8
    &&& forall|i: int| 0 <= i < patterns.len() ==> 1 <= #[trigger] patterns[i]@.len() <= 8
    &&& hay_len <= 256
    &&& rep_len <= 16
}

proof fn lemma_replace_domain(patterns: Seq<Vec<u8>>, hay_len: int, rep_len: int)
    ensures
        replace_domain(patterns, hay_len, rep_len) == !replace_inputs_rejected(
            bytes_view(patterns),
            hay_len,
            rep_len,
        ),
{
    let pats = bytes_view(patterns);
    if replace_domain(patterns, hay_len, rep_len) {
        assert forall|i: int| 0 <= i < pats.len() implies !(#[trigger] pats[i].len() == 0 || pats[i].len() > 8) by {
            assert(pats[i] == patterns[i]@);
            assert(1 <= patterns[i]@.len() <= 8);
        }
    }
    if !replace_inputs_rejected(pats, hay_len, rep_len) {
        assert forall|i: int| 0 <= i < patterns.len() implies 1 <= #[trigger] patterns[i]@.len() <= 8 by {
            assert(pats[i] == patterns[i]@);
            assert(!(pats[i].len() == 0 || pats[i].len() > 8));
        }
    }
}

/// Replacing all matches of byte patterns in a UTF-8 haystack never panics
/// and yields a `String`. The output is no longer than the haystack plus the
/// replacement's length for each match (`law_replace_output_within_growth`),
/// so every input in the property's domain passes.
pub fn property_replace_all_utf8_safe(
    patterns: Vec<Vec<u8>>,
    haystack: String,
    replacement: String,
) -> (r: PropertyResult)
    ensures
        replace_inputs_rejected(
            bytes_view(patterns@),
            string_bytes(haystack).len() as int,
            string_bytes(replacement).len() as int,
        ) ==> r is Discard,
        !replace_inputs_rejected(
            bytes_view(patterns@),
            string_bytes(haystack).len() as int,
            string_bytes(replacement).len() as int,
        ) ==> r is Pass,
        replace_domain(
            patterns@,
            string_bytes(haystack).len() as int,
            string_bytes(replacement).len() as int,
        ) ==> r is Pass,
        !replace_domain(
            patterns@,
            string_bytes(haystack).len() as int,
            string_bytes(replacement).len() as int,
        ) ==> r is Discard,
{
    proof {
        lemma_replace_domain(
            patterns@,
            string_bytes(haystack).len() as int,
            string_bytes(replacement).len() as int,
        );
    }
    let ghost pats = bytes_view(patterns@);
    if patterns.len() == 0 || patterns.len() > 8 {
        return PropertyResult::Discard;
    }
    let hay_len = byte_len(haystack.as_str());
    let rep_len = byte_len(replacement.as_str());
    if hay_len > 256 || rep_len > 16 {
        return PropertyResult::Discard;
    }
    let mut i: usize = 0;
    while i < patterns.len()
        invariant
            pats == bytes_view(patterns@),
            i <= patterns@.len(),
            forall|j: int| 0 <= j < i ==> 0 < #[trigger] pats[j].len() <= 8,
        decreases patterns@.len() - i,
    {
        if patterns[i].len() == 0 || patterns[i].len() > 8 {
            assert(pats[i as int].len() == 0 || pats[i as int].len() > 8);
            return PropertyResult::Discard;
        }
        i += 1;
    }
    let ac = AhoCorasick::new(&patterns);
    let mut reps: Vec<&str> = Vec::new();
    let mut k: usize = 0;
    while k < patterns.len()
        invariant
            k <= patterns@.len(),
            reps@.len() == k,
            forall|j: int| 0 <= j < k ==> #[trigger] reps@[j]@ == replacement@,
        decreases patterns@.len() - k,
    {
        reps.push(replacement.as_str());
        k += 1;
    }
    proof {
        assert(strs_bytes(reps@) =~= Seq::new(pats.len(), |x: int| string_bytes(replacement)));
    }
    let out = ac.replace_all(haystack.as_str(), reps.as_slice());
    proof {
        assert(all_nonempty(pats));
        lemma_replace_output_len(pats, string_bytes(haystack), string_bytes(replacement));
        assert(encode_utf8(out@).len() <= hay_len + hay_len * rep_len);
    }
    PropertyResult::Pass
}

/// Replacing every match grows the text by at most the replacement's length
/// per match: the output is no longer than the haystack plus the
/// replacement's length times the number of matches.
pub proof fn law_replace_output_within_growth(patterns: Seq<Seq<u8>>, hay: Seq<u8>, rep: Seq<u8>)
    ensures
        replace_output(patterns, hay, rep).len() <= hay.len() + find_all(
            patterns,
            MatchKind::Standard,
            hay,
            0,
            false,
        ).len() * rep.len(),
{
    let ms = find_all(patterns, MatchKind::Standard, hay, 0, false);
    let reps = Seq::new(patterns.len(), |i: int| rep);
    lemma_find_all_ordered(patterns, MatchKind::Standard, hay, 0, false);
    lemma_replaced_len(patterns, hay, ms, reps, 0, rep.len() as int);
}

/// With non-empty patterns there are at most as many matches as haystack
/// bytes, so the output exceeds the haystack by at most one replacement per
/// haystack byte.
pub proof fn lemma_replace_output_len(patterns: Seq<Seq<u8>>, hay: Seq<u8>, rep: Seq<u8>)
    requires
        all_nonempty(patterns),
    ensures
        replace_output(patterns, hay, rep).len() <= hay.len() + hay.len() * rep.len(),
{
    let ms = find_all(patterns, MatchKind::Standard, hay, 0, false);
    lemma_find_all_ordered(patterns, MatchKind::Standard, hay, 0, false);
    lemma_ordered_count(patterns, hay, 0, ms);
    law_replace_output_within_growth(patterns, hay, rep);
    assert(ms.len() * rep.len() <= hay.len() * rep.len()) by (nonlinear_arith)
        requires ms.len() <= hay.len();
}

// --------------------------------------------------------------------
// Property: find_iter_prefilter_parity

/// The inputs that the parity property leaves out of its domain.
pub open spec fn parity_inputs_rejected(patterns: Seq<Seq<u8>>, hay_len: int) -> bool {
    ||| patterns.len() == 0
    ||| patterns.len() > 6
    ||| hay_len > 256
    ||| exists|i: int| 0 <= i < patterns.len() && (#[trigger] patterns[i].len() == 0 || patterns[i].len() > 16)
}

/// A triple in its `Debug` form: `(a, b, c)`, each number in decimal.
pub open spec fn debug_triple(t: (usize, usize, usize)) -> Seq<char> {
    seq!['('] + decimal(t.0 as nat) + seq![',', ' '] + decimal(t.1 as nat) + seq![',', ' ']
        + decimal(t.2 as nat) + seq![')']
}

/// The triples in their `Debug` form, separated by `", "`.
pub open spec fn debug_triple_items(s: Seq<(usize, usize, usize)>) -> Seq<char>
    decreases s.len(),
{
    if s.len() == 0 {
        seq![]
    } else if s.len() == 1 {
        debug_triple(s[0])
    } else {
        debug_triple_items(s.drop_last()) + seq![',', ' '] + debug_triple(s.last())
    }
}

/// A list of triples in its `Debug` form: the items inside square brackets.
pub open spec fn debug_triples(s: Seq<(usize, usize, usize)>) -> Seq<char> {
    seq!['['] + debug_triple_items(s) + seq![']']
}

/// The text that reports diverging match lists.
pub open spec fn divergence_message(
    with_pre: Seq<(usize, usize, usize)>,
    without_pre: Seq<(usize, usize, usize)>,
) -> Seq<char> {
    "prefilter divergence: with_pre="@ + debug_triples(with_pre) + ", without_pre="@
        + debug_triples(without_pre)
}

/// Writes a triple in its `Debug` form.
fn debug_triple_string(t: (usize, usize, usize)) -> (r: String)
    ensures
        r@ == debug_triple(t),
{
    let mut out = String::new();
    out.push('(');
    out.append(decimal_string(t.0 as u128).as_str());
    out.push(',');
    out.push(' ');
    out.append(decimal_string(t.1 as u128).as_str());
    out.push(',');
    out.push(' ');
    out.append(decimal_string(t.2 as u128).as_str());
    out.push(')');
    assert(out@ =~= debug_triple(t));
    out
}

/// Writes a list of triples in its `Debug` form, as `{:?}` does:
/// `[(0, 0, 4), (2, 7, 11)]`.
pub fn debug_triples_string(v: &Vec<(usize, usize, usize)>) -> (r: String)
    ensures
        r@ == debug_triples(v@),
{
    let mut out = String::new();
    out.push('[');
    let mut i: usize = 0;
    assert(v@.subrange(0, 0) =~= Seq::<(usize, usize, usize)>::empty());
    while i < v.len()
        invariant
            i <= v@.len(),
            out@ == seq!['['] + debug_triple_items(v@.subrange(0, i as int)),
        decreases v@.len() - i,
    {
        let ghost sub = v@.subrange(0, i + 1);
        assert(sub.drop_last() =~= v@.subrange(0, i as int));
        assert(sub.last() == v@[i as int]);
        if i > 0 {
            out.push(',');
            out.push(' ');
        }
        out.append(debug_triple_string(v[i]).as_str());
        proof {
            if i == 0 {
                assert(sub.len() == 1);
                assert(sub[0] == v@[0]);
                assert(out@ =~= seq!['['] + debug_triple_items(sub));
            } else {
                assert(out@ =~= seq!['['] + debug_triple_items(sub));
            }
        }
        i += 1;
    }
    assert(v@.subrange(0, i as int) =~= v@);
    out.push(']');
    assert(out@ =~= debug_triples(v@));
    out
}

/// Writes the divergence report: "prefilter divergence: with_pre=A,
/// without_pre=B", each list in its `Debug` form.
fn divergence_report(
    with_pre: &Vec<(usize, usize, usize)>,
    without_pre: &Vec<(usize, usize, usize)>,
) -> (r: String)
    ensures
        r@ == divergence_message(with_pre@, without_pre@),
{
    let mut out = String::new();
    out.append("prefilter divergence: with_pre=");
    out.append(debug_triples_string(with_pre).as_str());
    out.append(", without_pre=");
    out.append(debug_triples_string(without_pre).as_str());
    assert(out@ =~= divergence_message(with_pre@, without_pre@));
    out
}

/// Each match as a triple of pattern, start and end.
pub open spec fn triples(ms: Seq<Match>) -> Seq<(usize, usize, usize)> {
    ms.map_values(|m: Match| (m.pattern, m.start, m.end))
}

/// The triples of a list of matches.
pub fn match_triples(ms: &Vec<Match>) -> (r: Vec<(usize, usize, usize)>)
    ensures
        r@ == triples(ms@),
{
    let mut out: Vec<(usize, usize, usize)> = Vec::new();
    let mut i: usize = 0;
    while i < ms.len()
        invariant
            i <= ms@.len(),
            out@ =~= triples(ms@.subrange(0, i as int)),
        decreases ms@.len() - i,
    {
        let m = ms[i];
        out.push((m.pattern, m.start, m.end));
        assert(ms@.subrange(0, i + 1) =~= ms@.subrange(0, i as int).push(m));
        i += 1;
    }
    assert(ms@.subrange(0, i as int) =~= ms@);
    out
}

/// Whether two lists of triples are equal.
pub fn same_triples(a: &Vec<(usize, usize, usize)>, b: &Vec<(usize, usize, usize)>) -> (r: bool)
    ensures
        r == (a@ == b@),
{
    if a.len() != b.len() {
        return false;
    }
    let mut i: usize = 0;
    while i < a.len()
        invariant
            a@.len() == b@.len(),
            i <= a@.len(),
            forall|j: int| 0 <= j < i ==> a@[j] == b@[j],
        decreases a@.len() - i,
    {
        let x = a[i];
        let y = b[i];
        if x.0 != y.0 || x.1 != y.1 || x.2 != y.2 {
            return false;
        }
        i += 1;
    }
    assert(a@ =~= b@);
    true
}

/// The UTF-8 bytes of each string, as vectors.
pub fn strings_to_bytes(v: &Vec<String>) -> (r: Vec<Vec<u8>>)
    ensures
        bytes_view(r@) == strings_bytes(v@),
{
    let mut out: Vec<Vec<u8>> = Vec::new();
    let mut i: usize = 0;
    while i < v.len()
        invariant
            i <= v@.len(),
            out@.len() == i,
            forall|j: int| 0 <= j < i ==> #[trigger] out@[j]@ == encode_utf8(v@[j]@),
        decreases v@.len() - i,
    {
        out.push(v[i].as_str().as_bytes_vec());
        i += 1;
    }
    assert(bytes_view(out@) =~= strings_bytes(v@));
    out
}

/// The parity property's domain in terms of counts and lengths alone.
pub open spec fn parity_domain(patterns: Seq<String>, hay_len: int) -> bool {
    &&& 1 <= patterns.len() <= 6
    &&& forall|i: int| 0 <= i < patterns.len() ==> 1 <= #[trigger] string_bytes(patterns[i]).len() <= 16
    &&& hay_len <= 256
}

proof fn lemma_parity_domain(patterns: Seq<String>, hay_len: int)
    ensures
        parity_domain(patterns, hay_len) == !parity_inputs_rejected(strings_bytes(patterns), hay_len),
{
    let pats = strings_bytes(patterns);
    if parity_domain(patterns, hay_len) {
        assert forall|i: int| 0 <= i < pats.len() implies !(#[trigger] pats[i].len() == 0 || pats[i].len() > 16) by {
            assert(pats[i] == string_bytes(patterns[i]));
        }
    }
    if !parity_inputs_rejected(pats, hay_len) {
        assert forall|i: int| 0 <= i < patterns.len() implies 1 <= #[trigger] string_bytes(patterns[i]).len() <= 16 by {
            assert(pats[i] == string_bytes(patterns[i]));
            assert(!(pats[i].len() == 0 || pats[i].len() > 16));
        }
    }
}

/// Enabling or disabling the prefilter never changes the matches that a
/// leftmost-first search reports; the property compares both builds on one
/// haystack and fails on any difference.
pub fn property_find_iter_prefilter_parity(patterns: Vec<String>, haystack: String) -> (r:
    PropertyResult)
    ensures
        parity_inputs_rejected(strings_bytes(patterns@), string_bytes(haystack).len() as int)
            ==> r is Discard,
        !parity_inputs_rejected(strings_bytes(patterns@), string_bytes(haystack).len() as int)
            ==> r is Pass,
        parity_domain(patterns@, string_bytes(haystack).len() as int) ==> r is Pass,
        !parity_domain(patterns@, string_bytes(haystack).len() as int) ==> r is Discard,
{
    proof {
        lemma_parity_domain(patterns@, string_bytes(haystack).len() as int);
    }
    let ghost pats = strings_bytes(patterns@);
    if patterns.len() == 0 || patterns.len() > 6 {
        return PropertyResult::Discard;
    }
    let hay = haystack.as_str().as_bytes();
    if hay.len() > 256 {
        return PropertyResult::Discard;
    }
    let mut i: usize = 0;
    while i < patterns.len()
        invariant
            pats == strings_bytes(patterns@),
            i <= patterns@.len(),
            forall|j: int| 0 <= j < i ==> 0 < #[trigger] pats[j].len() <= 16,
        decreases patterns@.len() - i,
    {
        let n = byte_len(patterns[i].as_str());
        if n == 0 || n > 16 {
            assert(pats[i as int].len() == 0 || pats[i as int].len() > 16);
            assert(string_bytes(patterns@[i as int]) == pats[i as int]);
            return PropertyResult::Discard;
        }
        i += 1;
    }
    let pattern_bytes = strings_to_bytes(&patterns);
    let with_pre = AhoCorasick::builder().match_kind(MatchKind::LeftmostFirst).prefilter(
        true,
    ).build(&pattern_bytes);
    let without_pre = AhoCorasick::builder().match_kind(MatchKind::LeftmostFirst).prefilter(
        false,
    ).build(&pattern_bytes);
    let a = match_triples(&with_pre.find_iter(hay));
    let b = match_triples(&without_pre.find_iter(hay));
    if !same_triples(&a, &b) {
        return PropertyResult::Fail(divergence_report(&a, &b));
    }
    PropertyResult::Pass
}


// --------------------------------------------------------------------
// Verdicts as the test frameworks read them

/// A verdict as an optional boolean: no verdict for a discarded input.
pub open spec fn spec_to_opt(r: PropertyResult) -> Option<bool> {
    match r {
        PropertyResult::Pass => Some(true),
        PropertyResult::Fail(_) => Some(false),
        PropertyResult::Discard => None,
    }
}

/// A verdict as a result: only a failure is an error, carrying its message.
pub open spec fn spec_to_err(r: PropertyResult) -> Result<(), String> {
    match r {
        PropertyResult::Pass => Ok(()),
        PropertyResult::Fail(m) => Err(m),
        PropertyResult::Discard => Ok(()),
    }
}

/// Converts a verdict to an optional boolean.
pub fn to_opt(r: PropertyResult) -> (o: Option<bool>)
    ensures
        o == spec_to_opt(r),
{
    match r {
        PropertyResult::Pass => Some(true),
        PropertyResult::Fail(_) => Some(false),
        PropertyResult::Discard => None,
    }
}

/// Converts a verdict to a result.
pub fn to_err(r: PropertyResult) -> (e: Result<(), String>)
    ensures
        e == spec_to_err(r),
{
    match r {
        PropertyResult::Pass | PropertyResult::Discard => Ok(()),
        PropertyResult::Fail(m) => Err(m),
    }
}

// --------------------------------------------------------------------
// Witnesses

/// The inputs that replay the split-codepoint witness: the lead byte of
/// "é" as the only pattern, against the haystack "éx".
pub fn canonical_replace_all_utf8_safe() -> (r: (Vec<Vec<u8>>, String, String))
    ensures
        r.0@.len() == 1,
        r.0@[0]@ == seq![0xC3u8],
        r.1@ == seq!['\u{e9}', 'x'],
        r.2@ == seq!['Z'],
{
    let hay = "\u{e9}x";
    let rep = "Z";
    proof {
        reveal_strlit("\u{e9}x");
        reveal_strlit("Z");
    }
    let pattern: Vec<u8> = vec![0xC3u8];
    let mut patterns: Vec<Vec<u8>> = Vec::new();
    patterns.push(pattern);
    (patterns, hay.to_owned(), rep.to_owned())
}

/// The inputs that replay the prefix-collision witness: "abcd" listed
/// before its extension "abcdxy", then "mnop" and "wxyz".
pub fn canonical_find_iter_prefilter_parity() -> (r: (Vec<String>, String))
    ensures
        r.0@.len() == 4,
        r.0@[0]@ == seq!['a', 'b', 'c', 'd'],
        r.0@[1]@ == seq!['a', 'b', 'c', 'd', 'x', 'y'],
        r.0@[2]@ == seq!['m', 'n', 'o', 'p'],
        r.0@[3]@ == seq!['w', 'x', 'y', 'z'],
        r.1@ == "abcdxy abcd mnop wxyz"@,
{
    proof {
        reveal_strlit("abcd");
        reveal_strlit("abcdxy");
        reveal_strlit("mnop");
        reveal_strlit("wxyz");
    }
    let mut patterns: Vec<String> = Vec::new();
    patterns.push("abcd".to_owned());
    patterns.push("abcdxy".to_owned());
    patterns.push("mnop".to_owned());
    patterns.push("wxyz".to_owned());
    (patterns, "abcdxy abcd mnop wxyz".to_owned())
}

/// Replays the split-codepoint witness; it passes.
pub fn check_replace_all_utf8_safe() -> (r: Result<(), String>)
    ensures
        r is Ok,
{
    let (p, h, rp) = canonical_replace_all_utf8_safe();
    to_err(property_replace_all_utf8_safe(p, h, rp))
}

/// Replays the prefix-collision witness; it passes.
pub fn check_find_iter_prefilter_parity() -> (r: Result<(), String>)
    ensures
        r is Ok,
{
    let (p, h) = canonical_find_iter_prefilter_parity();
    to_err(property_find_iter_prefilter_parity(p, h))
}

} // verus!
