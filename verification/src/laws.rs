//! Properties that hold across searches and across the functions of the
//! library.

use vstd::prelude::*;
use vstd::utf8::is_char_boundary;
use crate::semantics::{MatchKind, Match, is_leader, leader, find_all, is_candidate, occurs_at, lemma_leader_is_leader};
use crate::automaton::AhoCorasick;
use crate::replace::replaced;
use crate::etna::{PropertyResult, spec_to_opt, spec_to_err};
use crate::generate::{shrink_candidates, pattern_removals, char_removals, truncations};
use crate::runner::{Metrics, spec_combine};

verus! {

/// Enabling or disabling the prefilter never changes what a search reports:
/// two searchers built from the same patterns with the same match kind
/// report the same matches on every haystack, whatever their prefilter
/// settings.
pub proof fn law_prefilter_parity(a: AhoCorasick, b: AhoCorasick, hay: Seq<u8>)
    requires
        a.spec_patterns() == b.spec_patterns(),
        a.spec_kind() == b.spec_kind(),
    ensures
        find_all(a.spec_patterns(), a.spec_kind(), hay, 0, false) == find_all(
            b.spec_patterns(),
            b.spec_kind(),
            hay,
            0,
            false,
        ),
{
}

/// `m` is what a search reports when started at some offset.
pub open spec fn reported_somewhere(
    pats: Seq<Seq<u8>>,
    kind: MatchKind,
    hay: Seq<u8>,
    m: Match,
) -> bool {
    exists|f: int| is_leader(pats, kind, hay, f, m)
}

/// Every match that an iteration yields is the match that a search from
/// some offset reports.
pub proof fn lemma_find_all_reported(
    pats: Seq<Seq<u8>>,
    kind: MatchKind,
    hay: Seq<u8>,
    from: int,
    after_match: bool,
)
    requires
        0 <= from,
    ensures
        forall|k: int|
            0 <= k < find_all(pats, kind, hay, from, after_match).len() ==> #[trigger] reported_somewhere(
                pats,
                kind,
                hay,
                find_all(pats, kind, hay, from, after_match)[k],
            ),
    decreases hay.len() + 1 - from, (if after_match { 0int } else { 1int }),
{
    if from <= hay.len() {
        lemma_leader_is_leader(pats, kind, hay, from);
        match leader(pats, kind, hay, from) {
            None => {},
            Some(m) => {
                if after_match && m.end == from {
                    lemma_find_all_reported(pats, kind, hay, from + 1, false);
                    assert(find_all(pats, kind, hay, from, after_match) == find_all(
                        pats,
                        kind,
                        hay,
                        from + 1,
                        false,
                    ));
                } else {
                    lemma_find_all_reported(pats, kind, hay, m.end as int, true);
                    let rest = find_all(pats, kind, hay, m.end as int, true);
                    let all = seq![m] + rest;
                    assert(find_all(pats, kind, hay, from, after_match) == all);
                    assert forall|k: int| 0 <= k < all.len() implies #[trigger] reported_somewhere(
                        pats,
                        kind,
                        hay,
                        all[k],
                    ) by {
                        if k == 0 {
                            assert(is_leader(pats, kind, hay, from, m));
                        } else {
                            assert(all[k] == rest[k - 1]);
                        }
                    }
                }
            },
        }
    }
}

/// `p` begins with `q`.
pub open spec fn has_prefix(p: Seq<u8>, q: Seq<u8>) -> bool {
    q.len() <= p.len() && p.subrange(0, q.len() as int) == q
}

/// Under leftmost-first semantics, a pattern that begins with a pattern
/// listed before it is never reported.
pub proof fn law_leftmost_first_shadowing(
    pats: Seq<Seq<u8>>,
    hay: Seq<u8>,
    i: int,
    j: int,
)
    requires
        0 <= i < j < pats.len(),
        has_prefix(pats[j], pats[i]),
    ensures
        forall|k: int|
            0 <= k < find_all(pats, MatchKind::LeftmostFirst, hay, 0, false).len() ==> (
            #[trigger] find_all(pats, MatchKind::LeftmostFirst, hay, 0, false)[k]).pattern != j,
{
    let kind = MatchKind::LeftmostFirst;
    let ms = find_all(pats, kind, hay, 0, false);
    lemma_find_all_reported(pats, kind, hay, 0, false);
    assert forall|k: int| 0 <= k < ms.len() implies (#[trigger] ms[k]).pattern != j by {
        let m = ms[k];
        assert(reported_somewhere(pats, kind, hay, m));
        if m.pattern == j {
            let f = choose|f: int| is_leader(pats, kind, hay, f, m);
            let li = pats[i].len();
            let c = Match { pattern: i as usize, start: m.start, end: (m.start + li) as usize };
            let s = m.start as int;
            assert(hay.subrange(s, s + li) =~= pats[j].subrange(0, li as int));
            assert(occurs_at(pats[i], hay, s));
            assert(is_candidate(pats, hay, f, c));
            assert(c != m);
            assert(!crate::semantics::precedes(kind, m, c));
        }
    }
}

/// A replacement pass in which no match has both ends on character
/// boundaries returns the text unchanged from `last` on.
pub proof fn law_split_matches_skipped(
    hay: Seq<u8>,
    ms: Seq<Match>,
    reps: Seq<Seq<u8>>,
    last: int,
)
    requires
        forall|k: int|
            0 <= k < ms.len() ==> !(is_char_boundary(hay, (#[trigger] ms[k]).start as int)
                && is_char_boundary(hay, ms[k].end as int)),
    ensures
        replaced(hay, ms, reps, last) == hay.subrange(last, hay.len() as int),
    decreases ms.len(),
{
    if ms.len() > 0 {
        assert forall|k: int| 0 <= k < ms.drop_first().len() implies !(is_char_boundary(
            hay,
            (#[trigger] ms.drop_first()[k]).start as int,
        ) && is_char_boundary(hay, ms.drop_first()[k].end as int)) by {
            assert(ms.drop_first()[k] == ms[k + 1]);
        }
        assert(!(is_char_boundary(hay, ms[0].start as int) && is_char_boundary(hay, ms[0].end as int)));
        law_split_matches_skipped(hay, ms.drop_first(), reps, last);
    }
}

/// A verdict is an error exactly when it is a failed boolean verdict.
pub proof fn law_verdict_conversions_agree(r: PropertyResult)
    ensures
        spec_to_err(r) is Err <==> spec_to_opt(r) == Some(false),
        spec_to_err(r) is Ok <==> (spec_to_opt(r) == Some(true) || spec_to_opt(r) is None),
{
}


/// The number of characters over all patterns.
pub open spec fn total_chars(ps: Seq<Seq<char>>) -> int
    decreases ps.len(),
{
    if ps.len() == 0 {
        0
    } else {
        total_chars(ps.drop_last()) + ps.last().len()
    }
}

/// The size of a parity-property input: patterns, their characters, and the
/// haystack's characters.
pub open spec fn input_size(ps: Seq<Seq<char>>, h: Seq<char>) -> int {
    ps.len() + total_chars(ps) + h.len()
}

proof fn lemma_total_chars_update(ps: Seq<Seq<char>>, i: int, x: Seq<char>)
    requires
        0 <= i < ps.len(),
    ensures
        total_chars(ps.update(i, x)) == total_chars(ps) - ps[i].len() + x.len(),
    decreases ps.len(),
{
    let q = ps.update(i, x);
    if i == ps.len() - 1 {
        assert(q.drop_last() =~= ps.drop_last());
    } else {
        assert(q.drop_last() =~= ps.drop_last().update(i, x));
        lemma_total_chars_update(ps.drop_last(), i, x);
    }
}

proof fn lemma_total_chars_remove(ps: Seq<Seq<char>>, i: int)
    requires
        0 <= i < ps.len(),
    ensures
        total_chars(ps.remove(i)) == total_chars(ps) - ps[i].len(),
    decreases ps.len(),
{
    let q = ps.remove(i);
    if i == ps.len() - 1 {
        assert(q =~= ps.drop_last());
    } else {
        assert(q.drop_last() =~= ps.drop_last().remove(i));
        assert(q.last() == ps.last());
        lemma_total_chars_remove(ps.drop_last(), i);
    }
}

proof fn lemma_truncations_smaller(ps: Seq<Seq<char>>, h: Seq<char>, k: int)
    requires
        0 <= k <= ps.len(),
    ensures
        forall|j: int|
            0 <= j < truncations(ps, h, k).len() ==> {
                let c = #[trigger] truncations(ps, h, k)[j];
                &&& input_size(c.0, c.1) < input_size(ps, h)
                &&& c.0.len() == ps.len()
                &&& forall|q: int| 0 <= q < c.0.len() ==> #[trigger] c.0[q].len() >= 1 || ps[q].len()
                    == 0
            },
    decreases k,
{
    if k > 0 {
        lemma_truncations_smaller(ps, h, k - 1);
        let prev = truncations(ps, h, k - 1);
        if ps[k - 1].len() > 1 {
            let x = ps[k - 1].drop_last();
            let c = (ps.update(k - 1, x), h);
            lemma_total_chars_update(ps, k - 1, x);
            assert(truncations(ps, h, k) == prev + seq![c]);
            assert forall|j: int| 0 <= j < truncations(ps, h, k).len() implies {
                let d = #[trigger] truncations(ps, h, k)[j];
                &&& input_size(d.0, d.1) < input_size(ps, h)
                &&& d.0.len() == ps.len()
                &&& forall|q: int| 0 <= q < d.0.len() ==> #[trigger] d.0[q].len() >= 1 || ps[q].len()
                    == 0
            } by {
                if j < prev.len() {
                    assert(truncations(ps, h, k)[j] == prev[j]);
                } else {
                    assert(truncations(ps, h, k)[j] == c);
                }
            }
        } else {
            assert(truncations(ps, h, k) =~= prev);
        }
    }
}

/// Every shrink candidate is strictly smaller than the failing input; a
/// candidate that drops a pattern keeps at least two, and shortening a
/// pattern never leaves it empty.
pub proof fn law_shrink_candidates_smaller(ps: Seq<Seq<char>>, h: Seq<char>)
    ensures
        forall|j: int|
            0 <= j < shrink_candidates(ps, h).len() ==> {
                let c = #[trigger] shrink_candidates(ps, h)[j];
                &&& input_size(c.0, c.1) < input_size(ps, h)
                &&& c.0.len() >= 2 || c.0.len() == ps.len()
                &&& forall|q: int| 0 <= q < c.0.len() && #[trigger] c.0[q].len() == 0 ==> ps.contains(
                    c.0[q],
                )
            },
{
    let a = pattern_removals(ps, h);
    let b = char_removals(ps, h);
    let t = truncations(ps, h, ps.len() as int);
    lemma_truncations_smaller(ps, h, ps.len() as int);
    let all = shrink_candidates(ps, h);
    assert(all == a + b + t);
    assert forall|j: int| 0 <= j < all.len() implies {
        let c = #[trigger] all[j];
        &&& input_size(c.0, c.1) < input_size(ps, h)
        &&& c.0.len() >= 2 || c.0.len() == ps.len()
        &&& forall|q: int| 0 <= q < c.0.len() && #[trigger] c.0[q].len() == 0 ==> ps.contains(c.0[q])
    } by {
        if j < a.len() {
            assert(all[j] == a[j]);
            assert(ps.len() > 2);
            lemma_total_chars_remove(ps, j);
            let c = all[j];
            assert(c.0 == ps.remove(j));
            assert forall|q: int| 0 <= q < c.0.len() && #[trigger] c.0[q].len() == 0 implies ps.contains(
                c.0[q],
            ) by {
                if q < j {
                    assert(c.0[q] == ps[q]);
                } else {
                    assert(c.0[q] == ps[q + 1]);
                }
            }
        } else if j < a.len() + b.len() {
            assert(all[j] == b[j - a.len()]);
            let c = all[j];
            assert forall|q: int| 0 <= q < c.0.len() && #[trigger] c.0[q].len() == 0 implies ps.contains(
                c.0[q],
            ) by {
                assert(c.0[q] == ps[q]);
            }
        } else {
            assert(all[j] == t[j - a.len() - b.len()]);
            let c = all[j];
            assert forall|q: int| 0 <= q < c.0.len() && #[trigger] c.0[q].len() == 0 implies ps.contains(
                c.0[q],
            ) by {
                assert(c.0[q].len() >= 1 || ps[q].len() == 0);
                assert(ps[q].len() == 0);
                assert(c.0[q] =~= ps[q]);
            }
        }
    }
}


/// Combining run metrics is commutative, and runs that measured nothing
/// change nothing.
pub proof fn law_metrics_combine(a: Metrics, b: Metrics, zero: Metrics)
    requires
        zero.inputs == 0,
        zero.elapsed_us == 0,
    ensures
        spec_combine(a, b) == spec_combine(b, a),
        spec_combine(a, zero) == (a.inputs as int, a.elapsed_us as int),
{
}

/// Combining run metrics is associative.
pub proof fn law_metrics_combine_associative(a: Metrics, b: Metrics, c: Metrics, ab: Metrics, bc: Metrics)
    requires
        (ab.inputs as int, ab.elapsed_us as int) == spec_combine(a, b),
        (bc.inputs as int, bc.elapsed_us as int) == spec_combine(b, c),
    ensures
        spec_combine(ab, c) == spec_combine(a, bc),
{
}

} // verus!

verus! {

/// A match that splits a character is skipped and nothing else changes:
/// replacing along a list whose first match has an end off a character
/// boundary gives what replacing along the rest of the list gives, so every
/// later match with both ends on boundaries is still replaced.
pub proof fn law_split_match_skipped_alone(
    hay: Seq<u8>,
    ms: Seq<Match>,
    reps: Seq<Seq<u8>>,
    last: int,
)
    requires
        ms.len() > 0,
        !is_char_boundary(hay, ms[0].start as int) || !is_char_boundary(hay, ms[0].end as int),
    ensures
        replaced(hay, ms, reps, last) == replaced(hay, ms.drop_first(), reps, last),
{
}

/// Iteration resumes exactly where the reported match ended: the match that
/// a search from `from` reports comes first, and the rest is the iteration
/// from its end (after which an empty match right there is skipped).
pub proof fn law_find_all_resumes_at_match_end(
    pats: Seq<Seq<u8>>,
    kind: MatchKind,
    hay: Seq<u8>,
    from: int,
    after_match: bool,
    m: Match,
)
    requires
        0 <= from <= hay.len(),
        leader(pats, kind, hay, from) == Some(m),
        !(after_match && m.end == from),
    ensures
        find_all(pats, kind, hay, from, after_match) == seq![m] + find_all(
            pats,
            kind,
            hay,
            m.end as int,
            true,
        ),
{
}

/// No match is lost: after each match of an iteration, if a search started
/// at its end reports a non-empty match, that match comes next.
pub proof fn law_find_all_complete(
    pats: Seq<Seq<u8>>,
    kind: MatchKind,
    hay: Seq<u8>,
    from: int,
    after_match: bool,
)
    requires
        0 <= from,
    ensures
        forall|k: int|
            #![trigger find_all(pats, kind, hay, from, after_match)[k]]
            0 <= k < find_all(pats, kind, hay, from, after_match).len() ==> (leader(
                pats,
                kind,
                hay,
                find_all(pats, kind, hay, from, after_match)[k].end as int,
            ) matches Some(c) ==> (c.end > find_all(pats, kind, hay, from, after_match)[k].end
                ==> k + 1 < find_all(pats, kind, hay, from, after_match).len() && find_all(
                pats,
                kind,
                hay,
                from,
                after_match,
            )[k + 1] == c)),
    decreases hay.len() + 1 - from, (if after_match { 0int } else { 1int }),
{
    if from <= hay.len() {
        lemma_leader_is_leader(pats, kind, hay, from);
        match leader(pats, kind, hay, from) {
            None => {},
            Some(m) => {
                if after_match && m.end == from {
                    law_find_all_complete(pats, kind, hay, from + 1, false);
                } else {
                    let e = m.end as int;
                    law_find_all_complete(pats, kind, hay, e, true);
                    let rest = find_all(pats, kind, hay, e, true);
                    let all = seq![m] + rest;
                    assert(find_all(pats, kind, hay, from, after_match) == all);
                    assert(e <= hay.len());
                    lemma_leader_is_leader(pats, kind, hay, e);
                    assert forall|k: int| #![trigger all[k]] 0 <= k < all.len() implies (leader(
                        pats,
                        kind,
                        hay,
                        all[k].end as int,
                    ) matches Some(c) ==> (c.end > all[k].end ==> k + 1 < all.len() && all[k + 1]
                        == c)) by {
                        if k == 0 {
                            if let Some(c) = leader(pats, kind, hay, e) {
                                if c.end > e {
                                    assert(rest == seq![c] + find_all(pats, kind, hay, c.end as int, true));
                                    assert(all[1] == rest[0]);
                                }
                            }
                        } else {
                            assert(all[k] == rest[k - 1]);
                            if k < rest.len() {
                                assert(all[k + 1] == rest[k]);
                            }
                        }
                    }
                }
            },
        }
    }
}

} // verus!

verus! {

/// `c` is `(ps, h)` with the last character of one pattern dropped, where
/// that pattern had more than one character.
pub open spec fn is_truncation_of(
    c: (Seq<Seq<char>>, Seq<char>),
    ps: Seq<Seq<char>>,
    h: Seq<char>,
) -> bool {
    &&& c.1 == h
    &&& exists|i: int|
        0 <= i < ps.len() && ps[i].len() > 1 && c.0 == #[trigger] ps.update(i, ps[i].drop_last())
}

proof fn lemma_truncations_are_truncations(ps: Seq<Seq<char>>, h: Seq<char>, k: int)
    requires
        0 <= k <= ps.len(),
    ensures
        forall|j: int|
            0 <= j < truncations(ps, h, k).len() ==> is_truncation_of(
                #[trigger] truncations(ps, h, k)[j],
                ps,
                h,
            ),
    decreases k,
{
    if k > 0 {
        lemma_truncations_are_truncations(ps, h, k - 1);
        let prev = truncations(ps, h, k - 1);
        if ps[k - 1].len() > 1 {
            let c = (ps.update(k - 1, ps[k - 1].drop_last()), h);
            assert(truncations(ps, h, k) == prev + seq![c]);
            assert(is_truncation_of(c, ps, h));
            assert forall|j: int| 0 <= j < truncations(ps, h, k).len() implies is_truncation_of(
                #[trigger] truncations(ps, h, k)[j],
                ps,
                h,
            ) by {
                if j < prev.len() {
                    assert(truncations(ps, h, k)[j] == prev[j]);
                } else {
                    assert(truncations(ps, h, k)[j] == c);
                }
            }
        } else {
            assert(truncations(ps, h, k) =~= prev);
        }
    }
}

/// Every shrink candidate changes the failing input in exactly one way:
/// it drops one pattern (while more than two remain), drops one haystack
/// character (while more than one remains), or drops the last character of
/// one pattern longer than one character, so that the shortened pattern is
/// a prefix of the one it replaces.
pub proof fn law_shrink_candidates_single_step(ps: Seq<Seq<char>>, h: Seq<char>)
    ensures
        forall|j: int|
            0 <= j < shrink_candidates(ps, h).len() ==> {
                let c = #[trigger] shrink_candidates(ps, h)[j];
                ||| ps.len() > 2 && c.1 == h && exists|i: int| 0 <= i < ps.len() && c.0 == ps.remove(i)
                ||| h.len() > 1 && c.0 == ps && exists|i: int| 0 <= i < h.len() && c.1 == h.remove(i)
                ||| is_truncation_of(c, ps, h)
            },
{
    let a = pattern_removals(ps, h);
    let b = char_removals(ps, h);
    let t = truncations(ps, h, ps.len() as int);
    lemma_truncations_are_truncations(ps, h, ps.len() as int);
    let all = shrink_candidates(ps, h);
    assert(all == a + b + t);
    assert forall|j: int| 0 <= j < all.len() implies {
        let c = #[trigger] all[j];
        ||| ps.len() > 2 && c.1 == h && exists|i: int| 0 <= i < ps.len() && c.0 == ps.remove(i)
        ||| h.len() > 1 && c.0 == ps && exists|i: int| 0 <= i < h.len() && c.1 == h.remove(i)
        ||| is_truncation_of(c, ps, h)
    } by {
        if j < a.len() {
            assert(all[j] == a[j]);
            assert(a[j] == (ps.remove(j), h));
        } else if j < a.len() + b.len() {
            let i = j - a.len();
            assert(all[j] == b[i]);
            assert(b[i] == (ps, h.remove(i)));
        } else {
            assert(all[j] == t[j - a.len() - b.len()]);
        }
    }
}

} // verus!

verus! {

/// Replacing each match of an iteration by the text of its own pattern
/// gives the haystack back unchanged.
pub proof fn law_replace_with_own_patterns(
    pats: Seq<Seq<u8>>,
    hay: Seq<u8>,
    ms: Seq<Match>,
    last: int,
)
    requires
        0 <= last <= hay.len(),
        crate::semantics::ordered_matches(pats, hay, last, ms),
    ensures
        replaced(hay, ms, pats, last) == hay.subrange(last, hay.len() as int),
    decreases ms.len(),
{
    if ms.len() > 0 {
        let m = ms[0];
        let rest = ms.drop_first();
        assert(is_candidate(pats, hay, last, ms[0]));
        assert forall|i: int, j: int| #![trigger rest[i], rest[j]]
            0 <= i < j < rest.len() implies rest[i].end <= rest[j].start by {
            assert(rest[i] == ms[i + 1]);
            assert(rest[j] == ms[j + 1]);
        }
        if is_char_boundary(hay, m.start as int) && is_char_boundary(hay, m.end as int) {
            assert forall|i: int| 0 <= i < rest.len() implies #[trigger] is_candidate(
                pats,
                hay,
                m.end as int,
                rest[i],
            ) by {
                assert(rest[i] == ms[i + 1]);
                assert(is_candidate(pats, hay, last, ms[i + 1]));
                assert(ms[0].end <= ms[i + 1].start);
            }
            law_replace_with_own_patterns(pats, hay, rest, m.end as int);
            assert(pats[m.pattern as int] == hay.subrange(m.start as int, m.end as int));
            assert(hay.subrange(last, m.start as int) + hay.subrange(m.start as int, m.end as int)
                + hay.subrange(m.end as int, hay.len() as int) =~= hay.subrange(last, hay.len() as int));
        } else {
            assert forall|i: int| 0 <= i < rest.len() implies #[trigger] is_candidate(
                pats,
                hay,
                last,
                rest[i],
            ) by {
                assert(rest[i] == ms[i + 1]);
            }
            law_replace_with_own_patterns(pats, hay, rest, last);
        }
    }
}

/// What a search reports from `from`: an occurrence of a pattern at or after
/// `from` such that, under leftmost semantics, no occurrence starts earlier,
/// and among those starting with it, leftmost-first reports the pattern
/// listed first and leftmost-longest the longest; under standard semantics,
/// no occurrence ends earlier, and among those ending with it, it starts
/// first.
pub proof fn law_reported_match(pats: Seq<Seq<u8>>, kind: MatchKind, hay: Seq<u8>, from: int, c: Match)
    requires
        is_candidate(pats, hay, from, c),
    ensures
        leader(pats, kind, hay, from) matches Some(m) ==> {
            &&& m.pattern < pats.len()
            &&& from <= m.start
            &&& occurs_at(pats[m.pattern as int], hay, m.start as int)
            &&& m.end == m.start + pats[m.pattern as int].len()
            &&& kind != MatchKind::Standard ==> m.start <= c.start
            &&& kind == MatchKind::LeftmostFirst && c.start == m.start ==> m.pattern <= c.pattern
            &&& kind == MatchKind::LeftmostLongest && c.start == m.start ==> c.end <= m.end
            &&& kind == MatchKind::Standard ==> m.end <= c.end
            &&& kind == MatchKind::Standard && c.end == m.end ==> m.start <= c.start
        },
{
    lemma_leader_is_leader(pats, kind, hay, from);
}

} // verus!
