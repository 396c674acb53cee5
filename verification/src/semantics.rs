//! The mathematical model of a multi-pattern search: which match a search
//! reports at a given position, and the sequence of non-overlapping matches
//! that a full iteration yields.

use vstd::prelude::*;

verus! {

/// How a search chooses among several patterns that match.
#[derive(Clone, Copy, Debug, PartialEq, Eq, Structural)]
pub enum MatchKind {
    /// Report the match that ends first; among those, the longest one.
    Standard,
    /// Report the match that starts first; among those, the pattern listed first.
    LeftmostFirst,
    /// Report the match that starts first; among those, the longest one.
    LeftmostLongest,
}

/// A match of the pattern with index `pattern` over the byte span `start..end`.
#[derive(Clone, Copy, Debug, PartialEq, Eq, Structural)]
pub struct Match {
    pub pattern: usize,
    pub start: usize,
    pub end: usize,
}

/// `pat` occurs in `hay` beginning at byte offset `start`.
pub open spec fn occurs_at(pat: Seq<u8>, hay: Seq<u8>, start: int) -> bool {
    &&& 0 <= start
    &&& start + pat.len() <= hay.len()
    &&& hay.subrange(start, start + pat.len()) == pat
}

/// `m` is a match of one of `pats` in `hay` that starts at or after `from`.
pub open spec fn is_candidate(pats: Seq<Seq<u8>>, hay: Seq<u8>, from: int, m: Match) -> bool {
    &&& m.pattern < pats.len()
    &&& from <= m.start
    &&& m.end == m.start + pats[m.pattern as int].len()
    &&& occurs_at(pats[m.pattern as int], hay, m.start as int)
}

/// The order in which a search of the given kind prefers one match over another.
pub open spec fn precedes(kind: MatchKind, a: Match, b: Match) -> bool {
    match kind {
        MatchKind::Standard => a.end < b.end || (a.end == b.end && (a.start < b.start || (a.start
            == b.start && a.pattern < b.pattern))),
        MatchKind::LeftmostFirst => a.start < b.start || (a.start == b.start && a.pattern
            < b.pattern),
        MatchKind::LeftmostLongest => a.start < b.start || (a.start == b.start && (a.end > b.end
            || (a.end == b.end && a.pattern < b.pattern))),
    }
}

/// `m` is the match that a search starting at `from` reports: a candidate
/// preferred over every other candidate.
pub open spec fn is_leader(
    pats: Seq<Seq<u8>>,
    kind: MatchKind,
    hay: Seq<u8>,
    from: int,
    m: Match,
) -> bool {
    &&& is_candidate(pats, hay, from, m)
    &&& forall|c: Match| #[trigger]
        is_candidate(pats, hay, from, c) && c != m ==> precedes(kind, m, c)
}

/// The match that a search starting at `from` reports, if any.
pub open spec fn leader(pats: Seq<Seq<u8>>, kind: MatchKind, hay: Seq<u8>, from: int) -> Option<
    Match,
> {
    if exists|m: Match| is_leader(pats, kind, hay, from, m) {
        Some(choose|m: Match| is_leader(pats, kind, hay, from, m))
    } else {
        None
    }
}

/// The matches that iterating a search over `hay` yields, from offset `from`
/// on. `after_match` says that the previous reported match ended at `from`;
/// an empty match there is skipped by searching again one byte later.
pub open spec fn find_all(
    pats: Seq<Seq<u8>>,
    kind: MatchKind,
    hay: Seq<u8>,
    from: int,
    after_match: bool,
) -> Seq<Match>
    decreases hay.len() + 1 - from, (if after_match { 0int } else { 1int }),
    when 0 <= from
{
    if from > hay.len() {
        seq![]
    } else {
        match leader(pats, kind, hay, from) {
            None => seq![],
            Some(m) => {
                if after_match && m.end == from {
                    find_all(pats, kind, hay, from + 1, false)
                } else {
                    proof {
                        lemma_leader_is_leader(pats, kind, hay, from);
                    }
                    seq![m] + find_all(pats, kind, hay, m.end as int, true)
                }
            },
        }
    }
}

/// At most one candidate is a leader.
pub proof fn lemma_leader_unique(
    pats: Seq<Seq<u8>>,
    kind: MatchKind,
    hay: Seq<u8>,
    from: int,
    a: Match,
    b: Match,
)
    requires
        is_leader(pats, kind, hay, from, a),
        is_leader(pats, kind, hay, from, b),
    ensures
        a == b,
{
    if a != b {
        assert(precedes(kind, a, b));
        assert(precedes(kind, b, a));
    }
}

/// The reported match, when there is one, is the unique leader.
pub proof fn lemma_leader_is_leader(pats: Seq<Seq<u8>>, kind: MatchKind, hay: Seq<u8>, from: int)
    ensures
        leader(pats, kind, hay, from) matches Some(m) ==> is_leader(pats, kind, hay, from, m),
{
}

/// A leader found by a search is the reported match.
pub proof fn lemma_leader_from_witness(
    pats: Seq<Seq<u8>>,
    kind: MatchKind,
    hay: Seq<u8>,
    from: int,
    m: Match,
)
    requires
        is_leader(pats, kind, hay, from, m),
    ensures
        leader(pats, kind, hay, from) == Some(m),
{
    let c = choose|c: Match| is_leader(pats, kind, hay, from, c);
    lemma_leader_unique(pats, kind, hay, from, m, c);
}

/// With no candidate at all, nothing is reported.
pub proof fn lemma_leader_none(pats: Seq<Seq<u8>>, kind: MatchKind, hay: Seq<u8>, from: int)
    requires
        forall|c: Match| !#[trigger] is_candidate(pats, hay, from, c),
    ensures
        leader(pats, kind, hay, from) is None,
{
}


/// Every element is a match at or after `from`, and each ends no later than
/// the next one starts.
pub open spec fn ordered_matches(pats: Seq<Seq<u8>>, hay: Seq<u8>, from: int, ms: Seq<Match>) -> bool {
    &&& forall|i: int| 0 <= i < ms.len() ==> #[trigger] is_candidate(pats, hay, from, ms[i])
    &&& forall|i: int, j: int| #![trigger ms[i], ms[j]] 0 <= i < j < ms.len() ==> ms[i].end <= ms[j].start
}

/// The matches of an iteration are occurrences of the patterns, in order,
/// and never overlap.
pub proof fn lemma_find_all_ordered(
    pats: Seq<Seq<u8>>,
    kind: MatchKind,
    hay: Seq<u8>,
    from: int,
    after_match: bool,
)
    requires
        0 <= from,
    ensures
        ordered_matches(pats, hay, from, find_all(pats, kind, hay, from, after_match)),
    decreases hay.len() + 1 - from, (if after_match { 0int } else { 1int }),
{
    if from > hay.len() {
    } else {
        lemma_leader_is_leader(pats, kind, hay, from);
        match leader(pats, kind, hay, from) {
            None => {},
            Some(m) => {
                if after_match && m.end == from {
                    lemma_find_all_ordered(pats, kind, hay, from + 1, false);
                    let rest = find_all(pats, kind, hay, from + 1, false);
                    assert forall|i: int| 0 <= i < rest.len() implies #[trigger] is_candidate(
                        pats,
                        hay,
                        from,
                        rest[i],
                    ) by {
                        assert(is_candidate(pats, hay, from + 1, rest[i]));
                    }
                } else {
                    lemma_find_all_ordered(pats, kind, hay, m.end as int, true);
                    let rest = find_all(pats, kind, hay, m.end as int, true);
                    let all = seq![m] + rest;
                    assert(find_all(pats, kind, hay, from, after_match) == all);
                    assert forall|i: int| 0 <= i < all.len() implies #[trigger] is_candidate(
                        pats,
                        hay,
                        from,
                        all[i],
                    ) by {
                        if i > 0 {
                            assert(all[i] == rest[i - 1]);
                            assert(is_candidate(pats, hay, m.end as int, rest[i - 1]));
                        }
                    }
                    assert forall|i: int, j: int| #![trigger all[i], all[j]]
                        0 <= i < j < all.len() implies all[i].end <= all[j].start by {
                        assert(all[j] == rest[j - 1]);
                        assert(is_candidate(pats, hay, m.end as int, rest[j - 1]));
                        if i > 0 {
                            assert(all[i] == rest[i - 1]);
                        }
                    }
                }
            },
        }
    }
}


/// Every pattern is non-empty.
pub open spec fn all_nonempty(pats: Seq<Seq<u8>>) -> bool {
    forall|i: int| 0 <= i < pats.len() ==> #[trigger] pats[i].len() > 0
}

/// Non-overlapping matches of non-empty patterns are no more numerous than
/// the bytes they cover.
pub proof fn lemma_ordered_count(pats: Seq<Seq<u8>>, hay: Seq<u8>, from: int, ms: Seq<Match>)
    requires
        all_nonempty(pats),
        ordered_matches(pats, hay, from, ms),
        0 <= from,
    ensures
        ms.len() <= if from <= hay.len() { hay.len() - from } else { 0 },
    decreases ms.len(),
{
    if ms.len() > 0 {
        let m = ms[0];
        assert(is_candidate(pats, hay, from, ms[0]));
        let rest = ms.drop_first();
        assert forall|i: int| 0 <= i < rest.len() implies #[trigger] is_candidate(
            pats,
            hay,
            m.end as int,
            rest[i],
        ) by {
            assert(rest[i] == ms[i + 1]);
            assert(is_candidate(pats, hay, from, ms[i + 1]));
            assert(ms[0].end <= ms[i + 1].start);
        }
        assert forall|i: int, j: int| #![trigger rest[i], rest[j]]
            0 <= i < j < rest.len() implies rest[i].end <= rest[j].start by {
            assert(rest[i] == ms[i + 1]);
            assert(rest[j] == ms[j + 1]);
        }
        lemma_ordered_count(pats, hay, m.end as int, rest);
    }
}

} // verus!
