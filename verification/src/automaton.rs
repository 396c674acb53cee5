//! A multi-pattern searcher over bytes, with an optional start-byte
//! prefilter that skips offsets where no pattern can begin.

use vstd::prelude::*;
use crate::semantics::{MatchKind, Match, occurs_at, is_candidate, precedes, is_leader, leader, find_all, lemma_leader_from_witness, lemma_leader_none, lemma_leader_is_leader};

verus! {

/// Settings for building an [`AhoCorasick`] searcher.
pub struct AhoCorasickBuilder {
    kind: MatchKind,
    prefilter: bool,
}

/// A searcher for a fixed list of byte patterns.
pub struct AhoCorasick {
    patterns: Vec<Vec<u8>>,
    kind: MatchKind,
    prefilter: bool,
    start_bytes: Vec<bool>,
}

/// The byte view of a list of byte vectors.
pub open spec fn bytes_view(v: Seq<Vec<u8>>) -> Seq<Seq<u8>> {
    v.map_values(|p: Vec<u8>| p@)
}

/// Some pattern of the list is non-empty and begins with byte `b`.
pub open spec fn is_start_byte(pats: Seq<Seq<u8>>, b: u8) -> bool {
    exists|i: int| 0 <= i < pats.len() && pats[i].len() > 0 && #[trigger] pats[i][0] == b
}

impl AhoCorasickBuilder {
    /// The default settings: standard match semantics, prefilter enabled.
    pub fn new() -> (b: Self)
        ensures
            b.spec_kind() == MatchKind::Standard,
            b.spec_prefilter(),
    {
        AhoCorasickBuilder { kind: MatchKind::Standard, prefilter: true }
    }

    pub closed spec fn spec_kind(&self) -> MatchKind {
        self.kind
    }

    pub closed spec fn spec_prefilter(&self) -> bool {
        self.prefilter
    }

    /// Sets the match semantics.
    pub fn match_kind(self, kind: MatchKind) -> (b: Self)
        ensures
            b.spec_kind() == kind,
            b.spec_prefilter() == self.spec_prefilter(),
    {
        AhoCorasickBuilder { kind, prefilter: self.prefilter }
    }

    /// Enables or disables the prefilter.
    pub fn prefilter(self, yes: bool) -> (b: Self)
        ensures
            b.spec_kind() == self.spec_kind(),
            b.spec_prefilter() == yes,
    {
        AhoCorasickBuilder { kind: self.kind, prefilter: yes }
    }

    /// Builds a searcher for `patterns`. The prefilter is used only where it
    /// was asked for and every pattern is non-empty.
    pub fn build(&self, patterns: &Vec<Vec<u8>>) -> (ac: AhoCorasick)
        ensures
            ac.spec_patterns() == bytes_view(patterns@),
            ac.spec_kind() == self.spec_kind(),
            ac.spec_prefilter() == (self.spec_prefilter() && forall|i: int|
                0 <= i < patterns@.len() ==> #[trigger] patterns@[i]@.len() > 0),
    {
        let ghost pats = bytes_view(patterns@);
        let mut owned: Vec<Vec<u8>> = Vec::new();
        let mut all_nonempty = true;
        let mut start_bytes: Vec<bool> = Vec::new();
        let mut b: usize = 0;
        while b < 256
            invariant
                b <= 256,
                start_bytes@.len() == b,
                forall|j: int| 0 <= j < b ==> !#[trigger] start_bytes@[j],
            decreases 256 - b,
        {
            start_bytes.push(false);
            b += 1;
        }
        let mut i: usize = 0;
        while i < patterns.len()
            invariant
                i <= patterns@.len(),
                pats == bytes_view(patterns@),
                owned@.len() == i,
                forall|j: int| 0 <= j < i ==> #[trigger] owned@[j]@ == patterns@[j]@,
                all_nonempty == (forall|j: int| 0 <= j < i ==> #[trigger] patterns@[j]@.len() > 0),
                start_bytes@.len() == 256,
                forall|x: int|
                    0 <= x < 256 ==> (#[trigger] start_bytes@[x] <==> exists|j: int|
                        0 <= j < i && pats[j].len() > 0 && #[trigger] pats[j][0] == x as u8),
            decreases patterns@.len() - i,
        {
            let p = &patterns[i];
            if p.len() == 0 {
                all_nonempty = false;
            } else {
                let first = p[0];
                start_bytes.set(first as usize, true);
                proof {
                    assert(pats[i as int][0] == first);
                }
            }
            owned.push(p.clone());
            proof {
                assert forall|x: int|
                    0 <= x < 256 implies (#[trigger] start_bytes@[x] <==> exists|j: int|
                        0 <= j < i + 1 && pats[j].len() > 0 && #[trigger] pats[j][0] == x as u8) by {
                    if start_bytes@[x] && x != pats[i as int][0] as int {
                        let j = choose|j: int|
                            0 <= j < i && pats[j].len() > 0 && #[trigger] pats[j][0] == x as u8;
                        assert(0 <= j < i + 1 && pats[j].len() > 0 && pats[j][0] == x as u8);
                    }
                    if start_bytes@[x] && x == pats[i as int][0] as int && pats[i as int].len() == 0 {
                        let j = choose|j: int|
                            0 <= j < i && pats[j].len() > 0 && #[trigger] pats[j][0] == x as u8;
                        assert(0 <= j < i + 1 && pats[j].len() > 0 && pats[j][0] == x as u8);
                    }
                    if start_bytes@[x] && x == pats[i as int][0] as int && pats[i as int].len() > 0 {
                        assert(0 <= i < i + 1 && pats[i as int].len() > 0 && pats[i as int][0]
                            == x as u8);
                    }
                }
            }
            i += 1;
        }
        proof {
            assert(bytes_view(owned@) =~= pats);
        }
        AhoCorasick {
            patterns: owned,
            kind: self.kind,
            prefilter: self.prefilter && all_nonempty,
            start_bytes,
        }
    }
}

impl AhoCorasick {
    #[verifier::type_invariant]
    closed spec fn inv(self) -> bool {
        self.prefilter ==> {
            &&& self.start_bytes@.len() == 256
            &&& forall|i: int| 0 <= i < self.patterns@.len() ==> #[trigger] self.patterns@[i]@.len() > 0
            &&& forall|x: int|
                0 <= x < 256 ==> (#[trigger] self.start_bytes@[x] <==> is_start_byte(
                    self.spec_patterns(),
                    x as u8,
                ))
        }
    }

    /// The patterns, as byte sequences, in priority order.
    pub closed spec fn spec_patterns(&self) -> Seq<Seq<u8>> {
        bytes_view(self.patterns@)
    }

    pub closed spec fn spec_kind(&self) -> MatchKind {
        self.kind
    }

    /// Whether searches skip ahead with the start-byte prefilter.
    pub closed spec fn spec_prefilter(&self) -> bool {
        self.prefilter
    }

    /// A searcher with the default settings: standard semantics, and the
    /// prefilter on exactly when every pattern is non-empty.
    pub fn new(patterns: &Vec<Vec<u8>>) -> (ac: AhoCorasick)
        ensures
            ac.spec_patterns() == bytes_view(patterns@),
            ac.spec_kind() == MatchKind::Standard,
            ac.spec_prefilter() == (forall|i: int|
                0 <= i < patterns@.len() ==> #[trigger] patterns@[i]@.len() > 0),
    {
        AhoCorasickBuilder::new().build(patterns)
    }

    /// A builder with the default settings.
    pub fn builder() -> (b: AhoCorasickBuilder)
        ensures
            b.spec_kind() == MatchKind::Standard,
            b.spec_prefilter(),
    {
        AhoCorasickBuilder::new()
    }

    /// The number of patterns.
    pub fn patterns_len(&self) -> (n: usize)
        ensures
            n == self.spec_patterns().len(),
    {
        self.patterns.len()
    }

    /// Whether searches use the start-byte prefilter.
    pub fn uses_prefilter(&self) -> (b: bool)
        ensures
            b == self.spec_prefilter(),
    {
        self.prefilter
    }

    /// The match semantics in use.
    pub fn match_kind(&self) -> (k: MatchKind)
        ensures
            k == self.spec_kind(),
    {
        self.kind
    }

    /// Whether `pat` occurs in `hay` at `start`.
    fn occurs(pat: &Vec<u8>, hay: &[u8], start: usize) -> (r: bool)
        ensures
            r == occurs_at(pat@, hay@, start as int),
    {
        if start > hay.len() || pat.len() > hay.len() - start {
            return false;
        }
        let mut i: usize = 0;
        while i < pat.len()
            invariant
                start + pat@.len() <= hay@.len(),
                hay@.len() <= usize::MAX,
                i <= pat@.len(),
                forall|j: int| 0 <= j < i ==> hay@[start + j] == pat@[j],
            decreases pat@.len() - i,
        {
            if hay[start + i] != pat[i] {
                assert(hay@.subrange(start as int, start + pat@.len())[i as int] != pat@[i as int]);
                return false;
            }
            i += 1;
        }
        assert(hay@.subrange(start as int, start + pat@.len()) =~= pat@);
        true
    }

    /// Skips offsets at which no pattern can begin.
    fn skip(&self, hay: &[u8], s: usize) -> (r: usize)
        requires
            self.spec_prefilter(),
            s <= hay@.len(),
        ensures
            s <= r <= hay@.len(),
            forall|c: Match|
                #[trigger] is_candidate(self.spec_patterns(), hay@, s as int, c) ==> r <= c.start,
            forall|k: int| s <= k < r ==> !is_start_byte(self.spec_patterns(), #[trigger] hay@[k]),
            r < hay@.len() ==> is_start_byte(self.spec_patterns(), hay@[r as int]),
    {
        proof {
            use_type_invariant(self);
        }
        let ghost pats = self.spec_patterns();
        let mut r = s;
        while r < hay.len() && !self.start_bytes[hay[r] as usize]
            invariant
                s <= r <= hay@.len(),
                self.inv(),
                pats == self.spec_patterns(),
                self.spec_prefilter(),
                forall|c: Match| #[trigger] is_candidate(pats, hay@, s as int, c) ==> r <= c.start,
                forall|k: int| s <= k < r ==> !is_start_byte(pats, #[trigger] hay@[k]),
            decreases hay@.len() - r,
        {
            assert(self.start_bytes@[hay@[r as int] as int] <==> is_start_byte(pats, hay@[r as int]));
            assert forall|c: Match| #[trigger] is_candidate(pats, hay@, s as int, c) implies r + 1
                <= c.start by {
                if c.start == r {
                    let p = pats[c.pattern as int];
                    assert(self.patterns@[c.pattern as int]@.len() > 0);
                    assert(p.len() > 0);
                    assert(hay@.subrange(r as int, r + p.len())[0] == hay@[r as int]);
                    assert(p[0] == hay@[r as int]);
                    assert(is_start_byte(pats, hay@[r as int]));
                }
            }
            r += 1;
        }
        if r < hay.len() {
            assert(self.start_bytes@[hay@[r as int] as int] <==> is_start_byte(pats, hay@[r as int]));
        }
        r
    }

    /// The preferred match among those that start exactly at `s`
    /// (leftmost kinds only).
    fn best_starting_at(&self, hay: &[u8], s: usize) -> (r: Option<Match>)
        requires
            s <= hay@.len(),
            self.spec_kind() != MatchKind::Standard,
        ensures
            r matches Some(m) ==> {
                &&& is_candidate(self.spec_patterns(), hay@, s as int, m)
                &&& m.start == s
                &&& forall|c: Match|
                    #[trigger] is_candidate(self.spec_patterns(), hay@, s as int, c) && c.start == s
                        && c != m ==> precedes(self.spec_kind(), m, c)
            },
            r is None ==> forall|c: Match|
                #[trigger] is_candidate(self.spec_patterns(), hay@, s as int, c) ==> c.start != s,
    {
        let ghost pats = self.spec_patterns();
        let hay_len: usize = hay.len();
        let mut best: Option<Match> = None;
        let mut pid: usize = 0;
        while pid < self.patterns.len()
            invariant
                pats == self.spec_patterns(),
                hay_len == hay@.len(),
                self.spec_kind() != MatchKind::Standard,
                self.spec_kind() == MatchKind::LeftmostFirst ==> best is None,
                s <= hay@.len(),
                hay@.len() <= usize::MAX,
                pid <= pats.len(),
                best matches Some(m) ==> {
                    &&& is_candidate(pats, hay@, s as int, m)
                    &&& m.start == s
                    &&& m.pattern < pid
                    &&& forall|c: Match|
                        #[trigger] is_candidate(pats, hay@, s as int, c) && c.start == s && c.pattern
                            < pid && c != m ==> precedes(self.spec_kind(), m, c)
                },
                best is None ==> forall|c: Match|
                    #[trigger] is_candidate(pats, hay@, s as int, c) && c.start == s ==> c.pattern
                        >= pid,
            decreases pats.len() - pid,
        {
            let pat = &self.patterns[pid];
            assert(pat@ == pats[pid as int]);
            if Self::occurs(pat, hay, s) {
                let m = Match { pattern: pid, start: s, end: s + pat.len() };
                match best {
                    None => {
                        best = Some(m);
                        if self.kind == MatchKind::LeftmostFirst {
                            return best;
                        }
                    },
                    Some(b) => {
                        if m.end > b.end {
                            best = Some(m);
                        }
                    },
                }
            }
            pid += 1;
        }
        best
    }

    /// The preferred match among those that start at or after `base` and
    /// end exactly at `e` (standard kind).
    fn best_ending_at(&self, hay: &[u8], base: usize, e: usize) -> (r: Option<Match>)
        requires
            base <= e <= hay@.len(),
        ensures
            r matches Some(m) ==> {
                &&& is_candidate(self.spec_patterns(), hay@, base as int, m)
                &&& m.end == e
                &&& forall|c: Match|
                    #[trigger] is_candidate(self.spec_patterns(), hay@, base as int, c) && c.end == e
                        && c != m ==> precedes(MatchKind::Standard, m, c)
            },
            r is None ==> forall|c: Match|
                #[trigger] is_candidate(self.spec_patterns(), hay@, base as int, c) ==> c.end != e,
    {
        let ghost pats = self.spec_patterns();
        let mut best: Option<Match> = None;
        let mut pid: usize = 0;
        while pid < self.patterns.len()
            invariant
                pats == self.spec_patterns(),
                base <= e <= hay@.len(),
                pid <= pats.len(),
                best matches Some(m) ==> {
                    &&& is_candidate(pats, hay@, base as int, m)
                    &&& m.end == e
                    &&& m.pattern < pid
                    &&& forall|c: Match|
                        #[trigger] is_candidate(pats, hay@, base as int, c) && c.end == e
                            && c.pattern < pid && c != m ==> precedes(MatchKind::Standard, m, c)
                },
                best is None ==> forall|c: Match|
                    #[trigger] is_candidate(pats, hay@, base as int, c) && c.end == e ==> c.pattern
                        >= pid,
            decreases pats.len() - pid,
        {
            let pat = &self.patterns[pid];
            if pat.len() <= e - base {
                let st = e - pat.len();
                if Self::occurs(pat, hay, st) {
                    let m = Match { pattern: pid, start: st, end: e };
                    match best {
                        None => {
                            best = Some(m);
                        },
                        Some(b) => {
                            if st < b.start {
                                best = Some(m);
                            }
                        },
                    }
                }
            }
            pid += 1;
        }
        best
    }

    /// The match that a leftmost search from `from` reports.
    fn find_leftmost(&self, hay: &[u8], from: usize) -> (r: Option<Match>)
        requires
            from <= hay@.len(),
            self.spec_kind() != MatchKind::Standard,
        ensures
            r == leader(self.spec_patterns(), self.spec_kind(), hay@, from as int),
    {
        let ghost pats = self.spec_patterns();
        let ghost kind = self.spec_kind();
        let mut s = from;
        if self.prefilter {
            s = self.skip(hay, s);
        }
        loop
            invariant
                pats == self.spec_patterns(),
                kind == self.spec_kind(),
                kind != MatchKind::Standard,
                from <= s <= hay@.len(),
                forall|c: Match| #[trigger] is_candidate(pats, hay@, from as int, c) ==> s <= c.start,
            decreases hay@.len() - s,
        {
            match self.best_starting_at(hay, s) {
                Some(m) => {
                    proof {
                        assert forall|c: Match|
                            #[trigger] is_candidate(pats, hay@, from as int, c) && c != m implies precedes(
                            kind,
                            m,
                            c,
                        ) by {
                            assert(is_candidate(pats, hay@, s as int, c));
                        }
                        lemma_leader_from_witness(pats, kind, hay@, from as int, m);
                    }
                    return Some(m);
                },
                None => {},
            }
            if s == hay.len() {
                proof {
                    assert forall|c: Match| !#[trigger] is_candidate(pats, hay@, from as int, c) by {
                        if is_candidate(pats, hay@, from as int, c) {
                            assert(is_candidate(pats, hay@, s as int, c));
                        }
                    }
                    lemma_leader_none(pats, kind, hay@, from as int);
                }
                return None;
            }
            let next = s + 1;
            proof {
                assert forall|c: Match| #[trigger] is_candidate(pats, hay@, from as int, c) implies next
                    <= c.start by {
                    assert(is_candidate(pats, hay@, s as int, c));
                }
            }
            s = next;
            if self.prefilter {
                let t = self.skip(hay, s);
                proof {
                    assert forall|c: Match| #[trigger] is_candidate(pats, hay@, from as int, c) implies t
                        <= c.start by {
                        assert(is_candidate(pats, hay@, s as int, c));
                    }
                }
                s = t;
            }
        }
    }

    /// The match that a standard search from `from` reports.
    fn find_standard(&self, hay: &[u8], from: usize) -> (r: Option<Match>)
        requires
            from <= hay@.len(),
            self.spec_kind() == MatchKind::Standard,
        ensures
            r == leader(self.spec_patterns(), self.spec_kind(), hay@, from as int),
    {
        let ghost pats = self.spec_patterns();
        let ghost kind = self.spec_kind();
        let base = if self.prefilter {
            self.skip(hay, from)
        } else {
            from
        };
        assert forall|c: Match| #[trigger] is_candidate(pats, hay@, from as int, c) implies is_candidate(
            pats,
            hay@,
            base as int,
            c,
        ) by {}
        let mut e = base;
        loop
            invariant
                pats == self.spec_patterns(),
                kind == self.spec_kind(),
                kind == MatchKind::Standard,
                from <= base <= e <= hay@.len(),
                forall|c: Match| #[trigger]
                    is_candidate(pats, hay@, from as int, c) ==> is_candidate(pats, hay@, base as int, c),
                forall|c: Match| #[trigger] is_candidate(pats, hay@, base as int, c) ==> e <= c.end,
            decreases hay@.len() - e,
        {
            match self.best_ending_at(hay, base, e) {
                Some(m) => {
                    proof {
                        assert forall|c: Match|
                            #[trigger] is_candidate(pats, hay@, from as int, c) && c != m implies precedes(
                            kind,
                            m,
                            c,
                        ) by {
                            assert(is_candidate(pats, hay@, base as int, c));
                        }
                        lemma_leader_from_witness(pats, kind, hay@, from as int, m);
                    }
                    return Some(m);
                },
                None => {},
            }
            if e == hay.len() {
                proof {
                    assert forall|c: Match| !#[trigger] is_candidate(pats, hay@, from as int, c) by {
                        if is_candidate(pats, hay@, from as int, c) {
                            assert(is_candidate(pats, hay@, base as int, c));
                        }
                    }
                    lemma_leader_none(pats, kind, hay@, from as int);
                }
                return None;
            }
            e = e + 1;
        }
    }

    /// The match that a search from `from` reports.
    pub fn find_at(&self, hay: &[u8], from: usize) -> (r: Option<Match>)
        requires
            from <= hay@.len(),
        ensures
            r == leader(self.spec_patterns(), self.spec_kind(), hay@, from as int),
    {
        if self.kind == MatchKind::Standard {
            self.find_standard(hay, from)
        } else {
            self.find_leftmost(hay, from)
        }
    }

    /// All non-overlapping matches in `hay`, in order.
    pub fn find_iter(&self, hay: &[u8]) -> (r: Vec<Match>)
        ensures
            r@ == find_all(self.spec_patterns(), self.spec_kind(), hay@, 0, false),
    {
        let ghost pats = self.spec_patterns();
        let ghost kind = self.spec_kind();
        let mut out: Vec<Match> = Vec::new();
        let mut from: usize = 0;
        let mut after_match = false;
        loop
            invariant
                pats == self.spec_patterns(),
                kind == self.spec_kind(),
                from <= hay@.len(),
                find_all(pats, kind, hay@, 0, false) == out@ + find_all(
                    pats,
                    kind,
                    hay@,
                    from as int,
                    after_match,
                ),
            decreases hay@.len() - from, (if after_match { 0int } else { 1int }),
        {
            let found = self.find_at(hay, from);
            let m = match found {
                None => {
                    assert(find_all(pats, kind, hay@, from as int, after_match) =~= Seq::<Match>::empty());
                    assert(out@ + seq![] =~= out@);
                    return out;
                },
                Some(m) => m,
            };
            proof {
                lemma_leader_is_leader(pats, kind, hay@, from as int);
            }
            if after_match && m.end == from {
                if from == hay.len() {
                    assert(find_all(pats, kind, hay@, from + 1, false) =~= Seq::<Match>::empty());
                    assert(out@ + seq![] =~= out@);
                    return out;
                }
                from = from + 1;
                after_match = false;
            } else {
                let ghost before = out@;
                out.push(m);
                proof {
                    assert(before + (seq![m] + find_all(pats, kind, hay@, m.end as int, true))
                        =~= out@ + find_all(pats, kind, hay@, m.end as int, true));
                }
                from = m.end;
                after_match = true;
            }
        }
    }
}

} // verus!
