//! Replacing every match in a string, skipping matches that would split a
//! character.

use vstd::prelude::*;
use vstd::string::StringSliceAdditionalSpecFns;
use vstd::utf8::{encode_utf8, is_char_boundary, valid_utf8};
use crate::semantics::{Match, find_all, ordered_matches, is_candidate, lemma_find_all_ordered};
use crate::automaton::AhoCorasick;
use crate::text::{substring, push_piece, lemma_str_valid};

verus! {

/// The bytes of each string slice.
pub open spec fn strs_bytes(v: Seq<&str>) -> Seq<Seq<u8>> {
    v.map_values(|s: &str| s.spec_bytes())
}

/// The result of walking `ms` over `hay`: the text from `last` on, with each
/// match whose ends are both character boundaries replaced by the
/// replacement for its pattern, and every other match left as it is.
pub open spec fn replaced(hay: Seq<u8>, ms: Seq<Match>, reps: Seq<Seq<u8>>, last: int) -> Seq<u8>
    decreases ms.len(),
{
    if ms.len() == 0 {
        hay.subrange(last, hay.len() as int)
    } else {
        let m = ms[0];
        if is_char_boundary(hay, m.start as int) && is_char_boundary(hay, m.end as int) {
            hay.subrange(last, m.start as int) + reps[m.pattern as int] + replaced(
                hay,
                ms.drop_first(),
                reps,
                m.end as int,
            )
        } else {
            replaced(hay, ms.drop_first(), reps, last)
        }
    }
}


/// Each replacement is at most `bound` bytes long.
pub open spec fn reps_within(reps: Seq<Seq<u8>>, bound: int) -> bool {
    forall|i: int| 0 <= i < reps.len() ==> #[trigger] reps[i].len() <= bound
}

/// Replacing grows the text by at most one replacement per match.
pub proof fn lemma_replaced_len(
    pats: Seq<Seq<u8>>,
    hay: Seq<u8>,
    ms: Seq<Match>,
    reps: Seq<Seq<u8>>,
    last: int,
    bound: int,
)
    requires
        ordered_matches(pats, hay, last, ms),
        0 <= last <= hay.len(),
        0 <= bound,
        reps.len() == pats.len(),
        reps_within(reps, bound),
    ensures
        replaced(hay, ms, reps, last).len() <= (hay.len() - last) + ms.len() * bound,
    decreases ms.len(),
{
    if ms.len() > 0 {
        let m = ms[0];
        assert(is_candidate(pats, hay, last, ms[0]));
        let rest = ms.drop_first();
        assert forall|i: int, j: int| #![trigger rest[i], rest[j]]
            0 <= i < j < rest.len() implies rest[i].end <= rest[j].start by {
            assert(rest[i] == ms[i + 1]);
            assert(rest[j] == ms[j + 1]);
        }
        assert forall|i: int| 0 <= i < rest.len() implies #[trigger] is_candidate(
            pats,
            hay,
            m.end as int,
            rest[i],
        ) by {
            assert(rest[i] == ms[i + 1]);
            assert(is_candidate(pats, hay, last, ms[i + 1]));
            assert(ms[0].end <= ms[i + 1].start);
        }
        assert forall|i: int| 0 <= i < rest.len() implies #[trigger] is_candidate(
            pats,
            hay,
            last,
            rest[i],
        ) by {
            assert(rest[i] == ms[i + 1]);
        }
        lemma_replaced_len(pats, hay, rest, reps, m.end as int, bound);
        lemma_replaced_len(pats, hay, rest, reps, last, bound);
        assert(reps[m.pattern as int].len() <= bound);
        assert((ms.len() - 1) * bound + bound == ms.len() * bound) by (nonlinear_arith);
        assert(0 <= (ms.len() - 1) * bound) by (nonlinear_arith)
            requires ms.len() >= 1, bound >= 0;
    }
}

impl AhoCorasick {
    /// Replaces each match in `haystack` with the replacement of its pattern.
    /// A match that begins or ends inside a multi-byte character is skipped.
    pub fn replace_all(&self, haystack: &str, replace_with: &[&str]) -> (r: String)
        requires
            replace_with@.len() == self.spec_patterns().len(),
        ensures
            encode_utf8(r@) == replaced(
                haystack.spec_bytes(),
                find_all(self.spec_patterns(), self.spec_kind(), haystack.spec_bytes(), 0, false),
                strs_bytes(replace_with@),
                0,
            ),
    {
        let ghost hay = haystack.spec_bytes();
        let ghost pats = self.spec_patterns();
        let ghost reps = strs_bytes(replace_with@);
        let bytes = haystack.as_bytes();
        let ms = self.find_iter(bytes);
        let ghost target = replaced(hay, ms@, reps, 0);
        proof {
            lemma_str_valid(haystack);
            lemma_find_all_ordered(pats, self.spec_kind(), hay, 0, false);
            vstd::utf8::is_char_boundary_start_end_of_seq(hay);
            assert(ms@.skip(0) =~= ms@);
        }
        let mut dst = String::new();
        let mut last: usize = 0;
        let mut i: usize = 0;
        while i < ms.len()
            invariant
                hay == haystack.spec_bytes(),
                valid_utf8(hay),
                reps == strs_bytes(replace_with@),
                replace_with@.len() == pats.len(),
                ordered_matches(pats, hay, 0, ms@),
                target == replaced(hay, ms@, reps, 0),
                i <= ms@.len(),
                last <= hay.len(),
                is_char_boundary(hay, last as int),
                forall|j: int| i <= j < ms@.len() ==> last <= #[trigger] ms@[j].start,
                encode_utf8(dst@) + replaced(hay, ms@.skip(i as int), reps, last as int) == target,
            decreases ms@.len() - i,
        {
            let m = ms[i];
            assert(is_candidate(pats, hay, 0, ms@[i as int]));
            assert(ms@.skip(i as int).drop_first() =~= ms@.skip(i + 1));
            assert(ms@.skip(i as int)[0] == m);
            if !haystack.is_char_boundary(m.start) || !haystack.is_char_boundary(m.end) {
                i += 1;
            } else {
                let ghost before = encode_utf8(dst@);
                let piece = substring(haystack, last, m.start);
                push_piece(&mut dst, piece);
                let rep = replace_with[m.pattern];
                push_piece(&mut dst, rep);
                proof {
                    assert(rep.spec_bytes() == reps[m.pattern as int]);
                    assert(encode_utf8(dst@) + replaced(hay, ms@.skip(i + 1), reps, m.end as int)
                        =~= before + replaced(hay, ms@.skip(i as int), reps, last as int));
                    assert forall|j: int| i + 1 <= j < ms@.len() implies m.end <= #[trigger] ms@[j].start by {
                        assert(ms@[i as int].end <= ms@[j].start);
                    }
                }
                last = m.end;
                i += 1;
            }
        }
        let hay_len: usize = bytes.len();
        let tail = substring(haystack, last, hay_len);
        let ghost before = encode_utf8(dst@);
        push_piece(&mut dst, tail);
        proof {
            assert(ms@.skip(i as int) =~= Seq::<Match>::empty());
            assert(replaced(hay, ms@.skip(i as int), reps, last as int) == hay.subrange(
                last as int,
                hay.len() as int,
            ));
        }
        dst
    }
}

} // verus!
