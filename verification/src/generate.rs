//! Building and perturbing the inputs of the property functions from values
//! that a random source has already drawn.

use vstd::prelude::*;
use crate::etna::lemma_encode_len;

verus! {

/// Appends one character to a string.
pub assume_specification[ String::push ](s: &mut String, ch: char)
    ensures
        final(s)@ == old(s)@.push(ch),
;

/// `s` with the character at `i` replaced by `c`.
pub fn replace_char_at(s: &str, i: usize, c: char) -> (r: String)
    requires
        i < s@.len(),
    ensures
        r@ == s@.update(i as int, c),
{
    let _nbytes: usize = s.as_bytes().len();
    proof {
        lemma_encode_len(s@);
    }
    let mut out = String::new();
    let mut k: usize = 0;
    for ch in it: s.chars()
        invariant
            k == it.index(),
            s@.len() <= usize::MAX,
            it.seq() == s@,
            i < s@.len(),
            out@ == s@.update(i as int, c).subrange(0, k as int),
    {
        if k == i {
            out.push(c);
        } else {
            out.push(ch);
        }
        k += 1;
        assert(out@ =~= s@.update(i as int, c).subrange(0, k as int));
    }
    assert(out@ =~= s@.update(i as int, c));
    out
}


/// The character view of each string.
pub open spec fn strings_view(v: Seq<String>) -> Seq<Seq<char>> {
    v.map_values(|s: String| s@)
}

/// The number of characters of a string slice.
pub fn char_count(s: &str) -> (n: usize)
    ensures
        n == s@.len(),
{
    let _nbytes: usize = s.as_bytes().len();
    proof {
        lemma_encode_len(s@);
    }
    let mut n: usize = 0;
    for _ch in it: s.chars()
        invariant
            n == it.index(),
            it.seq() == s@,
            s@.len() <= usize::MAX,
    {
        n += 1;
    }
    n
}

/// `s` without the character at `i`.
pub fn remove_char_at(s: &str, i: usize) -> (r: String)
    requires
        i < s@.len(),
    ensures
        r@ == s@.remove(i as int),
{
    let _nbytes: usize = s.as_bytes().len();
    proof {
        lemma_encode_len(s@);
    }
    let mut out = String::new();
    let mut k: usize = 0;
    for ch in it: s.chars()
        invariant
            k == it.index(),
            s@.len() <= usize::MAX,
            it.seq() == s@,
            i < s@.len(),
            k <= i ==> out@ == s@.subrange(0, k as int),
            k > i ==> out@ == s@.subrange(0, i as int) + s@.subrange(i + 1, k as int),
    {
        if k != i {
            out.push(ch);
        }
        proof {
            if k < i {
                assert(out@ =~= s@.subrange(0, k + 1));
            } else if k == i {
                assert(out@ =~= s@.subrange(0, i as int) + s@.subrange(i + 1, k + 1));
            } else {
                assert(out@ =~= s@.subrange(0, i as int) + s@.subrange(i + 1, k + 1));
            }
        }
        k += 1;
    }
    assert(out@ =~= s@.remove(i as int));
    out
}

/// `s` without its last character.
pub fn without_last_char(s: &str) -> (r: String)
    requires
        s@.len() > 0,
    ensures
        r@ == s@.drop_last(),
{
    let n = char_count(s);
    let r = remove_char_at(s, n - 1);
    assert(s@.remove(n - 1) =~= s@.drop_last());
    r
}

/// The concatenation of two strings.
pub fn join_strings(a: &String, b: &String) -> (r: String)
    ensures
        r@ == a@ + b@,
{
    let mut out = a.clone();
    out.append(b.as_str());
    out
}

/// Whether `v` holds a string equal to `s`.
pub fn contains_string(v: &Vec<String>, s: &String) -> (r: bool)
    ensures
        r == strings_view(v@).contains(s@),
{
    let mut i: usize = 0;
    while i < v.len()
        invariant
            i <= v@.len(),
            forall|j: int| 0 <= j < i ==> v@[j]@ != s@,
        decreases v@.len() - i,
    {
        if v[i] == *s {
            assert(strings_view(v@)[i as int] == s@);
            return true;
        }
        i += 1;
    }
    proof {
        if strings_view(v@).contains(s@) {
            let j = choose|j: int| 0 <= j < strings_view(v@).len() && strings_view(v@)[j] == s@;
            assert(v@[j]@ == s@);
        }
    }
    false
}

/// A copy of a list of strings.
pub fn clone_strings(v: &Vec<String>) -> (r: Vec<String>)
    ensures
        strings_view(r@) == strings_view(v@),
{
    let mut out: Vec<String> = Vec::new();
    let mut i: usize = 0;
    while i < v.len()
        invariant
            i <= v@.len(),
            out@.len() == i,
            forall|j: int| 0 <= j < i ==> #[trigger] out@[j]@ == v@[j]@,
        decreases v@.len() - i,
    {
        out.push(v[i].clone());
        i += 1;
    }
    assert(strings_view(out@) =~= strings_view(v@));
    out
}

// --------------------------------------------------------------------
// Pattern sets

/// The non-empty entries of `s`, each kept at its first occurrence only.
pub open spec fn distinct_nonempty(s: Seq<Seq<char>>) -> Seq<Seq<char>>
    decreases s.len(),
{
    if s.len() == 0 {
        seq![]
    } else {
        let r = distinct_nonempty(s.drop_last());
        let x = s.last();
        if x.len() > 0 && !r.contains(x) {
            r.push(x)
        } else {
            r
        }
    }
}

/// The pattern used when every drawn pattern was empty.
pub open spec fn default_pattern() -> Seq<char> {
    seq!['a', 'b', 'c', 'd']
}

/// Each drawn prefix joined to its drawn suffix.
pub open spec fn joined_parts(parts: Seq<(String, String)>) -> Seq<Seq<char>> {
    parts.map_values(|p: (String, String)| p.0@ + p.1@)
}

/// The pattern set built from drawn parts: the distinct non-empty joined
/// parts (or the default pattern if there are none), with the first pattern
/// extended by `extra` inserted at position 1 unless already present.
pub open spec fn pattern_set(parts: Seq<(String, String)>, extra: Seq<char>) -> Seq<Seq<char>> {
    let base = distinct_nonempty(joined_parts(parts));
    let l = if base.len() == 0 {
        seq![default_pattern()]
    } else {
        base
    };
    let sup = l[0] + extra;
    if l.contains(sup) {
        l
    } else {
        l.insert(1, sup)
    }
}

/// No entry repeats and none is empty.
pub open spec fn distinct_and_nonempty(s: Seq<Seq<char>>) -> bool {
    &&& forall|i: int| 0 <= i < s.len() ==> #[trigger] s[i].len() > 0
    &&& forall|i: int, j: int| #![trigger s[i], s[j]] 0 <= i < j < s.len() ==> s[i] != s[j]
}

/// Dropping empty entries and repeats leaves distinct non-empty entries.
pub proof fn lemma_distinct_nonempty(s: Seq<Seq<char>>)
    ensures
        distinct_and_nonempty(distinct_nonempty(s)),
    decreases s.len(),
{
    if s.len() > 0 {
        lemma_distinct_nonempty(s.drop_last());
        let r = distinct_nonempty(s.drop_last());
        let x = s.last();
        if x.len() > 0 && !r.contains(x) {
            let q = r.push(x);
            assert forall|i: int, j: int| #![trigger q[i], q[j]] 0 <= i < j < q.len() implies q[i]
                != q[j] by {
                if j == q.len() - 1 {
                    assert(q[i] == r[i]);
                }
            }
        }
    }
}

/// The pattern set holds distinct non-empty patterns, at least one, and the
/// extension of its first pattern by `extra`.
pub proof fn lemma_pattern_set(parts: Seq<(String, String)>, extra: Seq<char>)
    ensures
        distinct_and_nonempty(pattern_set(parts, extra)),
        pattern_set(parts, extra).len() >= 1,
        pattern_set(parts, extra).contains(pattern_set(parts, extra)[0] + extra),
{
    let base = distinct_nonempty(joined_parts(parts));
    lemma_distinct_nonempty(joined_parts(parts));
    let l = if base.len() == 0 {
        seq![default_pattern()]
    } else {
        base
    };
    assert(distinct_and_nonempty(l));
    let sup = l[0] + extra;
    if !l.contains(sup) {
        let q = l.insert(1, sup);
        assert(q[0] == l[0]);
        assert(q[1] == sup);
        assert forall|i: int| 0 <= i < q.len() implies #[trigger] q[i].len() > 0 by {
            if i > 1 {
                assert(q[i] == l[i - 1]);
            }
        }
        assert forall|i: int, j: int| #![trigger q[i], q[j]] 0 <= i < j < q.len() implies q[i]
            != q[j] by {
            if i == 1 {
                assert(q[j] == l[j - 1]);
            } else if j == 1 {
                assert(q[i] == l[i]);
            } else if i > 1 {
                assert(q[i] == l[i - 1]);
                assert(q[j] == l[j - 1]);
            } else {
                assert(q[j] == l[j - 1]);
            }
        }
    }
}

/// Entries that are already distinct and non-empty are all kept, in order.
pub proof fn lemma_distinct_nonempty_keeps(s: Seq<Seq<char>>)
    requires
        distinct_and_nonempty(s),
    ensures
        distinct_nonempty(s) == s,
    decreases s.len(),
{
    if s.len() > 0 {
        let d = s.drop_last();
        assert(distinct_and_nonempty(d)) by {
            assert forall|i: int, j: int| #![trigger d[i], d[j]] 0 <= i < j < d.len() implies d[i]
                != d[j] by {
                assert(d[i] == s[i] && d[j] == s[j]);
            }
        }
        lemma_distinct_nonempty_keeps(d);
        let x = s.last();
        assert(s[s.len() - 1] == x);
        assert(x.len() > 0);
        assert(!d.contains(x)) by {
            if d.contains(x) {
                let i = choose|i: int| 0 <= i < d.len() && d[i] == x;
                assert(s[i] == d[i]);
                assert(s[i] != s[s.len() - 1]);
            }
        }
        assert(d.push(x) =~= s);
    }
}

/// When the drawn parts join to distinct non-empty patterns and the
/// extension of the first is not among them, the pattern set is those
/// patterns with that extension inserted right after the first: one more
/// pattern than parts, and every pattern after the first two follows the
/// extension.
pub proof fn law_pattern_set_shape(parts: Seq<(String, String)>, extra: Seq<char>)
    requires
        parts_fit_shape(parts, extra),
    ensures
        pattern_set(parts, extra) == joined_parts(parts).insert(1, joined_parts(parts)[0] + extra),
        pattern_set(parts, extra).len() == parts.len() + 1,
        pattern_set(parts, extra)[1] == pattern_set(parts, extra)[0] + extra,
{
    lemma_distinct_nonempty_keeps(joined_parts(parts));
}

/// The drawn parts give the pattern set its shape: at least one part, the
/// parts join to distinct non-empty patterns, and the extension of the first
/// is not among them.
pub open spec fn parts_fit_shape(parts: Seq<(String, String)>, extra: Seq<char>) -> bool {
    &&& parts.len() >= 1
    &&& distinct_and_nonempty(joined_parts(parts))
    &&& !joined_parts(parts).contains(joined_parts(parts)[0] + extra)
}

/// Whether drawn parts and extension give the pattern set its shape
/// (`law_pattern_set_shape`).
pub fn parts_fit(parts: &Vec<(String, String)>, extra: &String) -> (r: bool)
    ensures
        r == parts_fit_shape(parts@, extra@),
{
    if parts.len() == 0 {
        return false;
    }
    let ghost joined = joined_parts(parts@);
    let mut seen: Vec<String> = Vec::new();
    let mut i: usize = 0;
    while i < parts.len()
        invariant
            i <= parts@.len(),
            joined == joined_parts(parts@),
            strings_view(seen@) == joined.subrange(0, i as int),
            distinct_and_nonempty(strings_view(seen@)),
        decreases parts@.len() - i,
    {
        let p = join_strings(&parts[i].0, &parts[i].1);
        assert(p@ == joined[i as int]);
        if char_count(p.as_str()) == 0 {
            assert(joined[i as int].len() == 0);
            assert(!distinct_and_nonempty(joined));
            return false;
        }
        if contains_string(&seen, &p) {
            proof {
                let k = choose|k: int| 0 <= k < strings_view(seen@).len() && strings_view(seen@)[k] == p@;
                assert(joined[k] == strings_view(seen@)[k]);
                assert(!distinct_and_nonempty(joined)) by {
                    assert(joined[k] == joined[i as int]);
                }
            }
            return false;
        }
        let ghost before = strings_view(seen@);
        seen.push(p);
        proof {
            let q = strings_view(seen@);
            assert(q =~= before.push(p@));
            assert(q =~= joined.subrange(0, i + 1));
            assert forall|a: int, b: int| #![trigger q[a], q[b]] 0 <= a < b < q.len() implies q[a]
                != q[b] by {
                if b == q.len() - 1 {
                    assert(q[a] == before[a]);
                    assert(before.contains(q[a]));
                } else {
                    assert(q[a] == before[a] && q[b] == before[b]);
                }
            }
            assert forall|a: int| 0 <= a < q.len() implies #[trigger] q[a].len() > 0 by {
                if a < q.len() - 1 {
                    assert(q[a] == before[a]);
                }
            }
        }
        i += 1;
    }
    assert(joined.subrange(0, i as int) =~= joined);
    let sup = join_strings(&seen[0], extra);
    assert(seen@[0]@ == joined[0]);
    !contains_string(&seen, &sup)
}

/// Builds a pattern set from drawn prefixes, suffixes and an extension.
pub fn assemble_pattern_set(parts: &Vec<(String, String)>, extra: &String) -> (r: Vec<String>)
    ensures
        strings_view(r@) == pattern_set(parts@, extra@),
        distinct_and_nonempty(strings_view(r@)),
        r@.len() >= 1,
        strings_view(r@).contains(r@[0]@ + extra@),
{
    let ghost joined = joined_parts(parts@);
    let mut patterns: Vec<String> = Vec::new();
    let mut i: usize = 0;
    while i < parts.len()
        invariant
            i <= parts@.len(),
            joined == joined_parts(parts@),
            strings_view(patterns@) == distinct_nonempty(joined.subrange(0, i as int)),
        decreases parts@.len() - i,
    {
        let pat = join_strings(&parts[i].0, &parts[i].1);
        let ghost before = strings_view(patterns@);
        proof {
            assert(joined.subrange(0, i + 1).drop_last() =~= joined.subrange(0, i as int));
            assert(joined.subrange(0, i + 1).last() == pat@);
        }
        if char_count(pat.as_str()) != 0 && !contains_string(&patterns, &pat) {
            patterns.push(pat);
            assert(strings_view(patterns@) =~= before.push(pat@));
        }
        i += 1;
    }
    assert(joined.subrange(0, i as int) =~= joined);
    if patterns.len() == 0 {
        let d = "abcd";
        proof {
            reveal_strlit("abcd");
        }
        let owned_d = d.to_owned();
        assert(owned_d@ =~= default_pattern());
        patterns.push(owned_d);
        assert(patterns@ =~= seq![owned_d]);
        assert(strings_view(patterns@) =~= seq![default_pattern()]);
    }
    let base = patterns[0].clone();
    let superstring = join_strings(&base, extra);
    if !contains_string(&patterns, &superstring) {
        let insert_at: usize = if patterns.len() < 1 {
            patterns.len()
        } else {
            1
        };
        let ghost before = strings_view(patterns@);
        patterns.insert(insert_at, superstring);
        assert(strings_view(patterns@) =~= before.insert(1, superstring@));
    }
    proof {
        lemma_pattern_set(parts@, extra@);
    }
    patterns
}

// --------------------------------------------------------------------
// Mixed haystacks

/// The character view of drawn haystack segments: a choice, a pick and a filler.
pub open spec fn segments_view(segs: Seq<(u8, usize, String)>) -> Seq<(u8, usize, Seq<char>)> {
    segs.map_values(|g: (u8, usize, String)| (g.0, g.1, g.2@))
}

/// The text of one segment: choice 0 copies the pattern at `pick` (modulo the
/// number of patterns; nothing if there are none), choice 1 the filler, any
/// other choice a space.
pub open spec fn mix_piece(ps: Seq<Seq<char>>, seg: (u8, usize, Seq<char>)) -> Seq<char> {
    if seg.0 == 0 {
        if ps.len() == 0 {
            seq![]
        } else {
            ps[(seg.1 % (ps.len() as usize)) as int]
        }
    } else if seg.0 == 1 {
        seg.2
    } else {
        seq![' ']
    }
}

/// The haystack made by concatenating the segments' texts.
pub open spec fn mix_haystack(ps: Seq<Seq<char>>, segs: Seq<(u8, usize, Seq<char>)>) -> Seq<char>
    decreases segs.len(),
{
    if segs.len() == 0 {
        seq![]
    } else {
        mix_haystack(ps, segs.drop_last()) + mix_piece(ps, segs.last())
    }
}

/// Builds a haystack from drawn segments over a pattern set.
pub fn assemble_mix_haystack(patterns: &Vec<String>, segments: &Vec<(u8, usize, String)>) -> (r:
    String)
    ensures
        r@ == mix_haystack(strings_view(patterns@), segments_view(segments@)),
{
    let ghost ps = strings_view(patterns@);
    let ghost segs = segments_view(segments@);
    let mut s = String::new();
    let mut i: usize = 0;
    while i < segments.len()
        invariant
            i <= segments@.len(),
            ps == strings_view(patterns@),
            segs == segments_view(segments@),
            s@ == mix_haystack(ps, segs.subrange(0, i as int)),
        decreases segments@.len() - i,
    {
        let ghost before = s@;
        let seg = &segments[i];
        proof {
            assert(segs.subrange(0, i + 1).drop_last() =~= segs.subrange(0, i as int));
            assert(segs.subrange(0, i + 1).last() == segs[i as int]);
        }
        if seg.0 == 0 {
            if patterns.len() != 0 {
                let idx = seg.1 % patterns.len();
                s.append(patterns[idx].as_str());
            } else {
                assert(s@ =~= before + seq![]);
            }
        } else if seg.0 == 1 {
            s.append(seg.2.as_str());
        } else {
            s.push(' ');
            assert(s@ =~= before + seq![' ']);
        }
        i += 1;
    }
    assert(segs.subrange(0, i as int) =~= segs);
    s
}

// --------------------------------------------------------------------
// Single-point mutations

/// The byte patterns with byte `bi` of pattern `pi` set to `b`; the number of
/// patterns and every length stay the same.
pub fn set_pattern_byte(v: Vec<Vec<u8>>, pi: usize, bi: usize, b: u8) -> (r: Vec<Vec<u8>>)
    requires
        pi < v@.len(),
        bi < v@[pi as int]@.len(),
    ensures
        r@.len() == v@.len(),
        forall|j: int| 0 <= j < v@.len() && j != pi ==> #[trigger] r@[j]@ == v@[j]@,
        r@[pi as int]@ == v@[pi as int]@.update(bi as int, b),
{
    let mut v = v;
    let mut inner = v[pi].clone();
    inner.set(bi, b);
    v.set(pi, inner);
    v
}

/// Setting character `ci` of pattern `pi` to `c` changes the pattern and
/// repeats no pattern of the set.
pub open spec fn change_fits(ps: Seq<Seq<char>>, pi: int, ci: int, c: char) -> bool {
    c != ps[pi][ci] && !ps.contains(ps[pi].update(ci, c))
}

/// The first character of `pool` whose change fits, if any.
pub open spec fn first_fit(ps: Seq<Seq<char>>, pi: int, ci: int, pool: Seq<char>) -> Option<char>
    decreases pool.len(),
{
    if pool.len() == 0 {
        None
    } else if change_fits(ps, pi, ci, pool[0]) {
        Some(pool[0])
    } else {
        first_fit(ps, pi, ci, pool.drop_first())
    }
}

/// The first fitting character is a character of the pool whose change fits,
/// and there is one whenever some character of the pool fits.
pub proof fn lemma_first_fit(ps: Seq<Seq<char>>, pi: int, ci: int, pool: Seq<char>)
    ensures
        first_fit(ps, pi, ci, pool) matches Some(c) ==> pool.contains(c) && change_fits(
            ps,
            pi,
            ci,
            c,
        ),
        (exists|c: char| pool.contains(c) && change_fits(ps, pi, ci, c)) ==> first_fit(
            ps,
            pi,
            ci,
            pool,
        ) is Some,
    decreases pool.len(),
{
    if pool.len() > 0 {
        let rest = pool.drop_first();
        lemma_first_fit(ps, pi, ci, rest);
        if let Some(c) = first_fit(ps, pi, ci, pool) {
            if !change_fits(ps, pi, ci, pool[0]) {
                assert(rest.contains(c));
                let k = choose|k: int| 0 <= k < rest.len() && rest[k] == c;
                assert(pool[k + 1] == c);
            }
        }
        if exists|c: char| pool.contains(c) && change_fits(ps, pi, ci, c) {
            let c = choose|c: char| pool.contains(c) && change_fits(ps, pi, ci, c);
            if !change_fits(ps, pi, ci, pool[0]) {
                let k = choose|k: int| 0 <= k < pool.len() && pool[k] == c;
                assert(k != 0);
                assert(rest[k - 1] == c);
                assert(rest.contains(c));
            }
        }
    }
}

/// With more distinct characters in the pool than patterns in the set, some
/// character of the pool changes character `ci` of pattern `pi` without
/// repeating a pattern: each other pattern rules out at most one character,
/// and the current character is the only other one ruled out.
pub proof fn lemma_fit_exists(ps: Seq<Seq<char>>, pi: int, ci: int, pool: Seq<char>)
    requires
        0 <= pi < ps.len(),
        0 <= ci < ps[pi].len(),
        pool.no_duplicates(),
        ps.len() < pool.len(),
    ensures
        exists|c: char| pool.contains(c) && change_fits(ps, pi, ci, c),
{
    broadcast use vstd::seq_lib::seq_to_set_is_finite;
    let cur = ps[pi][ci];
    let f = |c: char| ps[pi].update(ci, c);
    let cands = pool.to_set().remove(cur);
    pool.unique_seq_to_set();
    assert(cands.len() >= pool.len() - 1) by {
        if pool.to_set().contains(cur) {
            assert(cands.len() == pool.to_set().len() - 1);
        } else {
            assert(cands =~= pool.to_set());
        }
    }
    if !(exists|c: char| pool.contains(c) && change_fits(ps, pi, ci, c)) {
        let img = cands.map(f);
        assert(vstd::relations::injective_on(f, cands)) by {
            assert forall|a: char, b: char|
                cands.contains(a) && cands.contains(b) && #[trigger] f(a) == #[trigger] f(b) implies a
                == b by {
                assert(f(a)[ci] == a);
                assert(f(b)[ci] == b);
            }
        }
        vstd::set_lib::lemma_map_size(cands, img, f);
        let others = ps.to_set().remove(ps[pi]);
        assert(img.subset_of(others)) by {
            assert forall|y: Seq<char>| img.contains(y) implies others.contains(y) by {
                let c = choose|c: char| cands.contains(c) && y == f(c);
                assert(pool.contains(c));
                assert(!change_fits(ps, pi, ci, c));
                assert(ps.contains(y));
                assert(y[ci] == c);
                assert(y != ps[pi]);
            }
        }
        ps.lemma_cardinality_of_set();
        assert(ps.to_set().contains(ps[pi]));
        vstd::set_lib::lemma_len_subset(img, others);
        assert(false);
    }
}

/// Changing one character of one pattern in a set of distinct non-empty
/// patterns, where the change fits, leaves the patterns distinct and
/// non-empty.
pub proof fn lemma_fitting_change_keeps_distinct(ps: Seq<Seq<char>>, pi: int, ci: int, c: char)
    requires
        0 <= pi < ps.len(),
        0 <= ci < ps[pi].len(),
        distinct_and_nonempty(ps),
        change_fits(ps, pi, ci, c),
    ensures
        distinct_and_nonempty(ps.update(pi, ps[pi].update(ci, c))),
{
    let new_s = ps[pi].update(ci, c);
    let q = ps.update(pi, new_s);
    assert forall|i: int| 0 <= i < q.len() implies #[trigger] q[i].len() > 0 by {
        if i != pi {
            assert(q[i] == ps[i]);
        }
    }
    assert forall|i: int, j: int| #![trigger q[i], q[j]] 0 <= i < j < q.len() implies q[i] != q[j] by {
        if i == pi {
            assert(q[j] == ps[j]);
        } else if j == pi {
            assert(q[i] == ps[i]);
        } else {
            assert(q[i] == ps[i] && q[j] == ps[j]);
        }
    }
}

/// The pattern set with character `ci` of pattern `pi` changed to the first
/// character of `pool` that changes it without repeating a pattern of the
/// set; `None` when no character of the pool does. Exactly one character of
/// one pattern changes, distinct non-empty patterns stay so, and a pool of
/// more distinct characters than there are patterns always has such a
/// character.
#[verifier::loop_isolation(false)]
pub fn mutate_pattern_set(v: Vec<String>, pi: usize, ci: usize, pool: &Vec<char>) -> (r: Option<
    Vec<String>,
>)
    requires
        pi < v@.len(),
        ci < v@[pi as int]@.len(),
    ensures
        match first_fit(strings_view(v@), pi as int, ci as int, pool@) {
            Some(c) => r matches Some(w) && strings_view(w@) == strings_view(v@).update(
                pi as int,
                v@[pi as int]@.update(ci as int, c),
            ),
            None => r is None,
        },
        first_fit(strings_view(v@), pi as int, ci as int, pool@) matches Some(c) ==> pool@.contains(
            c,
        ) && change_fits(strings_view(v@), pi as int, ci as int, c),
        distinct_and_nonempty(strings_view(v@)) ==> (r matches Some(w) ==> distinct_and_nonempty(
            strings_view(w@),
        )),
        pool@.no_duplicates() && v@.len() < pool@.len() ==> r is Some,
{
    let ghost ps = strings_view(v@);
    proof {
        lemma_first_fit(ps, pi as int, ci as int, pool@);
        if pool@.no_duplicates() && v@.len() < pool@.len() {
            lemma_fit_exists(ps, pi as int, ci as int, pool@);
        }
        if let Some(c) = first_fit(ps, pi as int, ci as int, pool@) {
            if distinct_and_nonempty(ps) {
                lemma_fitting_change_keeps_distinct(ps, pi as int, ci as int, c);
            }
        }
        assert(ps[pi as int] == v@[pi as int]@);
        assert(pool@.skip(0) =~= pool@);
    }
    let cur = v[pi].as_str().get_char(ci);
    let mut v = v;
    let mut j: usize = 0;
    while j < pool.len()
        invariant
            ps == strings_view(v@),
            pi < v@.len(),
            ci < v@[pi as int]@.len(),
            cur == ps[pi as int][ci as int],
            j <= pool@.len(),
            first_fit(ps, pi as int, ci as int, pool@) == first_fit(
                ps,
                pi as int,
                ci as int,
                pool@.skip(j as int),
            ),
        decreases pool@.len() - j,
    {
        let c = pool[j];
        let ghost rest = pool@.skip(j as int);
        assert(rest[0] == c);
        assert(rest.drop_first() =~= pool@.skip(j + 1));
        if c != cur {
            let new_s = replace_char_at(v[pi].as_str(), ci, c);
            if !contains_string(&v, &new_s) {
                assert(new_s@ == ps[pi as int].update(ci as int, c));
                assert(change_fits(ps, pi as int, ci as int, c));
                assert(first_fit(ps, pi as int, ci as int, rest) == Some(c));
                v.set(pi, new_s);
                assert(strings_view(v@) =~= ps.update(pi as int, ps[pi as int].update(ci as int, c)));
                return Some(v);
            }
        }
        j += 1;
    }
    assert(pool@.skip(j as int) =~= Seq::<char>::empty());
    None
}

// --------------------------------------------------------------------
// Shrinking

/// A candidate input of the parity property: patterns and haystack.
pub open spec fn candidate_view(c: (Vec<String>, String)) -> (Seq<Seq<char>>, Seq<char>) {
    (strings_view(c.0@), c.1@)
}

/// The candidates that drop one pattern, while more than two remain.
pub open spec fn pattern_removals(ps: Seq<Seq<char>>, h: Seq<char>) -> Seq<(Seq<Seq<char>>, Seq<char>)> {
    if ps.len() > 2 {
        Seq::new(ps.len(), |i: int| (ps.remove(i), h))
    } else {
        seq![]
    }
}

/// The candidates that drop one haystack character, while more than one remains.
pub open spec fn char_removals(ps: Seq<Seq<char>>, h: Seq<char>) -> Seq<(Seq<Seq<char>>, Seq<char>)> {
    if h.len() > 1 {
        Seq::new(h.len(), |i: int| (ps, h.remove(i)))
    } else {
        seq![]
    }
}

/// The candidates that drop the last character of one of the first `k`
/// patterns, for each such pattern longer than one character.
pub open spec fn truncations(ps: Seq<Seq<char>>, h: Seq<char>, k: int) -> Seq<(Seq<Seq<char>>, Seq<char>)>
    decreases k,
{
    if k <= 0 {
        seq![]
    } else {
        truncations(ps, h, k - 1) + if ps[k - 1].len() > 1 {
            seq![(ps.update(k - 1, ps[k - 1].drop_last()), h)]
        } else {
            seq![]
        }
    }
}

/// All shrink candidates, in the order they are tried.
pub open spec fn shrink_candidates(ps: Seq<Seq<char>>, h: Seq<char>) -> Seq<(Seq<Seq<char>>, Seq<char>)> {
    pattern_removals(ps, h) + char_removals(ps, h) + truncations(ps, h, ps.len() as int)
}

/// Strictly smaller inputs to try after the parity property failed on
/// `(patterns, haystack)`.
pub fn shrink_find_iter(patterns: &Vec<String>, haystack: &String) -> (r: Vec<(Vec<String>, String)>)
    ensures
        r@.map_values(|c: (Vec<String>, String)| candidate_view(c)) == shrink_candidates(
            strings_view(patterns@),
            haystack@,
        ),
{
    let ghost ps = strings_view(patterns@);
    let ghost h = haystack@;
    let mut out: Vec<(Vec<String>, String)> = Vec::new();

    // 1. Remove one pattern (keep at least two).
    if patterns.len() > 2 {
        let mut i: usize = 0;
        while i < patterns.len()
            invariant
                ps == strings_view(patterns@),
                h == haystack@,
                ps.len() > 2,
                i <= ps.len(),
                out@.len() == i,
                out@.map_values(|c: (Vec<String>, String)| candidate_view(c)) =~= Seq::new(
                    i as nat,
                    |j: int| (ps.remove(j), h),
                ),
            decreases ps.len() - i,
        {
            let mut v = clone_strings(patterns);
            let ghost before = out@;
            let ghost vv = strings_view(v@);
            v.remove(i);
            assert(strings_view(v@) =~= vv.remove(i as int));
            let hc = haystack.clone();
            let ghost cand = (v, hc);
            out.push((v, hc));
            assert(out@ == before.push(cand));
            assert(candidate_view(cand) == (ps.remove(i as int), h));
            assert(out@.map_values(|c: (Vec<String>, String)| candidate_view(c)) =~= before.map_values(
                |c: (Vec<String>, String)| candidate_view(c),
            ).push(candidate_view(cand)));
            i += 1;
        }
    }
    let ghost after1 = out@.map_values(|c: (Vec<String>, String)| candidate_view(c));
    assert(after1 =~= pattern_removals(ps, h));

    // 2. Remove one character from the haystack.
    let n = char_count(haystack.as_str());
    if n > 1 {
        let mut i: usize = 0;
        while i < n
            invariant
                ps == strings_view(patterns@),
                h == haystack@,
                n == h.len(),
                n > 1,
                i <= n,
                after1 == pattern_removals(ps, h),
                out@.len() == after1.len() + i,
                out@.map_values(|c: (Vec<String>, String)| candidate_view(c)) =~= after1 + Seq::new(
                    i as nat,
                    |j: int| (ps, h.remove(j)),
                ),
            decreases n - i,
        {
            let cs = remove_char_at(haystack.as_str(), i);
            let ghost before = out@;
            let pc = clone_strings(patterns);
            let ghost cand = (pc, cs);
            out.push((pc, cs));
            assert(out@ == before.push(cand));
            assert(candidate_view(cand) == (ps, h.remove(i as int)));
            assert(out@.map_values(|c: (Vec<String>, String)| candidate_view(c)) =~= before.map_values(
                |c: (Vec<String>, String)| candidate_view(c),
            ).push(candidate_view(cand)));
            i += 1;
        }
    }
    let ghost after2 = out@.map_values(|c: (Vec<String>, String)| candidate_view(c));
    assert(after2 =~= pattern_removals(ps, h) + char_removals(ps, h));

    // 3. Drop the last character of one pattern (keep each at least one character).
    let mut i: usize = 0;
    while i < patterns.len()
        invariant
            ps == strings_view(patterns@),
            h == haystack@,
            i <= ps.len(),
            after2 == pattern_removals(ps, h) + char_removals(ps, h),
            out@.map_values(|c: (Vec<String>, String)| candidate_view(c)) =~= after2 + truncations(
                ps,
                h,
                i as int,
            ),
        decreases ps.len() - i,
    {
        let plen = char_count(patterns[i].as_str());
        if plen > 1 {
            let mut v = clone_strings(patterns);
            let shorter = without_last_char(patterns[i].as_str());
            let ghost vv = strings_view(v@);
            let ghost before = out@;
            if char_count(shorter.as_str()) != 0 {
                v.set(i, shorter);
                assert(strings_view(v@) =~= vv.update(i as int, ps[i as int].drop_last()));
                let hc = haystack.clone();
                let ghost cand = (v, hc);
                out.push((v, hc));
                assert(out@ == before.push(cand));
                assert(candidate_view(cand) == (ps.update(i as int, ps[i as int].drop_last()), h));
                assert(out@.map_values(|c: (Vec<String>, String)| candidate_view(c)) =~= before.map_values(
                    |c: (Vec<String>, String)| candidate_view(c),
                ).push(candidate_view(cand)));
                assert(truncations(ps, h, i + 1) =~= truncations(ps, h, i as int).push(
                    candidate_view(cand),
                ));
            }
        } else {
            assert(truncations(ps, h, i + 1) =~= truncations(ps, h, i as int));
        }
        i += 1;
    }
    out
}

} // verus!
