//! Facts about UTF-8 text used by the string-producing functions.

use vstd::prelude::*;
use vstd::string::StringSliceAdditionalSpecFns;
use vstd::utf8::{
    encode_utf8, valid_utf8, is_char_boundary, valid_utf8_split, encode_utf8_valid_utf8,
    is_char_boundary_start_end_of_seq, is_char_boundary_iff_not_is_continuation_byte,
    encode_utf8_decode_utf8,
};

verus! {

/// Encoding a concatenation encodes each part in turn.
pub proof fn lemma_encode_concat(a: Seq<char>, b: Seq<char>)
    ensures
        encode_utf8(a + b) == encode_utf8(a) + encode_utf8(b),
    decreases a.len(),
{
    if a.len() == 0 {
        assert(a + b =~= b);
        assert(encode_utf8(a) =~= Seq::<u8>::empty());
        assert(encode_utf8(a) + encode_utf8(b) =~= encode_utf8(b));
    } else {
        assert((a + b).drop_first() =~= a.drop_first() + b);
        lemma_encode_concat(a.drop_first(), b);
        assert((a + b)[0] == a[0]);
        assert(encode_utf8(a + b) =~= encode_utf8(a) + encode_utf8(b));
    }
}

/// Encoding is injective.
pub proof fn lemma_encode_injective(a: Seq<char>, b: Seq<char>)
    requires
        encode_utf8(a) == encode_utf8(b),
    ensures
        a == b,
{
    encode_utf8_decode_utf8(a);
    encode_utf8_decode_utf8(b);
}

/// The bytes of a string slice are valid UTF-8.
pub proof fn lemma_str_valid(s: &str)
    ensures
        valid_utf8(s.spec_bytes()),
{
    encode_utf8_valid_utf8(s@);
}

/// A character boundary at or before `b` is still one in the prefix that ends at `b`.
pub proof fn lemma_boundary_in_prefix(bytes: Seq<u8>, a: int, b: int)
    requires
        valid_utf8(bytes),
        0 <= a <= b <= bytes.len(),
        is_char_boundary(bytes, a),
        is_char_boundary(bytes, b),
    ensures
        valid_utf8(bytes.subrange(0, b)),
        is_char_boundary(bytes.subrange(0, b), a),
{
    valid_utf8_split(bytes, b);
    let prefix = bytes.subrange(0, b);
    is_char_boundary_start_end_of_seq(prefix);
    if a < b {
        is_char_boundary_iff_not_is_continuation_byte(bytes, a);
        is_char_boundary_iff_not_is_continuation_byte(prefix, a);
        assert(prefix[a] == bytes[a]);
    }
}

/// The part of `s` between two character boundaries.
pub fn substring(s: &str, a: usize, b: usize) -> (r: &str)
    requires
        a <= b <= s.spec_bytes().len(),
        is_char_boundary(s.spec_bytes(), a as int),
        is_char_boundary(s.spec_bytes(), b as int),
    ensures
        r.spec_bytes() == s.spec_bytes().subrange(a as int, b as int),
{
    proof {
        lemma_str_valid(s);
        lemma_boundary_in_prefix(s.spec_bytes(), a as int, b as int);
    }
    let (left, _) = s.split_at(b);
    proof {
        assert(left.spec_bytes() =~= s.spec_bytes().subrange(0, b as int));
    }
    let (_, mid) = left.split_at(a);
    proof {
        assert(mid.spec_bytes() =~= s.spec_bytes().subrange(a as int, b as int));
    }
    mid
}

/// Appends `piece` to `dst`; the encoding grows by the encoding of `piece`.
pub fn push_piece(dst: &mut String, piece: &str)
    ensures
        final(dst)@ == old(dst)@ + piece@,
        encode_utf8(final(dst)@) == encode_utf8(old(dst)@) + piece.spec_bytes(),
{
    dst.append(piece);
    proof {
        lemma_encode_concat(old(dst)@, piece@);
    }
}

} // verus!
