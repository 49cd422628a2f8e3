//! UTF-8 facts used when code works on the bytes of a `&str`: ASCII bytes end characters, slices
//! between character boundaries, and the conversion of a byte buffer back into a `String`.
use vstd::prelude::*;
use vstd::utf8::*;
use vstd::string::*;

verus! {

broadcast use vstd::seq::group_seq_axioms;

/// In valid UTF-8, a continuation byte always follows a non-ASCII byte.
pub proof fn lemma_continuation_follows_non_ascii(bytes: Seq<u8>, i: int)
    requires
        valid_utf8(bytes),
        0 <= i < bytes.len(),
        is_continuation_byte(bytes[i]),
    ensures
        i > 0,
        bytes[i - 1] >= 0x80,
    decreases bytes.len(),
{
    reveal_with_fuel(valid_utf8, 2);
    let l = length_of_first_scalar(bytes);
    let tail = pop_first_scalar(bytes);
    assert(tail.len() == bytes.len() - l);
    if i < l {
        assert(i != 0);
    } else if i == l {
        assert(tail[0] == bytes[i]);
        reveal_with_fuel(valid_utf8, 2);
        assert(!is_continuation_byte(tail[0]));
    } else {
        assert(tail[i - l] == bytes[i]);
        lemma_continuation_follows_non_ascii(tail, i - l);
        assert(tail[i - l - 1] == bytes[i - 1]);
    }
}

/// The position just after an ASCII byte is a character boundary.
pub proof fn lemma_boundary_after_ascii(bytes: Seq<u8>, i: int)
    requires
        valid_utf8(bytes),
        0 < i <= bytes.len(),
        bytes[i - 1] < 0x80,
    ensures
        is_char_boundary(bytes, i),
{
    if i == bytes.len() {
        is_char_boundary_start_end_of_seq(bytes);
    } else {
        is_char_boundary_iff_not_is_continuation_byte(bytes, i);
        if is_continuation_byte(bytes[i]) {
            lemma_continuation_follows_non_ascii(bytes, i);
        }
    }
}

/// The position of an ASCII byte is a character boundary.
pub proof fn lemma_boundary_at_ascii(bytes: Seq<u8>, i: int)
    requires
        valid_utf8(bytes),
        0 <= i < bytes.len(),
        bytes[i] < 0x80,
    ensures
        is_char_boundary(bytes, i),
{
    is_char_boundary_iff_not_is_continuation_byte(bytes, i);
}

/// A boundary of `bytes` at or after `a` is a boundary of `bytes[a..]`.
pub proof fn lemma_boundary_in_suffix(bytes: Seq<u8>, a: int, b: int)
    requires
        valid_utf8(bytes),
        0 <= a <= b <= bytes.len(),
        is_char_boundary(bytes, a),
        is_char_boundary(bytes, b),
    ensures
        valid_utf8(bytes.subrange(a, bytes.len() as int)),
        is_char_boundary(bytes.subrange(a, bytes.len() as int), b - a),
{
    let rest = bytes.subrange(a, bytes.len() as int);
    valid_utf8_split(bytes, a);
    if b == bytes.len() {
        is_char_boundary_start_end_of_seq(rest);
    } else {
        is_char_boundary_iff_not_is_continuation_byte(bytes, b);
        is_char_boundary_iff_not_is_continuation_byte(rest, b - a);
        assert(rest[b - a] == bytes[b]);
    }
}

/// The characters whose UTF-8 bytes are `bytes[a..b]`, for character boundaries `a <= b`.
pub open spec fn chars_between(bytes: Seq<u8>, a: int, b: int) -> Seq<char> {
    decode_utf8(bytes.subrange(a, b))
}

/// `&s[a..b]`: the slice between two character boundaries.
pub fn substr(s: &str, a: usize, b: usize) -> (r: &str)
    requires
        a <= b <= s.spec_bytes().len(),
        is_char_boundary(s.spec_bytes(), a as int),
        is_char_boundary(s.spec_bytes(), b as int),
    ensures
        r.spec_bytes() == s.spec_bytes().subrange(a as int, b as int),
        r@ == chars_between(s.spec_bytes(), a as int, b as int),
        valid_utf8(s.spec_bytes().subrange(a as int, b as int)),
{
    proof {
        encode_utf8_valid_utf8(s@);
        lemma_boundary_in_suffix(s.spec_bytes(), a as int, b as int);
    }
    let (_, rest) = s.split_at(a);
    let (mid, _) = rest.split_at(b - a);
    proof {
        assert(mid.spec_bytes() =~= s.spec_bytes().subrange(a as int, b as int));
        encode_utf8_decode_utf8(mid@);
        encode_utf8_valid_utf8(mid@);
    }
    mid
}

/// The string whose UTF-8 encoding is `v`, through std's `String::from_utf8`. Trusted: the call
/// succeeds exactly when `v` is valid UTF-8, and then the string's encoding is `v`.
#[verifier::external_body]
pub(crate) fn string_from_utf8(v: Vec<u8>) -> (r: Option<String>)
    ensures
        r is Some <==> valid_utf8(v@),
        r matches Some(s) ==> encode_utf8(s@) == v@,
{
    String::from_utf8(v).ok()
}

/// ASCII bytes are valid UTF-8 and decode one character per byte, with the same code.
pub proof fn lemma_decode_ascii(bytes: Seq<u8>)
    requires
        forall|i: int| 0 <= i < bytes.len() ==> #[trigger] bytes[i] < 0x80,
    ensures
        valid_utf8(bytes),
        decode_utf8(bytes).len() == bytes.len(),
        forall|i: int| 0 <= i < bytes.len() ==> #[trigger] decode_utf8(bytes)[i] as u32 == bytes[i]
            as u32,
    decreases bytes.len(),
{
    reveal_with_fuel(valid_utf8, 2);
    reveal_with_fuel(decode_utf8, 2);
    if bytes.len() > 0 {
        let b0 = bytes[0];
        assert(b0 < 0x80);
        assert((b0 & 0x7F) as u32 == b0 as u32) by (bit_vector)
            requires
                b0 < 0x80,
        ;
        let tail = bytes.subrange(1, bytes.len() as int);
        assert(pop_first_scalar(bytes) == tail);
        assert forall|i: int| 0 <= i < tail.len() implies #[trigger] tail[i] < 0x80 by {
            assert(tail[i] == bytes[i + 1]);
        }
        lemma_decode_ascii(tail);
        let d = decode_utf8(bytes);
        assert(d == seq![decode_first_scalar(bytes) as char] + decode_utf8(tail));
        assert forall|i: int| 0 <= i < bytes.len() implies #[trigger] d[i] as u32 == bytes[i]
            as u32 by {
            if i > 0 {
                assert(d[i] == decode_utf8(tail)[i - 1]);
                assert(tail[i - 1] == bytes[i]);
            }
        }
    }
}

/// Valid bytes between boundaries `x <= y <= z`: the slice is valid and `y` is a boundary in it.
pub proof fn lemma_sub_boundary(b: Seq<u8>, x: int, y: int, z: int)
    requires
        valid_utf8(b),
        0 <= x <= y <= z <= b.len(),
        is_char_boundary(b, x),
        is_char_boundary(b, y),
        is_char_boundary(b, z),
    ensures
        valid_utf8(b.subrange(x, z)),
        is_char_boundary(b.subrange(x, z), y - x),
{
    let rest = b.subrange(x, b.len() as int);
    lemma_boundary_in_suffix(b, x, y);
    lemma_boundary_in_suffix(b, x, z);
    valid_utf8_split(rest, z - x);
    let sub = rest.subrange(0, z - x);
    assert(sub =~= b.subrange(x, z));
    if y == z {
        is_char_boundary_start_end_of_seq(sub);
    } else {
        is_char_boundary_iff_not_is_continuation_byte(rest, y - x);
        is_char_boundary_iff_not_is_continuation_byte(sub, y - x);
    }
}

/// Decoding the bytes between boundaries splits at any boundary in between.
pub proof fn lemma_chars_between_split(b: Seq<u8>, x: int, y: int, z: int)
    requires
        valid_utf8(b),
        0 <= x <= y <= z <= b.len(),
        is_char_boundary(b, x),
        is_char_boundary(b, y),
        is_char_boundary(b, z),
    ensures
        chars_between(b, x, z) == chars_between(b, x, y) + chars_between(b, y, z),
{
    lemma_sub_boundary(b, x, y, z);
    let sub = b.subrange(x, z);
    decode_utf8_split(sub, y - x);
    assert(sub.subrange(0, y - x) =~= b.subrange(x, y));
    assert(sub.subrange(y - x, sub.len() as int) =~= b.subrange(y, z));
}

/// The bytes of the characters between two boundaries are the bytes between them.
pub proof fn lemma_chars_between_bytes(b: Seq<u8>, x: int, z: int)
    requires
        valid_utf8(b),
        0 <= x <= z <= b.len(),
        is_char_boundary(b, x),
        is_char_boundary(b, z),
    ensures
        encode_utf8(chars_between(b, x, z)) == b.subrange(x, z),
        encode_utf8(chars_between(b, x, z)).len() == z - x,
{
    lemma_sub_boundary(b, x, x, z);
    decode_utf8_encode_utf8(b.subrange(x, z));
}

/// A newline character is encoded as the byte 10.
pub proof fn lemma_encoded_newline(c: Seq<char>, i: int)
    requires
        0 <= i < c.len(),
        c[i] == '\n',
    ensures
        exists|j: int| 0 <= j < encode_utf8(c).len() && encode_utf8(c)[j] == 10,
    decreases c.len(),
{
    let head = encode_scalar(c[0] as u32);
    let rest = c.drop_first();
    assert(encode_utf8(c) == head + encode_utf8(rest));
    if i == 0 {
        assert(((10u32 & 0x7F) as u8) == 10u8) by (bit_vector);
        assert(head == seq![10u8]);
        assert(encode_utf8(c)[0] == 10);
    } else {
        lemma_encoded_newline(rest, i - 1);
        let j = choose|j: int| 0 <= j < encode_utf8(rest).len() && encode_utf8(rest)[j] == 10;
        assert(encode_utf8(c)[head.len() + j] == 10);
    }
}

} // verus!
