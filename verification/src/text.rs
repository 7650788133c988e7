//! Characters and bytes: where the characters of a text lie in its UTF-8
//! encoding, and how to walk that encoding character by character.

use vstd::prelude::*;
use vstd::string::StringSliceAdditionalSpecFns;
use vstd::utf8::{
    decode_first_scalar, decode_utf8, encode_scalar, encode_utf8, encode_utf8_decode_utf8,
    encode_utf8_first_scalar, encode_utf8_valid_utf8, is_char_boundary,
    is_char_boundary_iff_not_is_continuation_byte, is_char_boundary_start_end_of_seq,
    is_continuation_byte, is_scalar, length_of_first_scalar, valid_first_scalar,
    char_is_scalar, char_u32_cast,
};

verus! {

/// The number of bytes that a character takes in UTF-8.
pub open spec fn char_width(c: char) -> int {
    let code = c as u32;
    if code < 0x80 {
        1
    } else if code < 0x800 {
        2
    } else if code < 0x1_0000 {
        3
    } else {
        4
    }
}

/// The number of bytes that the first `i` characters of `s` take in UTF-8:
/// the byte offset of the character with index `i`.
pub open spec fn byte_offset(s: Seq<char>, i: int) -> int
    decreases i,
{
    if i <= 0 {
        0
    } else {
        byte_offset(s, i - 1) + char_width(s[i - 1])
    }
}

/// The number of bytes that the characters from index `i` up to index `j` take.
pub open spec fn span_width(s: Seq<char>, i: int, j: int) -> int {
    byte_offset(s, j) - byte_offset(s, i)
}

/// The width that a leading byte announces.
pub open spec fn lead_width_of(b: u8) -> int {
    if b < 0x80 {
        1
    } else if b < 0xe0 {
        2
    } else if b < 0xf0 {
        3
    } else {
        4
    }
}

/// What the first byte of a character's encoding tells about the character:
/// the two are ASCII together, the byte is the character where they are, and
/// the byte announces the character's width.
pub open spec fn is_lead_of(b: u8, c: char) -> bool {
    &&& b < 0x80 <==> (c as u32) < 0x80
    &&& b < 0x80 ==> c == b as char
    &&& char_width(c) == lead_width_of(b)
}

// ---------------------------------------------------------------------------
// Byte offsets by themselves
// ---------------------------------------------------------------------------

/// Every character takes at least one byte, so offsets grow with the index.
pub proof fn lemma_offset_grows(s: Seq<char>, i: int, j: int)
    requires
        0 <= i <= j,
    ensures
        byte_offset(s, i) + (j - i) <= byte_offset(s, j),
        0 <= byte_offset(s, i),
    decreases j,
{
    if i < j {
        lemma_offset_grows(s, i, j - 1);
    } else if i > 0 {
        lemma_offset_grows(s, 0, i - 1);
        lemma_offset_grows(s, i - 1, i - 1);
    }
}

/// Offsets tell indices apart.
pub proof fn lemma_offset_order(s: Seq<char>, i: int, j: int)
    requires
        0 <= i,
        0 <= j,
    ensures
        i < j <==> byte_offset(s, i) < byte_offset(s, j),
        i == j <==> byte_offset(s, i) == byte_offset(s, j),
{
    if i < j {
        lemma_offset_grows(s, i, j);
    } else if j < i {
        lemma_offset_grows(s, j, i);
    }
}

/// Offsets depend only on the characters before the index.
pub proof fn lemma_offset_of_prefix(s: Seq<char>, t: Seq<char>, i: int)
    requires
        0 <= i <= s.len(),
        i <= t.len(),
        forall|k: int| 0 <= k < i ==> s[k] == t[k],
    ensures
        byte_offset(s, i) == byte_offset(t, i),
    decreases i,
{
    if i > 0 {
        lemma_offset_of_prefix(s, t, i - 1);
    }
}

/// Offsets in a suffix are offsets in the whole text, less the offset of the
/// suffix.
pub proof fn lemma_offset_of_suffix(s: Seq<char>, i: int, j: int)
    requires
        0 <= i <= j <= s.len(),
    ensures
        byte_offset(s.skip(i), j - i) == byte_offset(s, j) - byte_offset(s, i),
    decreases j,
{
    if i < j {
        lemma_offset_of_suffix(s, i, j - 1);
        assert(s.skip(i)[j - i - 1] == s[j - 1]);
    }
}

// ---------------------------------------------------------------------------
// Byte offsets and the encoding
// ---------------------------------------------------------------------------

/// The width of a character is the length of its encoding.
pub proof fn lemma_width_is_encoded_len(c: char)
    ensures
        char_width(c) == encode_scalar(c as u32).len(),
{
    char_is_scalar(c);
}

/// The encoding of a concatenation is the concatenation of the encodings.
pub proof fn lemma_encode_concat(a: Seq<char>, b: Seq<char>)
    ensures
        encode_utf8(a + b) == encode_utf8(a) + encode_utf8(b),
    decreases a.len(),
{
    if a.len() == 0 {
        assert(a + b =~= b);
        assert(encode_utf8(a) + encode_utf8(b) =~= encode_utf8(b));
    } else {
        lemma_encode_concat(a.drop_first(), b);
        assert((a + b).drop_first() =~= a.drop_first() + b);
        assert((a + b)[0] == a[0]);
        assert(encode_utf8(a + b) =~= encode_utf8(a) + encode_utf8(b));
    }
}

/// The byte offset of an index is the length of the encoding of what lies
/// before it.
pub proof fn lemma_offset_is_encoded_len(s: Seq<char>, i: int)
    requires
        0 <= i <= s.len(),
    ensures
        byte_offset(s, i) == encode_utf8(s.take(i)).len(),
    decreases i,
{
    if i > 0 {
        lemma_offset_is_encoded_len(s, i - 1);
        let one = seq![s[i - 1]];
        assert(s.take(i) =~= s.take(i - 1) + one);
        lemma_encode_concat(s.take(i - 1), one);
        assert(one.drop_first() =~= Seq::<char>::empty());
        assert(encode_utf8(Seq::<char>::empty()) =~= Seq::<u8>::empty());
        assert(one[0] == s[i - 1]);
        assert(encode_utf8(one) =~= encode_scalar(s[i - 1] as u32));
        lemma_width_is_encoded_len(s[i - 1]);
    } else {
        assert(s.take(0) =~= Seq::<char>::empty());
    }
}

/// Cutting the encoding at the byte offset of an index gives the encodings
/// of the two parts of the text.
pub proof fn lemma_encode_split(s: Seq<char>, i: int)
    requires
        0 <= i <= s.len(),
    ensures
        byte_offset(s, i) <= encode_utf8(s).len(),
        encode_utf8(s).subrange(0, byte_offset(s, i)) == encode_utf8(s.take(i)),
        encode_utf8(s).subrange(byte_offset(s, i), encode_utf8(s).len() as int) == encode_utf8(
            s.skip(i),
        ),
{
    lemma_offset_is_encoded_len(s, i);
    lemma_encode_concat(s.take(i), s.skip(i));
    assert(s =~= s.take(i) + s.skip(i));
    let whole = encode_utf8(s.take(i)) + encode_utf8(s.skip(i));
    assert(whole.subrange(0, byte_offset(s, i)) =~= encode_utf8(s.take(i)));
    assert(whole.subrange(byte_offset(s, i), whole.len() as int) =~= encode_utf8(s.skip(i)));
}

/// The whole encoding has the length that the offset of the end gives.
pub proof fn lemma_encoded_len(s: Seq<char>)
    ensures
        encode_utf8(s).len() == byte_offset(s, s.len() as int),
{
    lemma_offset_is_encoded_len(s, s.len() as int);
    assert(s.take(s.len() as int) =~= s);
}

/// What the byte at the offset of a character tells about that character:
/// whether it is ASCII, which one if it is, and how wide it is if not.
pub proof fn lemma_lead_byte(s: Seq<char>, i: int)
    requires
        0 <= i < s.len(),
    ensures
        0 <= byte_offset(s, i),
        byte_offset(s, i) + char_width(s[i]) <= encode_utf8(s).len(),
        ({
            let b = encode_utf8(s)[byte_offset(s, i)];
            &&& b < 0x80 <==> (s[i] as u32) < 0x80
            &&& b < 0x80 ==> s[i] == b as char
            &&& !is_continuation_byte(b)
            &&& char_width(s[i]) == lead_width_of(b)
        }),
{
    let bytes = encode_utf8(s);
    let k = byte_offset(s, i);
    let rest = s.skip(i);
    lemma_offset_grows(s, 0, i);
    lemma_encode_split(s, i);
    lemma_encode_split(s, i + 1);
    lemma_encoded_len(s);
    lemma_offset_grows(s, i + 1, s.len() as int);
    encode_utf8_first_scalar(rest);
    lemma_width_is_encoded_len(s[i]);
    let tail = encode_utf8(rest);
    assert(rest[0] == s[i]);
    assert(tail == bytes.subrange(k, bytes.len() as int));
    assert(tail.len() == bytes.len() - k);
    assert(valid_first_scalar(tail));
    assert(tail[0] == bytes[k]);
    let b = bytes[k];
    assert(length_of_first_scalar(tail) == char_width(s[i]));
    if b < 0x80 {
        assert(decode_first_scalar(tail) == (b & 0x7f) as u32);
        assert(b & 0x7f == b) by (bit_vector)
            requires
                b < 0x80,
        ;
        char_u32_cast(s[i], s[i] as u32);
    }
}

/// A text begins with another where the encoding of the one begins with the
/// encoding of the other, and only there.
pub proof fn lemma_prefix_by_bytes(p: Seq<char>, s: Seq<char>)
    ensures
        p.is_prefix_of(s) <==> encode_utf8(p).is_prefix_of(encode_utf8(s)),
    decreases p.len(),
{
    let bp = encode_utf8(p);
    let bs = encode_utf8(s);
    if p.is_prefix_of(s) {
        let tail = s.skip(p.len() as int);
        assert(s =~= p + tail);
        lemma_encode_concat(p, tail);
        assert(bp =~= bs.subrange(0, bp.len() as int));
    }
    if bp.is_prefix_of(bs) {
        if p.len() == 0 {
            assert(p =~= s.subrange(0, 0));
        } else {
            lemma_width_is_encoded_len(p[0]);
            assert(bp.len() >= 1);
            assert(s.len() > 0) by {
                if s.len() == 0 {
                    assert(bs.len() == 0);
                }
            }
            encode_utf8_first_scalar(p);
            encode_utf8_first_scalar(s);
            lemma_width_is_encoded_len(s[0]);
            let w = char_width(p[0]);
            assert(bp.len() >= w);
            assert(forall|k: int| 0 <= k < bp.len() ==> bp[k] == bs.subrange(0, bp.len() as int)[k]);
            assert(bp[0] == bs[0]);
            assert(char_width(s[0]) == w);
            if w >= 2 {
                assert(bp[1] == bs[1]);
            }
            if w >= 3 {
                assert(bp[2] == bs[2]);
            }
            if w >= 4 {
                assert(bp[3] == bs[3]);
            }
            assert(decode_first_scalar(bp) == decode_first_scalar(bs));
            char_u32_cast(p[0], p[0] as u32);
            char_u32_cast(s[0], s[0] as u32);
            assert(p[0] == s[0]);
            let pt = p.drop_first();
            let st = s.drop_first();
            assert(encode_utf8(pt) =~= bp.subrange(w, bp.len() as int));
            assert(encode_utf8(st) =~= bs.subrange(w, bs.len() as int));
            assert(encode_utf8(pt) =~= encode_utf8(st).subrange(0, encode_utf8(pt).len() as int));
            lemma_prefix_by_bytes(pt, st);
            assert(p =~= s.subrange(0, p.len() as int)) by {
                assert forall|k: int| 0 <= k < p.len() implies p[k] == s[k] by {
                    if k > 0 {
                        assert(pt[k - 1] == st.subrange(0, pt.len() as int)[k - 1]);
                    }
                }
            }
        }
    }
}

/// The byte offset of every index is a character boundary of the encoding.
pub proof fn lemma_offset_is_boundary(s: Seq<char>, i: int)
    requires
        0 <= i <= s.len(),
    ensures
        0 <= byte_offset(s, i) <= encode_utf8(s).len(),
        is_char_boundary(encode_utf8(s), byte_offset(s, i)),
{
    let bytes = encode_utf8(s);
    encode_utf8_valid_utf8(s);
    lemma_offset_grows(s, 0, i);
    lemma_encode_split(s, i);
    if i == s.len() {
        lemma_encoded_len(s);
        is_char_boundary_start_end_of_seq(bytes);
    } else {
        lemma_lead_byte(s, i);
        is_char_boundary_iff_not_is_continuation_byte(bytes, byte_offset(s, i));
    }
}

/// The bytes between the offsets of two indices decode to the characters
/// between the two indices.
pub proof fn lemma_decode_between(s: Seq<char>, i: int, j: int)
    requires
        0 <= i <= j <= s.len(),
    ensures
        0 <= byte_offset(s, i) <= byte_offset(s, j) <= encode_utf8(s).len(),
        encode_utf8(s).subrange(byte_offset(s, i), byte_offset(s, j)) == encode_utf8(
            s.subrange(i, j),
        ),
        decode_utf8(encode_utf8(s).subrange(byte_offset(s, i), byte_offset(s, j))) == s.subrange(
            i,
            j,
        ),
{
    let bytes = encode_utf8(s);
    lemma_offset_grows(s, 0, i);
    lemma_offset_grows(s, i, j);
    lemma_encode_split(s, j);
    let head = s.take(j);
    lemma_encode_split(head, i);
    lemma_offset_of_prefix(s, head, i);
    assert(head.skip(i) =~= s.subrange(i, j));
    lemma_offset_is_encoded_len(s, j);
    assert(bytes.subrange(0, byte_offset(s, j)).subrange(
        byte_offset(s, i),
        byte_offset(s, j),
    ) =~= bytes.subrange(byte_offset(s, i), byte_offset(s, j)));
    encode_utf8_decode_utf8(s.subrange(i, j));
}


// ---------------------------------------------------------------------------
// Walking the bytes of a text
// ---------------------------------------------------------------------------

/// The number of bytes of the character whose encoding begins with `b`.
pub(crate) fn lead_width(b: u8) -> (w: usize)
    ensures
        w == lead_width_of(b),
        1 <= w <= 4,
{
    if b < 0x80 {
        1
    } else if b < 0xe0 {
        2
    } else if b < 0xf0 {
        3
    } else {
        4
    }
}

/// The first byte of the character at byte offset `offset`, which is the
/// offset of the character with index `i`; `None` at the end of the text.
pub(crate) fn lead_at(src: &str, offset: usize, Ghost(i): Ghost<int>) -> (lead: Option<u8>)
    requires
        0 <= i <= src@.len(),
        offset == byte_offset(src@, i),
    ensures
        lead is None <==> i == src@.len(),
        offset <= src.spec_bytes().len() <= usize::MAX,
        src.spec_bytes().len() == byte_offset(src@, src@.len() as int),
        match lead {
            Some(b) => i < src@.len() && is_lead_of(b, src@[i]) && offset + lead_width_of(b)
                == byte_offset(src@, i + 1) && byte_offset(src@, i + 1) <= src.spec_bytes().len(),
            None => offset == src.spec_bytes().len(),
        },
{
    let bytes = src.as_bytes();
    proof {
        lemma_encoded_len(src@);
        lemma_offset_grows(src@, i, src@.len() as int);
        if i < src@.len() {
            lemma_lead_byte(src@, i);
            lemma_offset_grows(src@, i + 1, src@.len() as int);
        }
    }
    if offset < bytes.len() {
        Some(bytes[offset])
    } else {
        None
    }
}

/// The first byte of the character with index `i`, which lies at byte offset
/// `offset`.
pub(crate) fn lead_byte(src: &str, offset: usize, Ghost(i): Ghost<int>) -> (b: u8)
    requires
        0 <= i < src@.len(),
        offset == byte_offset(src@, i),
    ensures
        is_lead_of(b, src@[i]),
        offset + lead_width_of(b) == byte_offset(src@, i + 1),
        byte_offset(src@, i + 1) <= src.spec_bytes().len() <= usize::MAX,
{
    let bytes = src.as_bytes();
    proof {
        lemma_encoded_len(src@);
        lemma_lead_byte(src@, i);
        lemma_offset_grows(src@, i + 1, src@.len() as int);
    }
    bytes[offset]
}

/// The character with index `i`, which lies at byte offset `offset`, decoded
/// from the bytes of the text: its number.
pub(crate) fn code_at(src: &str, offset: usize, Ghost(i): Ghost<int>) -> (code: u32)
    requires
        0 <= i < src@.len(),
        offset == byte_offset(src@, i),
    ensures
        code == src@[i] as u32,
        code as char == src@[i],
        is_scalar(code),
{
    let bytes = src.as_bytes();
    let ghost tail = bytes@.subrange(offset as int, bytes@.len() as int);
    proof {
        lemma_encoded_len(src@);
        lemma_lead_byte(src@, i);
        lemma_encode_split(src@, i);
        encode_utf8_first_scalar(src@.skip(i));
        assert(src@.skip(i)[0] == src@[i]);
        char_is_scalar(src@[i]);
        char_u32_cast(src@[i], src@[i] as u32);
        assert(tail.len() == bytes@.len() - offset);
        assert(valid_first_scalar(tail));
        assert(tail[0] == bytes@[offset as int]);
        if tail.len() > 1 {
            assert(tail[1] == bytes@[offset + 1]);
        }
        if tail.len() > 2 {
            assert(tail[2] == bytes@[offset + 2]);
        }
        if tail.len() > 3 {
            assert(tail[3] == bytes@[offset + 3]);
        }
    }
    let b0 = bytes[offset];
    if b0 <= 0x7f {
        (b0 & 0x7f) as u32
    } else if 0xc0 <= b0 && b0 <= 0xdf {
        let b1 = bytes[offset + 1];
        (((b0 & 0x1f) as u32) << 6) | ((b1 & 0x3f) as u32)
    } else if 0xe0 <= b0 && b0 <= 0xef {
        let b1 = bytes[offset + 1];
        let b2 = bytes[offset + 2];
        (((b0 & 0x0f) as u32) << 12) | (((b1 & 0x3f) as u32) << 6) | ((b2 & 0x3f) as u32)
    } else {
        let b1 = bytes[offset + 1];
        let b2 = bytes[offset + 2];
        let b3 = bytes[offset + 3];
        (((b0 & 0x07) as u32) << 18) | (((b1 & 0x3f) as u32) << 12) | (((b2 & 0x3f) as u32) << 6) | ((
        b3 & 0x3f) as u32)
    }
}

/// Whether a text begins with another.
pub(crate) fn starts_with(text: &str, prefix: &str) -> (r: bool)
    ensures
        r == prefix@.is_prefix_of(text@),
{
    let bytes = text.as_bytes();
    let wanted = prefix.as_bytes();
    proof {
        lemma_prefix_by_bytes(prefix@, text@);
    }
    if wanted.len() > bytes.len() {
        return false;
    }
    let mut i: usize = 0;
    while i < wanted.len()
        invariant
            0 <= i <= wanted.len() <= bytes.len(),
            forall|k: int| 0 <= k < i ==> wanted[k] == bytes[k],
            prefix@.is_prefix_of(text@) <==> wanted@.is_prefix_of(bytes@),
        decreases wanted.len() - i,
    {
        if wanted[i] != bytes[i] {
            proof {
                if wanted@.is_prefix_of(bytes@) {
                    assert(wanted@[i as int] == bytes@.subrange(0, wanted@.len() as int)[i as int]);
                }
            }
            return false;
        }
        i += 1;
    }
    proof {
        assert(wanted@ =~= bytes@.subrange(0, wanted@.len() as int));
    }
    true
}

/// The part of a text between two byte offsets, which are the offsets of the
/// characters with the indices `i` and `j`.
pub(crate) fn cut<'a>(
    src: &'a str,
    from: usize,
    to: usize,
    Ghost(i): Ghost<int>,
    Ghost(j): Ghost<int>,
) -> (part: &'a str)
    requires
        0 <= i <= j <= src@.len(),
        from == byte_offset(src@, i),
        to == byte_offset(src@, j),
    ensures
        part@ == src@.subrange(i, j),
{
    proof {
        lemma_offset_is_boundary(src@, i);
        lemma_decode_between(src@, i, j);
        lemma_decode_between(src@, i, src@.len() as int);
        lemma_encoded_len(src@);
        lemma_offset_of_suffix(src@, i, j);
        lemma_offset_is_boundary(src@.skip(i), j - i);
    }
    let (_, tail) = src.split_at(from);
    proof {
        encode_utf8_decode_utf8(tail@);
        assert(src@.subrange(i, src@.len() as int) =~= src@.skip(i));
        assert(tail@ == src@.skip(i));
    }
    let (part, _) = tail.split_at(to - from);
    proof {
        lemma_decode_between(src@.skip(i), 0, j - i);
        encode_utf8_decode_utf8(part@);
        assert(src@.skip(i).subrange(0, j - i) =~= src@.subrange(i, j));
    }
    part
}

} // verus!
