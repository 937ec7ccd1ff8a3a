//! Facts that tie the characters of a string to the bytes of its UTF-8 form.
//!
//! The executable code of this crate scans bytes; its contracts speak of
//! characters. The lemmas here carry a fact from one side to the other.

use vstd::prelude::*;
use vstd::utf8::*;

verus! {

/// The encoding of a scalar holds an ASCII byte only when the scalar is that
/// ASCII character, and then the byte is the whole encoding.
pub proof fn lemma_scalar_ascii(c: u32, b: u8)
    requires
        is_scalar(c),
        b < 0x80,
    ensures
        c == b as u32 ==> encode_scalar(c) == seq![b],
        c != b as u32 ==> forall|j: int|
            0 <= j < encode_scalar(c).len() ==> #[trigger] encode_scalar(c)[j] != b,
        1 <= encode_scalar(c).len() <= 4,
        !is_continuation_byte(encode_scalar(c)[0]),
{
    assert(c <= 0x7F ==> ((c & 0x7F) as u8 == b <==> c == b as u32)) by (bit_vector)
        requires
            b < 0x80,
    ;
    assert((c & 0x7F) as u8 <= 0x7f) by (bit_vector);
    assert(0xC0 | ((c >> 6) & 0x1F) as u8 >= 0xC0) by (bit_vector);
    assert(0xE0 | ((c >> 12) & 0x0F) as u8 >= 0xC0) by (bit_vector);
    assert(0xF0 | ((c >> 18) & 0x7) as u8 >= 0xC0) by (bit_vector);
    assert(0x80 | (c & 0x3F) as u8 >= 0x80) by (bit_vector);
    assert(0x80 | ((c >> 6) & 0x3F) as u8 >= 0x80) by (bit_vector);
    assert(0x80 | ((c >> 12) & 0x3F) as u8 >= 0x80) by (bit_vector);
    if c == b as u32 {
        assert(encode_scalar(c) =~= seq![b]);
    }
}

/// Encoding distributes over concatenation.
pub proof fn lemma_encode_concat(a: Seq<char>, b: Seq<char>)
    ensures
        encode_utf8(a + b) == encode_utf8(a) + encode_utf8(b),
    decreases a.len(),
{
    if a.len() == 0 {
        assert(a + b =~= b);
        assert(encode_utf8(a) + encode_utf8(b) =~= encode_utf8(b));
    } else {
        lemma_encode_concat(a.drop_first(), b);
        assert((a + b).drop_first() =~= a.drop_first() + b);
        assert(encode_utf8(a + b) =~= encode_utf8(a) + encode_utf8(b));
    }
}

/// A string whose encoding is free of an ASCII byte is free of that character.
pub proof fn lemma_bytes_without_ascii(s: Seq<char>, b: u8)
    requires
        b < 0x80,
        forall|j: int| 0 <= j < encode_utf8(s).len() ==> encode_utf8(s)[j] != b,
    ensures
        forall|i: int| 0 <= i < s.len() ==> (#[trigger] s[i]) as u32 != b as u32,
    decreases s.len(),
{
    if s.len() > 0 {
        let head = encode_scalar(s[0] as u32);
        let rest = encode_utf8(s.drop_first());
        char_is_scalar(s[0]);
        lemma_scalar_ascii(s[0] as u32, b);
        assert(encode_utf8(s)[0] == head[0]);
        assert forall|j: int| 0 <= j < rest.len() implies rest[j] != b by {
            assert(encode_utf8(s)[head.len() + j] == rest[j]);
        }
        lemma_bytes_without_ascii(s.drop_first(), b);
        assert forall|i: int| 0 <= i < s.len() implies (#[trigger] s[i]) as u32 != b as u32 by {
            if i > 0 {
                assert(s[i] == s.drop_first()[i - 1]);
            }
        }
    }
}

/// Where the first occurrence of an ASCII byte stands in a string's encoding.
///
/// The byte at `i` is the whole encoding of one character, at character
/// offset `k`; no character before it has that code; and the bytes before
/// and after it encode the characters before and after it.
pub proof fn lemma_first_ascii_byte(s: Seq<char>, i: int, b: u8) -> (k: int)
    requires
        b < 0x80,
        0 <= i < encode_utf8(s).len(),
        encode_utf8(s)[i] == b,
        forall|j: int| 0 <= j < i ==> encode_utf8(s)[j] != b,
    ensures
        0 <= k < s.len(),
        s[k] as u32 == b as u32,
        forall|j: int| 0 <= j < k ==> (#[trigger] s[j]) as u32 != b as u32,
        is_char_boundary(encode_utf8(s), i),
        is_char_boundary(encode_utf8(s), i + 1),
        encode_utf8(s.subrange(0, k)) == encode_utf8(s).subrange(0, i),
        encode_utf8(s.subrange(k + 1, s.len() as int)) == encode_utf8(s).subrange(
            i + 1,
            encode_utf8(s).len() as int,
        ),
{
    broadcast use group_utf8_lib;

    let bytes = encode_utf8(s);
    let front = bytes.subrange(0, i);
    let back = bytes.subrange(i, bytes.len() as int);
    assert(!is_continuation_byte(bytes[i]));
    assert(is_char_boundary(bytes, i));
    valid_utf8_split(bytes, i);
    decode_utf8_split(bytes, i);
    let head = decode_utf8(front);
    let tail = decode_utf8(back);
    assert(s =~= head + tail);
    assert(encode_utf8(head) == front);
    assert(encode_utf8(tail) == back);
    assert(tail.len() > 0) by {
        if tail.len() == 0 {
            assert(encode_utf8(tail).len() == 0);
        }
    }
    char_is_scalar(tail[0]);
    lemma_scalar_ascii(tail[0] as u32, b);
    let first = encode_scalar(tail[0] as u32);
    assert(back[0] == first[0]);
    assert(tail[0] as u32 == b as u32);
    assert(encode_utf8(tail.drop_first()) =~= back.subrange(1, back.len() as int));
    assert(back.subrange(1, back.len() as int) =~= bytes.subrange(i + 1, bytes.len() as int));
    assert forall|j: int| 0 <= j < front.len() implies front[j] != b by {
        assert(front[j] == bytes[j]);
    }
    lemma_bytes_without_ascii(head, b);
    let k = head.len() as int;
    assert(s.subrange(0, k) =~= head);
    assert(s.subrange(k + 1, s.len() as int) =~= tail.drop_first());
    assert(s[k] == tail[0]);
    assert forall|j: int| 0 <= j < k implies (#[trigger] s[j]) as u32 != b as u32 by {
        assert(s[j] == head[j]);
    }
    let after = bytes.subrange(i + 1, bytes.len() as int);
    if i + 1 < bytes.len() {
        let next = tail.drop_first();
        assert(next.len() > 0) by {
            if next.len() == 0 {
                assert(encode_utf8(next).len() == 0);
            }
        }
        char_is_scalar(next[0]);
        lemma_scalar_ascii(next[0] as u32, b);
        assert(after[0] == encode_scalar(next[0] as u32)[0]);
        assert(after[0] == bytes[i + 1]);
        assert(is_char_boundary(bytes, i + 1));
    } else {
        is_char_boundary_start_end_of_seq(bytes);
    }
    k
}

/// Characters are equal exactly when their scalar values are.
pub proof fn lemma_char_by_code(c: char, d: char)
    ensures
        c as u32 == d as u32 <==> c == d,
{
    char_u32_cast(c, c as u32);
    char_u32_cast(d, d as u32);
}

/// Only the empty string has an empty encoding.
pub proof fn lemma_empty_encoding(s: Seq<char>)
    ensures
        encode_utf8(s).len() == 0 <==> s.len() == 0,
{
    if s.len() > 0 {
        char_is_scalar(s[0]);
        lemma_scalar_ascii(s[0] as u32, 0);
    }
}

/// Two strings with the same encoding are the same string.
pub proof fn lemma_encode_injective(a: Seq<char>, b: Seq<char>)
    requires
        encode_utf8(a) == encode_utf8(b),
    ensures
        a == b,
{
    encode_utf8_decode_utf8(a);
    encode_utf8_decode_utf8(b);
}

/// A string's encoding ends in an ASCII byte exactly when the string ends in
/// that character; the bytes before it then encode the characters before it.
pub proof fn lemma_last_ascii_byte(s: Seq<char>, b: u8)
    requires
        b < 0x80,
        s.len() > 0,
    ensures
        encode_utf8(s).len() > 0,
        (encode_utf8(s).last() == b) <==> (s.last() as u32 == b as u32),
        s.last() as u32 == b as u32 ==> {
            &&& is_char_boundary(encode_utf8(s), encode_utf8(s).len() - 1)
            &&& encode_utf8(s.drop_last()) == encode_utf8(s).drop_last()
        },
{
    broadcast use group_utf8_lib;

    let bytes = encode_utf8(s);
    let c = s.last();
    let unit = seq![c];
    assert(s =~= s.drop_last() + unit);
    lemma_encode_concat(s.drop_last(), unit);
    assert(unit.drop_first() =~= Seq::<char>::empty());
    assert(encode_utf8(unit) =~= encode_scalar(c as u32)) by {
        reveal_with_fuel(encode_utf8, 2);
    }
    char_is_scalar(c);
    lemma_scalar_ascii(c as u32, b);
    let tail = encode_scalar(c as u32);
    assert(bytes.last() == tail[tail.len() - 1]);
    if c as u32 == b as u32 {
        assert(bytes.drop_last() =~= encode_utf8(s.drop_last()));
        assert(!is_continuation_byte(bytes[bytes.len() - 1]));
    }
}

/// `p` is a prefix of `t`.
pub open spec fn is_prefix<T>(p: Seq<T>, t: Seq<T>) -> bool {
    p.len() <= t.len() && t.subrange(0, p.len() as int) == p
}

/// A string whose encoding begins with the encoding of `p` begins with `p`.
pub proof fn lemma_encoded_prefix(p: Seq<char>, t: Seq<char>)
    requires
        is_prefix(encode_utf8(p), encode_utf8(t)),
    ensures
        is_prefix(p, t),
    decreases p.len(),
{
    let pb = encode_utf8(p);
    let tb = encode_utf8(t);
    if p.len() == 0 {
        assert(t.subrange(0, 0) =~= p);
    } else {
        lemma_empty_encoding(p);
        lemma_empty_encoding(t);
        encode_utf8_first_scalar(p);
        encode_utf8_first_scalar(t);
        let w = encode_scalar(p[0] as u32).len() as int;
        assert forall|j: int| 0 <= j < pb.len() implies tb[j] == pb[j] by {
            assert(tb.subrange(0, pb.len() as int)[j] == tb[j]);
        }
        assert(w <= pb.len());
        assert(length_of_first_scalar(tb) == w);
        assert(decode_first_scalar(tb) == decode_first_scalar(pb));
        lemma_char_by_code(p[0], t[0]);
        let pr = encode_utf8(p.drop_first());
        let tr = encode_utf8(t.drop_first());
        assert(pr =~= pb.subrange(w, pb.len() as int));
        assert(tr =~= tb.subrange(w, tb.len() as int));
        assert(tr.subrange(0, pr.len() as int) =~= pr);
        lemma_encoded_prefix(p.drop_first(), t.drop_first());
        assert forall|j: int| 0 <= j < p.len() implies t[j] == p[j] by {
            if j > 0 {
                assert(t.drop_first().subrange(0, p.len() - 1)[j - 1] == p.drop_first()[j - 1]);
            }
        }
        assert(t.subrange(0, p.len() as int) =~= p);
    }
}

} // verus!
