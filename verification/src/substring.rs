//! Literal substring containment.
//!
//! Containment is defined on character sequences. The executable test
//! compares UTF-8 bytes, and is proved to decide the same thing.

use vstd::prelude::*;
use vstd::utf8::*;
use vstd::string::*;
use crate::encoding::{
    is_prefix, lemma_empty_encoding, lemma_encode_injective, lemma_encode_concat, lemma_encoded_prefix,
    lemma_scalar_ascii,
};

verus! {

/// `needle` occurs in `hay` starting at offset `at`.
pub open spec fn occurs_at<T>(hay: Seq<T>, needle: Seq<T>, at: int) -> bool {
    &&& 0 <= at
    &&& at + needle.len() <= hay.len()
    &&& hay.subrange(at, at + needle.len()) == needle
}

/// `needle` occurs somewhere in `hay` as a contiguous run.
pub open spec fn is_substring<T>(needle: Seq<T>, hay: Seq<T>) -> bool {
    exists|at: int| occurs_at(hay, needle, at)
}

/// Every sequence contains the empty sequence.
pub proof fn lemma_empty_is_substring<T>(hay: Seq<T>)
    ensures
        is_substring(Seq::<T>::empty(), hay),
{
    assert(hay.subrange(0, 0) =~= Seq::<T>::empty());
    assert(occurs_at(hay, Seq::<T>::empty(), 0));
}

/// An occurrence among the characters is an occurrence among the bytes.
pub proof fn lemma_occurrence_encodes(hay: Seq<char>, needle: Seq<char>, at: int)
    requires
        occurs_at(hay, needle, at),
    ensures
        occurs_at(encode_utf8(hay), encode_utf8(needle), encode_utf8(hay.subrange(0, at)).len() as int),
{
    let front = hay.subrange(0, at);
    let back = hay.subrange(at + needle.len(), hay.len() as int);
    assert(hay =~= front + (needle + back));
    lemma_encode_concat(front, needle + back);
    lemma_encode_concat(needle, back);
    let fb = encode_utf8(front);
    let nb = encode_utf8(needle);
    assert(encode_utf8(hay).subrange(fb.len() as int, (fb.len() + nb.len()) as int) =~= nb);
}

/// An occurrence among the bytes is an occurrence among the characters.
pub proof fn lemma_occurrence_decodes(hay: Seq<char>, needle: Seq<char>, at: int)
    requires
        occurs_at(encode_utf8(hay), encode_utf8(needle), at),
    ensures
        is_substring(needle, hay),
{
    broadcast use group_utf8_lib;

    if needle.len() == 0 {
        lemma_empty_is_substring(hay);
        assert(needle =~= Seq::<char>::empty());
    } else {
        let bytes = encode_utf8(hay);
        let nb = encode_utf8(needle);
        lemma_empty_encoding(needle);
        char_is_scalar(needle[0]);
        lemma_scalar_ascii(needle[0] as u32, 0);
        assert(nb[0] == encode_scalar(needle[0] as u32)[0]);
        assert(bytes.subrange(at, at + nb.len())[0] == bytes[at]);
        assert(!is_continuation_byte(bytes[at]));
        assert(is_char_boundary(bytes, at));
        valid_utf8_split(bytes, at);
        decode_utf8_split(bytes, at);
        let front = decode_utf8(bytes.subrange(0, at));
        let back = decode_utf8(bytes.subrange(at, bytes.len() as int));
        assert(hay =~= front + back);
        assert(encode_utf8(back) == bytes.subrange(at, bytes.len() as int));
        assert(encode_utf8(back).subrange(0, nb.len() as int) =~= nb);
        lemma_encoded_prefix(needle, back);
        assert(is_prefix(needle, back));
        assert(hay.subrange(front.len() as int, (front.len() + needle.len()) as int) =~= back.subrange(
            0,
            needle.len() as int,
        ));
        assert(occurs_at(hay, needle, front.len() as int));
    }
}

/// Whether `needle` stands in `hay` at byte offset `at`.
fn bytes_occur_at(hay: &[u8], needle: &[u8], at: usize) -> (found: bool)
    requires
        at + needle@.len() <= hay@.len(),
    ensures
        found == occurs_at(hay@, needle@, at as int),
{
    let m: usize = needle.len();
    let total: usize = hay.len();
    let mut j: usize = 0;
    while j < m && hay[at + j] == needle[j]
        invariant
            j <= m,
            m == needle@.len(),
            total == hay@.len(),
            at + m <= total,
            forall|x: int| 0 <= x < j ==> hay@[at + x] == needle@[x],
        decreases m - j,
    {
        j += 1;
    }
    proof {
        let window = hay@.subrange(at as int, at + m);
        if j == m {
            assert(window =~= needle@);
        } else {
            assert(window[j as int] != needle@[j as int]);
        }
    }
    j == m
}

/// Whether `text` begins with `prefix`.
pub fn starts_with(text: &str, prefix: &str) -> (found: bool)
    ensures
        found == is_prefix(prefix@, text@),
{
    let t = text.as_bytes();
    let p = prefix.as_bytes();
    proof {
        if is_prefix(prefix@, text@) {
            let back = text@.subrange(prefix@.len() as int, text@.len() as int);
            assert(text@ =~= prefix@ + back);
            lemma_encode_concat(prefix@, back);
            assert(t@.subrange(0, p@.len() as int) =~= p@);
        }
        if is_prefix(p@, t@) {
            lemma_encoded_prefix(prefix@, text@);
        }
    }
    p.len() <= t.len() && bytes_occur_at(t, p, 0)
}

/// Whether `a` and `b` are the same text.
pub fn same_text(a: &str, b: &str) -> (same: bool)
    ensures
        same == (a@ == b@),
{
    let x = a.as_bytes();
    let y = b.as_bytes();
    proof {
        if x@ == y@ {
            lemma_encode_injective(a@, b@);
        }
        if x@.len() == y@.len() {
            assert(x@.subrange(0, y@.len() as int) =~= x@);
        }
    }
    x.len() == y.len() && bytes_occur_at(x, y, 0)
}

/// Whether `hay` contains `needle` as a literal, contiguous run of
/// characters. The empty needle is contained in every string.
pub fn contains(hay: &str, needle: &str) -> (found: bool)
    ensures
        found == is_substring(needle@, hay@),
{
    let h = hay.as_bytes();
    let n = needle.as_bytes();
    proof {
        if is_substring(needle@, hay@) {
            let k = choose|k: int| occurs_at(hay@, needle@, k);
            lemma_occurrence_encodes(hay@, needle@, k);
        }
    }
    if n.len() > h.len() {
        return false;
    }
    let last: usize = h.len() - n.len();
    let mut at: usize = 0;
    loop
        invariant
            at <= last,
            last == h@.len() - n@.len(),
            h@ == encode_utf8(hay@),
            n@ == encode_utf8(needle@),
            is_substring(needle@, hay@) ==> is_substring(n@, h@),
            forall|x: int| 0 <= x < at ==> !occurs_at(h@, n@, x),
        decreases last - at,
    {
        if bytes_occur_at(h, n, at) {
            proof {
                lemma_occurrence_decodes(hay@, needle@, at as int);
            }
            return true;
        }
        if at == last {
            return false;
        }
        at += 1;
    }
}

} // verus!
