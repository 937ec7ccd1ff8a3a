//! Splitting a text body into lines.
//!
//! A line ends at a line feed; a carriage return directly before that line
//! feed belongs to the line ending. A last line without a line feed is a line
//! too, and is taken as it stands.

use vstd::prelude::*;
use vstd::utf8::*;
use vstd::string::*;
use crate::encoding::{lemma_char_by_code, lemma_empty_encoding, lemma_bytes_without_ascii, lemma_first_ascii_byte, lemma_last_ascii_byte, lemma_encode_injective};

verus! {

/// Offset of the first line feed in `s`, or `s.len()` where there is none.
pub open spec fn line_feed_offset(s: Seq<char>) -> int
    decreases s.len(),
{
    if s.len() == 0 || s[0] == '\n' {
        0
    } else {
        1 + line_feed_offset(s.drop_first())
    }
}

/// `s` without one carriage return at its end, if it has one.
pub open spec fn without_trailing_cr(s: Seq<char>) -> Seq<char> {
    if s.len() > 0 && s.last() == '\r' {
        s.drop_last()
    } else {
        s
    }
}

/// The first line of `s`, without its line ending.
pub open spec fn first_line(s: Seq<char>) -> Seq<char> {
    let k = line_feed_offset(s);
    if k == s.len() {
        s
    } else {
        without_trailing_cr(s.subrange(0, k))
    }
}

/// What follows the first line of `s` and its line ending.
pub open spec fn after_first_line(s: Seq<char>) -> Seq<char> {
    let k = line_feed_offset(s);
    if k == s.len() {
        Seq::empty()
    } else {
        s.subrange(k + 1, s.len() as int)
    }
}

/// The lines of `s`, in order. The empty text has no lines.
pub open spec fn lines_of(s: Seq<char>) -> Seq<Seq<char>>
    decreases s.len(),
{
    if s.len() == 0 {
        Seq::empty()
    } else {
        proof {
            lemma_line_feed_offset_bounds(s);
        }
        seq![first_line(s)] + lines_of(after_first_line(s))
    }
}

/// `line_feed_offset` is the one offset `k` with a line feed at `k`, or the
/// end of `s` there, and no line feed before `k`.
pub proof fn lemma_line_feed_offset(s: Seq<char>, k: int)
    requires
        0 <= k <= s.len(),
        k < s.len() ==> s[k] == '\n',
        forall|j: int| 0 <= j < k ==> s[j] != '\n',
    ensures
        line_feed_offset(s) == k,
    decreases s.len(),
{
    if s.len() > 0 && s[0] != '\n' {
        let rest = s.drop_first();
        assert forall|j: int| 0 <= j < k - 1 implies rest[j] != '\n' by {
            assert(rest[j] == s[j + 1]);
        }
        lemma_line_feed_offset(rest, k - 1);
    }
}

/// The offset lies within `s`, and what follows the first line is shorter
/// than a non-empty `s`.
pub proof fn lemma_line_feed_offset_bounds(s: Seq<char>)
    ensures
        0 <= line_feed_offset(s) <= s.len(),
        s.len() > 0 ==> after_first_line(s).len() < s.len(),
    decreases s.len(),
{
    if s.len() > 0 && s[0] != '\n' {
        lemma_line_feed_offset_bounds(s.drop_first());
    }
}

/// Cuts `text` after its first line: the line without its line ending, and
/// what follows that line ending. Both are slices of `text`.
pub fn split_first_line<'a>(text: &'a str) -> (parts: (&'a str, &'a str))
    ensures
        parts.0@ == first_line(text@),
        parts.1@ == after_first_line(text@),
{
    broadcast use group_utf8_lib;

    let bytes = text.as_bytes();
    let n: usize = bytes.len();
    let mut i: usize = 0;
    while i < n && bytes[i] != 0x0A
        invariant
            i <= n,
            n == bytes@.len(),
            forall|j: int| 0 <= j < i ==> bytes@[j] != 0x0Au8,
        decreases n - i,
    {
        i += 1;
    }
    if i == n {
        proof {
            lemma_bytes_without_ascii(text@, 0x0A);
            assert forall|j: int| 0 <= j < text@.len() implies text@[j] != '\n' by {
                lemma_char_by_code(text@[j], '\n');
            }
            lemma_line_feed_offset(text@, text@.len() as int);
            is_char_boundary_start_end_of_seq(bytes@);
        }
        let (line, rest) = text.split_at(n);
        proof {
            assert(line.spec_bytes() =~= encode_utf8(text@));
            lemma_encode_injective(line@, text@);
            assert(rest.spec_bytes().len() == 0);
            lemma_empty_encoding(rest@);
            assert(rest@ =~= Seq::<char>::empty());
        }
        (line, rest)
    } else {
        let ghost k = lemma_first_ascii_byte(text@, i as int, 0x0A);
        proof {
            assert forall|j: int| 0 <= j <= k implies (text@[j] == '\n' <==> j == k) by {
                lemma_char_by_code(text@[j], '\n');
            }
            lemma_line_feed_offset(text@, k);
        }
        let (head, _) = text.split_at(i);
        let (_, rest) = text.split_at(i + 1);
        proof {
            lemma_encode_injective(head@, text@.subrange(0, k));
            lemma_encode_injective(rest@, text@.subrange(k + 1, text@.len() as int));
        }
        let head_bytes = head.as_bytes();
        let m: usize = head_bytes.len();
        proof {
            lemma_empty_encoding(head@);
            if head@.len() > 0 {
                lemma_last_ascii_byte(head@, 0x0D);
                lemma_char_by_code(head@.last(), '\r');
            }
        }
        if m > 0 && head_bytes[m - 1] == 0x0D {
            let (line, _) = head.split_at(m - 1);
            proof {
                assert(line.spec_bytes() =~= encode_utf8(head@.drop_last()));
                lemma_encode_injective(line@, head@.drop_last());
            }
            (line, rest)
        } else {
            (head, rest)
        }
    }
}

} // verus!
