//! The search itself: the lines of a text body that contain a query.

use vstd::prelude::*;
use vstd::string::*;
use crate::lines::{after_first_line, first_line, lemma_line_feed_offset_bounds, lines_of, split_first_line};
use crate::substring::{contains, is_substring, lemma_empty_is_substring};

verus! {

/// The character sequences of a vector of string slices, in order.
pub open spec fn contents_of(slices: Seq<&str>) -> Seq<Seq<char>> {
    Seq::new(slices.len(), |i: int| slices[i]@)
}

/// The test that a line contains `query` literally.
pub open spec fn has_query(query: Seq<char>) -> spec_fn(Seq<char>) -> bool {
    |line: Seq<char>| is_substring(query, line)
}

/// The lines of `text` that contain `query`, in the order of the text.
pub open spec fn matching_lines(query: Seq<char>, text: Seq<char>) -> Seq<Seq<char>> {
    lines_of(text).filter(has_query(query))
}

/// One step of a scan: the lines kept from a non-empty text are the first
/// line, if it is kept, and then the lines kept from what follows it.
proof fn lemma_filter_step(text: Seq<char>, keep: spec_fn(Seq<char>) -> bool)
    requires
        text.len() > 0,
    ensures
        lines_of(text).filter(keep) == (if keep(first_line(text)) {
            seq![first_line(text)]
        } else {
            Seq::empty()
        }) + lines_of(after_first_line(text)).filter(keep),
{
    let head = seq![first_line(text)];
    let tail = lines_of(after_first_line(text));
    assert(lines_of(text) == head + tail);
    Seq::filter_distributes_over_add(head, tail, keep);
    reveal_with_fuel(Seq::filter, 2);
    assert(head.drop_last() =~= Seq::<Seq<char>>::empty());
    if keep(first_line(text)) {
        assert(head.filter(keep) =~= head);
    } else {
        assert(head.filter(keep) =~= Seq::<Seq<char>>::empty());
    }
}

/// The lines of `contents` that contain `query` as a literal substring, each
/// as a slice of `contents`, in the order in which they stand there.
pub fn search<'a>(query: &str, contents: &'a str) -> (result: Vec<&'a str>)
    ensures
        contents_of(result@) == matching_lines(query@, contents@),
{
    let mut result: Vec<&'a str> = Vec::new();
    let mut rest: &'a str = contents;
    let ghost keep = has_query(query@);
    proof {
        assert(contents_of(result@) =~= Seq::<Seq<char>>::empty());
    }
    while !rest.is_empty()
        invariant
            keep == has_query(query@),
            contents_of(result@) + lines_of(rest@).filter(keep) == lines_of(contents@).filter(keep),
        decreases rest@.len(),
    {
        let (line, tail) = split_first_line(rest);
        proof {
            lemma_filter_step(rest@, keep);
            lemma_line_feed_offset_bounds(rest@);
        }
        let ghost before = contents_of(result@);
        if contains(line, query) {
            result.push(line);
            proof {
                assert(contents_of(result@) =~= before + seq![line@]);
                assert(before + (seq![line@] + lines_of(tail@).filter(keep)) =~= (before
                    + seq![line@]) + lines_of(tail@).filter(keep));
            }
        } else {
            proof {
                assert(Seq::<Seq<char>>::empty() + lines_of(tail@).filter(keep) =~= lines_of(
                    tail@,
                ).filter(keep));
            }
        }
        rest = tail;
    }
    proof {
        reveal_with_fuel(Seq::filter, 1);
        assert(lines_of(rest@).filter(keep) =~= Seq::<Seq<char>>::empty());
        assert(contents_of(result@) + Seq::<Seq<char>>::empty() =~= contents_of(result@));
    }
    result
}

/// The lowercase form of a string, as the standard library's Unicode tables
/// give it. Nothing more is known of it here than that it depends on the
/// string alone.
pub uninterp spec fn lowercase(s: Seq<char>) -> Seq<char>;

/// The test that a line contains `query` once both are lowercased.
pub open spec fn has_query_folded(query: Seq<char>) -> spec_fn(Seq<char>) -> bool {
    |line: Seq<char>| is_substring(lowercase(query), lowercase(line))
}

/// The lines of `text` whose lowercase form contains the lowercase form of
/// `query`, in the order of the text and as they stand in it.
pub open spec fn matching_lines_folded(query: Seq<char>, text: Seq<char>) -> Seq<Seq<char>> {
    lines_of(text).filter(has_query_folded(query))
}

/// Calls `str::to_lowercase`. Trusted: the returned string is the lowercase
/// form of `s`, a function of the characters of `s` alone.
#[verifier::external_body]
fn to_lowercase(s: &str) -> (folded: String)
    ensures
        folded@ == lowercase(s@),
{
    s.to_lowercase()
}

/// The lines of `contents` that contain `query` when letter case is ignored:
/// line and query are both lowercased before the test. The lines returned
/// are slices of `contents`, in their original case and order.
pub fn search_case_insensitive<'a>(query: &str, contents: &'a str) -> (result: Vec<&'a str>)
    ensures
        contents_of(result@) == matching_lines_folded(query@, contents@),
{
    let folded_query = to_lowercase(query);
    let mut result: Vec<&'a str> = Vec::new();
    let mut rest: &'a str = contents;
    let ghost keep = has_query_folded(query@);
    proof {
        assert(contents_of(result@) =~= Seq::<Seq<char>>::empty());
    }
    while !rest.is_empty()
        invariant
            keep == has_query_folded(query@),
            folded_query@ == lowercase(query@),
            contents_of(result@) + lines_of(rest@).filter(keep) == lines_of(contents@).filter(keep),
        decreases rest@.len(),
    {
        let (line, tail) = split_first_line(rest);
        proof {
            lemma_filter_step(rest@, keep);
            lemma_line_feed_offset_bounds(rest@);
        }
        let ghost before = contents_of(result@);
        let folded_line = to_lowercase(line);
        if contains(folded_line.as_str(), folded_query.as_str()) {
            result.push(line);
            proof {
                assert(contents_of(result@) =~= before + seq![line@]);
                assert(before + (seq![line@] + lines_of(tail@).filter(keep)) =~= (before
                    + seq![line@]) + lines_of(tail@).filter(keep));
            }
        } else {
            proof {
                assert(Seq::<Seq<char>>::empty() + lines_of(tail@).filter(keep) =~= lines_of(
                    tail@,
                ).filter(keep));
            }
        }
        rest = tail;
    }
    proof {
        reveal_with_fuel(Seq::filter, 1);
        assert(lines_of(rest@).filter(keep) =~= Seq::<Seq<char>>::empty());
        assert(contents_of(result@) + Seq::<Seq<char>>::empty() =~= contents_of(result@));
    }
    result
}

/// `picked` is `full` with some elements left out: `at` gives, for each
/// element of `picked`, its place in `full`, and these places rise.
pub open spec fn is_selection<A>(picked: Seq<A>, full: Seq<A>, at: Seq<int>) -> bool {
    &&& at.len() == picked.len()
    &&& forall|i: int| 0 <= i < at.len() ==> 0 <= #[trigger] at[i] < full.len() && full[at[i]] == picked[i]
    &&& forall|i: int, j: int| 0 <= i < j < at.len() ==> #[trigger] at[i] < #[trigger] at[j]
}

/// What a filter keeps is a selection of what it was given, and the places
/// selected are exactly those of the elements that pass the test.
pub proof fn lemma_filter_selects<A>(full: Seq<A>, keep: spec_fn(A) -> bool) -> (at: Seq<int>)
    ensures
        is_selection(full.filter(keep), full, at),
        forall|i: int| 0 <= i < at.len() ==> keep(full[#[trigger] at[i]]),
        forall|j: int| 0 <= j < full.len() && keep(full[j]) ==> #[trigger] at.contains(j),
    decreases full.len(),
{
    reveal(Seq::filter);
    if full.len() == 0 {
        Seq::empty()
    } else {
        let front = full.drop_last();
        let front_at = lemma_filter_selects(front, keep);
        let last = full.len() - 1;
        let at = if keep(full.last()) {
            front_at.push(last)
        } else {
            front_at
        };
        assert forall|j: int| 0 <= j < full.len() && keep(full[j]) implies at.contains(j) by {
            if j < last {
                assert(front[j] == full[j]);
                assert(front_at.contains(j));
                let i = front_at.index_of(j);
                assert(at[i] == j);
            } else {
                assert(at[at.len() - 1] == j);
            }
        }
        at
    }
}

/// A filter whose test every element passes keeps the sequence as it is.
pub proof fn lemma_filter_keeps_all<A>(full: Seq<A>, keep: spec_fn(A) -> bool)
    requires
        forall|j: int| 0 <= j < full.len() ==> keep(#[trigger] full[j]),
    ensures
        full.filter(keep) == full,
    decreases full.len(),
{
    reveal(Seq::filter);
    if full.len() > 0 {
        let front = full.drop_last();
        assert forall|j: int| 0 <= j < front.len() implies keep(#[trigger] front[j]) by {
            assert(front[j] == full[j]);
        }
        lemma_filter_keeps_all(front, keep);
        assert(front.push(full.last()) =~= full);
    }
}

/// Every line that a search returns is a line of the text and contains the
/// query; the lines come in the order of the text; and no line of the text
/// that contains the query is left out. `at` gives the place of each
/// returned line among the lines of the text.
pub proof fn lemma_matches_are_lines_in_order(query: Seq<char>, text: Seq<char>) -> (at: Seq<int>)
    ensures
        is_selection(matching_lines(query, text), lines_of(text), at),
        forall|i: int|
            0 <= i < matching_lines(query, text).len() ==> is_substring(
                query,
                #[trigger] matching_lines(query, text)[i],
            ),
        forall|j: int|
            0 <= j < lines_of(text).len() && is_substring(query, lines_of(text)[j])
                ==> #[trigger] at.contains(j),
{
    lemma_filter_selects(lines_of(text), has_query(query))
}

/// A search for the empty query returns every line of the text, unchanged.
pub proof fn lemma_empty_query_matches_every_line(text: Seq<char>)
    ensures
        matching_lines(Seq::<char>::empty(), text) == lines_of(text),
{
    let lines = lines_of(text);
    let keep = has_query(Seq::<char>::empty());
    assert forall|j: int| 0 <= j < lines.len() implies keep(#[trigger] lines[j]) by {
        lemma_empty_is_substring(lines[j]);
    }
    lemma_filter_keeps_all(lines, keep);
}

/// A search that ignores case returns a line as it stands in the text, in
/// its original case, whenever the lowercased line contains the lowercased
/// query; it returns lines of the text only, in the order of the text.
pub proof fn lemma_folded_matches_keep_their_case(query: Seq<char>, text: Seq<char>) -> (at: Seq<
    int,
>)
    ensures
        is_selection(matching_lines_folded(query, text), lines_of(text), at),
        forall|j: int|
            0 <= j < lines_of(text).len() && is_substring(
                lowercase(query),
                lowercase(lines_of(text)[j]),
            ) ==> at.contains(j) && matching_lines_folded(query, text).contains(
                #[trigger] lines_of(text)[j],
            ),
{
    let lines = lines_of(text);
    let keep = has_query_folded(query);
    let at = lemma_filter_selects(lines, keep);
    assert forall|j: int| 0 <= j < lines.len() && keep(lines[j]) implies matching_lines_folded(
        query,
        text,
    ).contains(#[trigger] lines[j]) by {
        assert(at.contains(j));
        let i = at.index_of(j);
        assert(matching_lines_folded(query, text)[i] == lines[j]);
    }
    at
}

/// A search depends on its inputs alone: two results for the same query and
/// text hold the same lines in the same order.
pub proof fn lemma_search_is_repeatable(
    query: Seq<char>,
    text: Seq<char>,
    first: Seq<&str>,
    second: Seq<&str>,
)
    requires
        contents_of(first) == matching_lines(query, text),
        contents_of(second) == matching_lines(query, text),
    ensures
        first.len() == second.len(),
        forall|i: int| 0 <= i < first.len() ==> (#[trigger] first[i])@ == second[i]@,
{
    assert(contents_of(first).len() == first.len());
    assert(contents_of(second).len() == second.len());
    assert forall|i: int| 0 <= i < first.len() implies (#[trigger] first[i])@ == second[i]@ by {
        assert(contents_of(first)[i] == contents_of(second)[i]);
    }
}

} // verus!
