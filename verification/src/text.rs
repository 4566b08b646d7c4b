//! Searching a text for markers, by character position.
//!
//! A text is modelled as its sequence of characters. Everything here speaks
//! of character positions, never of byte offsets, so a document may hold any
//! characters at all.

use crate::error::ExtractError;
use substring::Substring;
use vstd::prelude::*;
use vstd::std_specs::iter::IteratorSpec;

verus! {

/// `needle` stands in `hay` at position `at`.
pub open spec fn occurs_at(hay: Seq<char>, needle: Seq<char>, at: int) -> bool {
    &&& 0 <= at
    &&& at + needle.len() <= hay.len()
    &&& hay.subrange(at, at + needle.len()) == needle
}

/// The first position at or after `from` where `needle` stands in `hay`.
pub open spec fn find_from(hay: Seq<char>, needle: Seq<char>, from: int) -> Option<int>
    decreases hay.len() + 1 - from,
{
    if from < 0 || from + needle.len() > hay.len() {
        None
    } else if occurs_at(hay, needle, from) {
        Some(from)
    } else {
        find_from(hay, needle, from + 1)
    }
}

/// `find_from` gives the least position at or after `from` where the needle
/// stands, and gives none only where it stands at no such position.
pub proof fn lemma_find_from(hay: Seq<char>, needle: Seq<char>, from: int)
    requires
        0 <= from,
    ensures
        match find_from(hay, needle, from) {
            Some(at) => {
                &&& from <= at
                &&& occurs_at(hay, needle, at)
                &&& forall|j: int| from <= j < at ==> !occurs_at(hay, needle, j)
            },
            None => forall|j: int| from <= j ==> !occurs_at(hay, needle, j),
        },
    decreases hay.len() + 1 - from,
{
    if from + needle.len() > hay.len() {
    } else if occurs_at(hay, needle, from) {
    } else {
        lemma_find_from(hay, needle, from + 1);
    }
}

/// Where `needle` stands at `at` and nowhere from `from` up to `at`, `at` is
/// what `find_from` gives.
pub proof fn lemma_find_from_first(hay: Seq<char>, needle: Seq<char>, from: int, at: int)
    requires
        0 <= from <= at,
        occurs_at(hay, needle, at),
        forall|j: int| from <= j < at ==> !occurs_at(hay, needle, j),
    ensures
        find_from(hay, needle, from) == Some(at),
{
    lemma_find_from(hay, needle, from);
}

/// The characters of `text` from position `start` up to `end`, both cut
/// down to the length of the text; empty unless `start < end`.
pub open spec fn clamped_range(text: Seq<char>, start: int, end: int) -> Seq<char> {
    if 0 <= start < end {
        let len = text.len() as int;
        text.subrange(
            if start < len { start } else { len },
            if end < len { end } else { len },
        )
    } else {
        Seq::empty()
    }
}

/// The text strictly between the first `left` and the first `right` that
/// follows it. A text that lacks either marker is malformed.
pub open spec fn crop(text: Seq<char>, left: Seq<char>, right: Seq<char>) -> Result<
    Seq<char>,
    ExtractError,
> {
    match find_from(text, left, 0) {
        Some(open) => match find_from(text, right, open + left.len()) {
            Some(close) => Ok(text.subrange(open + left.len(), close)),
            None => Err(ExtractError::MalformedDocument),
        },
        None => Err(ExtractError::MalformedDocument),
    }
}

/// A text that is written as `before`, `left`, `middle`, `right` and `after`
/// is cropped to `middle`, where `left` stands nowhere before its own place
/// and `right` nowhere behind `left` before its own place.
pub proof fn lemma_crop_reads_back(
    before: Seq<char>,
    left: Seq<char>,
    middle: Seq<char>,
    right: Seq<char>,
    after: Seq<char>,
)
    requires
        forall|j: int|
            0 <= j < before.len() ==> !occurs_at(before + left + middle + right + after, left, j),
        forall|j: int|
            before.len() + left.len() <= j < before.len() + left.len() + middle.len()
                ==> !occurs_at(before + left + middle + right + after, right, j),
    ensures
        crop(before + left + middle + right + after, left, right) == Ok::<_, ExtractError>(middle),
{
    let text = before + left + middle + right + after;
    let open = before.len() as int;
    let start = open + left.len();
    let close = start + middle.len();
    assert(text.subrange(open, start) =~= left);
    assert(text.subrange(close, close + right.len()) =~= right);
    assert(text.subrange(start, close) =~= middle);
    lemma_find_from_first(text, left, 0, open);
    lemma_find_from_first(text, right, start, close);
}

/// The pieces of `text` that follow each `marker` found at or after `from`:
/// a piece starts behind its marker and runs up to the next marker, or to
/// the end of the text. What stands before the first marker belongs to no
/// piece.
pub open spec fn fragments_from(text: Seq<char>, marker: Seq<char>, from: int) -> Seq<Seq<char>>
    decreases text.len() - from,
    via fragments_from_decreases
{
    if marker.len() == 0 || from < 0 {
        Seq::empty()
    } else {
        match find_from(text, marker, from) {
            None => Seq::empty(),
            Some(at) => {
                let end = fragment_end(text, marker, at);
                seq![text.subrange(at + marker.len(), end)] + fragments_from(text, marker, end)
            },
        }
    }
}

/// Where the piece ends that follows the marker at `at`.
pub open spec fn fragment_end(text: Seq<char>, marker: Seq<char>, at: int) -> int {
    match find_from(text, marker, at + marker.len()) {
        Some(next) => next,
        None => text.len() as int,
    }
}

#[via_fn]
proof fn fragments_from_decreases(text: Seq<char>, marker: Seq<char>, from: int) {
    if marker.len() != 0 && from >= 0 {
        lemma_find_from(text, marker, from);
        if let Some(at) = find_from(text, marker, from) {
            lemma_find_from(text, marker, at + marker.len());
        }
    }
}

/// The pieces of `text` that follow each `marker`.
pub open spec fn fragments(text: Seq<char>, marker: Seq<char>) -> Seq<Seq<char>> {
    fragments_from(text, marker, 0)
}

/// The texts that `strings` hold, in order.
pub open spec fn texts(strings: Seq<String>) -> Seq<Seq<char>> {
    strings.map_values(|s: String| s@)
}

/// What a text or an error is as a value of the model.
pub open spec fn text_result(outcome: Result<String, ExtractError>) -> Result<
    Seq<char>,
    ExtractError,
> {
    match outcome {
        Ok(text) => Ok(text@),
        Err(e) => Err(e),
    }
}

/// The characters of `text`, one element each.
pub fn to_chars(text: &str) -> (chars: Vec<char>)
    ensures
        chars@ == text@,
{
    let mut chars: Vec<char> = Vec::new();
    let source = text.chars();
    assert(source.remaining() == text@);
    for c in it: source
        invariant
            it.seq() == text@,
            chars@ == it.seq().take(it.index()),
    {
        chars.push(c);
    }
    chars
}

/// The part of `text` between two character positions, as
/// `substring::Substring::substring` cuts it out. That method walks the
/// characters of the text: it returns the empty text unless
/// `start < end`, and takes a position past the last character for the end
/// of the text. It has no input on which it fails.
#[verifier::external_body]
fn char_range<'a>(text: &'a str, start: usize, end: usize) -> (part: &'a str)
    ensures
        part@ == clamped_range(text@, start as int, end as int),
{
    text.substring(start, end)
}

/// The characters of `text` from `start` up to `end`, as a text of their
/// own.
pub(crate) fn cut(text: &str, start: usize, end: usize) -> (part: String)
    requires
        start <= end <= text@.len(),
    ensures
        part@ == text@.subrange(start as int, end as int),
{
    assert(clamped_range(text@, start as int, end as int) =~= text@.subrange(
        start as int,
        end as int,
    ));
    char_range(text, start, end).to_owned()
}

/// Whether `needle` stands in `hay` at position `at`.
pub(crate) fn matches_at(hay: &Vec<char>, needle: &Vec<char>, at: usize) -> (same: bool)
    requires
        at + needle.len() <= hay.len(),
    ensures
        same == occurs_at(hay@, needle@, at as int),
{
    let mut k: usize = 0;
    while k < needle.len()
        invariant
            k <= needle.len(),
            at + needle.len() <= hay.len(),
            forall|j: int| 0 <= j < k ==> hay@[at + j] == needle@[j],
        decreases needle.len() - k,
    {
        if hay[at + k] != needle[k] {
            proof {
                let part = hay@.subrange(at as int, at + needle.len());
                assert(part[k as int] == hay@[at + k]);
            }
            return false;
        }
        k += 1;
    }
    assert(hay@.subrange(at as int, at + needle.len()) =~= needle@);
    true
}

/// The first position at or after `from` where `needle` stands in `hay`.
pub fn find(hay: &Vec<char>, needle: &Vec<char>, from: usize) -> (found: Option<usize>)
    ensures
        match found {
            Some(at) => find_from(hay@, needle@, from as int) == Some(at as int),
            None => find_from(hay@, needle@, from as int) is None,
        },
{
    if needle.len() > hay.len() || from > hay.len() - needle.len() {
        return None;
    }
    let last: usize = hay.len() - needle.len();
    let mut at: usize = from;
    loop
        invariant
            from <= at <= last,
            last + needle.len() == hay.len(),
            find_from(hay@, needle@, from as int) == find_from(hay@, needle@, at as int),
        decreases last - at,
    {
        if matches_at(hay, needle, at) {
            return Some(at);
        }
        if at == last {
            assert(find_from(hay@, needle@, at + 1) is None);
            return None;
        }
        at += 1;
    }
}

/// The text between the first `left` in `text` and the first `right` behind
/// it; `chars` holds the characters of `text`.
pub(crate) fn crop_chars(
    text: &str,
    chars: &Vec<char>,
    left: &Vec<char>,
    right: &Vec<char>,
) -> (cropped: Result<String, ExtractError>)
    requires
        chars@ == text@,
    ensures
        text_result(cropped) == crop(text@, left@, right@),
{
    let open: usize = match find(chars, left, 0) {
        Some(open) => open,
        None => { return Err(ExtractError::MalformedDocument); },
    };
    proof {
        lemma_find_from(chars@, left@, 0);
        assert(occurs_at(chars@, left@, open as int));
        assert(open + left@.len() <= chars.len());
    }
    let start: usize = open + left.len();
    let close: usize = match find(chars, right, start) {
        Some(close) => close,
        None => { return Err(ExtractError::MalformedDocument); },
    };
    proof {
        lemma_find_from(chars@, right@, start as int);
        assert(clamped_range(text@, start as int, close as int) =~= text@.subrange(
            start as int,
            close as int,
        ));
    }
    Ok(char_range(text, start, close).to_owned())
}

/// The text of `input` strictly between the first `left_by` and the first
/// `right_by` that follows it.
///
/// Fails with `MalformedDocument` where `left_by` does not stand in `input`,
/// or `right_by` stands nowhere behind it.
pub fn crop_string(input: String, left_by: String, right_by: String) -> (cropped: Result<
    String,
    ExtractError,
>)
    ensures
        text_result(cropped) == crop(input@, left_by@, right_by@),
{
    let chars = to_chars(input.as_str());
    let left = to_chars(left_by.as_str());
    let right = to_chars(right_by.as_str());
    crop_chars(input.as_str(), &chars, &left, &right)
}

/// The pieces of `text` that follow each `marker`, in the order in which
/// they stand; `chars` holds the characters of `text`.
pub(crate) fn split_after(text: &str, chars: &Vec<char>, marker: &Vec<char>) -> (parts: Vec<
    String,
>)
    requires
        chars@ == text@,
        marker@.len() > 0,
    ensures
        texts(parts@) == fragments(text@, marker@),
{
    let mut parts: Vec<String> = Vec::new();
    let mut from: usize = 0;
    loop
        invariant
            chars@ == text@,
            marker@.len() > 0,
            from <= chars.len(),
            texts(parts@) + fragments_from(text@, marker@, from as int) == fragments(
                text@,
                marker@,
            ),
        decreases chars.len() - from,
    {
        let at: usize = match find(chars, marker, from) {
            Some(at) => at,
            None => {
                assert(texts(parts@) + Seq::<Seq<char>>::empty() =~= texts(parts@));
                return parts;
            },
        };
        proof {
            lemma_find_from(chars@, marker@, from as int);
        }
        let start: usize = at + marker.len();
        let end: usize = match find(chars, marker, start) {
            Some(next) => next,
            None => chars.len(),
        };
        proof {
            lemma_find_from(chars@, marker@, start as int);
            assert(end == fragment_end(text@, marker@, at as int));
            assert(clamped_range(text@, start as int, end as int) =~= text@.subrange(
                start as int,
                end as int,
            ));
        }
        let piece = char_range(text, start, end).to_owned();
        let ghost before = parts@;
        parts.push(piece);
        proof {
            let rest = fragments_from(text@, marker@, end as int);
            assert(texts(parts@) =~= texts(before) + seq![piece@]);
            assert(texts(parts@) + rest =~= texts(before) + (seq![piece@] + rest));
        }
        from = end;
    }
}

} // verus!
