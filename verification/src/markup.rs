//! The two shapes that the document is read by: a section that holds one
//! piece per entry, and the attributes with which a piece begins.
//!
//! A section is found by the literal text of its markers. The attributes of
//! a piece are read one after another, each as a name, `="`, a value and
//! `"`, with blanks between them; the list ends where something else
//! stands. An attribute is found by its whole name: `A` is not found in
//! `XA="9"`, and not inside the value of another attribute.

use crate::error::ExtractError;
use crate::text::{
    crop, crop_chars, cut, fragments, matches_at, occurs_at, split_after, text_result, texts,
    to_chars,
};
use vstd::prelude::*;

verus! {

/// The kinds of characters that the attributes of a piece are made of.
#[derive(Clone, Copy, Debug, PartialEq, Eq, Structural)]
pub enum CharClass {
    /// What parts attributes: a space, a tab or the end of a line.
    Blank,
    /// What a name is made of: anything but a blank, `=` and `"`.
    Name,
    /// What a value is made of: anything but `"`.
    Value,
}

/// `c` is a space, a tab or the end of a line.
pub open spec fn is_blank(c: char) -> bool {
    c == ' ' || c == '\t' || c == '\n' || c == '\r'
}

/// `c` is of the kind `class`.
pub open spec fn in_class(class: CharClass, c: char) -> bool {
    match class {
        CharClass::Blank => is_blank(c),
        CharClass::Name => !is_blank(c) && c != '=' && c != '"',
        CharClass::Value => c != '"',
    }
}

/// Where the run of characters of the kind `class` ends that starts at
/// `from`: the first position at or after `from` that holds another
/// character, or the end of the text.
pub open spec fn run_end(text: Seq<char>, class: CharClass, from: int) -> int
    decreases text.len() - from,
{
    if 0 <= from < text.len() && in_class(class, text[from]) {
        run_end(text, class, from + 1)
    } else {
        from
    }
}

/// A run ends at or after its start and within the text; it holds
/// characters of its kind only, and what stands at its end is none.
pub proof fn lemma_run_end(text: Seq<char>, class: CharClass, from: int)
    requires
        0 <= from <= text.len(),
    ensures
        from <= run_end(text, class, from) <= text.len(),
        forall|j: int| from <= j < run_end(text, class, from) ==> in_class(class, #[trigger] text[j]),
        run_end(text, class, from) < text.len() ==> !in_class(
            class,
            text[run_end(text, class, from)],
        ),
    decreases text.len() - from,
{
    if from < text.len() && in_class(class, text[from]) {
        lemma_run_end(text, class, from + 1);
    }
}

/// Where the name of the attribute starts that is read from `from` on.
pub open spec fn name_start(fragment: Seq<char>, from: int) -> int {
    run_end(fragment, CharClass::Blank, from)
}

/// Where that name ends.
pub open spec fn name_stop(fragment: Seq<char>, from: int) -> int {
    run_end(fragment, CharClass::Name, name_start(fragment, from))
}

/// Where the value of that attribute starts, behind `="`.
pub open spec fn value_start(fragment: Seq<char>, from: int) -> int {
    name_stop(fragment, from) + 2
}

/// Where that value ends: at its closing quote, or at the end of the
/// fragment where it has none.
pub open spec fn value_stop(fragment: Seq<char>, from: int) -> int {
    run_end(fragment, CharClass::Value, value_start(fragment, from))
}

/// An attribute opens at `from`: behind blanks, if any, stand a name that
/// is not empty and `="`.
pub open spec fn attribute_opens(fragment: Seq<char>, from: int) -> bool {
    &&& 0 <= from <= fragment.len()
    &&& name_start(fragment, from) < name_stop(fragment, from)
    &&& value_start(fragment, from) <= fragment.len()
    &&& fragment[name_stop(fragment, from)] == '='
    &&& fragment[name_stop(fragment, from) + 1] == '"'
}

/// The value of the first attribute called `name` among those that
/// `fragment` lists from `from` on. The list is malformed for this name
/// where it ends before such an attribute, or where the value of an
/// attribute up to it has no closing quote.
pub open spec fn attribute_from(fragment: Seq<char>, name: Seq<char>, from: int) -> Result<
    Seq<char>,
    ExtractError,
>
    decreases fragment.len() - from,
    via attribute_from_decreases
{
    if !attribute_opens(fragment, from) {
        Err(ExtractError::MalformedDocument)
    } else if value_stop(fragment, from) >= fragment.len() {
        Err(ExtractError::MalformedDocument)
    } else if fragment.subrange(name_start(fragment, from), name_stop(fragment, from)) == name {
        Ok(fragment.subrange(value_start(fragment, from), value_stop(fragment, from)))
    } else {
        attribute_from(fragment, name, value_stop(fragment, from) + 1)
    }
}

#[via_fn]
proof fn attribute_from_decreases(fragment: Seq<char>, name: Seq<char>, from: int) {
    if attribute_opens(fragment, from) {
        lemma_attribute_places(fragment, from);
    }
}

/// The places of an attribute that opens at `from` stand in this order:
/// `from`, the start of its name, the end of its name, the start of its
/// value, the end of its value, the end of the fragment.
pub proof fn lemma_attribute_places(fragment: Seq<char>, from: int)
    requires
        attribute_opens(fragment, from),
    ensures
        from <= name_start(fragment, from) < name_stop(fragment, from),
        value_start(fragment, from) <= value_stop(fragment, from) <= fragment.len(),
{
    lemma_run_end(fragment, CharClass::Blank, from);
    lemma_run_end(fragment, CharClass::Name, name_start(fragment, from));
    lemma_run_end(fragment, CharClass::Value, value_start(fragment, from));
}

/// The value of the attribute called exactly `name` in `fragment`: that of
/// the first attribute of this name among those with which the fragment
/// begins. A fragment that lists no such attribute, or leaves a value
/// unclosed on the way to it, is malformed.
pub open spec fn attribute(fragment: Seq<char>, name: Seq<char>) -> Result<
    Seq<char>,
    ExtractError,
> {
    attribute_from(fragment, name, 0)
}

/// The pieces of the section of `document` that `open` and `close` bound,
/// one for each `marker` in it. A document without the section is
/// malformed.
pub open spec fn section_entries(
    document: Seq<char>,
    open: Seq<char>,
    close: Seq<char>,
    marker: Seq<char>,
) -> Result<Seq<Seq<char>>, ExtractError> {
    match crop(document, open, close) {
        Ok(region) => Ok(fragments(region, marker)),
        Err(e) => Err(e),
    }
}

/// What some texts or an error are as a value of the model.
pub open spec fn texts_result(outcome: Result<Vec<String>, ExtractError>) -> Result<
    Seq<Seq<char>>,
    ExtractError,
> {
    match outcome {
        Ok(strings) => Ok(texts(strings@)),
        Err(e) => Err(e),
    }
}

fn belongs(class: CharClass, c: char) -> (yes: bool)
    ensures
        yes == in_class(class, c),
{
    let blank = c == ' ' || c == '\t' || c == '\n' || c == '\r';
    match class {
        CharClass::Blank => blank,
        CharClass::Name => !blank && c != '=' && c != '"',
        CharClass::Value => c != '"',
    }
}

/// Where the run of characters of the kind `class` ends that starts at
/// `from`.
fn end_of_run(chars: &Vec<char>, class: CharClass, from: usize) -> (end: usize)
    requires
        from <= chars.len(),
    ensures
        end == run_end(chars@, class, from as int),
        from <= end <= chars.len(),
{
    let mut end: usize = from;
    while end < chars.len() && belongs(class, chars[end])
        invariant
            from <= end <= chars.len(),
            run_end(chars@, class, from as int) == run_end(chars@, class, end as int),
        decreases chars.len() - end,
    {
        end += 1;
    }
    end
}

/// The value of the attribute called exactly `name` in `fragment`; `chars`
/// holds the characters of `fragment`.
pub(crate) fn read_attribute(fragment: &str, chars: &Vec<char>, name: &str) -> (value: Result<
    String,
    ExtractError,
>)
    requires
        chars@ == fragment@,
    ensures
        text_result(value) == attribute(fragment@, name@),
        value matches Err(e) ==> e == ExtractError::MalformedDocument,
{
    let wanted = to_chars(name);
    let mut from: usize = 0;
    loop
        invariant
            chars@ == fragment@,
            wanted@ == name@,
            from <= chars.len(),
            attribute(fragment@, name@) == attribute_from(fragment@, name@, from as int),
        decreases chars.len() - from,
    {
        let start = end_of_run(chars, CharClass::Blank, from);
        let stop = end_of_run(chars, CharClass::Name, start);
        if stop == start || chars.len() - stop < 2 || chars[stop] != '=' || chars[stop + 1] != '"' {
            return Err(ExtractError::MalformedDocument);
        }
        let open: usize = stop + 2;
        let close = end_of_run(chars, CharClass::Value, open);
        if close >= chars.len() {
            return Err(ExtractError::MalformedDocument);
        }
        let found = stop - start == wanted.len() && matches_at(chars, &wanted, start);
        proof {
            if stop - start == wanted.len() {
                assert(occurs_at(chars@, wanted@, start as int) == (chars@.subrange(
                    start as int,
                    stop as int,
                ) == wanted@));
            } else {
                assert(chars@.subrange(start as int, stop as int).len() != wanted@.len());
            }
        }
        if found {
            return Ok(cut(fragment, open, close));
        }
        from = close + 1;
    }
}

/// The pieces of the section of `document` between `open` and `close`, one
/// for each `marker` in it.
pub(crate) fn read_entries(document: &str, open: &str, close: &str, marker: &str) -> (entries:
    Result<Vec<String>, ExtractError>)
    requires
        marker@.len() > 0,
    ensures
        texts_result(entries) == section_entries(document@, open@, close@, marker@),
{
    let chars = to_chars(document);
    let region = match crop_chars(document, &chars, &to_chars(open), &to_chars(close)) {
        Ok(region) => region,
        Err(e) => { return Err(e); },
    };
    let region_chars = to_chars(region.as_str());
    Ok(split_after(region.as_str(), &region_chars, &to_chars(marker)))
}

} // verus!
