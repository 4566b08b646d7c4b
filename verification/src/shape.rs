//! What a document of the expected shape is read as.
//!
//! The readers of this crate scan a text; the laws here say what they find
//! in a text that was written down from its parts: attributes written as
//! ` name="value"`, entries written as a marker and their attributes, a
//! section written as its two markers around its entries.

use crate::error::ExtractError;
use crate::markup::{
    attribute, attribute_from, attribute_opens, in_class, lemma_run_end, name_start, name_stop,
    run_end, value_start, value_stop, CharClass,
};
use crate::markup::section_entries;
use crate::text::{
    find_from, fragment_end, fragments, fragments_from, lemma_crop_reads_back, lemma_find_from,
    lemma_find_from_first, occurs_at,
};
use vstd::prelude::*;

verus! {

/// `name` can be the name of an attribute: it is not empty and holds no
/// blank, no `=` and no `"`.
pub open spec fn is_name(name: Seq<char>) -> bool {
    &&& name.len() > 0
    &&& forall|i: int| 0 <= i < name.len() ==> in_class(CharClass::Name, #[trigger] name[i])
}

/// `text` holds the character `c` nowhere.
pub open spec fn has_no(text: Seq<char>, c: char) -> bool {
    forall|i: int| 0 <= i < text.len() ==> #[trigger] text[i] != c
}

/// One attribute as it is written: a blank, the name, `="`, the value, `"`.
pub open spec fn attribute_text(name: Seq<char>, value: Seq<char>) -> Seq<char> {
    seq![' '] + name + seq!['=', '"'] + value + seq!['"']
}

/// Attributes as they are written, one behind another.
pub open spec fn attributes_text(pairs: Seq<(Seq<char>, Seq<char>)>) -> Seq<char>
    decreases pairs.len(),
{
    if pairs.len() == 0 {
        Seq::empty()
    } else {
        attribute_text(pairs.first().0, pairs.first().1) + attributes_text(pairs.drop_first())
    }
}

/// The value of the first of `pairs` that is called `name`.
pub open spec fn first_value(pairs: Seq<(Seq<char>, Seq<char>)>, name: Seq<char>) -> Result<
    Seq<char>,
    ExtractError,
>
    decreases pairs.len(),
{
    if pairs.len() == 0 {
        Err(ExtractError::MalformedDocument)
    } else if pairs.first().0 == name {
        Ok(pairs.first().1)
    } else {
        first_value(pairs.drop_first(), name)
    }
}

/// Every one of `pairs` has a name that can be one and a value without a
/// quote.
pub open spec fn well_written(pairs: Seq<(Seq<char>, Seq<char>)>) -> bool {
    forall|i: int|
        0 <= i < pairs.len() ==> is_name((#[trigger] pairs[i]).0) && has_no(pairs[i].1, '"')
}

/// A run that is known character by character ends where it is seen to end.
pub proof fn lemma_run_exact(text: Seq<char>, class: CharClass, from: int, end: int)
    requires
        0 <= from <= end <= text.len(),
        forall|j: int| from <= j < end ==> in_class(class, #[trigger] text[j]),
        end < text.len() ==> !in_class(class, text[end]),
    ensures
        run_end(text, class, from) == end,
    decreases end - from,
{
    if from < end {
        assert(in_class(class, text[from]));
        lemma_run_exact(text, class, from + 1, end);
    }
}

/// A run behind `head` ends where it ends in what stands behind `head`.
pub proof fn lemma_run_shift(head: Seq<char>, tail: Seq<char>, class: CharClass, from: int)
    requires
        0 <= from <= tail.len(),
    ensures
        run_end(head + tail, class, head.len() + from) == head.len() + run_end(tail, class, from),
    decreases tail.len() - from,
{
    let text = head + tail;
    if from < tail.len() {
        assert(text[head.len() + from] == tail[from]);
        if in_class(class, tail[from]) {
            lemma_run_shift(head, tail, class, from + 1);
        }
    }
}

/// Whether an attribute opens behind `head` is a matter of what stands
/// behind `head` alone.
pub proof fn lemma_opens_shift(head: Seq<char>, tail: Seq<char>)
    ensures
        attribute_opens(head + tail, head.len() as int) == attribute_opens(tail, 0),
{
    let text = head + tail;
    let h = head.len() as int;
    lemma_run_shift(head, tail, CharClass::Blank, 0);
    lemma_run_end(tail, CharClass::Blank, 0);
    let start = name_start(tail, 0);
    lemma_run_shift(head, tail, CharClass::Name, start);
    lemma_run_end(tail, CharClass::Name, start);
    let stop = name_stop(tail, 0);
    assert(name_start(text, h) == h + start);
    assert(name_stop(text, h) == h + stop);
    if stop + 2 <= tail.len() {
        assert(text[h + stop] == tail[stop]);
        assert(text[h + stop + 1] == tail[stop + 1]);
    }
}

/// Read from the place where it is written, one attribute either is the one
/// that is looked for, or the reading goes on behind it.
pub proof fn lemma_one_attribute(
    head: Seq<char>,
    written: (Seq<char>, Seq<char>),
    rest: Seq<char>,
    name: Seq<char>,
)
    requires
        is_name(written.0),
        has_no(written.1, '"'),
    ensures
        attribute_from(
            head + attribute_text(written.0, written.1) + rest,
            name,
            head.len() as int,
        ) == if written.0 == name {
            Ok::<_, ExtractError>(written.1)
        } else {
            attribute_from(
                head + attribute_text(written.0, written.1) + rest,
                name,
                (head.len() + attribute_text(written.0, written.1).len()) as int,
            )
        },
{
    let n = written.0;
    let v = written.1;
    let text = head + attribute_text(n, v) + rest;
    let h = head.len() as int;
    let a = h + 1;
    let b = a + n.len();
    let c = b + 2;
    let d = c + v.len();
    assert(attribute_text(n, v).len() == n.len() + v.len() + 4);
    assert(text[h] == ' ');
    assert forall|j: int| a <= j < b implies in_class(CharClass::Name, #[trigger] text[j]) by {
        assert(text[j] == n[j - a]);
    }
    assert(text[b] == '=');
    assert(text[b + 1] == '"');
    assert forall|j: int| c <= j < d implies in_class(CharClass::Value, #[trigger] text[j]) by {
        assert(text[j] == v[j - c]);
    }
    assert(text[d] == '"');
    assert(text[a] == n[0]);
    lemma_run_exact(text, CharClass::Blank, h, a);
    lemma_run_exact(text, CharClass::Name, a, b);
    lemma_run_exact(text, CharClass::Value, c, d);
    assert(name_start(text, h) == a);
    assert(name_stop(text, h) == b);
    assert(value_start(text, h) == c);
    assert(value_stop(text, h) == d);
    assert(attribute_opens(text, h));
    assert(text.subrange(a, b) =~= n);
    assert(text.subrange(c, d) =~= v);
}

/// Attributes that are written one behind another are read back: the value
/// of the first that has the name, whatever stands before them, and
/// whatever stands behind them that opens no further attribute.
pub proof fn lemma_attributes_read_from(
    head: Seq<char>,
    pairs: Seq<(Seq<char>, Seq<char>)>,
    tail: Seq<char>,
    name: Seq<char>,
)
    requires
        well_written(pairs),
        !attribute_opens(tail, 0),
    ensures
        attribute_from(head + attributes_text(pairs) + tail, name, head.len() as int)
            == first_value(pairs, name),
    decreases pairs.len(),
{
    let text = head + attributes_text(pairs) + tail;
    if pairs.len() == 0 {
        assert(text =~= head + tail);
        lemma_opens_shift(head, tail);
    } else {
        let first = pairs.first();
        let others = pairs.drop_first();
        let one = attribute_text(first.0, first.1);
        let rest = attributes_text(others) + tail;
        assert(is_name(pairs[0].0) && has_no(pairs[0].1, '"'));
        assert(well_written(others)) by {
            assert forall|i: int| 0 <= i < others.len() implies is_name((#[trigger] others[i]).0)
                && has_no(others[i].1, '"') by {
                assert(others[i] == pairs[i + 1]);
            }
        }
        assert(text =~= head + one + rest);
        lemma_one_attribute(head, first, rest, name);
        assert(text =~= (head + one) + attributes_text(others) + tail);
        lemma_attributes_read_from(head + one, others, tail, name);
    }
}

/// A piece that is written as its attributes and something that opens no
/// further attribute gives, for every name, the value of the first
/// attribute of that name, and is malformed for a name that none has.
pub proof fn lemma_attributes_read_back(
    pairs: Seq<(Seq<char>, Seq<char>)>,
    tail: Seq<char>,
    name: Seq<char>,
)
    requires
        well_written(pairs),
        !attribute_opens(tail, 0),
    ensures
        attribute(attributes_text(pairs) + tail, name) == first_value(pairs, name),
{
    lemma_attributes_read_from(Seq::empty(), pairs, tail, name);
    assert(Seq::<char>::empty() + attributes_text(pairs) + tail =~= attributes_text(pairs) + tail);
}

/// `marker` can open an entry: it starts with `<`, holds no other `<`, and
/// has a character behind it.
pub open spec fn opens_entries(marker: Seq<char>) -> bool {
    &&& marker.len() >= 2
    &&& marker[0] == '<'
    &&& forall|i: int| 1 <= i < marker.len() ==> #[trigger] marker[i] != '<'
}

/// None of `pieces` holds a `<`.
pub open spec fn hold_no_marker(pieces: Seq<Seq<char>>) -> bool {
    forall|i: int| 0 <= i < pieces.len() ==> has_no(#[trigger] pieces[i], '<')
}

/// Entries as they are written: each as the marker and its piece, one
/// behind another.
pub open spec fn entries_text(marker: Seq<char>, pieces: Seq<Seq<char>>) -> Seq<char>
    decreases pieces.len(),
{
    if pieces.len() == 0 {
        Seq::empty()
    } else {
        marker + pieces.first() + entries_text(marker, pieces.drop_first())
    }
}

/// A section as it is written into a document: what stands before it, its
/// opening marker, its entries, its closing marker, what stands behind it.
pub open spec fn section_text(
    before: Seq<char>,
    open: Seq<char>,
    marker: Seq<char>,
    pieces: Seq<Seq<char>>,
    close: Seq<char>,
    after: Seq<char>,
) -> Seq<char> {
    before + open + entries_text(marker, pieces) + close + after
}

/// In written entries a `<` stands only where a marker starts, so what
/// follows it is the marker's second character.
pub proof fn lemma_entries_chars(marker: Seq<char>, pieces: Seq<Seq<char>>, at: int)
    requires
        opens_entries(marker),
        hold_no_marker(pieces),
        0 <= at < entries_text(marker, pieces).len(),
        entries_text(marker, pieces)[at] == '<',
    ensures
        at + 1 < entries_text(marker, pieces).len(),
        entries_text(marker, pieces)[at + 1] == marker[1],
    decreases pieces.len(),
{
    let text = entries_text(marker, pieces);
    if pieces.len() > 0 {
        let piece = pieces.first();
        let others = pieces.drop_first();
        let rest = entries_text(marker, others);
        let m = marker.len() as int;
        assert(has_no(pieces[0], '<'));
        assert(hold_no_marker(others)) by {
            assert forall|i: int| 0 <= i < others.len() implies has_no(#[trigger] others[i], '<') by {
                assert(others[i] == pieces[i + 1]);
            }
        }
        assert(text.len() == m + piece.len() + rest.len());
        if at < m {
            assert(text[at] == marker[at]);
            assert(at == 0);
            assert(text[1] == marker[1]);
        } else if at < m + piece.len() {
            assert(text[at] == piece[at - m]);
        } else {
            let inner = at - m - piece.len();
            assert(text[at] == rest[inner]);
            lemma_entries_chars(marker, others, inner);
            assert(text[at + 1] == rest[inner + 1]);
        }
    }
}

/// Written entries are split into their pieces, whatever stands before
/// them.
pub proof fn lemma_entries_split_from(head: Seq<char>, marker: Seq<char>, pieces: Seq<Seq<char>>)
    requires
        opens_entries(marker),
        hold_no_marker(pieces),
    ensures
        fragments_from(head + entries_text(marker, pieces), marker, head.len() as int) == pieces,
    decreases pieces.len(),
{
    let text = head + entries_text(marker, pieces);
    let h = head.len() as int;
    let m = marker.len() as int;
    if pieces.len() == 0 {
        assert(text =~= head);
        assert(find_from(text, marker, h) is None);
        assert(fragments_from(text, marker, h) =~= pieces);
    } else {
        let piece = pieces.first();
        let others = pieces.drop_first();
        let rest = entries_text(marker, others);
        let start = h + m;
        let end = start + piece.len();
        assert(has_no(pieces[0], '<'));
        assert(hold_no_marker(others)) by {
            assert forall|i: int| 0 <= i < others.len() implies has_no(#[trigger] others[i], '<') by {
                assert(others[i] == pieces[i + 1]);
            }
        }
        assert(text =~= head + marker + piece + rest);
        assert(text.subrange(h, start) =~= marker);
        assert(occurs_at(text, marker, h));
        assert(find_from(text, marker, h) == Some(h));
        assert forall|j: int| start <= j < end implies !occurs_at(text, marker, j) by {
            assert(text[j] == piece[j - start]);
            if occurs_at(text, marker, j) {
                assert(text.subrange(j, j + m)[0] == text[j]);
            }
        }
        if others.len() == 0 {
            assert(rest.len() == 0);
            assert(end == text.len());
            lemma_find_from(text, marker, start);
            assert(find_from(text, marker, start) is None) by {
                if find_from(text, marker, start) is Some {
                    let at = find_from(text, marker, start)->0;
                    assert(occurs_at(text, marker, at));
                    assert(at < end);
                }
            }
        } else {
            assert(rest =~= marker + others.first() + entries_text(marker, others.drop_first()));
            assert(text.subrange(end, end + m) =~= marker);
            lemma_find_from_first(text, marker, start, end);
        }
        assert(fragment_end(text, marker, h) == end);
        assert(text.subrange(start, end) =~= piece);
        assert(text =~= (head + marker + piece) + entries_text(marker, others));
        lemma_entries_split_from(head + marker + piece, marker, others);
        assert(fragments_from(text, marker, h) =~= seq![piece] + others);
        assert(seq![piece] + others =~= pieces);
    }
}

/// A section that is written into a document is read back as its pieces,
/// where its opening marker stands nowhere before its own place, no piece
/// holds a `<`, and the closing marker starts with `<` and goes on
/// otherwise than the entry marker.
pub proof fn lemma_section_reads_back(
    before: Seq<char>,
    open: Seq<char>,
    marker: Seq<char>,
    pieces: Seq<Seq<char>>,
    close: Seq<char>,
    after: Seq<char>,
)
    requires
        opens_entries(marker),
        hold_no_marker(pieces),
        close.len() >= 2,
        close[0] == '<',
        close[1] != marker[1],
        forall|j: int|
            0 <= j < before.len() ==> !occurs_at(
                section_text(before, open, marker, pieces, close, after),
                open,
                j,
            ),
    ensures
        section_entries(
            section_text(before, open, marker, pieces, close, after),
            open,
            close,
            marker,
        ) == Ok::<_, ExtractError>(pieces),
{
    let region = entries_text(marker, pieces);
    let text = section_text(before, open, marker, pieces, close, after);
    let first = before.len() + open.len();
    assert forall|j: int| first <= j < first + region.len() implies !occurs_at(text, close, j) by {
        let at = j - first;
        assert(text[j] == region[at]);
        if occurs_at(text, close, j) {
            let part = text.subrange(j, j + close.len());
            assert(part[0] == text[j]);
            assert(part[1] == text[j + 1]);
            lemma_entries_chars(marker, pieces, at);
            assert(text[j + 1] == region[at + 1]);
        }
    }
    lemma_crop_reads_back(before, open, region, close, after);
    lemma_entries_split_from(Seq::empty(), marker, pieces);
    assert(Seq::<char>::empty() + region =~= region);
    assert(fragments(region, marker) == pieces);
}

/// What ends an entry that has nothing but attributes: `/>`.
pub open spec fn entry_end() -> Seq<char> {
    seq!['/', '>']
}

/// `/>` opens no attribute.
pub proof fn lemma_entry_end_opens_nothing()
    ensures
        !attribute_opens(entry_end(), 0),
        has_no(entry_end(), '<'),
{
    let tail = entry_end();
    lemma_run_exact(tail, CharClass::Blank, 0, 0);
    lemma_run_exact(tail, CharClass::Name, 0, 2);
}

/// Two texts that hold a character nowhere hold it nowhere when one is
/// written behind the other.
pub proof fn lemma_has_no_both(a: Seq<char>, b: Seq<char>, c: char)
    requires
        has_no(a, c),
        has_no(b, c),
    ensures
        has_no(a + b, c),
{
    assert forall|i: int| 0 <= i < (a + b).len() implies #[trigger] (a + b)[i] != c by {
        if i < a.len() {
            assert((a + b)[i] == a[i]);
        } else {
            assert((a + b)[i] == b[i - a.len()]);
        }
    }
}

/// Written attributes hold a `<` nowhere where no name and no value does.
pub proof fn lemma_attributes_hold_no_marker(pairs: Seq<(Seq<char>, Seq<char>)>)
    requires
        forall|i: int|
            0 <= i < pairs.len() ==> has_no((#[trigger] pairs[i]).0, '<') && has_no(
                pairs[i].1,
                '<',
            ),
    ensures
        has_no(attributes_text(pairs), '<'),
    decreases pairs.len(),
{
    if pairs.len() > 0 {
        let n = pairs.first().0;
        let v = pairs.first().1;
        let others = pairs.drop_first();
        assert(has_no(pairs[0].0, '<') && has_no(pairs[0].1, '<'));
        assert forall|i: int| 0 <= i < others.len() implies has_no((#[trigger] others[i]).0, '<')
            && has_no(others[i].1, '<') by {
            assert(others[i] == pairs[i + 1]);
        }
        lemma_attributes_hold_no_marker(others);
        lemma_has_no_both(seq![' '], n, '<');
        lemma_has_no_both(seq![' '] + n, seq!['=', '"'], '<');
        lemma_has_no_both(seq![' '] + n + seq!['=', '"'], v, '<');
        lemma_has_no_both(seq![' '] + n + seq!['=', '"'] + v, seq!['"'], '<');
        lemma_has_no_both(attribute_text(n, v), attributes_text(others), '<');
    }
}

} // verus!
