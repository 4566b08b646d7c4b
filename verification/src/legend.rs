//! The legend of a document: which display name each series identifier
//! stands for.
//!
//! The `series` section lists one `serie` entry per series, each with an
//! `id` and a `name` attribute. The legend binds each identifier to its
//! name; an identifier that is listed twice keeps the name that was listed
//! last.

use crate::error::ExtractError;
use crate::markup::{attribute, read_attribute, read_entries, section_entries};
use crate::text::{texts, to_chars};
use crate::text_map::{as_map, collect, distinct_keys, has_key, lemma_as_map_distinct, lemma_as_map_keys, lemma_collect, lemma_collect_distinct, TextMap};
use crate::shape::{
    attributes_text, entry_end, first_value, has_no, hold_no_marker, is_name,
    lemma_attributes_hold_no_marker, lemma_attributes_read_back, lemma_entry_end_opens_nothing,
    lemma_has_no_both, lemma_section_reads_back, opens_entries, section_text, well_written,
};
use crate::text::occurs_at;
use vstd::prelude::*;

verus! {

/// A map from series identifier to display name.
pub type Legend = TextMap;

/// The identifier and the name that one entry of the series section gives.
/// An entry without an `id` or without a `name` is malformed.
pub open spec fn legend_pair(fragment: Seq<char>) -> Result<(Seq<char>, Seq<char>), ExtractError> {
    match (attribute(fragment, "id"@), attribute(fragment, "name"@)) {
        (Ok(id), Ok(name)) => Ok((id, name)),
        _ => Err(ExtractError::MalformedDocument),
    }
}

/// The pair of each entry, in the order of the entries; malformed as soon
/// as one entry is.
pub open spec fn legend_pairs(entries: Seq<Seq<char>>) -> Result<
    Seq<(Seq<char>, Seq<char>)>,
    ExtractError,
> {
    if forall|i: int| 0 <= i < entries.len() ==> legend_pair(#[trigger] entries[i]) is Ok {
        Ok(entries.map_values(|fragment: Seq<char>| legend_pair(fragment)->Ok_0))
    } else {
        Err(ExtractError::MalformedDocument)
    }
}

/// The pairs that the series section of `document` lists, in the order in
/// which it lists them.
pub open spec fn listed_pairs(document: Seq<char>) -> Result<
    Seq<(Seq<char>, Seq<char>)>,
    ExtractError,
> {
    match section_entries(document, "<series>"@, "</series>"@, "<serie"@) {
        Ok(entries) => legend_pairs(entries),
        Err(e) => Err(e),
    }
}

/// The entries of the legend of `document`.
pub open spec fn legend_of(document: Seq<char>) -> Result<
    Seq<(Seq<char>, Seq<char>)>,
    ExtractError,
> {
    match listed_pairs(document) {
        Ok(pairs) => Ok(collect(pairs)),
        Err(e) => Err(e),
    }
}

/// What a legend or an error is as a value of the model.
pub open spec fn legend_result(outcome: Result<Legend, ExtractError>) -> Result<
    Seq<(Seq<char>, Seq<char>)>,
    ExtractError,
> {
    match outcome {
        Ok(legend) => Ok(legend.entries()),
        Err(e) => Err(e),
    }
}

/// Reads the legend from the series section of `body`.
///
/// Fails with `MalformedDocument` where `body` has no `<series>` with a
/// `</series>` behind it, or where an entry of the section has no attribute
/// called `id` or none called `name`, or leaves a value unclosed.
pub fn get_legend_from_xml(body: String) -> (legend: Result<Legend, ExtractError>)
    ensures
        legend_result(legend) == legend_of(body@),
{
    proof {
        reveal_strlit("<serie");
    }
    let parts = match read_entries(body.as_str(), "<series>", "</series>", "<serie") {
        Ok(parts) => parts,
        Err(e) => { return Err(e); },
    };
    let ghost entries = texts(parts@);
    let ghost pair_of = |fragment: Seq<char>| legend_pair(fragment)->Ok_0;
    let mut legend = TextMap::new();
    let mut done: usize = 0;
    while done < parts.len()
        invariant
            done <= parts.len(),
            entries == texts(parts@),
            section_entries(body@, "<series>"@, "</series>"@, "<serie"@) == Ok::<
                _,
                ExtractError,
            >(entries),
            pair_of == |fragment: Seq<char>| legend_pair(fragment)->Ok_0,
            forall|i: int| 0 <= i < done ==> legend_pair(#[trigger] entries[i]) is Ok,
            legend.entries() == collect(entries.take(done as int).map_values(pair_of)),
        decreases parts.len() - done,
    {
        let fragment = parts[done].as_str();
        let chars = to_chars(fragment);
        assert(fragment@ == entries[done as int]);
        let id = match read_attribute(fragment, &chars, "id") {
            Ok(id) => id,
            Err(e) => {
                assert(legend_pair(entries[done as int]) is Err);
                return Err(e);
            },
        };
        let name = match read_attribute(fragment, &chars, "name") {
            Ok(name) => name,
            Err(e) => {
                assert(legend_pair(entries[done as int]) is Err);
                return Err(e);
            },
        };
        legend.insert(id, name);
        proof {
            let before = entries.take(done as int).map_values(pair_of);
            let after = entries.take(done + 1).map_values(pair_of);
            assert(after.drop_last() =~= before);
            assert(after.last() == (id@, name@));
        }
        done += 1;
    }
    assert(entries.take(done as int) =~= entries);
    Ok(legend)
}

/// A series section that lists pairs with distinct identifiers gives a
/// legend with exactly one entry for each pair, which binds the pair's
/// identifier to the pair's name.
pub proof fn lemma_legend_holds_each_pair(
    document: Seq<char>,
    pairs: Seq<(Seq<char>, Seq<char>)>,
)
    requires
        listed_pairs(document) == Ok::<_, ExtractError>(pairs),
        distinct_keys(pairs),
    ensures
        legend_of(document) == Ok::<_, ExtractError>(pairs),
        as_map(pairs).dom().finite(),
        as_map(pairs).dom().len() == pairs.len(),
        forall|i: int|
            0 <= i < pairs.len() ==> as_map(pairs).contains_key((#[trigger] pairs[i]).0) && as_map(
                pairs,
            )[pairs[i].0] == pairs[i].1,
{
    lemma_collect_distinct(pairs);
    lemma_as_map_distinct(pairs);
}

/// Two series sections that list the same pairs with distinct identifiers
/// give the same legend, whatever the order in which each lists them.
pub proof fn lemma_legend_ignores_order(first: Seq<char>, second: Seq<char>)
    requires
        listed_pairs(first) is Ok,
        listed_pairs(second) is Ok,
        distinct_keys(listed_pairs(first)->Ok_0),
        distinct_keys(listed_pairs(second)->Ok_0),
        listed_pairs(first)->Ok_0.to_set() == listed_pairs(second)->Ok_0.to_set(),
    ensures
        legend_of(first) is Ok,
        legend_of(second) is Ok,
        as_map(legend_of(first)->Ok_0) == as_map(legend_of(second)->Ok_0),
{
    let a = listed_pairs(first)->Ok_0;
    let b = listed_pairs(second)->Ok_0;
    lemma_collect(a);
    lemma_collect(b);
    lemma_same_pairs_same_map(a, b);
    lemma_same_pairs_same_map(b, a);
    assert(as_map(a) =~= as_map(b));
}

/// Where every pair of `a` stands in `b` and keys are distinct in both,
/// the map of `b` holds what the map of `a` holds.
proof fn lemma_same_pairs_same_map(a: Seq<(Seq<char>, Seq<char>)>, b: Seq<(Seq<char>, Seq<char>)>)
    requires
        distinct_keys(a),
        distinct_keys(b),
        a.to_set() == b.to_set(),
    ensures
        forall|key: Seq<char>| #[trigger]
            as_map(a).contains_key(key) ==> as_map(b).contains_key(key) && as_map(b)[key] == as_map(
                a,
            )[key],
{
    lemma_as_map_keys(a);
    lemma_as_map_keys(b);
    lemma_as_map_distinct(a);
    lemma_as_map_distinct(b);
    assert forall|key: Seq<char>| #[trigger] as_map(a).contains_key(key) implies as_map(
        b,
    ).contains_key(key) && as_map(b)[key] == as_map(a)[key] by {
        assert(has_key(a, key));
        let i = choose|i: int| 0 <= i < a.len() && (#[trigger] a[i]).0 == key;
        assert(a.to_set().contains(a[i]));
        assert(b.contains(a[i]));
        let j = choose|j: int| 0 <= j < b.len() && b[j] == a[i];
        assert(b[j].0 == key);
    }
}

/// One entry of the series section as it is written behind its marker:
/// ` id="…" name="…"/>`.
pub open spec fn serie_text(pair: (Seq<char>, Seq<char>)) -> Seq<char> {
    attributes_text(seq![("id"@, pair.0), ("name"@, pair.1)]) + entry_end()
}

/// A document that holds `before`, the series section with one entry for
/// each of `pairs`, and `after`.
pub open spec fn series_document(
    before: Seq<char>,
    pairs: Seq<(Seq<char>, Seq<char>)>,
    after: Seq<char>,
) -> Seq<char> {
    section_text(
        before,
        "<series>"@,
        "<serie"@,
        pairs.map_values(|pair: (Seq<char>, Seq<char>)| serie_text(pair)),
        "</series>"@,
        after,
    )
}

/// Neither an identifier nor a name of `pairs` holds a quote or a `<`.
pub open spec fn plainly_written(pairs: Seq<(Seq<char>, Seq<char>)>) -> bool {
    forall|i: int|
        0 <= i < pairs.len() ==> {
            &&& has_no((#[trigger] pairs[i]).0, '"')
            &&& has_no(pairs[i].0, '<')
            &&& has_no(pairs[i].1, '"')
            &&& has_no(pairs[i].1, '<')
        }
}

/// A written entry holds no `<` and is read back as its pair.
pub proof fn lemma_serie_text_reads_back(pair: (Seq<char>, Seq<char>))
    requires
        has_no(pair.0, '"'),
        has_no(pair.0, '<'),
        has_no(pair.1, '"'),
        has_no(pair.1, '<'),
    ensures
        has_no(serie_text(pair), '<'),
        legend_pair(serie_text(pair)) == Ok::<_, ExtractError>(pair),
{
    reveal_strlit("id");
    reveal_strlit("name");
    let written = seq![("id"@, pair.0), ("name"@, pair.1)];
    assert(is_name("id"@));
    assert(is_name("name"@));
    assert(well_written(written));
    assert(has_no("id"@, '<'));
    assert(has_no("name"@, '<'));
    lemma_entry_end_opens_nothing();
    lemma_attributes_hold_no_marker(written);
    lemma_has_no_both(attributes_text(written), entry_end(), '<');
    lemma_attributes_read_back(written, entry_end(), "id"@);
    lemma_attributes_read_back(written, entry_end(), "name"@);
    assert(first_value(written, "id"@) == Ok::<_, ExtractError>(pair.0));
    assert(written.drop_first().first() == ("name"@, pair.1));
    assert("id"@ != "name"@) by {
        assert("id"@.len() != "name"@.len());
    }
    assert(first_value(written, "name"@) == first_value(written.drop_first(), "name"@));
    assert(first_value(written.drop_first(), "name"@) == Ok::<_, ExtractError>(pair.1));
}

/// A document whose series section is written as one entry for each of
/// `pairs` lists exactly these pairs, in their order: where the section's
/// opening marker stands nowhere before its own place, and no identifier
/// and no name holds a quote or a `<`.
pub proof fn lemma_series_document_lists_its_pairs(
    before: Seq<char>,
    pairs: Seq<(Seq<char>, Seq<char>)>,
    after: Seq<char>,
)
    requires
        plainly_written(pairs),
        forall|j: int|
            0 <= j < before.len() ==> !occurs_at(
                series_document(before, pairs, after),
                "<series>"@,
                j,
            ),
    ensures
        listed_pairs(series_document(before, pairs, after)) == Ok::<_, ExtractError>(pairs),
{
    reveal_strlit("<serie");
    reveal_strlit("</series>");
    let pieces = pairs.map_values(|pair: (Seq<char>, Seq<char>)| serie_text(pair));
    assert(opens_entries("<serie"@));
    assert forall|i: int| 0 <= i < pieces.len() implies has_no(#[trigger] pieces[i], '<')
        && legend_pair(pieces[i]) == Ok::<_, ExtractError>(pairs[i]) by {
        assert(has_no(pairs[i].0, '"'));
        lemma_serie_text_reads_back(pairs[i]);
    }
    assert(hold_no_marker(pieces));
    lemma_section_reads_back(before, "<series>"@, "<serie"@, pieces, "</series>"@, after);
    assert(pieces.map_values(|fragment: Seq<char>| legend_pair(fragment)->Ok_0) =~= pairs);
}

/// A document whose series section is written as one entry for each of
/// `pairs`, with distinct identifiers, gives the legend that holds exactly
/// these pairs: as many entries as pairs, each identifier bound to its
/// name.
pub proof fn lemma_legend_of_series_document(
    before: Seq<char>,
    pairs: Seq<(Seq<char>, Seq<char>)>,
    after: Seq<char>,
)
    requires
        plainly_written(pairs),
        distinct_keys(pairs),
        forall|j: int|
            0 <= j < before.len() ==> !occurs_at(
                series_document(before, pairs, after),
                "<series>"@,
                j,
            ),
    ensures
        legend_of(series_document(before, pairs, after)) == Ok::<_, ExtractError>(pairs),
        as_map(pairs).dom().finite(),
        as_map(pairs).dom().len() == pairs.len(),
        forall|i: int|
            0 <= i < pairs.len() ==> as_map(pairs).contains_key((#[trigger] pairs[i]).0) && as_map(
                pairs,
            )[pairs[i].0] == pairs[i].1,
{
    lemma_series_document_lists_its_pairs(before, pairs, after);
    lemma_legend_holds_each_pair(series_document(before, pairs, after), pairs);
}

/// Two documents whose series sections are written from the same pairs,
/// with distinct identifiers, in whatever order, give the same legend.
pub proof fn lemma_series_documents_in_any_order(
    before: Seq<char>,
    pairs: Seq<(Seq<char>, Seq<char>)>,
    after: Seq<char>,
    other_before: Seq<char>,
    reordered: Seq<(Seq<char>, Seq<char>)>,
    other_after: Seq<char>,
)
    requires
        plainly_written(pairs),
        plainly_written(reordered),
        distinct_keys(pairs),
        distinct_keys(reordered),
        pairs.to_set() == reordered.to_set(),
        forall|j: int|
            0 <= j < before.len() ==> !occurs_at(
                series_document(before, pairs, after),
                "<series>"@,
                j,
            ),
        forall|j: int|
            0 <= j < other_before.len() ==> !occurs_at(
                series_document(other_before, reordered, other_after),
                "<series>"@,
                j,
            ),
    ensures
        legend_of(series_document(before, pairs, after)) is Ok,
        legend_of(series_document(other_before, reordered, other_after)) is Ok,
        as_map(legend_of(series_document(before, pairs, after))->Ok_0) == as_map(
            legend_of(series_document(other_before, reordered, other_after))->Ok_0,
        ),
{
    lemma_series_document_lists_its_pairs(before, pairs, after);
    lemma_series_document_lists_its_pairs(other_before, reordered, other_after);
    lemma_legend_ignores_order(
        series_document(before, pairs, after),
        series_document(other_before, reordered, other_after),
    );
}

} // verus!
