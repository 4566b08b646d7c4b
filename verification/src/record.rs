//! The raw records of a document: what each item of the data section says,
//! still as text.
//!
//! The `data` section holds one `item` per time stamp. An item carries its
//! time in the attribute `date`, and one attribute per series, named by the
//! series identifier. A raw record binds `time` to the date and the display
//! name of every series of the legend to the item's value for it. Every
//! series of the legend has to be there: an item that lacks one makes the
//! document malformed.

use crate::error::ExtractError;
use crate::legend::Legend;
use crate::markup::{attribute, read_attribute, read_entries, section_entries};
use crate::text::{texts, to_chars};
use crate::shape::{
    attributes_text, entry_end, first_value, has_no, hold_no_marker, is_name,
    lemma_attributes_hold_no_marker, lemma_attributes_read_back, lemma_entry_end_opens_nothing,
    lemma_has_no_both, lemma_section_reads_back, opens_entries, section_text, well_written,
};
use crate::text::occurs_at;
use crate::text_map::{as_map, distinct_keys, lemma_as_map_distinct, TextMap};
use vstd::prelude::*;

verus! {

/// A map from field name to the field's text.
pub type RawRecord = TextMap;

/// The item `fragment` has a date and a value for every series of `legend`.
pub open spec fn item_complete(fragment: Seq<char>, legend: Seq<(Seq<char>, Seq<char>)>) -> bool {
    &&& attribute(fragment, "date"@) is Ok
    &&& forall|i: int|
        0 <= i < legend.len() ==> attribute(fragment, (#[trigger] legend[i]).0) is Ok
}

/// The bindings that a complete item makes, in order: `time` to its date,
/// and for each entry of the legend its display name to the item's value for
/// its identifier.
pub open spec fn item_bindings(fragment: Seq<char>, legend: Seq<(Seq<char>, Seq<char>)>) -> Seq<
    (Seq<char>, Seq<char>),
> {
    seq![("time"@, attribute(fragment, "date"@)->Ok_0)] + legend.map_values(
        |entry: (Seq<char>, Seq<char>)| (entry.1, attribute(fragment, entry.0)->Ok_0),
    )
}

/// The raw record of one item. Where a name is bound more than once (two
/// series share a display name, or one is called `time`), the last binding
/// stays.
pub open spec fn raw_record(fragment: Seq<char>, legend: Seq<(Seq<char>, Seq<char>)>) -> Result<
    Map<Seq<char>, Seq<char>>,
    ExtractError,
> {
    if item_complete(fragment, legend) {
        Ok(as_map(item_bindings(fragment, legend)))
    } else {
        Err(ExtractError::MalformedDocument)
    }
}

/// The raw record of each item, in the order of the items; malformed as soon
/// as one item is.
pub open spec fn raw_records(items: Seq<Seq<char>>, legend: Seq<(Seq<char>, Seq<char>)>) -> Result<
    Seq<Map<Seq<char>, Seq<char>>>,
    ExtractError,
> {
    if forall|i: int| 0 <= i < items.len() ==> item_complete(#[trigger] items[i], legend) {
        Ok(items.map_values(|fragment: Seq<char>| as_map(item_bindings(fragment, legend))))
    } else {
        Err(ExtractError::MalformedDocument)
    }
}

/// The items of the data section of `document`, in the order in which they
/// stand.
pub open spec fn listed_items(document: Seq<char>) -> Result<Seq<Seq<char>>, ExtractError> {
    section_entries(document, "<data>"@, "</data>"@, "<item"@)
}

/// The raw records of `document` under `legend`.
pub open spec fn data_of(document: Seq<char>, legend: Seq<(Seq<char>, Seq<char>)>) -> Result<
    Seq<Map<Seq<char>, Seq<char>>>,
    ExtractError,
> {
    match listed_items(document) {
        Ok(items) => raw_records(items, legend),
        Err(e) => Err(e),
    }
}

/// The maps that `records` stand for, in order.
pub open spec fn maps_of(records: Seq<RawRecord>) -> Seq<Map<Seq<char>, Seq<char>>> {
    records.map_values(|record: RawRecord| record@)
}

/// What some raw records or an error are as a value of the model.
pub open spec fn data_result(outcome: Result<Vec<RawRecord>, ExtractError>) -> Result<
    Seq<Map<Seq<char>, Seq<char>>>,
    ExtractError,
> {
    match outcome {
        Ok(records) => Ok(maps_of(records@)),
        Err(e) => Err(e),
    }
}

/// Reads the raw record of the item `fragment`.
fn read_record(fragment: &str, legend: &Legend) -> (record: Result<RawRecord, ExtractError>)
    ensures
        match record {
            Ok(read) => item_complete(fragment@, legend.entries()) && read@ == as_map(
                item_bindings(fragment@, legend.entries()),
            ),
            Err(e) => !item_complete(fragment@, legend.entries()) && e
                == ExtractError::MalformedDocument,
        },
{
    let chars = to_chars(fragment);
    let date = match read_attribute(fragment, &chars, "date") {
        Ok(date) => date,
        Err(e) => { return Err(e); },
    };
    let ghost series = legend.entries();
    let ghost binding_of = |entry: (Seq<char>, Seq<char>)|
        (entry.1, attribute(fragment@, entry.0)->Ok_0);
    let ghost first = seq![("time"@, date@)];
    let mut record = TextMap::new();
    record.insert("time".to_owned(), date);
    assert(as_map(first) =~= Map::<Seq<char>, Seq<char>>::empty().insert("time"@, date@)) by {
        assert(first.drop_last() =~= Seq::empty());
    }
    let mut done: usize = 0;
    while done < legend.len()
        invariant
            done <= series.len(),
            chars@ == fragment@,
            series == legend.entries(),
            binding_of == |entry: (Seq<char>, Seq<char>)|
                (entry.1, attribute(fragment@, entry.0)->Ok_0),
            first == seq![("time"@, date@)],
            attribute(fragment@, "date"@) == Ok::<_, ExtractError>(date@),
            forall|i: int| 0 <= i < done ==> attribute(fragment@, (#[trigger] series[i]).0) is Ok,
            record@ == as_map(first + series.take(done as int).map_values(binding_of)),
        decreases series.len() - done,
    {
        let value = match read_attribute(fragment, &chars, legend.key_at(done).as_str()) {
            Ok(value) => value,
            Err(e) => {
                assert(attribute(fragment@, series[done as int].0) is Err);
                return Err(e);
            },
        };
        let name = legend.value_at(done).clone();
        record.insert(name, value);
        proof {
            let before = first + series.take(done as int).map_values(binding_of);
            let after = first + series.take(done + 1).map_values(binding_of);
            assert(after.drop_last() =~= before);
            assert(after.last() == (name@, value@));
        }
        done += 1;
    }
    assert(series.take(done as int) =~= series);
    Ok(record)
}

/// Reads the raw records from the data section of `body`, one for each item
/// and in the order of the items.
///
/// Fails with `MalformedDocument` where `body` has no `<data>` with a
/// `</data>` behind it, or where an item lacks its `date` or the attribute
/// of one of the legend's identifiers.
pub fn get_data_from_xml(body: String, legend: Legend) -> (records: Result<
    Vec<RawRecord>,
    ExtractError,
>)
    ensures
        data_result(records) == data_of(body@, legend.entries()),
{
    proof {
        reveal_strlit("<item");
    }
    let parts = match read_entries(body.as_str(), "<data>", "</data>", "<item") {
        Ok(parts) => parts,
        Err(e) => { return Err(e); },
    };
    let ghost items = texts(parts@);
    let ghost series = legend.entries();
    let ghost record_of = |fragment: Seq<char>| as_map(item_bindings(fragment, series));
    let mut records: Vec<RawRecord> = Vec::new();
    let mut done: usize = 0;
    while done < parts.len()
        invariant
            done <= parts.len(),
            items == texts(parts@),
            series == legend.entries(),
            listed_items(body@) == Ok::<_, ExtractError>(items),
            record_of == |fragment: Seq<char>| as_map(item_bindings(fragment, series)),
            forall|i: int| 0 <= i < done ==> item_complete(#[trigger] items[i], series),
            maps_of(records@) == items.take(done as int).map_values(record_of),
        decreases parts.len() - done,
    {
        assert(parts[done as int]@ == items[done as int]);
        let record = match read_record(parts[done].as_str(), &legend) {
            Ok(record) => record,
            Err(e) => { return Err(e); },
        };
        let ghost before = records@;
        records.push(record);
        proof {
            assert(maps_of(records@) =~= maps_of(before).push(record@));
            assert(items.take(done + 1).map_values(record_of) =~= items.take(
                done as int,
            ).map_values(record_of).push(record_of(items[done as int])));
        }
        done += 1;
    }
    assert(items.take(done as int) =~= items);
    Ok(records)
}

/// The data section gives raw records exactly where every item is complete,
/// and gives exactly one for each item, in the order of the items.
pub proof fn lemma_one_record_per_item(
    document: Seq<char>,
    legend: Seq<(Seq<char>, Seq<char>)>,
    items: Seq<Seq<char>>,
)
    requires
        listed_items(document) == Ok::<_, ExtractError>(items),
    ensures
        data_of(document, legend) is Ok <==> forall|i: int|
            0 <= i < items.len() ==> item_complete(#[trigger] items[i], legend),
        data_of(document, legend) matches Ok(records) ==> {
            &&& records.len() == items.len()
            &&& forall|i: int|
                0 <= i < items.len() ==> Ok::<_, ExtractError>(#[trigger] records[i]) == raw_record(
                    items[i],
                    legend,
                )
        },
{
}

/// The attributes of an item that is given by its date and the attributes
/// behind it: `date` first.
pub open spec fn item_attributes(item: (Seq<char>, Seq<(Seq<char>, Seq<char>)>)) -> Seq<
    (Seq<char>, Seq<char>),
> {
    seq![("date"@, item.0)] + item.1
}

/// One item of the data section as it is written behind its marker: its
/// attributes and `/>`.
pub open spec fn item_text(item: (Seq<char>, Seq<(Seq<char>, Seq<char>)>)) -> Seq<char> {
    attributes_text(item_attributes(item)) + entry_end()
}

/// A document that holds `before`, the data section with one entry for each
/// of `items`, and `after`.
pub open spec fn data_document(
    before: Seq<char>,
    items: Seq<(Seq<char>, Seq<(Seq<char>, Seq<char>)>)>,
    after: Seq<char>,
) -> Seq<char> {
    section_text(
        before,
        "<data>"@,
        "<item"@,
        items.map_values(|item: (Seq<char>, Seq<(Seq<char>, Seq<char>)>)| item_text(item)),
        "</data>"@,
        after,
    )
}

/// The item can be written: its attribute names can be names, and neither
/// they nor its date nor its values hold a quote or a `<`.
pub open spec fn item_plainly_written(item: (Seq<char>, Seq<(Seq<char>, Seq<char>)>)) -> bool {
    &&& has_no(item.0, '"')
    &&& has_no(item.0, '<')
    &&& forall|i: int|
        0 <= i < item.1.len() ==> {
            &&& is_name((#[trigger] item.1[i]).0)
            &&& has_no(item.1[i].0, '<')
            &&& has_no(item.1[i].1, '"')
            &&& has_no(item.1[i].1, '<')
        }
}

/// The item has an attribute for every identifier of `legend`.
pub open spec fn carries(
    item: (Seq<char>, Seq<(Seq<char>, Seq<char>)>),
    legend: Seq<(Seq<char>, Seq<char>)>,
) -> bool {
    forall|i: int|
        0 <= i < legend.len() ==> first_value(item_attributes(item), (#[trigger] legend[i]).0) is Ok
}

/// The bindings of the record of a written item: `time` to its date, each
/// display name to the value of the first attribute that is called by its
/// identifier.
pub open spec fn written_bindings(
    item: (Seq<char>, Seq<(Seq<char>, Seq<char>)>),
    legend: Seq<(Seq<char>, Seq<char>)>,
) -> Seq<(Seq<char>, Seq<char>)> {
    seq![("time"@, item.0)] + legend.map_values(
        |entry: (Seq<char>, Seq<char>)|
            (entry.1, first_value(item_attributes(item), entry.0)->Ok_0),
    )
}

/// A written item holds no `<`, and every attribute is read back from it by
/// its name.
pub proof fn lemma_item_text_reads_back(
    item: (Seq<char>, Seq<(Seq<char>, Seq<char>)>),
    name: Seq<char>,
)
    requires
        item_plainly_written(item),
    ensures
        has_no(item_text(item), '<'),
        attribute(item_text(item), name) == first_value(item_attributes(item), name),
        attribute(item_text(item), "date"@) == Ok::<_, ExtractError>(item.0),
{
    reveal_strlit("date");
    let written = item_attributes(item);
    assert(is_name("date"@));
    assert(has_no("date"@, '<'));
    assert forall|i: int| 0 <= i < written.len() implies is_name((#[trigger] written[i]).0)
        && has_no(written[i].1, '"') && has_no(written[i].0, '<') && has_no(written[i].1, '<') by {
        if i > 0 {
            assert(written[i] == item.1[i - 1]);
        }
    }
    assert(well_written(written));
    lemma_entry_end_opens_nothing();
    lemma_attributes_hold_no_marker(written);
    lemma_has_no_both(attributes_text(written), entry_end(), '<');
    lemma_attributes_read_back(written, entry_end(), name);
    lemma_attributes_read_back(written, entry_end(), "date"@);
    assert(written.first() == ("date"@, item.0));
}

/// A document whose data section is written as one entry for each of
/// `items` gives raw records exactly where every item has an attribute for
/// every identifier of the legend, and then gives exactly one record for
/// each item, in the order of the items, with the bindings of that item:
/// where the section's opening marker stands nowhere before its own place
/// and every item can be written.
pub proof fn lemma_data_document_gives_its_records(
    before: Seq<char>,
    items: Seq<(Seq<char>, Seq<(Seq<char>, Seq<char>)>)>,
    after: Seq<char>,
    legend: Seq<(Seq<char>, Seq<char>)>,
)
    requires
        forall|j: int| 0 <= j < items.len() ==> item_plainly_written(#[trigger] items[j]),
        forall|j: int|
            0 <= j < before.len() ==> !occurs_at(data_document(before, items, after), "<data>"@, j),
    ensures
        listed_items(data_document(before, items, after)) == Ok::<_, ExtractError>(
            items.map_values(|item: (Seq<char>, Seq<(Seq<char>, Seq<char>)>)| item_text(item)),
        ),
        (forall|j: int| 0 <= j < items.len() ==> carries(#[trigger] items[j], legend))
            ==> data_of(data_document(before, items, after), legend) == Ok::<_, ExtractError>(
            items.map_values(
                |item: (Seq<char>, Seq<(Seq<char>, Seq<char>)>)|
                    as_map(written_bindings(item, legend)),
            ),
        ),
        !(forall|j: int| 0 <= j < items.len() ==> carries(#[trigger] items[j], legend))
            ==> data_of(data_document(before, items, after), legend) == Err::<
            Seq<Map<Seq<char>, Seq<char>>>,
            _,
        >(ExtractError::MalformedDocument),
{
    reveal_strlit("<item");
    reveal_strlit("</data>");
    let pieces = items.map_values(
        |item: (Seq<char>, Seq<(Seq<char>, Seq<char>)>)| item_text(item),
    );
    assert(opens_entries("<item"@));
    assert forall|j: int| 0 <= j < pieces.len() implies has_no(#[trigger] pieces[j], '<') by {
        lemma_item_text_reads_back(items[j], "date"@);
    }
    assert(hold_no_marker(pieces));
    lemma_section_reads_back(before, "<data>"@, "<item"@, pieces, "</data>"@, after);
    assert forall|j: int| 0 <= j < items.len() implies item_complete(
        #[trigger] pieces[j],
        legend,
    ) == carries(items[j], legend) by {
        lemma_item_text_reads_back(items[j], "date"@);
        assert forall|i: int| 0 <= i < legend.len() implies attribute(
            pieces[j],
            (#[trigger] legend[i]).0,
        ) == first_value(item_attributes(items[j]), legend[i].0) by {
            lemma_item_text_reads_back(items[j], legend[i].0);
        }
    }
    if forall|j: int| 0 <= j < items.len() ==> carries(#[trigger] items[j], legend) {
        assert forall|j: int| 0 <= j < pieces.len() implies item_complete(
            #[trigger] pieces[j],
            legend,
        ) && item_bindings(pieces[j], legend) == written_bindings(items[j], legend) by {
            assert(carries(items[j], legend));
            lemma_item_text_reads_back(items[j], "date"@);
            assert forall|i: int| 0 <= i < legend.len() implies attribute(
                pieces[j],
                (#[trigger] legend[i]).0,
            ) == first_value(item_attributes(items[j]), legend[i].0) by {
                lemma_item_text_reads_back(items[j], legend[i].0);
            }
            assert(item_bindings(pieces[j], legend) =~= written_bindings(items[j], legend));
        }
        assert(pieces.map_values(|fragment: Seq<char>| as_map(item_bindings(fragment, legend)))
            =~= items.map_values(
            |item: (Seq<char>, Seq<(Seq<char>, Seq<char>)>)|
                as_map(written_bindings(item, legend)),
        ));
    } else {
        let j = choose|j: int| 0 <= j < items.len() && !carries(#[trigger] items[j], legend);
        assert(!item_complete(pieces[j], legend));
    }
}

/// The record of a written item binds `time` to the item's date and every
/// display name to its value, and holds nothing else: where the display
/// names of the legend are distinct and none is `time`.
pub proof fn lemma_written_record(
    item: (Seq<char>, Seq<(Seq<char>, Seq<char>)>),
    legend: Seq<(Seq<char>, Seq<char>)>,
)
    requires
        forall|i: int, k: int|
            0 <= i < k < legend.len() ==> (#[trigger] legend[i]).1 != (#[trigger] legend[k]).1,
        forall|i: int| 0 <= i < legend.len() ==> (#[trigger] legend[i]).1 != "time"@,
    ensures
        as_map(written_bindings(item, legend)).dom().finite(),
        as_map(written_bindings(item, legend)).dom().len() == 1 + legend.len(),
        as_map(written_bindings(item, legend)).contains_key("time"@),
        as_map(written_bindings(item, legend))["time"@] == item.0,
        forall|i: int|
            0 <= i < legend.len() ==> as_map(written_bindings(item, legend)).contains_key(
                (#[trigger] legend[i]).1,
            ) && as_map(written_bindings(item, legend))[legend[i].1] == first_value(
                item_attributes(item),
                legend[i].0,
            )->Ok_0,
{
    let bindings = written_bindings(item, legend);
    assert(bindings.len() == 1 + legend.len());
    assert(bindings[0] == ("time"@, item.0));
    assert forall|i: int| 0 <= i < legend.len() implies (#[trigger] bindings[i + 1]) == (
        legend[i].1,
        first_value(item_attributes(item), legend[i].0)->Ok_0,
    ) by {}
    assert(distinct_keys(bindings)) by {
        assert forall|i: int, k: int| 0 <= i < k < bindings.len() implies (
        #[trigger] bindings[i]).0 != (#[trigger] bindings[k]).0 by {
            assert(bindings[k] == bindings[(k - 1) + 1]);
            if i == 0 {
                assert(legend[k - 1].1 != "time"@);
            } else {
                assert(bindings[i] == bindings[(i - 1) + 1]);
                assert(legend[i - 1].1 != legend[k - 1].1);
            }
        }
    }
    lemma_as_map_distinct(bindings);
    assert forall|i: int| 0 <= i < legend.len() implies as_map(bindings).contains_key(
        (#[trigger] legend[i]).1,
    ) && as_map(bindings)[legend[i].1] == first_value(item_attributes(item), legend[i].0)->Ok_0 by {
        assert(bindings[i + 1].0 == legend[i].1);
    }
}

} // verus!
