//! Load items: the records that carry both regulation powers.
//!
//! A raw record becomes a load item where it names both powers and neither
//! is empty. The positive power is read from the field `aFRR+ [MW]`, the
//! negative power from `aFRR- [MW]`. A record that lacks one of them, or
//! holds an empty text for one, is left out without complaint. A record that
//! names both is held to them: each has to be a decimal number.
//!
//! A power is kept as the text that the document gave, so that nothing of it
//! is lost; what holds of every load item is that both texts are decimal
//! numbers.

use crate::error::ExtractError;
use crate::numeral::{is_decimal_number, is_numeral};
use crate::record::{maps_of, RawRecord};
use vstd::prelude::*;

verus! {

/// The field that holds the time of a record.
pub open spec fn time_field() -> Seq<char> {
    "time"@
}

/// The field that holds the positive regulation power.
pub open spec fn positive_field() -> Seq<char> {
    "aFRR+ [MW]"@
}

/// The field that holds the negative regulation power.
pub open spec fn negative_field() -> Seq<char> {
    "aFRR- [MW]"@
}

/// What a load item says: its time and its two powers, as texts.
pub struct LoadItemModel {
    pub time: Seq<char>,
    pub automatic_frequency_positive: Seq<char>,
    pub automatic_frequency_negative: Seq<char>,
}

/// One measurement: a time with the positive and the negative regulation
/// power at that time.
#[derive(Debug)]
pub struct LoadItem {
    time: String,
    automatic_frequency_positive: String,
    automatic_frequency_negative: String,
}

impl View for LoadItem {
    type V = LoadItemModel;

    closed spec fn view(&self) -> LoadItemModel {
        LoadItemModel {
            time: self.time@,
            automatic_frequency_positive: self.automatic_frequency_positive@,
            automatic_frequency_negative: self.automatic_frequency_negative@,
        }
    }
}

/// Both powers of `item` are decimal numbers.
pub open spec fn well_formed(item: LoadItemModel) -> bool {
    is_numeral(item.automatic_frequency_positive) && is_numeral(item.automatic_frequency_negative)
}

/// The load item that `time` and the two powers make, where both powers are
/// decimal numbers.
pub open spec fn load_item_from(time: Seq<char>, positive: Seq<char>, negative: Seq<char>) -> Result<
    LoadItemModel,
    ExtractError,
> {
    if is_numeral(positive) && is_numeral(negative) {
        Ok(
            LoadItemModel {
                time,
                automatic_frequency_positive: positive,
                automatic_frequency_negative: negative,
            },
        )
    } else {
        Err(ExtractError::InvalidNumber)
    }
}

/// What a load item or an error is as a value of the model.
pub open spec fn item_result(outcome: Result<LoadItem, ExtractError>) -> Result<
    LoadItemModel,
    ExtractError,
> {
    match outcome {
        Ok(item) => Ok(item@),
        Err(e) => Err(e),
    }
}

impl LoadItem {
    #[verifier::type_invariant]
    spec fn powers_are_numbers(&self) -> bool {
        well_formed(self@)
    }

    /// Makes a load item of a time and two powers. Nothing is asked of the
    /// time. Fails with `InvalidNumber` unless both powers are decimal
    /// numbers.
    pub fn new(time: String, positive: String, negative: String) -> (made: Result<
        LoadItem,
        ExtractError,
    >)
        ensures
            item_result(made) == load_item_from(time@, positive@, negative@),
    {
        if is_decimal_number(positive.as_str()) && is_decimal_number(negative.as_str()) {
            Ok(
                LoadItem {
                    time,
                    automatic_frequency_positive: positive,
                    automatic_frequency_negative: negative,
                },
            )
        } else {
            Err(ExtractError::InvalidNumber)
        }
    }

    /// The time of the measurement, as the document gave it.
    pub fn time(&self) -> (time: &String)
        ensures
            time@ == self@.time,
    {
        &self.time
    }

    /// The positive regulation power, a decimal number.
    pub fn automatic_frequency_positive(&self) -> (power: &String)
        ensures
            power@ == self@.automatic_frequency_positive,
            is_numeral(power@),
    {
        proof {
            use_type_invariant(self);
        }
        &self.automatic_frequency_positive
    }

    /// The negative regulation power, a decimal number.
    pub fn automatic_frequency_negative(&self) -> (power: &String)
        ensures
            power@ == self@.automatic_frequency_negative,
            is_numeral(power@),
    {
        proof {
            use_type_invariant(self);
        }
        &self.automatic_frequency_negative
    }
}

impl Clone for LoadItem {
    fn clone(&self) -> (copy: LoadItem)
        ensures
            copy@ == self@,
    {
        proof {
            use_type_invariant(self);
        }
        LoadItem {
            time: self.time.clone(),
            automatic_frequency_positive: self.automatic_frequency_positive.clone(),
            automatic_frequency_negative: self.automatic_frequency_negative.clone(),
        }
    }
}

/// `record` names both powers, and neither is empty.
pub open spec fn has_powers(record: Map<Seq<char>, Seq<char>>) -> bool {
    &&& record.contains_key(positive_field())
    &&& record.contains_key(negative_field())
    &&& record[positive_field()].len() > 0
    &&& record[negative_field()].len() > 0
}

/// The load item of a record that names both powers. A record without a
/// time is malformed; a power that is no decimal number is an invalid
/// number.
pub open spec fn typed(record: Map<Seq<char>, Seq<char>>) -> Result<LoadItemModel, ExtractError> {
    if !record.contains_key(time_field()) {
        Err(ExtractError::MalformedDocument)
    } else {
        load_item_from(record[time_field()], record[positive_field()], record[negative_field()])
    }
}

/// What one record gives: nothing where it is left out, else its load item
/// or the reason why it has none.
pub open spec fn load_item_of(record: Map<Seq<char>, Seq<char>>) -> Result<
    Option<LoadItemModel>,
    ExtractError,
> {
    if !has_powers(record) {
        Ok(None)
    } else {
        match typed(record) {
            Ok(item) => Ok(Some(item)),
            Err(e) => Err(e),
        }
    }
}

/// The load items of `records`, in the order of the records, without the
/// records that are left out; or what is wrong with the first record that
/// names both powers and still has no load item.
pub open spec fn load_items_of(records: Seq<Map<Seq<char>, Seq<char>>>) -> Result<
    Seq<LoadItemModel>,
    ExtractError,
>
    decreases records.len(),
{
    if records.len() == 0 {
        Ok(Seq::empty())
    } else {
        match load_items_of(records.drop_last()) {
            Err(e) => Err(e),
            Ok(items) => match load_item_of(records.last()) {
                Err(e) => Err(e),
                Ok(Some(item)) => Ok(items.push(item)),
                Ok(None) => Ok(items),
            },
        }
    }
}

/// What `items` say, in order.
pub open spec fn models_of(items: Seq<LoadItem>) -> Seq<LoadItemModel> {
    items.map_values(|item: LoadItem| item@)
}

/// What an optional load item or an error is as a value of the model.
pub open spec fn optional_item_result(outcome: Result<Option<LoadItem>, ExtractError>) -> Result<
    Option<LoadItemModel>,
    ExtractError,
> {
    match outcome {
        Ok(Some(item)) => Ok(Some(item@)),
        Ok(None) => Ok(None),
        Err(e) => Err(e),
    }
}

/// What some load items or an error are as a value of the model.
pub open spec fn items_result(outcome: Result<Vec<LoadItem>, ExtractError>) -> Result<
    Seq<LoadItemModel>,
    ExtractError,
> {
    match outcome {
        Ok(items) => Ok(models_of(items@)),
        Err(e) => Err(e),
    }
}

/// An error among the first records is the error of them all.
proof fn lemma_error_stays(records: Seq<Map<Seq<char>, Seq<char>>>, upto: int)
    requires
        0 <= upto <= records.len(),
        load_items_of(records.take(upto)) is Err,
    ensures
        load_items_of(records) == load_items_of(records.take(upto)),
    decreases records.len() - upto,
{
    if upto < records.len() {
        assert(records.take(upto + 1).drop_last() =~= records.take(upto));
        lemma_error_stays(records, upto + 1);
    } else {
        assert(records.take(upto) =~= records);
    }
}

/// Turns one raw record into its load item.
///
/// Gives `None` for a record that lacks a power or holds an empty one.
/// Fails with `MalformedDocument` where the record names both powers and no
/// time, and with `InvalidNumber` where it names both powers and one of them
/// is no decimal number.
pub fn load_item_from_record(record: &RawRecord) -> (item: Result<Option<LoadItem>, ExtractError>)
    ensures
        optional_item_result(item) == load_item_of(record@),
{
    let positive = match record.get("aFRR+ [MW]") {
        Some(text) => text,
        None => { return Ok(None); },
    };
    let negative = match record.get("aFRR- [MW]") {
        Some(text) => text,
        None => { return Ok(None); },
    };
    if positive.as_str().unicode_len() == 0 || negative.as_str().unicode_len() == 0 {
        return Ok(None);
    }
    let time = match record.get("time") {
        Some(text) => text,
        None => { return Err(ExtractError::MalformedDocument); },
    };
    match LoadItem::new(time.clone(), positive.clone(), negative.clone()) {
        Ok(item) => Ok(Some(item)),
        Err(e) => Err(e),
    }
}

/// Turns raw records into load items, in the order of the records and
/// without those that lack a power or hold an empty one.
///
/// Fails at the first record that names both powers and cannot be a load
/// item: with `MalformedDocument` where it has no time, with `InvalidNumber`
/// where one of its powers is no decimal number.
pub fn get_load_items_from_data(data: Vec<RawRecord>) -> (items: Result<
    Vec<LoadItem>,
    ExtractError,
>)
    ensures
        items_result(items) == load_items_of(maps_of(data@)),
{
    let ghost records = maps_of(data@);
    let mut items: Vec<LoadItem> = Vec::new();
    let mut done: usize = 0;
    assert(models_of(items@) =~= Seq::empty());
    while done < data.len()
        invariant
            done <= data.len(),
            records == maps_of(data@),
            load_items_of(records.take(done as int)) == Ok::<_, ExtractError>(models_of(items@)),
        decreases data.len() - done,
    {
        assert(records.take(done + 1).drop_last() =~= records.take(done as int));
        assert(records.take(done + 1).last() == data@[done as int]@);
        match load_item_from_record(&data[done]) {
            Ok(Some(item)) => {
                let ghost before = items@;
                items.push(item);
                assert(models_of(items@) =~= models_of(before).push(item@));
            },
            Ok(None) => {},
            Err(e) => {
                proof {
                    lemma_error_stays(records, done + 1);
                }
                return Err(e);
            },
        }
        done += 1;
    }
    assert(records.take(done as int) =~= records);
    Ok(items)
}

/// The load items are those of the records that name both powers, in the
/// order of the records: nothing of a record that is left out appears, and
/// every other record appears in its place.
pub proof fn lemma_load_items_are_the_kept_records(records: Seq<Map<Seq<char>, Seq<char>>>)
    requires
        load_items_of(records) is Ok,
    ensures
        load_items_of(records)->Ok_0 == records.filter(
            |record: Map<Seq<char>, Seq<char>>| has_powers(record),
        ).map_values(|record: Map<Seq<char>, Seq<char>>| typed(record)->Ok_0),
        forall|i: int|
            0 <= i < records.len() && has_powers(#[trigger] records[i]) ==> typed(records[i]) is Ok,
    decreases records.len(),
{
    reveal(Seq::filter);
    let kept = |record: Map<Seq<char>, Seq<char>>| has_powers(record);
    let item_of = |record: Map<Seq<char>, Seq<char>>| typed(record)->Ok_0;
    if records.len() > 0 {
        let init = records.drop_last();
        lemma_load_items_are_the_kept_records(init);
        assert(load_items_of(records)->Ok_0 =~= records.filter(kept).map_values(item_of));
        assert forall|i: int|
            0 <= i < records.len() && has_powers(#[trigger] records[i]) implies typed(
            records[i],
        ) is Ok by {
            if i < records.len() - 1 {
                assert(init[i] == records[i]);
            }
        }
    } else {
        assert(load_items_of(records)->Ok_0 =~= records.filter(kept).map_values(item_of));
    }
}

} // verus!
