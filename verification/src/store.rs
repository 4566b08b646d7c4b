//! The store: the load items that the service holds, oldest first.
//!
//! The store only ever grows, and only at its end. It is a plain value: who
//! shares it among several callers puts it behind one lock and holds the
//! lock for the whole of each call, so that every call sees the store as
//! another call left it. The contracts below then hold of the calls in the
//! order in which they got the lock.

use crate::error::ExtractError;
use crate::load_item::{item_result, load_item_from, models_of, LoadItem, LoadItemModel};
use vstd::prelude::*;

verus! {

/// The store after `record` was appended to `items`.
pub open spec fn appended(items: Seq<LoadItemModel>, record: LoadItemModel) -> Seq<LoadItemModel> {
    items.push(record)
}

/// The store after each of `records` was appended to `items`, one after
/// another.
pub open spec fn appended_all(items: Seq<LoadItemModel>, records: Seq<LoadItemModel>) -> Seq<
    LoadItemModel,
>
    decreases records.len(),
{
    if records.len() == 0 {
        items
    } else {
        appended(appended_all(items, records.drop_last()), records.last())
    }
}

/// An ordered collection of load items.
pub struct Store {
    items: Vec<LoadItem>,
}

impl View for Store {
    type V = Seq<LoadItemModel>;

    /// What the stored items say, oldest first.
    closed spec fn view(&self) -> Seq<LoadItemModel> {
        models_of(self.items@)
    }
}

impl Store {
    /// A store that holds `seed`, in its order.
    pub fn new(seed: Vec<LoadItem>) -> (store: Store)
        ensures
            store@ == models_of(seed@),
    {
        Store { items: seed }
    }

    /// How many items the store holds.
    pub fn len(&self) -> (count: usize)
        ensures
            count == self@.len(),
    {
        self.items.len()
    }

    /// Adds `record` as the new last item. Every item that was there stays
    /// where it was.
    pub fn append(&mut self, record: LoadItem)
        ensures
            final(self)@ == appended(old(self)@, record@),
    {
        self.items.push(record);
        assert(self@ =~= appended(old(self)@, record@));
    }

    /// A copy of all items, oldest first, that later appends do not touch.
    pub fn snapshot(&self) -> (copy: Vec<LoadItem>)
        ensures
            models_of(copy@) == self@,
            copy@.len() == self@.len(),
    {
        let mut copy: Vec<LoadItem> = Vec::new();
        let mut done: usize = 0;
        while done < self.items.len()
            invariant
                done <= self.items.len(),
                models_of(copy@) == models_of(self.items@).take(done as int),
            decreases self.items.len() - done,
        {
            let item = self.items[done].clone();
            let ghost before = copy@;
            copy.push(item);
            assert(models_of(copy@) =~= models_of(before).push(item@));
            assert(models_of(self.items@).take(done + 1) =~= models_of(self.items@).take(
                done as int,
            ).push(self.items@[done as int]@));
            done += 1;
        }
        assert(models_of(self.items@).take(done as int) =~= models_of(self.items@));
        copy
    }
}

/// The store after a caller offered `time` and the two powers to a store
/// that held `items`: one item longer where both powers are decimal numbers,
/// else as it was.
pub open spec fn offered(
    items: Seq<LoadItemModel>,
    time: Seq<char>,
    positive: Seq<char>,
    negative: Seq<char>,
) -> Seq<LoadItemModel> {
    match load_item_from(time, positive, negative) {
        Ok(item) => appended(items, item),
        Err(_) => items,
    }
}

/// Makes a load item of what a caller offers, appends it to `store` and
/// hands back the item as it is stored.
///
/// Nothing is asked of the time. Fails with `InvalidNumber`, and leaves the
/// store as it was, unless both powers are decimal numbers.
pub fn append(store: &mut Store, time: String, positive: String, negative: String) -> (stored:
    Result<LoadItem, ExtractError>)
    ensures
        item_result(stored) == load_item_from(time@, positive@, negative@),
        final(store)@ == offered(old(store)@, time@, positive@, negative@),
{
    let candidate = match LoadItem::new(time, positive, negative) {
        Ok(candidate) => candidate,
        Err(e) => { return Err(e); },
    };
    let stored = candidate.clone();
    store.append(candidate);
    Ok(stored)
}

/// All items of `store`, oldest first.
pub fn list(store: &Store) -> (items: Vec<LoadItem>)
    ensures
        models_of(items@) == store@,
        items@.len() == store@.len(),
{
    store.snapshot()
}

/// After an append the store is one item longer, the appended item is its
/// last, and the items before it are those that were there.
pub proof fn lemma_append_adds_last(items: Seq<LoadItemModel>, record: LoadItemModel)
    ensures
        appended(items, record).len() == items.len() + 1,
        appended(items, record).last() == record,
        appended(items, record).drop_last() == items,
{
    assert(appended(items, record).drop_last() =~= items);
}

/// What was appended is among the items from then on, whatever is appended
/// after it.
pub proof fn lemma_appended_item_stays(
    items: Seq<LoadItemModel>,
    record: LoadItemModel,
    later: Seq<LoadItemModel>,
)
    ensures
        appended_all(appended(items, record), later).contains(record),
{
    lemma_appends_keep_every_item(appended(items, record), later);
    assert((appended(items, record) + later)[items.len() as int] == record);
}

/// Appends made one after another leave every item in the store exactly
/// once, those that were there first and the appended ones behind them in
/// the order of the appends.
pub proof fn lemma_appends_keep_every_item(items: Seq<LoadItemModel>, records: Seq<LoadItemModel>)
    ensures
        appended_all(items, records) == items + records,
        appended_all(items, records).len() == items.len() + records.len(),
    decreases records.len(),
{
    if records.len() > 0 {
        lemma_appends_keep_every_item(items, records.drop_last());
        assert(appended_all(items, records) =~= items + records);
    } else {
        assert(appended_all(items, records) =~= items + records);
    }
}

/// In whatever order the same appends reach an empty store, it ends with
/// as many items as there were appends, and holds each appended item as
/// often as it was appended.
pub proof fn lemma_appends_in_any_order(records: Seq<LoadItemModel>, order: Seq<LoadItemModel>)
    requires
        order.to_multiset() == records.to_multiset(),
    ensures
        appended_all(Seq::empty(), order).len() == records.len(),
        appended_all(Seq::empty(), order).to_multiset() == records.to_multiset(),
{
    lemma_appends_keep_every_item(Seq::empty(), order);
    assert(Seq::<LoadItemModel>::empty() + order =~= order);
    order.to_multiset_ensures();
    records.to_multiset_ensures();
}

} // verus!
