//! The operations on a store of text records: create, read, update, delete,
//! a paginated listing, and the rule for bringing a store back from a snapshot.
//!
//! Every operation takes the store it works on. None of them fails: a lookup
//! that finds nothing says so in its result, and removing what is not there is
//! a no-op.

use crate::id::{lemma_token_injective, token, Id};
use crate::model::{lemma_page_whole, page, OrderedMapView};
use crate::ordered_map::OrderedMap;
use vstd::prelude::*;

verus! {

/// The record with identifier `id`, if the store holds one.
pub fn get_todo(store: &OrderedMap, id: Id) -> (value: Option<String>)
    ensures
        match value {
            Some(text) => store@.get(id@) == Some(text@),
            None => store@.get(id@) is None,
        },
{
    match store.get(&id) {
        Some(text) => Some(text.clone()),
        None => None,
    }
}

/// One page of the listing: the records in insertion order, without the first
/// `offset` of them and cut after `limit`. A window that starts at or past the
/// end is empty.
pub fn get_all_todos(store: &OrderedMap, offset: u64, limit: u64) -> (todos: Vec<(Id, String)>)
    requires
        store.wf(),
    ensures
        todos.deep_view() == page(store@.entries(), offset as nat, limit as nat),
{
    let all = store.iter();
    let mut todos: Vec<(Id, String)> = Vec::new();
    let len: usize = all.len();
    if offset >= len as u64 {
        return todos;
    }
    let start: usize = offset as usize;
    let end: usize = if limit >= (len - start) as u64 {
        len
    } else {
        start + limit as usize
    };
    let ghost listed = all.deep_view();
    let mut i: usize = start;
    while i < end
        invariant
            start <= i <= end <= len,
            len == all.len(),
            listed == all.deep_view(),
            todos.deep_view() == listed.subrange(start as int, i as int),
        decreases end - i,
    {
        let ghost copied = todos.deep_view();
        let (id, text) = all[i];
        todos.push((id.clone(), text.clone()));
        assert(copied.push(listed[i as int]) =~= listed.subrange(start as int, i + 1));
        i = i + 1;
    }
    assert(listed.subrange(start as int, end as int) =~= page(
        listed,
        offset as nat,
        limit as nat,
    ));
    todos
}

/// Adds a record holding `value` under the identifier generated from `seed`,
/// and returns that identifier.
///
/// The identifier is not compared with those already in the store. If the
/// store holds a record under it, as happens when a seed repeats, that
/// record's value is replaced and its place in the listing is kept.
pub fn create_todo(store: &mut OrderedMap, seed: u64, value: String) -> (id: Id)
    requires
        old(store).wf(),
    ensures
        id@ == token(seed),
        final(store).wf(),
        final(store)@ == old(store)@.insert(token(seed), value@),
{
    let id = Id::new(seed);
    store.insert(id.clone(), value);
    id
}

/// Removes the record with identifier `id`. Does nothing if there is none.
pub fn delete_todo(store: &mut OrderedMap, id: Id)
    requires
        old(store).wf(),
    ensures
        final(store).wf(),
        final(store)@ == old(store)@.remove(id@),
{
    store.remove(&id);
}

/// Replaces the value of the record with identifier `id`. If there is no such
/// record, one is added at the end of the listing.
pub fn update_todo(store: &mut OrderedMap, id: Id, value: String)
    requires
        old(store).wf(),
    ensures
        final(store).wf(),
        final(store)@ == old(store)@.insert(id@, value@),
{
    store.insert(id, value);
}

/// The store that a snapshot stands for: the records of the snapshot inserted
/// in order, or the empty store where there is no snapshot.
pub open spec fn restored(snapshot: Option<Seq<(Seq<char>, Seq<char>)>>) -> OrderedMapView {
    match snapshot {
        Some(entries) => OrderedMapView::empty().insert_all(entries),
        None => OrderedMapView::empty(),
    }
}

/// Brings a store back from a snapshot of its listing.
///
/// `None` stands for a snapshot that is missing or could not be read. It gives
/// the empty store, so that starting up never fails on account of the snapshot.
pub fn restore(snapshot: Option<Vec<(Id, String)>>) -> (store: OrderedMap)
    ensures
        store.wf(),
        store@ == restored(
            match snapshot {
                Some(entries) => Some(entries.deep_view()),
                None => None,
            },
        ),
{
    match snapshot {
        Some(entries) => OrderedMap::from_entries(entries),
        None => OrderedMap::new(),
    }
}

/// A record can be read back under the identifier it was created with.
pub proof fn lemma_read_after_create(store: OrderedMapView, seed: u64, value: Seq<char>)
    ensures
        store.insert(token(seed), value).get(token(seed)) == Some(value),
{
}

/// Once a record has been deleted, reading its identifier finds nothing.
pub proof fn lemma_read_after_delete(store: OrderedMapView, seed: u64, value: Seq<char>)
    ensures
        store.insert(token(seed), value).remove(token(seed)).get(token(seed)) is None,
{
}

/// After an update, reading the identifier gives the new value.
pub proof fn lemma_read_after_update(
    store: OrderedMapView,
    seed: u64,
    first: Seq<char>,
    second: Seq<char>,
)
    ensures
        store.insert(token(seed), first).insert(token(seed), second).get(token(seed)) == Some(
            second,
        ),
{
}

/// An identifier that the store does not hold reads as nothing, deleting it
/// leaves the store as it was, and updating it adds one record at the end of
/// the listing. Whatever the identifier, deleting or updating it leaves every
/// other record readable with the value it had.
pub proof fn lemma_unknown_id_is_safe(store: OrderedMapView, id: Seq<char>, value: Seq<char>)
    requires
        store.wf(),
    ensures
        !store.table.contains_key(id) ==> store.get(id) is None,
        !store.table.contains_key(id) ==> store.remove(id) == store,
        !store.table.contains_key(id) ==> store.insert(id, value).entries()
            == store.entries().push((id, value)),
        forall|other: Seq<char>|
            other != id ==> #[trigger] store.remove(id).get(other) == store.get(other),
        forall|other: Seq<char>|
            other != id ==> #[trigger] store.insert(id, value).get(other) == store.get(other),
{
    if !store.table.contains_key(id) {
        store.lemma_remove_absent(id);
    }
    store.lemma_insert_entries(id, value);
}

/// The records that a run of creations adds: the identifier generated from
/// each seed, with the value given for it.
pub open spec fn creations(seeds: Seq<u64>, values: Seq<Seq<char>>) -> Seq<(Seq<char>, Seq<char>)> {
    Seq::new(seeds.len(), |i: int| (token(seeds[i]), values[i]))
}

/// Records created one after the other, with nothing deleted in between, are
/// listed after those already there and in the order of their creation,
/// provided that no seed is used twice and that none of the generated
/// identifiers is already in the store.
pub proof fn lemma_creations_listed_in_order(
    store: OrderedMapView,
    seeds: Seq<u64>,
    values: Seq<Seq<char>>,
    limit: nat,
)
    requires
        store.wf(),
        seeds.len() == values.len(),
        forall|i: int| 0 <= i < seeds.len() ==> !store.table.contains_key(#[trigger] token(seeds[i])),
        seeds.no_duplicates(),
    ensures
        store.insert_all(creations(seeds, values)).entries() == store.entries() + creations(
            seeds,
            values,
        ),
        limit >= store.entries().len() + seeds.len() ==> page(
            store.insert_all(creations(seeds, values)).entries(),
            0,
            limit,
        ) == store.entries() + creations(seeds, values),
{
    let added = creations(seeds, values);
    assert(forall|i: int|
        0 <= i < added.len() ==> !store.table.contains_key(#[trigger] added[i].0));
    assert forall|i: int, j: int| 0 <= i < j < added.len() implies (#[trigger] added[i]).0 != (
    #[trigger] added[j]).0 by {
        if token(seeds[i]) == token(seeds[j]) {
            lemma_token_injective(seeds[i], seeds[j]);
        }
    }
    store.lemma_insert_all_fresh(added);
    if limit >= store.entries().len() + seeds.len() {
        lemma_page_whole(store.entries() + added, limit);
    }
}

/// Restoring from the full listing of a store gives that store back.
pub proof fn lemma_restore_of_listing(store: OrderedMapView)
    requires
        store.wf(),
    ensures
        restored(Some(store.entries())) == store,
{
    store.lemma_rebuild();
}

/// A store restored without a snapshot lists nothing, whatever the window.
pub proof fn lemma_restore_without_snapshot(offset: nat, limit: nat)
    ensures
        restored(None) == OrderedMapView::empty(),
        page(restored(None).entries(), offset, limit) == Seq::<(Seq<char>, Seq<char>)>::empty(),
{
}

} // verus!
