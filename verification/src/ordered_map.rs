//! The store: a hash table of records and the list of their keys in insertion order.

use crate::id::Id;
use crate::model::{lemma_filter_all, other_than, OrderedMapView};
use vstd::hash_map::StringHashMap;
use vstd::prelude::*;

verus! {

/// A map from identifiers to text that remembers the order in which its keys
/// were first inserted.
///
/// Lookup and insertion go through the hash table; removal and listing walk
/// the key list.
pub struct OrderedMap {
    map: StringHashMap<String>,
    keys: Vec<Id>,
}

impl View for OrderedMap {
    type V = OrderedMapView;

    closed spec fn view(&self) -> OrderedMapView {
        OrderedMapView {
            table: Map::new(
                |id: Seq<char>| self.map@.contains_key(id),
                |id: Seq<char>| self.map@[id]@,
            ),
            order: Seq::new(self.keys@.len(), |i: int| self.keys@[i]@),
        }
    }
}

impl OrderedMap {
    /// Every live key is listed once in the order, and only live keys are.
    pub open spec fn wf(&self) -> bool {
        self@.wf()
    }

    /// Creates an empty store.
    pub fn new() -> (store: OrderedMap)
        ensures
            store.wf(),
            store@ == OrderedMapView::empty(),
    {
        let store = OrderedMap { map: StringHashMap::new(), keys: Vec::new() };
        assert(store@.table =~= Map::empty());
        assert(store@.order =~= Seq::empty());
        store
    }

    /// Builds the store that results from inserting `entries` into an empty
    /// store, first to last. Where a key occurs more than once, it stands where
    /// it first occurred and carries the value of its last occurrence.
    pub fn from_entries(entries: Vec<(Id, String)>) -> (store: OrderedMap)
        ensures
            store.wf(),
            store@ == OrderedMapView::empty().insert_all(entries.deep_view()),
    {
        let mut store = OrderedMap::new();
        let ghost all = entries.deep_view();
        for entry in it: entries
            invariant
                store.wf(),
                it.seq().len() == all.len(),
                forall|i: int| 0 <= i < all.len() ==> all[i] == (#[trigger] it.seq()[i]).deep_view(),
                store@ == OrderedMapView::empty().insert_all(all.take(it.index() as int)),
        {
            let (id, text) = entry;
            assert(all.take(it.index() + 1).drop_last() =~= all.take(it.index() as int));
            store.insert(id, text);
        }
        assert(all.take(all.len() as int) =~= all);
        store
    }

    /// Associates `value` with `key`.
    ///
    /// A key that is not yet in the store is appended to the order. A key that
    /// is already there keeps its position: only its value is replaced.
    pub fn insert(&mut self, key: Id, value: String)
        requires
            old(self).wf(),
        ensures
            final(self).wf(),
            final(self)@ == old(self)@.insert(key@, value@),
    {
        let known = self.map.contains_key(key.as_str());
        self.map.insert(key.to_string(), value);
        if !known {
            self.keys.push(key);
        }
        proof {
            let next = old(self)@.insert(key@, value@);
            assert(self@.table =~= next.table);
            assert(self@.order =~= next.order);
            old(self)@.lemma_insert_wf(key@, value@);
        }
    }

    /// Looks up the value associated with `key`.
    pub fn get(&self, key: &Id) -> (value: Option<&String>)
        ensures
            match value {
                Some(text) => self@.get(key@) == Some(text@),
                None => self@.get(key@) is None,
            },
    {
        self.map.get(key.as_str())
    }

    /// Lists the records in insertion order.
    ///
    /// A key in the order whose record is missing from the table would be
    /// passed over; in a well-formed store there is none.
    pub fn iter(&self) -> (entries: Vec<(&Id, &String)>)
        requires
            self.wf(),
        ensures
            entries.deep_view() == self@.entries(),
    {
        let mut entries: Vec<(&Id, &String)> = Vec::new();
        let mut i: usize = 0;
        while i < self.keys.len()
            invariant
                self.wf(),
                i <= self.keys.len(),
                entries.deep_view() == self@.entries().take(i as int),
            decreases self.keys.len() - i,
        {
            let key = &self.keys[i];
            let ghost listed = entries.deep_view();
            assert(self@.order[i as int] == key@);
            assert(self@.table.contains_key(key@));
            match self.map.get(key.as_str()) {
                Some(value) => {
                    entries.push((key, value));
                },
                None => {},
            }
            assert(listed.push(self@.entries()[i as int]) =~= self@.entries().take(i + 1));
            i = i + 1;
        }
        entries
    }

    /// Removes `key` and its record. A key that is not in the store is ignored.
    pub fn remove(&mut self, key: &Id)
        requires
            old(self).wf(),
        ensures
            final(self).wf(),
            final(self)@ == old(self)@.remove(key@),
    {
        if !self.map.contains_key(key.as_str()) {
            proof {
                old(self)@.lemma_remove_absent(key@);
            }
            return;
        }
        self.map.remove(key.as_str());
        let mut i: usize = 0;
        while i < self.keys.len() && !(self.keys[i] == *key)
            invariant
                i <= self.keys.len(),
                self.keys == old(self).keys,
                forall|j: int| 0 <= j < i ==> self.keys@[j]@ != key@,
            decreases self.keys.len() - i,
        {
            i = i + 1;
        }
        if i < self.keys.len() {
            self.keys.remove(i);
        }
        proof {
            let before = old(self)@;
            let next = before.remove(key@);
            assert(before.table.contains_key(key@));
            let at = before.order.index_of(key@);
            assert(i == at) by {
                if i < old(self).keys.len() {
                    assert(before.order[i as int] == key@);
                }
            }
            lemma_filter_one(before.order, key@, at);
            assert(self@.order =~= next.order);
            assert(self@.table =~= next.table);
            before.lemma_remove_wf(key@);
        }
    }
}

impl Default for OrderedMap {
    /// The empty store.
    fn default() -> (store: OrderedMap)
        ensures
            store.wf(),
            store@ == OrderedMapView::empty(),
    {
        OrderedMap::new()
    }
}

/// In a sequence without repetitions, dropping every occurrence of the element
/// at position `at` is removing that one position.
proof fn lemma_filter_one(s: Seq<Seq<char>>, id: Seq<char>, at: int)
    requires
        s.no_duplicates(),
        0 <= at < s.len(),
        s[at] == id,
    ensures
        s.filter(other_than(id)) == s.remove(at),
{
    let keep = other_than(id);
    let left = s.take(at);
    let mid = seq![id];
    let right = s.skip(at + 1);
    assert(s =~= left + mid + right);
    Seq::filter_distributes_over_add(left + mid, right, keep);
    Seq::filter_distributes_over_add(left, mid, keep);
    lemma_filter_all(left, keep);
    lemma_filter_all(right, keep);
    assert(mid.filter(keep) =~= Seq::empty()) by {
        reveal_with_fuel(Seq::filter, 2);
    }
}

} // verus!
