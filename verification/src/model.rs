//! The mathematical model of an insertion-ordered map from identifiers to text.
//!
//! A store is a table of associations together with the sequence of its keys in
//! the order in which they were first inserted. The contracts of the executable
//! store are stated over this model, and so are the lemmas below.

use vstd::prelude::*;

verus! {

/// What a store holds: the associations, and the keys in insertion order.
pub struct OrderedMapView {
    /// The value currently associated with each live key.
    pub table: Map<Seq<char>, Seq<char>>,
    /// The live keys, oldest first.
    pub order: Seq<Seq<char>>,
}

/// The window of `all` that starts after its first `offset` elements and holds
/// at most `limit` elements. An offset at or past the end gives the empty
/// sequence; a limit that reaches past the end is cut at the end.
pub open spec fn page<A>(all: Seq<A>, offset: nat, limit: nat) -> Seq<A> {
    let rest = if offset >= all.len() {
        Seq::empty()
    } else {
        all.skip(offset as int)
    };
    if limit >= rest.len() {
        rest
    } else {
        rest.take(limit as int)
    }
}

/// A window from the start that is at least as long as the sequence is the
/// whole sequence.
pub proof fn lemma_page_whole<A>(all: Seq<A>, limit: nat)
    requires
        limit >= all.len(),
    ensures
        page(all, 0, limit) == all,
{
}

/// The test that keeps every key but `id`.
pub open spec fn other_than(id: Seq<char>) -> spec_fn(Seq<char>) -> bool {
    |key: Seq<char>| key != id
}

/// The test that keeps every record but the one whose key is `id`.
pub open spec fn keyed_other_than(id: Seq<char>) -> spec_fn((Seq<char>, Seq<char>)) -> bool {
    |entry: (Seq<char>, Seq<char>)| entry.0 != id
}

impl OrderedMapView {
    /// The store with no records.
    pub open spec fn empty() -> OrderedMapView {
        OrderedMapView { table: Map::empty(), order: Seq::empty() }
    }

    /// The keys of the table are exactly the keys in the order sequence, and
    /// the order sequence names each of them once.
    pub open spec fn wf(self) -> bool {
        &&& self.order.no_duplicates()
        &&& forall|id: Seq<char>| #[trigger] self.table.contains_key(id) <==> self.order.contains(id)
    }

    /// The value associated with `id`, if there is one.
    pub open spec fn get(self, id: Seq<char>) -> Option<Seq<char>> {
        if self.table.contains_key(id) {
            Some(self.table[id])
        } else {
            None
        }
    }

    /// Associates `value` with `id`. A new key goes to the end of the order; a
    /// key that is already live keeps its place and only its value changes.
    pub open spec fn insert(self, id: Seq<char>, value: Seq<char>) -> OrderedMapView {
        OrderedMapView {
            table: self.table.insert(id, value),
            order: if self.table.contains_key(id) {
                self.order
            } else {
                self.order.push(id)
            },
        }
    }

    /// Drops the association of `id` and every occurrence of `id` in the order.
    pub open spec fn remove(self, id: Seq<char>) -> OrderedMapView {
        OrderedMapView {
            table: self.table.remove(id),
            order: self.order.filter(other_than(id)),
        }
    }

    /// The records in insertion order, each key with its current value.
    pub open spec fn entries(self) -> Seq<(Seq<char>, Seq<char>)> {
        self.order.map_values(|id: Seq<char>| (id, self.table[id]))
    }

    /// The result of inserting `entries` one after the other, first to last.
    pub open spec fn insert_all(self, entries: Seq<(Seq<char>, Seq<char>)>) -> OrderedMapView
        decreases entries.len(),
    {
        if entries.len() == 0 {
            self
        } else {
            self.insert_all(entries.drop_last()).insert(entries.last().0, entries.last().1)
        }
    }

    /// Insertion keeps a store well-formed.
    pub proof fn lemma_insert_wf(self, id: Seq<char>, value: Seq<char>)
        requires
            self.wf(),
        ensures
            self.insert(id, value).wf(),
    {
        let next = self.insert(id, value);
        assert forall|key: Seq<char>| #[trigger]
            next.table.contains_key(key) <==> next.order.contains(key) by {
            if !self.table.contains_key(id) {
                if key == id {
                    assert(next.order[self.order.len() as int] == id);
                } else if self.order.contains(key) {
                    let i = self.order.index_of(key);
                    assert(next.order[i] == key);
                }
            }
        }
    }

    /// Removal keeps a store well-formed.
    pub proof fn lemma_remove_wf(self, id: Seq<char>)
        requires
            self.wf(),
        ensures
            self.remove(id).wf(),
    {
        let keep = other_than(id);
        let next = self.remove(id);
        lemma_filter_no_duplicates(self.order, keep);
        assert forall|key: Seq<char>| #[trigger]
            next.table.contains_key(key) <==> next.order.contains(key) by {
            lemma_filter_contains_iff(self.order, keep, key);
        }
    }

    /// Inserting a run of entries keeps a store well-formed.
    pub proof fn lemma_insert_all_wf(self, entries: Seq<(Seq<char>, Seq<char>)>)
        requires
            self.wf(),
        ensures
            self.insert_all(entries).wf(),
        decreases entries.len(),
    {
        if entries.len() > 0 {
            self.lemma_insert_all_wf(entries.drop_last());
            self.insert_all(entries.drop_last()).lemma_insert_wf(
                entries.last().0,
                entries.last().1,
            );
        }
    }

    /// Removing a key that is not live changes nothing.
    pub proof fn lemma_remove_absent(self, id: Seq<char>)
        requires
            self.wf(),
            !self.table.contains_key(id),
        ensures
            self.remove(id) == self,
    {
        let keep = other_than(id);
        assert(forall|i: int| 0 <= i < self.order.len() ==> keep(#[trigger] self.order[i]));
        lemma_filter_all(self.order, keep);
        assert(self.table.remove(id) =~= self.table);
    }

    /// Inserting a fresh key appends one record and leaves the others as they
    /// were; inserting a live key replaces that record's value where it stands.
    pub proof fn lemma_insert_entries(self, id: Seq<char>, value: Seq<char>)
        requires
            self.wf(),
        ensures
            !self.table.contains_key(id) ==> self.insert(id, value).entries()
                == self.entries().push((id, value)),
            self.table.contains_key(id) ==> self.insert(id, value).entries()
                == self.entries().update(self.order.index_of(id), (id, value)),
    {
        if !self.table.contains_key(id) {
            assert(forall|i: int| 0 <= i < self.order.len() ==> #[trigger] self.order[i] != id);
        }
    }

    /// Removing a key drops its record from the listing and keeps the others
    /// in their order.
    pub proof fn lemma_remove_entries(self, id: Seq<char>)
        requires
            self.wf(),
        ensures
            self.remove(id).entries() == self.entries().filter(keyed_other_than(id)),
    {
        let keep = other_than(id);
        let keep_entry = keyed_other_than(id);
        let after = self.remove(id).table;
        lemma_filter_then_map(
            self.order,
            keep,
            keep_entry,
            |key: Seq<char>| (key, self.table[key]),
            |key: Seq<char>| (key, after[key]),
        );
    }

    /// Inserting entries whose keys are new and pairwise distinct appends them
    /// to the listing in the order given.
    pub proof fn lemma_insert_all_fresh(self, entries: Seq<(Seq<char>, Seq<char>)>)
        requires
            self.wf(),
            forall|i: int| 0 <= i < entries.len() ==> !self.table.contains_key(#[trigger] entries[i].0),
            forall|i: int, j: int|
                0 <= i < j < entries.len() ==> (#[trigger] entries[i]).0 != (#[trigger] entries[j]).0,
        ensures
            self.insert_all(entries).entries() == self.entries() + entries,
            forall|id: Seq<char>| #[trigger]
                self.insert_all(entries).table.contains_key(id) <==> (self.table.contains_key(id)
                    || exists|i: int| 0 <= i < entries.len() && #[trigger] entries[i].0 == id),
        decreases entries.len(),
    {
        if entries.len() > 0 {
            let front = entries.drop_last();
            let last = entries.last();
            self.lemma_insert_all_fresh(front);
            self.lemma_insert_all_wf(front);
            let before = self.insert_all(front);
            assert(!before.table.contains_key(last.0)) by {
                if before.table.contains_key(last.0) {
                    let i = choose|i: int| 0 <= i < front.len() && #[trigger] front[i].0 == last.0;
                    assert(entries[i].0 == entries[entries.len() - 1].0);
                }
            }
            before.lemma_insert_entries(last.0, last.1);
            assert forall|id: Seq<char>| #[trigger]
                self.insert_all(entries).table.contains_key(id) <==> (self.table.contains_key(id)
                    || exists|i: int| 0 <= i < entries.len() && #[trigger] entries[i].0 == id) by {
                if id == last.0 {
                    assert(entries[entries.len() - 1].0 == id);
                } else if before.table.contains_key(id) && !self.table.contains_key(id) {
                    let i = choose|i: int| 0 <= i < front.len() && #[trigger] front[i].0 == id;
                    assert(entries[i].0 == id);
                } else if exists|i: int| 0 <= i < entries.len() && #[trigger] entries[i].0 == id {
                    let i = choose|i: int| 0 <= i < entries.len() && #[trigger] entries[i].0 == id;
                    assert(front[i].0 == id);
                }
            }
        }
    }

    /// A well-formed store is rebuilt exactly by inserting its own listing,
    /// first record to last, into the empty store.
    pub proof fn lemma_rebuild(self)
        requires
            self.wf(),
        ensures
            OrderedMapView::empty().insert_all(self.entries()) == self,
    {
        let entries = self.entries();
        assert(forall|i: int, j: int|
            0 <= i < j < entries.len() ==> (#[trigger] entries[i]).0 != (#[trigger] entries[j]).0);
        let empty = OrderedMapView::empty();
        empty.lemma_insert_all_fresh(entries);
        empty.lemma_insert_all_wf(entries);
        let rebuilt = empty.insert_all(entries);
        rebuilt.lemma_same_entries(self);
    }

    /// Two well-formed stores with the same listing are the same store.
    pub proof fn lemma_same_entries(self, other: OrderedMapView)
        requires
            self.wf(),
            other.wf(),
            self.entries() == other.entries(),
        ensures
            self == other,
    {
        assert(other.order.len() == other.entries().len());
        assert forall|i: int| 0 <= i < self.order.len() implies self.order[i] == other.order[i] by {
            assert(other.entries()[i].0 == other.order[i]);
        }
        assert(self.order =~= other.order);
        assert forall|id: Seq<char>| self.table.contains_key(id) implies #[trigger] self.table[id]
            == other.table[id] by {
            let i = self.order.index_of(id);
            assert(other.entries()[i].1 == other.table[id]);
        }
        assert(self.table =~= other.table);
    }
}

/// Filtering a sequence without repetitions leaves one without repetitions.
pub proof fn lemma_filter_no_duplicates<A>(s: Seq<A>, keep: spec_fn(A) -> bool)
    requires
        s.no_duplicates(),
    ensures
        s.filter(keep).no_duplicates(),
    decreases s.len(),
{
    reveal(Seq::filter);
    if s.len() > 0 {
        let front = s.drop_last();
        lemma_filter_no_duplicates(front, keep);
        if keep(s.last()) {
            let kept = front.filter(keep);
            assert forall|i: int| 0 <= i < kept.len() implies kept[i] != s.last() by {
                if kept[i] == s.last() {
                    front.lemma_filter_contains_rev(keep, s.last());
                    let j = front.index_of(s.last());
                    assert(s[j] == s[s.len() - 1]);
                }
            }
        }
    }
}

/// An element is in the filtered sequence exactly when it is in the sequence
/// and the filter keeps it.
pub proof fn lemma_filter_contains_iff<A>(s: Seq<A>, keep: spec_fn(A) -> bool, x: A)
    ensures
        s.filter(keep).contains(x) <==> s.contains(x) && keep(x),
{
    if s.filter(keep).contains(x) {
        s.lemma_filter_contains_rev(keep, x);
        let i = s.filter(keep).index_of(x);
        s.lemma_filter_pred(keep, i);
    }
    if s.contains(x) && keep(x) {
        let i = s.index_of(x);
        s.lemma_filter_contains(keep, i);
    }
}

/// A filter that keeps every element changes nothing.
pub proof fn lemma_filter_all<A>(s: Seq<A>, keep: spec_fn(A) -> bool)
    requires
        forall|i: int| 0 <= i < s.len() ==> keep(#[trigger] s[i]),
    ensures
        s.filter(keep) == s,
    decreases s.len(),
{
    reveal(Seq::filter);
    if s.len() > 0 {
        let front = s.drop_last();
        assert(forall|i: int| 0 <= i < front.len() ==> keep(#[trigger] front[i]));
        lemma_filter_all(front, keep);
    }
}

/// Filtering and then mapping agrees with mapping and then filtering, when
/// the two filters agree through the first map and the two maps agree on
/// what is kept.
pub proof fn lemma_filter_then_map<A, B>(
    s: Seq<A>,
    keep: spec_fn(A) -> bool,
    keep_mapped: spec_fn(B) -> bool,
    f: spec_fn(A) -> B,
    g: spec_fn(A) -> B,
)
    requires
        forall|i: int| 0 <= i < s.len() ==> keep(#[trigger] s[i]) == keep_mapped(f(s[i])),
        forall|i: int| 0 <= i < s.len() && keep(#[trigger] s[i]) ==> f(s[i]) == g(s[i]),
    ensures
        s.filter(keep).map_values(g) == s.map_values(f).filter(keep_mapped),
    decreases s.len(),
{
    reveal(Seq::filter);
    if s.len() > 0 {
        let front = s.drop_last();
        assert(forall|i: int|
            0 <= i < front.len() ==> keep(#[trigger] front[i]) == keep_mapped(f(front[i])));
        assert(forall|i: int|
            0 <= i < front.len() && keep(#[trigger] front[i]) ==> f(front[i]) == g(front[i]));
        lemma_filter_then_map(front, keep, keep_mapped, f, g);
        assert(s.map_values(f).drop_last() =~= front.map_values(f));
        if keep(s.last()) {
            assert(front.filter(keep).push(s.last()).map_values(g) =~= front.filter(
                keep,
            ).map_values(g).push(g(s.last())));
        }
    }
}

} // verus!
