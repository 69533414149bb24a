//! The in-memory index: a map from keys to documents, the events that are
//! derived against it, and the one function that changes it.

use vstd::prelude::*;
use crate::event::{Document, DocumentView, Event, EventView};
use crate::json::{merge, merge_json, Json, Value};
use crate::sequence::{holds_rest, reversed, take_next};

verus! {

/// The index as a mathematical map.
pub type Index = Map<Seq<char>, DocumentView>;

/// The value under `key`, or null where the key is absent.
pub open spec fn prior_value(index: Index, key: Seq<char>) -> Json {
    if index.contains_key(key) {
        index[key].value
    } else {
        Json::Null
    }
}

/// The version that the next event of `key` produces: one more than the
/// key's version, or 1 where the key is absent.
pub open spec fn next_version(index: Index, key: Seq<char>) -> int {
    if index.contains_key(key) {
        index[key].version + 1
    } else {
        1
    }
}

/// The event of assigning `value` to `key`.
pub open spec fn put_event(index: Index, key: Seq<char>, value: Json) -> EventView {
    EventView {
        key,
        old: prior_value(index, key),
        new: value,
        version: next_version(index, key) as u64,
    }
}

/// The event of deleting `key`.
pub open spec fn delete_event(index: Index, key: Seq<char>) -> EventView {
    EventView {
        key,
        old: prior_value(index, key),
        new: Json::Null,
        version: next_version(index, key) as u64,
    }
}

/// The event of merging `delta` into the value of `key`.
pub open spec fn patch_event(index: Index, key: Seq<char>, delta: Json) -> EventView {
    EventView {
        key,
        old: prior_value(index, key),
        new: merge(prior_value(index, key), delta),
        version: next_version(index, key) as u64,
    }
}

/// The index after `event`: without the event's key where the new value is
/// null, else with the new value and the event's version under that key.
pub open spec fn apply(index: Index, event: EventView) -> Index {
    if event.new == Json::Null {
        index.remove(event.key)
    } else {
        index.insert(event.key, DocumentView { value: event.new, version: event.version })
    }
}

/// The index after each of `events` in turn.
pub open spec fn apply_all(index: Index, events: Seq<EventView>) -> Index
    decreases events.len(),
{
    if events.len() == 0 {
        index
    } else {
        apply(apply_all(index, events.drop_last()), events.last())
    }
}

/// Applying two runs of events one after the other is applying their
/// concatenation. So the index that recovery builds from a snapshot of the
/// first run and a replay of the second is the index that the whole run
/// gives.
pub proof fn lemma_apply_all_concat(index: Index, first: Seq<EventView>, second: Seq<EventView>)
    ensures
        apply_all(apply_all(index, first), second) == apply_all(index, first + second),
    decreases second.len(),
{
    if second.len() == 0 {
        assert(first + second =~= first);
    } else {
        lemma_apply_all_concat(index, first, second.drop_last());
        assert((first + second).drop_last() =~= first + second.drop_last());
        assert((first + second).last() == second.last());
    }
}

/// An event moves its key's version on by one and leaves every other key's
/// as it was. The event's version is the one that was next for its key;
/// behind an event that leaves a value, the next version is one more.
pub proof fn lemma_event_advances_version(index: Index, event: EventView, other: Seq<char>)
    requires
        event.version == next_version(index, event.key),
        other != event.key,
    ensures
        event.new != Json::Null ==> next_version(apply(index, event), event.key) == event.version
            + 1,
        event.new == Json::Null ==> next_version(apply(index, event), event.key) == 1,
        next_version(apply(index, event), other) == next_version(index, other),
        prior_value(apply(index, event), event.key) == event.new,
        prior_value(apply(index, event), other) == prior_value(index, other),
{
}

/// Two patches of one key, one after the other, leave the value that merging
/// the first delta and then the second into the key's value gives.
pub proof fn lemma_patch_composes(index: Index, key: Seq<char>, first: Json, second: Json)
    ensures
        patch_event(apply(index, patch_event(index, key, first)), key, second).new == merge(
            merge(prior_value(index, key), first),
            second,
        ),
        patch_event(apply(index, patch_event(index, key, first)), key, second).old == merge(
            prior_value(index, key),
            first,
        ),
{
}

/// The number of events of `key` among the first `n` of `events`.
pub open spec fn count_of_key(events: Seq<EventView>, key: Seq<char>, n: int) -> int
    decreases n,
{
    if n <= 0 {
        0
    } else if events[n - 1].key == key {
        count_of_key(events, key, n - 1) + 1
    } else {
        count_of_key(events, key, n - 1)
    }
}

/// Whether each of `events` is derived against the index that the events
/// before it have left: its version is the one that is next for its key.
pub open spec fn versions_in_turn(index: Index, events: Seq<EventView>) -> bool {
    forall|k: int|
        0 <= k < events.len() ==> (#[trigger] events[k]).version == next_version(
            apply_all(index, events.take(k)),
            events[k].key,
        )
}

/// The versions of a key count up one by one. In a run of events that are
/// derived and applied in turn, and of which none deletes `key`, the `i`-th
/// event, if it is one of `key`, has the version that was next for `key` at
/// the start plus the number of events of `key` before it: no version is left
/// out and none comes twice, however the events of other keys lie between.
pub proof fn lemma_versions_count_up(index: Index, events: Seq<EventView>, key: Seq<char>, i: int)
    requires
        versions_in_turn(index, events),
        forall|k: int|
            0 <= k < events.len() && (#[trigger] events[k]).key == key ==> events[k].new
                != Json::Null,
        0 <= i <= events.len(),
    ensures
        next_version(apply_all(index, events.take(i)), key) == next_version(index, key)
            + count_of_key(events, key, i),
        i < events.len() && events[i].key == key ==> events[i].version == next_version(index, key)
            + count_of_key(events, key, i),
    decreases i,
{
    if i == 0 {
        assert(events.take(0) =~= Seq::<EventView>::empty());
    } else {
        lemma_versions_count_up(index, events, key, i - 1);
        assert(events.take(i).drop_last() =~= events.take(i - 1));
        assert(events.take(i).last() == events[i - 1]);
        let before = apply_all(index, events.take(i - 1));
        let e = events[i - 1];
        assert(e.version == next_version(before, e.key));
        if e.key != key {
            lemma_event_advances_version(before, e, key);
        }
    }
}

/// The keys and documents of a list of entries.
pub open spec fn entries_view(entries: Seq<(String, Document)>) -> Seq<(Seq<char>, DocumentView)> {
    Seq::new(entries.len(), |i: int| (entries[i].0@, entries[i].1@))
}

/// The index that a list of entries spells: each entry in turn is put under
/// its key.
pub open spec fn index_of(entries: Seq<(Seq<char>, DocumentView)>) -> Index
    decreases entries.len(),
{
    if entries.len() == 0 {
        Index::empty()
    } else {
        index_of(entries.drop_last()).insert(entries.last().0, entries.last().1)
    }
}

/// The in-memory index.
#[derive(Debug)]
pub struct Store {
    data: Vec<(String, Document)>,
}

impl View for Store {
    type V = Index;

    closed spec fn view(&self) -> Index {
        Map::new(
            |k: Seq<char>|
                exists|i: int| 0 <= i < self.data.len() && (#[trigger] self.data[i]).0@ == k,
            |k: Seq<char>|
                self.data[choose|i: int|
                    0 <= i < self.data.len() && (#[trigger] self.data[i]).0@ == k].1@,
        )
    }
}

impl Store {
    /// No key has two entries.
    pub closed spec fn wf(&self) -> bool {
        forall|i: int, j: int|
            0 <= i < j < self.data.len() ==> (#[trigger] self.data[i]).0@ != (
            #[trigger] self.data[j]).0@
    }

    /// The entries as pairs of key and document, in storage order.
    pub closed spec fn entries_view(&self) -> Seq<(Seq<char>, DocumentView)> {
        Seq::new(self.data.len() as nat, |i: int| (self.data[i].0@, self.data[i].1@))
    }

    proof fn lemma_entry(&self, i: int)
        requires
            self.wf(),
            0 <= i < self.data.len(),
        ensures
            self@.contains_key(self.data[i].0@),
            self@[self.data[i].0@] == self.data[i].1@,
    {
        let k = self.data[i].0@;
        let c = choose|c: int| 0 <= c < self.data.len() && (#[trigger] self.data[c]).0@ == k;
        if c < i {
            assert(self.data[c].0@ != self.data[i].0@);
        }
        if i < c {
            assert(self.data[i].0@ != self.data[c].0@);
        }
    }

    proof fn lemma_absent(&self, key: Seq<char>)
        requires
            forall|i: int| 0 <= i < self.data.len() ==> (#[trigger] self.data[i]).0@ != key,
        ensures
            !self@.contains_key(key),
    {
    }

    /// An empty index.
    pub fn new() -> (store: Self)
        ensures
            store.wf(),
            store@ == Index::empty(),
    {
        let store = Store { data: Vec::new() };
        assert(store@ =~= Index::empty());
        store
    }

    /// The number of keys.
    pub fn len(&self) -> (n: usize)
        requires
            self.wf(),
        ensures
            n == self.entries_view().len(),
            self@.dom().finite(),
            n == self@.dom().len(),
    {
        proof {
            self.lemma_size();
        }
        self.data.len()
    }

    /// The index has as many keys as the store has entries.
    proof fn lemma_size(&self)
        requires
            self.wf(),
        ensures
            self@.dom().finite(),
            self@.dom().len() == self.data.len(),
    {
        let keys = Seq::new(self.data.len() as nat, |i: int| self.data[i].0@);
        assert(keys.no_duplicates()) by {
            assert forall|i: int, j: int|
                0 <= i < keys.len() && 0 <= j < keys.len() && i != j implies keys[i]
                != keys[j] by {
                if i < j {
                    assert(self.data[i].0@ != self.data[j].0@);
                } else {
                    assert(self.data[j].0@ != self.data[i].0@);
                }
            }
        }
        keys.unique_seq_to_set();
        vstd::seq_lib::seq_to_set_is_finite(keys);
        assert(self@.dom() =~= keys.to_set()) by {
            assert forall|k: Seq<char>| self@.dom().contains(k) == keys.to_set().contains(k) by {
                if self@.dom().contains(k) {
                    let c = choose|c: int|
                        0 <= c < self.data.len() && (#[trigger] self.data[c]).0@ == k;
                    assert(keys[c] == k);
                }
                if keys.to_set().contains(k) {
                    let c = choose|c: int| 0 <= c < keys.len() && keys[c] == k;
                    assert(self.data[c].0@ == k);
                }
            }
        }
    }

    /// The entries, one for each key, in no particular order.
    pub fn entries(&self) -> (entries: &Vec<(String, Document)>)
        requires
            self.wf(),
        ensures
            entries.len() == self.entries_view().len(),
            forall|i: int|
                0 <= i < entries.len() ==> (#[trigger] entries[i]).0@ == self.entries_view()[i].0
                    && entries[i].1@ == self.entries_view()[i].1,
    {
        &self.data
    }

    /// The entries hold each key of the index once, with its document, and
    /// nothing else.
    pub proof fn lemma_entries(&self)
        requires
            self.wf(),
        ensures
            forall|i: int|
                0 <= i < self.entries_view().len() ==> self@.contains_key(
                    (#[trigger] self.entries_view()[i]).0,
                ) && self@[self.entries_view()[i].0] == self.entries_view()[i].1,
            forall|k: Seq<char>| #[trigger]
                self@.contains_key(k) ==> exists|i: int|
                    0 <= i < self.entries_view().len() && (#[trigger] self.entries_view()[i]).0
                        == k,
            forall|i: int, j: int|
                0 <= i < j < self.entries_view().len() ==> (#[trigger] self.entries_view()[i]).0
                    != (#[trigger] self.entries_view()[j]).0,
    {
        let ev = self.entries_view();
        assert forall|i: int| 0 <= i < ev.len() implies self@.contains_key((#[trigger] ev[i]).0)
            && self@[ev[i].0] == ev[i].1 by {
            self.lemma_entry(i);
        }
        assert forall|k: Seq<char>| #[trigger] self@.contains_key(k) implies exists|i: int|
            0 <= i < ev.len() && (#[trigger] ev[i]).0 == k by {
            let c = choose|c: int| 0 <= c < self.data.len() && (#[trigger] self.data[c]).0@ == k;
            assert(ev[c].0 == k);
        }
        assert forall|i: int, j: int| 0 <= i < j < ev.len() implies (#[trigger] ev[i]).0 != (
        #[trigger] ev[j]).0 by {
            assert(self.data[i].0@ != self.data[j].0@);
        }
    }

    fn find(&self, key: &String) -> (found: Option<usize>)
        ensures
            match found {
                Some(i) => i < self.data.len() && self.data[i as int].0@ == key@,
                None => forall|i: int|
                    0 <= i < self.data.len() ==> (#[trigger] self.data[i]).0@ != key@,
            },
    {
        let mut i: usize = 0;
        while i < self.data.len()
            invariant
                i <= self.data.len(),
                forall|j: int| 0 <= j < i ==> (#[trigger] self.data[j]).0@ != key@,
            decreases self.data.len() - i,
        {
            if self.data[i].0 == *key {
                return Some(i);
            }
            i += 1;
        }
        None
    }

    /// The document of `key`, if the key is present.
    pub fn get(&self, key: &str) -> (doc: Option<&Document>)
        requires
            self.wf(),
        ensures
            match doc {
                Some(d) => self@.contains_key(key@) && self@[key@] == d@,
                None => !self@.contains_key(key@),
            },
    {
        let owned = key.to_owned();
        match self.find(&owned) {
            Some(i) => {
                proof {
                    self.lemma_entry(i as int);
                }
                Some(&self.data[i].1)
            },
            None => {
                proof {
                    self.lemma_absent(key@);
                }
                None
            },
        }
    }

    /// Whether `key` can take one more event: its version is below the
    /// largest that 64 bits hold.
    pub open spec fn can_advance(&self, key: Seq<char>) -> bool {
        next_version(self@, key) <= u64::MAX
    }

    /// Whether `key` can take one more event.
    pub fn has_room(&self, key: &str) -> (b: bool)
        requires
            self.wf(),
        ensures
            b == self.can_advance(key@),
    {
        match self.get(key) {
            Some(doc) => doc.version < u64::MAX,
            None => true,
        }
    }

    fn previous_state_info(&self, key: &String) -> (info: (Value, u64))
        requires
            self.wf(),
            self.can_advance(key@),
        ensures
            info.0@ == prior_value(self@, key@),
            info.1 == next_version(self@, key@),
    {
        match self.find(key) {
            Some(i) => {
                proof {
                    self.lemma_entry(i as int);
                }
                (self.data[i].1.value.clone(), self.data[i].1.version + 1)
            },
            None => {
                proof {
                    self.lemma_absent(key@);
                }
                (Value::Null, 1)
            },
        }
    }

    /// The event of assigning `value` to `key`. The index is not changed.
    pub fn put(&self, key: String, value: Value) -> (event: Event)
        requires
            self.wf(),
            self.can_advance(key@),
        ensures
            event@ == put_event(self@, key@, value@),
    {
        let (old, version) = self.previous_state_info(&key);
        Event { key, old, new: value, version }
    }

    /// The event of deleting `key`. The index is not changed.
    pub fn delete(&self, key: &str) -> (event: Event)
        requires
            self.wf(),
            self.can_advance(key@),
        ensures
            event@ == delete_event(self@, key@),
    {
        let key = key.to_owned();
        let (old, version) = self.previous_state_info(&key);
        Event { key, old, new: Value::Null, version }
    }

    /// The event of merging `delta` into the value of `key`. The index is
    /// not changed.
    pub fn patch(&self, key: &str, delta: Value) -> (event: Event)
        requires
            self.wf(),
            self.can_advance(key@),
        ensures
            event@ == patch_event(self@, key@, delta@),
    {
        let key = key.to_owned();
        let (old, version) = self.previous_state_info(&key);
        let mut new = old.clone();
        merge_json(&mut new, &delta);
        Event { key, old, new, version }
    }

    fn unset(&mut self, key: &String)
        requires
            old(self).wf(),
        ensures
            final(self).wf(),
            final(self)@ == old(self)@.remove(key@),
    {
        let ghost before = *self;
        match self.find(key) {
            Some(i) => {
                self.data.remove(i);
                proof {
                    assert forall|k: Seq<char>| #[trigger]
                        self@.contains_key(k) == before@.remove(key@).contains_key(k) by {
                        if before@.contains_key(k) && k != key@ {
                            let c = choose|c: int|
                                0 <= c < before.data.len() && (#[trigger] before.data[c]).0@ == k;
                            if c < i {
                                assert(self.data[c].0@ == k);
                            } else {
                                assert(self.data[c - 1].0@ == k);
                            }
                        }
                        if self@.contains_key(k) {
                            let c = choose|c: int|
                                0 <= c < self.data.len() && (#[trigger] self.data[c]).0@ == k;
                            if c < i {
                                assert(before.data[c].0@ == k);
                            } else {
                                assert(before.data[c + 1].0@ == k);
                                assert(before.data[i as int].0@ != before.data[c + 1].0@);
                            }
                        }
                    }
                    assert(self.wf()) by {
                        assert forall|a: int, b: int| 0 <= a < b < self.data.len() implies (
                        #[trigger] self.data[a]).0@ != (#[trigger] self.data[b]).0@ by {
                            let a0 = if a < i { a } else { a + 1 };
                            let b0 = if b < i { b } else { b + 1 };
                            assert(before.data[a0].0@ != before.data[b0].0@);
                        }
                    }
                    assert forall|k: Seq<char>| #[trigger] self@.contains_key(k) implies self@[k]
                        == before@.remove(key@)[k] by {
                        let c = choose|c: int|
                            0 <= c < self.data.len() && (#[trigger] self.data[c]).0@ == k;
                        self.lemma_entry(c);
                        let c0 = if c < i { c } else { c + 1 };
                        before.lemma_entry(c0);
                    }
                    assert(self@ =~= before@.remove(key@));
                }
            },
            None => {
                proof {
                    before.lemma_absent(key@);
                    assert(self@ =~= before@.remove(key@));
                }
            },
        }
    }

    fn set(&mut self, key: String, doc: Document)
        requires
            old(self).wf(),
        ensures
            final(self).wf(),
            final(self)@ == old(self)@.insert(key@, doc@),
    {
        let ghost before = *self;
        let ghost after = before@.insert(key@, doc@);
        match self.find(&key) {
            Some(i) => {
                self.data[i].1 = doc;
                proof {
                    assert(self.wf()) by {
                        assert forall|a: int, b: int| 0 <= a < b < self.data.len() implies (
                        #[trigger] self.data[a]).0@ != (#[trigger] self.data[b]).0@ by {
                            assert(before.data[a].0@ != before.data[b].0@);
                        }
                    }
                    assert forall|k: Seq<char>| #[trigger]
                        self@.contains_key(k) == after.contains_key(k) by {
                        if before@.contains_key(k) {
                            let c = choose|c: int|
                                0 <= c < before.data.len() && (#[trigger] before.data[c]).0@ == k;
                            assert(self.data[c].0@ == k);
                        }
                        if self@.contains_key(k) {
                            let c = choose|c: int|
                                0 <= c < self.data.len() && (#[trigger] self.data[c]).0@ == k;
                            assert(before.data[c].0@ == k);
                        }
                        if k == key@ {
                            assert(self.data[i as int].0@ == k);
                        }
                    }
                    assert forall|k: Seq<char>| #[trigger] self@.contains_key(k) implies self@[k]
                        == after[k] by {
                        let c = choose|c: int|
                            0 <= c < self.data.len() && (#[trigger] self.data[c]).0@ == k;
                        self.lemma_entry(c);
                        before.lemma_entry(c);
                    }
                    assert(self@ =~= after);
                }
            },
            None => {
                self.data.push((key, doc));
                proof {
                    let n = before.data.len() as int;
                    assert(self.wf()) by {
                        assert forall|a: int, b: int| 0 <= a < b < self.data.len() implies (
                        #[trigger] self.data[a]).0@ != (#[trigger] self.data[b]).0@ by {
                            if b < n {
                                assert(before.data[a].0@ != before.data[b].0@);
                            } else {
                                assert(before.data[a].0@ != key@);
                            }
                        }
                    }
                    assert forall|k: Seq<char>| #[trigger]
                        self@.contains_key(k) == after.contains_key(k) by {
                        if before@.contains_key(k) {
                            let c = choose|c: int|
                                0 <= c < before.data.len() && (#[trigger] before.data[c]).0@ == k;
                            assert(self.data[c].0@ == k);
                        }
                        if self@.contains_key(k) {
                            let c = choose|c: int|
                                0 <= c < self.data.len() && (#[trigger] self.data[c]).0@ == k;
                            if c < n {
                                assert(before.data[c].0@ == k);
                            }
                        }
                        if k == key@ {
                            assert(self.data[n].0@ == k);
                        }
                    }
                    assert forall|k: Seq<char>| #[trigger] self@.contains_key(k) implies self@[k]
                        == after[k] by {
                        let c = choose|c: int|
                            0 <= c < self.data.len() && (#[trigger] self.data[c]).0@ == k;
                        self.lemma_entry(c);
                        if c < n {
                            before.lemma_entry(c);
                        }
                    }
                    assert(self@ =~= after);
                }
            },
        }
    }

    /// Applies `event`: the only way in which the index changes.
    pub fn apply_event(&mut self, event: Event)
        requires
            old(self).wf(),
        ensures
            final(self).wf(),
            final(self)@ == apply(old(self)@, event@),
    {
        if event.new.is_null() {
            self.unset(&event.key);
        } else {
            self.set(event.key, Document { value: event.new, version: event.version });
        }
    }

    /// The index that holds `entries`. Where a key occurs more than once, its
    /// last entry counts.
    pub fn from_entries(entries: Vec<(String, Document)>) -> (store: Self)
        ensures
            store.wf(),
            store@ == index_of(entries_view(entries@)),
    {
        let mut store = Store::new();
        let ghost all = entries_view(entries@);
        let n = entries.len();
        let mut rest = reversed(entries);
        let mut i: usize = 0;
        assert(all.take(0) =~= Seq::<(Seq<char>, DocumentView)>::empty());
        while i < n
            invariant
                i <= n == entries.len(),
                all == entries_view(entries@),
                holds_rest(rest@, entries@, i as int),
                store.wf(),
                store@ == index_of(all.take(i as int)),
            decreases n - i,
        {
            let (key, doc) = take_next(&mut rest, Ghost(entries@), Ghost(i as int));
            assert(all.take(i + 1).drop_last() =~= all.take(i as int));
            store.set(key, doc);
            i += 1;
        }
        assert(all.take(n as int) =~= all);
        store
    }
}

impl Clone for Store {
    fn clone(&self) -> (copy: Self)
        ensures
            self.wf() ==> copy.wf() && copy@ == self@,
            copy.entries_view() == self.entries_view(),
    {
        let mut data: Vec<(String, Document)> = Vec::new();
        let mut i: usize = 0;
        while i < self.data.len()
            invariant
                i <= self.data.len(),
                data.len() == i,
                forall|j: int|
                    0 <= j < i ==> (#[trigger] data[j]).0@ == self.data[j].0@ && data[j].1@
                        == self.data[j].1@,
            decreases self.data.len() - i,
        {
            data.push((self.data[i].0.clone(), self.data[i].1.clone()));
            i += 1;
        }
        let copy = Store { data };
        proof {
            assert(copy.entries_view() =~= self.entries_view());
            if self.wf() {
                assert(copy.wf()) by {
                    assert forall|a: int, b: int| 0 <= a < b < copy.data.len() implies (
                    #[trigger] copy.data[a]).0@ != (#[trigger] copy.data[b]).0@ by {
                        assert(self.data[a].0@ != self.data[b].0@);
                    }
                }
                assert forall|k: Seq<char>| #[trigger]
                    copy@.contains_key(k) == self@.contains_key(k) by {
                    if self@.contains_key(k) {
                        let c = choose|c: int|
                            0 <= c < self.data.len() && (#[trigger] self.data[c]).0@ == k;
                        assert(copy.data[c].0@ == k);
                    }
                    if copy@.contains_key(k) {
                        let c = choose|c: int|
                            0 <= c < copy.data.len() && (#[trigger] copy.data[c]).0@ == k;
                        assert(self.data[c].0@ == k);
                    }
                }
                assert forall|k: Seq<char>| #[trigger] copy@.contains_key(k) implies copy@[k]
                    == self@[k] by {
                    let c = choose|c: int|
                        0 <= c < copy.data.len() && (#[trigger] copy.data[c]).0@ == k;
                    assert(self.data[c].0@ == k);
                    copy.lemma_entry(c);
                    self.lemma_entry(c);
                }
                assert(copy@ =~= self@);
            }
        }
        copy
    }
}

} // verus!
