//! Events and documents: what the log records and what the index holds.

use vstd::prelude::*;
use crate::json::{Json, Value};

verus! {

/// The entry of the index for one key: the key's value and the number of the
/// event that produced it.
#[derive(Debug, PartialEq, Eq)]
pub struct Document {
    pub value: Value,
    pub version: u64,
}

/// The mathematical value of a [`Document`].
pub struct DocumentView {
    pub value: Json,
    pub version: u64,
}

impl View for Document {
    type V = DocumentView;

    open spec fn view(&self) -> DocumentView {
        DocumentView { value: self.value@, version: self.version }
    }
}

impl Clone for Document {
    fn clone(&self) -> (copy: Self)
        ensures
            copy@ == self@,
    {
        Document { value: self.value.clone(), version: self.version }
    }
}

/// One change of one key: the value before it (null where the key was
/// absent), the value after it (null for a deletion) and the version that it
/// produces. Events are the unit of the log and of notification.
#[derive(Debug, PartialEq, Eq)]
pub struct Event {
    pub key: String,
    pub old: Value,
    pub new: Value,
    pub version: u64,
}

/// The mathematical value of an [`Event`].
pub struct EventView {
    pub key: Seq<char>,
    pub old: Json,
    pub new: Json,
    pub version: u64,
}

impl View for Event {
    type V = EventView;

    open spec fn view(&self) -> EventView {
        EventView { key: self.key@, old: self.old@, new: self.new@, version: self.version }
    }
}

impl Clone for Event {
    fn clone(&self) -> (copy: Self)
        ensures
            copy@ == self@,
    {
        Event {
            key: self.key.clone(),
            old: self.old.clone(),
            new: self.new.clone(),
            version: self.version,
        }
    }
}

/// The values of a sequence of events.
pub open spec fn events_view(events: Seq<Event>) -> Seq<EventView> {
    Seq::new(events.len(), |i: int| events[i]@)
}

} // verus!
