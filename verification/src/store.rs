//! Working-memory field values by fact handle, and the duration field of
//! interval events.

use vstd::prelude::*;
use crate::value::{FactId, Value};

verus! {

/// Field values of every fact, indexed by its handle.
pub struct FactStore {
    pub rows: Vec<Vec<Value>>,
}

impl FactStore {
    /// Fact `f` exists and has a field `fi`.
    pub open spec fn has_field(&self, f: FactId, fi: usize) -> bool {
        (f as int) < self.rows@.len() && (fi as int) < self.rows@[f as int]@.len()
    }

    /// Field `fi` of fact `f`.
    pub open spec fn field(&self, f: FactId, fi: usize) -> Value {
        self.rows@[f as int]@[fi as int]
    }

    /// Read field `fi` of fact `f`.
    pub fn value(&self, f: FactId, fi: usize) -> (r: Value)
        requires
            self.has_field(f, fi),
        ensures
            r == self.field(f, fi),
    {
        self.rows[f as usize][fi].duplicate()
    }
}

/// The duration of an event: its `@duration` field when the type has one
/// and it holds an integer, else 0 (a point event).
pub open spec fn spec_dur_of(store: FactStore, f: FactId, dur_fi: Option<usize>) -> i64 {
    match dur_fi {
        Some(fi) => match store.field(f, fi) {
            Value::I64(d) => d,
            _ => 0,
        },
        None => 0,
    }
}

/// Read an event's duration (see `spec_dur_of`).
pub fn dur_of(store: &FactStore, f: FactId, dur_fi: Option<usize>) -> (r: i64)
    requires
        dur_fi matches Some(fi) ==> store.has_field(f, fi),
    ensures
        r == spec_dur_of(*store, f, dur_fi),
{
    match dur_fi {
        Some(fi) => match store.value(f, fi) {
            Value::I64(d) => d,
            _ => 0,
        },
        None => 0,
    }
}

} // verus!
