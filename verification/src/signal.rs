//! Signals: what a widget tells the application while it handles an event.

use vstd::hash_map::StringHashMap;
use vstd::prelude::*;

verus! {

/// The value of one field of a signal.
pub enum FieldValue {
    Bool(bool),
    Int(i64),
    Text(String),
}

/// A type that a field of a signal can be read as.
pub trait FieldType: Sized {
    /// The value of this type that a field value holds, if it holds one.
    spec fn held_by(value: FieldValue) -> Option<Self>;

    /// Reads a field value as this type.
    fn read(value: &FieldValue) -> (r: Option<&Self>)
        ensures
            match r {
                Some(v) => Self::held_by(*value) == Some(*v),
                None => Self::held_by(*value) is None,
            },
    ;
}

impl FieldType for bool {
    open spec fn held_by(value: FieldValue) -> Option<bool> {
        match value {
            FieldValue::Bool(v) => Some(v),
            _ => None,
        }
    }

    fn read(value: &FieldValue) -> (r: Option<&bool>) {
        match value {
            FieldValue::Bool(v) => Some(v),
            _ => None,
        }
    }
}

impl FieldType for i64 {
    open spec fn held_by(value: FieldValue) -> Option<i64> {
        match value {
            FieldValue::Int(v) => Some(v),
            _ => None,
        }
    }

    fn read(value: &FieldValue) -> (r: Option<&i64>) {
        match value {
            FieldValue::Int(v) => Some(v),
            _ => None,
        }
    }
}

impl FieldType for String {
    open spec fn held_by(value: FieldValue) -> Option<String> {
        match value {
            FieldValue::Text(v) => Some(v),
            _ => None,
        }
    }

    fn read(value: &FieldValue) -> (r: Option<&String>) {
        match value {
            FieldValue::Text(v) => Some(v),
            _ => None,
        }
    }
}

/// A named notification with fields of several types.
pub struct Signal {
    name: String,
    fields: StringHashMap<FieldValue>,
}

impl Signal {
    /// The name of the signal.
    pub closed spec fn spec_name(&self) -> Seq<char> {
        self.name@
    }

    /// The fields of the signal, by name.
    pub closed spec fn spec_fields(&self) -> Map<Seq<char>, FieldValue> {
        self.fields@
    }

    /// A signal without fields.
    pub fn new(name: &str) -> (signal: Signal)
        ensures
            signal.spec_name() == name@,
            signal.spec_fields() == Map::<Seq<char>, FieldValue>::empty(),
    {
        Signal { name: name.to_owned(), fields: StringHashMap::new() }
    }

    /// A signal with the given fields.
    pub fn with_fields(name: &str, fields: StringHashMap<FieldValue>) -> (signal: Signal)
        ensures
            signal.spec_name() == name@,
            signal.spec_fields() == fields@,
    {
        Signal { name: name.to_owned(), fields }
    }

    /// The name of the signal.
    pub fn name(&self) -> (name: &str)
        ensures
            name@ == self.spec_name(),
    {
        self.name.as_str()
    }

    /// Whether the signal has a field of this name that reads as a `T`.
    pub open spec fn has_field<T: FieldType>(&self, name: Seq<char>) -> bool {
        self.spec_fields().contains_key(name) && T::held_by(self.spec_fields()[name]) is Some
    }

    /// The field of this name, read as a `T`.
    pub fn field<T: FieldType>(&self, name: &str) -> (value: &T)
        requires
            self.has_field::<T>(name@),
        ensures
            T::held_by(self.spec_fields()[name@]) == Some(*value),
    {
        self.field_opt(name).unwrap()
    }

    /// The field of this name, read as a `T`, if the signal has such a field.
    pub fn field_opt<T: FieldType>(&self, name: &str) -> (value: Option<&T>)
        ensures
            match value {
                Some(v) => self.has_field::<T>(name@) && T::held_by(self.spec_fields()[name@])
                    == Some(*v),
                None => !self.has_field::<T>(name@),
            },
    {
        match self.fields.get(name) {
            Some(held) => T::read(held),
            None => None,
        }
    }
}

/// What a widget answers to an event.
pub struct ProcessEventResult {
    /// Whether the widget asks for the focus.
    pub request_focus: bool,
    /// The signals that the widget emits, in order.
    pub signals: Vec<Signal>,
}

impl Default for ProcessEventResult {
    fn default() -> (r: ProcessEventResult)
        ensures
            !r.request_focus,
            r.signals@ == Seq::<Signal>::empty(),
    {
        ProcessEventResult { request_focus: false, signals: Vec::new() }
    }
}

} // verus!
