//! Values of a runtime-checked type, as stored in a table.
use vstd::prelude::*;

verus! {

/// A value whose type is known only at run time. A lookup states the type it
/// expects and gets the value back only if the tag matches.
#[derive(Debug)]
pub enum KValue {
    Bool(bool),
    Char(char),
    I32(i32),
    I64(i64),
    U32(u32),
    U64(u64),
    Usize(usize),
    Text(String),
}

/// A type that can be recovered from a `KValue` by a checked downcast.
pub trait KType: Sized {
    /// The value of this type that `v` holds, if its tag is this type's.
    spec fn cast_of(v: KValue) -> Option<Self>;

    /// Recovers a reference to the value held by `v`, if its tag is this type's.
    fn downcast_ref(v: &KValue) -> (r: Option<&Self>)
        ensures
            match r {
                Some(x) => Self::cast_of(*v) == Some(*x),
                None => Self::cast_of(*v) is None,
            },
    ;
}

impl KType for i32 {
    open spec fn cast_of(v: KValue) -> Option<i32> {
        match v {
            KValue::I32(x) => Some(x),
            _ => None,
        }
    }

    fn downcast_ref(v: &KValue) -> (r: Option<&i32>) {
        match v {
            KValue::I32(x) => Some(x),
            _ => None,
        }
    }
}

impl KType for bool {
    open spec fn cast_of(v: KValue) -> Option<bool> {
        match v {
            KValue::Bool(x) => Some(x),
            _ => None,
        }
    }

    fn downcast_ref(v: &KValue) -> (r: Option<&bool>) {
        match v {
            KValue::Bool(x) => Some(x),
            _ => None,
        }
    }
}

impl KType for char {
    open spec fn cast_of(v: KValue) -> Option<char> {
        match v {
            KValue::Char(x) => Some(x),
            _ => None,
        }
    }

    fn downcast_ref(v: &KValue) -> (r: Option<&char>) {
        match v {
            KValue::Char(x) => Some(x),
            _ => None,
        }
    }
}

impl KType for i64 {
    open spec fn cast_of(v: KValue) -> Option<i64> {
        match v {
            KValue::I64(x) => Some(x),
            _ => None,
        }
    }

    fn downcast_ref(v: &KValue) -> (r: Option<&i64>) {
        match v {
            KValue::I64(x) => Some(x),
            _ => None,
        }
    }
}

impl KType for u32 {
    open spec fn cast_of(v: KValue) -> Option<u32> {
        match v {
            KValue::U32(x) => Some(x),
            _ => None,
        }
    }

    fn downcast_ref(v: &KValue) -> (r: Option<&u32>) {
        match v {
            KValue::U32(x) => Some(x),
            _ => None,
        }
    }
}

impl KType for u64 {
    open spec fn cast_of(v: KValue) -> Option<u64> {
        match v {
            KValue::U64(x) => Some(x),
            _ => None,
        }
    }

    fn downcast_ref(v: &KValue) -> (r: Option<&u64>) {
        match v {
            KValue::U64(x) => Some(x),
            _ => None,
        }
    }
}

impl KType for usize {
    open spec fn cast_of(v: KValue) -> Option<usize> {
        match v {
            KValue::Usize(x) => Some(x),
            _ => None,
        }
    }

    fn downcast_ref(v: &KValue) -> (r: Option<&usize>) {
        match v {
            KValue::Usize(x) => Some(x),
            _ => None,
        }
    }
}

impl KType for String {
    open spec fn cast_of(v: KValue) -> Option<String> {
        match v {
            KValue::Text(x) => Some(x),
            _ => None,
        }
    }

    fn downcast_ref(v: &KValue) -> (r: Option<&String>) {
        match v {
            KValue::Text(x) => Some(x),
            _ => None,
        }
    }
}

} // verus!
