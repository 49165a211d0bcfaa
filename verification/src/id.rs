//! Typed identifiers for the records that carry digests around.

use vstd::prelude::*;
use core::marker::PhantomData;

verus! {

/// An identifier tied to the record type it names.
#[derive(Debug)]
pub struct Id<T> {
    pub value: i64,
    pub _phantom: PhantomData<T>,
}

impl<T> Id<T> {
    pub fn new(value: i64) -> (r: Self)
        ensures
            r.value == value,
    {
        Id { value, _phantom: PhantomData }
    }
}

/// A source of fresh identifier values; implemented by whatever id scheme
/// the caller brings.
pub trait IdGenerate {
    fn generate_i64(&self) -> i64;
}

} // verus!
