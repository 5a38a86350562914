//! What the application supplies: which values are valid, and how several
//! nominated values are combined into the values of a ballot.

use crate::value::Value;
use crate::value_set::ValueSet;
use vstd::prelude::*;

verus! {

/// The application's test of a value.
///
/// The answer depends on the value alone: `valid` says, for each key,
/// whether values with that key pass.
pub trait ValidityFn<V: Value> {
    /// What the test reports of a value that fails it.
    type Error;

    /// Whether values with the key `key` are valid.
    open spec fn valid(&self, key: Seq<u8>) -> bool {
        arbitrary()
    }

    /// Tests `value`.
    fn validate(&self, value: &V) -> (r: Result<(), Self::Error>)
        ensures
            r is Ok == self.valid(value.key()),
    ;
}

/// The application's way to combine nominated values.
///
/// The outcome depends on the set of values alone.
pub trait CombineFn<V: Value> {
    /// The keys of the combination of the values with the keys `keys`.
    open spec fn combined(&self, keys: Set<Seq<u8>>) -> Set<Seq<u8>> {
        arbitrary()
    }

    /// Combines `values`.
    fn combine(&self, values: &ValueSet<V>) -> (r: ValueSet<V>)
        ensures
            r@ == self.combined(values@),
    ;
}

} // verus!
