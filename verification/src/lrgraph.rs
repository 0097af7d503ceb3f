//! The operation that a left-right replicated counter absorbs.
use vstd::prelude::*;

verus! {

/// An amount to add to a replicated counter.
pub struct CounterAddOp(i32);

impl CounterAddOp {
    /// The operation that adds nothing.
    pub fn new() -> (op: CounterAddOp)
        ensures
            op.amount_spec() == 0,
    {
        CounterAddOp(0)
    }

    /// The amount the operation adds.
    pub closed spec fn amount_spec(&self) -> i32 {
        self.0
    }

    /// The amount the operation adds.
    pub fn amount(&self) -> (amount: i32)
        ensures
            amount == self.amount_spec(),
    {
        self.0
    }
}

/// The value after `operation` was absorbed into `value`.
pub open spec fn absorbed(value: i32, operation: CounterAddOp) -> int {
    value + operation.amount_spec()
}

/// Absorbs `operation` into the first copy of the counter: adds its amount.
pub fn absorb_first(value: &mut i32, operation: &CounterAddOp)
    requires
        i32::MIN <= absorbed(*old(value), *operation) <= i32::MAX,
    ensures
        *final(value) == absorbed(*old(value), *operation),
{
    *value = *value + operation.0;
}

/// Absorbs `operation` into the second copy of the counter: adds its amount, as
/// [`absorb_first`] does.
pub fn absorb_second(value: &mut i32, operation: CounterAddOp)
    requires
        i32::MIN <= absorbed(*old(value), operation) <= i32::MAX,
    ensures
        *final(value) == absorbed(*old(value), operation),
{
    *value = *value + operation.0;
}

/// Brings the second copy of the counter level with the first.
pub fn sync_with(value: &mut i32, first: &i32)
    ensures
        *final(value) == *first,
{
    *value = *first;
}

/// A new operation adds nothing: absorbing it, into either copy, leaves the
/// counter as it was.
pub proof fn lemma_new_operation_is_identity(value: i32, operation: CounterAddOp)
    requires
        operation.amount_spec() == 0,
    ensures
        absorbed(value, operation) == value,
{
}

} // verus!
