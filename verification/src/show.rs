//! How a value is shown for debugging.

use std::fmt;
use std::mem::ManuallyDrop;
use vstd::prelude::*;

verus! {

/// Where a value is written to.
#[verifier::external_type_specification]
#[verifier::external_body]
pub struct ExFormatter<'a>(std::fmt::Formatter<'a>);

/// The failure to write.
#[verifier::external_type_specification]
#[verifier::external_body]
pub struct ExFormatError(std::fmt::Error);

/// What is shown of a borrowed item with its priority. Both are values that their holder gives back
/// and does not drop.
#[derive(Debug)]
pub struct PooledItem<'a, T, P> {
    /// The item.
    pub item: ManuallyDrop<&'a T>,
    /// The priority of the item.
    pub priority: ManuallyDrop<&'a P>,
}

/// Whether `outcome` is what writing `value` to `f` came to.
pub closed spec fn written<'f, V: fmt::Debug>(
    value: V,
    f: fmt::Formatter<'f>,
    outcome: fmt::Result,
) -> bool {
    exists|to: &mut fmt::Formatter<'f>|
        *to == f && #[trigger] call_ensures(debug_fmt::<V>, (&value, to), outcome)
}

/// `std::fmt::Debug::fmt` writes a value in its debug form. Nothing is claimed of what is written.
#[verifier::external_body]
fn debug_fmt<V: fmt::Debug>(value: &V, f: &mut fmt::Formatter<'_>) -> (outcome: fmt::Result) {
    value.fmt(f)
}

/// Writes `value` to `f` in its debug form.
pub(crate) fn show<V: fmt::Debug>(value: &V, f: &mut fmt::Formatter<'_>) -> (outcome: fmt::Result)
    ensures
        written(*value, *old(f), outcome),
{
    debug_fmt(value, f)
}

/// What is said to be written was handed to `Debug::fmt`, and the outcome is what that gave.
proof fn law_written_is_formatted<'f, V: fmt::Debug>(
    value: V,
    f: fmt::Formatter<'f>,
    outcome: fmt::Result,
)
    requires
        written(value, f, outcome),
    ensures
        exists|to: &mut fmt::Formatter<'f>|
            *to == f && #[trigger] call_ensures(debug_fmt::<V>, (&value, to), outcome),
{
}

} // verus!
