//! Values that many owners share.

use std::sync::Arc;
use vstd::prelude::*;

verus! {

/// Another pointer to the value that `value` points to.
///
/// `Arc::clone` is documented to return a pointer to the same allocation: the
/// contract claims that the two point to equal values.
#[verifier::external_body]
pub(crate) fn share<T>(value: &Arc<T>) -> (r: Arc<T>)
    ensures
        r == *value,
{
    Arc::clone(value)
}

} // verus!
