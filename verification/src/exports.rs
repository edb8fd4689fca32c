//! Items that a crate exports under two versions of its API: `foo` in the
//! first, and `foo2` beside it in the second.
use vstd::prelude::*;

verus! {

/// Does nothing.
pub fn foo() {
}

/// Calls `foo`.
pub fn foo2() {
    foo();
}

} // verus!
