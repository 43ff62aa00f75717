//! The persisted counter record.

use vstd::prelude::*;

verus! {

/// The single record the system stores: the counter value and the
/// identity that may reset it.
#[derive(Clone, Debug, PartialEq)]
pub struct State {
    pub count: i32,
    pub owner: String,
}

} // verus!
