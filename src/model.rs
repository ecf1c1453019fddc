use vstd::prelude::*;

verus! {

/// A club member as the members file describes one.
#[derive(Debug)]
pub struct Member {
    pub id: String,
    pub name: String,
    pub short_info: String,
    pub long_info: String,
    /// Path of the member's picture.
    pub pic: String,
}

} // verus!
