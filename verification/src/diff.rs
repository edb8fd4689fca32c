use crate::public_item::PublicItem;
use vstd::prelude::*;

verus! {

/// An item whose rendering differs between two versions of an API.
pub struct ChangedPublicItem {
    pub old: PublicItem,
    pub new: PublicItem,
}

/// The differences between two versions of a public API.
pub struct PublicItemsDiff {
    pub removed: Vec<PublicItem>,
    pub changed: Vec<ChangedPublicItem>,
    pub added: Vec<PublicItem>,
}

} // verus!
