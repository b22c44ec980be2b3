use vstd::prelude::*;

verus! {

/// A fixed-width 64-bit identifier, stored as eight big-endian bytes.
///
/// Each kind of identifier is its own type, so that a tag identifier can
/// never be passed where an item identifier is expected.
pub trait Id: Sized + Copy {
    /// The numeric value of the identifier.
    spec fn value(&self) -> u64;

    fn from_u64(v: u64) -> (r: Self)
        ensures
            r.value() == v,
    ;

    fn to_u64(&self) -> (r: u64)
        ensures
            r == self.value(),
    ;
}

/// Identifier of a tag in the catalog.
#[derive(Clone, Copy, Debug, PartialEq, Eq, Structural, PartialOrd, Ord, Hash)]
pub struct TagID(pub u64);

/// Identifier of a tagged item.
#[derive(Clone, Copy, Debug, PartialEq, Eq, Structural, PartialOrd, Ord, Hash)]
pub struct ItemID(pub u64);

impl Id for TagID {
    open spec fn value(&self) -> u64 {
        self.0
    }

    fn from_u64(v: u64) -> (r: TagID) {
        TagID(v)
    }

    fn to_u64(&self) -> (r: u64) {
        self.0
    }
}

impl Id for ItemID {
    open spec fn value(&self) -> u64 {
        self.0
    }

    fn from_u64(v: u64) -> (r: ItemID) {
        ItemID(v)
    }

    fn to_u64(&self) -> (r: u64) {
        self.0
    }
}

} // verus!
