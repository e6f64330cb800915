//! The ids of vector records.

use vstd::prelude::*;

verus! {

/// The ID of a vector record. The greatest 32-bit number stands for "no
/// record".
#[derive(Clone, Copy, Debug, PartialEq, Eq, Structural, PartialOrd, Ord, Hash)]
pub struct VectorID(pub u32);

impl VectorID {
    /// Whether the id is the id of a record.
    pub open spec fn spec_is_valid(&self) -> bool {
        self.0 != u32::MAX
    }

    /// True if this vector ID is valid.
    pub fn is_valid(&self) -> (valid: bool)
        ensures
            valid == self.spec_is_valid(),
    {
        self.0 != u32::MAX
    }

    /// Returns the vector ID as u32 type.
    pub fn to_u32(&self) -> (id: u32)
        ensures
            id == self.0,
    {
        self.0
    }

    /// Returns the vector ID as usize type.
    pub fn to_usize(&self) -> (id: usize)
        ensures
            id == self.0,
    {
        self.0 as usize
    }

}

impl From<u32> for VectorID {
    /// The id with the given number.
    fn from(id: u32) -> (vector_id: VectorID) {
        VectorID(id)
    }
}

impl vstd::std_specs::convert::FromSpecImpl<u32> for VectorID {
    open spec fn obeys_from_spec() -> bool {
        true
    }

    open spec fn from_spec(id: u32) -> VectorID {
        VectorID(id)
    }
}

impl From<usize> for VectorID {
    /// The id with the given number, cut to its lowest 32 bits.
    fn from(id: usize) -> (vector_id: VectorID) {
        VectorID(((id as u64) % 0x1_0000_0000u64) as u32)
    }
}

impl vstd::std_specs::convert::FromSpecImpl<usize> for VectorID {
    open spec fn obeys_from_spec() -> bool {
        true
    }

    open spec fn from_spec(id: usize) -> VectorID {
        VectorID(((id as u64) % 0x1_0000_0000u64) as u32)
    }
}

impl From<VectorID> for u32 {
    /// The number of the id.
    fn from(id: VectorID) -> (number: u32) {
        id.0
    }
}

impl vstd::std_specs::convert::FromSpecImpl<VectorID> for u32 {
    open spec fn obeys_from_spec() -> bool {
        true
    }

    open spec fn from_spec(id: VectorID) -> u32 {
        id.0
    }
}

impl From<VectorID> for usize {
    /// The number of the id.
    fn from(id: VectorID) -> (number: usize) {
        id.0 as usize
    }
}

impl vstd::std_specs::convert::FromSpecImpl<VectorID> for usize {
    open spec fn obeys_from_spec() -> bool {
        true
    }

    open spec fn from_spec(id: VectorID) -> usize {
        id.0 as usize
    }
}

} // verus!
