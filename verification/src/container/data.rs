//! The data of a part, as much of it as came.
use crate::container::sanitize::LimitExceeded;
use vstd::prelude::*;

verus! {

/// How many bytes of an entry are asked for at a time.
pub const READ_SIZE: u64 = 8192;

/// Where the data of a part ends.
#[derive(Debug, Clone, Copy, PartialEq, Eq, Structural)]
pub enum PartEnd {
    /// Where the part ends.
    Whole,
    /// Where the entry is broken.
    Broken,
    /// Where more would have exceeded a cap.
    OverCap(LimitExceeded),
}

/// The data of a part.
#[derive(Debug, Clone, PartialEq, Eq)]
pub struct PartData {
    pub bytes: Vec<u8>,
    pub end: PartEnd,
}

/// The data of a part as contracts speak of it.
#[verifier::ext_equal]
pub struct PartView {
    pub bytes: Seq<u8>,
    pub end: PartEnd,
}

impl View for PartData {
    type V = PartView;

    open spec fn view(&self) -> PartView {
        PartView { bytes: self.bytes@, end: self.end }
    }
}

/// The view of data that is all of a part.
pub open spec fn whole_part(bytes: Seq<u8>) -> PartView {
    PartView { bytes, end: PartEnd::Whole }
}

impl PartData {
    /// Data that is all of a part.
    pub fn whole(bytes: Vec<u8>) -> (p: PartData)
        ensures
            p@ == whole_part(bytes@),
    {
        PartData { bytes, end: PartEnd::Whole }
    }
}

/// How many of `len` bytes have been asked for once the first `used` are there.
pub open spec fn asked_for(used: int, len: nat) -> nat {
    let n = (used + READ_SIZE - 1) / READ_SIZE as int * READ_SIZE;
    if n <= 0 {
        0
    } else if n <= len {
        n as nat
    } else {
        len
    }
}

/// Counts how many of `len` bytes have been asked for once the first `used` are there.
pub fn count_asked(used: u64, len: usize) -> (n: u64)
    ensures
        n == asked_for(used as int, len as nat),
{
    if used >= len as u64 {
        assert((used + READ_SIZE - 1) / READ_SIZE as int * READ_SIZE >= used) by (nonlinear_arith)
            requires
                READ_SIZE == 8192,
        ;
        return len as u64;
    }
    let blocks: u64 = used / READ_SIZE + if used % READ_SIZE == 0 {
        0
    } else {
        1
    };
    assert(blocks == (used + READ_SIZE - 1) / READ_SIZE as int);
    let n: u128 = blocks as u128 * READ_SIZE as u128;
    if n <= len as u128 {
        n as u64
    } else {
        len as u64
    }
}

} // verus!
