//! The windows of a sender ratchet.
use vstd::prelude::*;

verus! {

/// How far a decryption ratchet looks back and ahead.
#[derive(Debug, Clone, Copy, PartialEq, Eq)]
pub struct SenderRatchetConfiguration {
    out_of_order_tolerance: u32,
    maximum_forward_distance: u32,
}

impl SenderRatchetConfiguration {
    /// How many generations behind the head a secret is still kept.
    pub closed spec fn spec_tolerance(&self) -> u32 {
        self.out_of_order_tolerance
    }

    /// How many generations ahead of the head a generation may be requested.
    pub closed spec fn spec_distance(&self) -> u32 {
        self.maximum_forward_distance
    }

    pub fn new(out_of_order_tolerance: u32, maximum_forward_distance: u32) -> (r: Self)
        ensures
            r.spec_tolerance() == out_of_order_tolerance,
            r.spec_distance() == maximum_forward_distance,
    {
        SenderRatchetConfiguration { out_of_order_tolerance, maximum_forward_distance }
    }

    pub fn out_of_order_tolerance(&self) -> (r: u32)
        ensures
            r == self.spec_tolerance(),
    {
        self.out_of_order_tolerance
    }

    pub fn maximum_forward_distance(&self) -> (r: u32)
        ensures
            r == self.spec_distance(),
    {
        self.maximum_forward_distance
    }
}

impl Default for SenderRatchetConfiguration {
    /// A tolerance of five generations and a forward distance of one thousand.
    fn default() -> (r: Self)
        ensures
            r.spec_tolerance() == 5,
            r.spec_distance() == 1000,
    {
        SenderRatchetConfiguration { out_of_order_tolerance: 5, maximum_forward_distance: 1000 }
    }
}

} // verus!
