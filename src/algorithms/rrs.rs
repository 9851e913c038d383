use crate::rrs::{rrs_step, Checksum, State};
use crate::{Named, WINDOW_SIZE};
use vstd::prelude::*;

pub use crate::rrs::Rrs;

verus! {

/// The RRS hash with modulus 25 536 and offset 31.
pub type Rrs1 = Rrs<25_536, 31>;

impl Named for Rrs1 {
    const NAME: &'static str = "RRS1";
}

/// One step of `Rrs<MODULUS, OFFSET>` over the crate's window.
pub fn process_byte_freestanding<const MODULUS: u32, const OFFSET: u32>(
    state: State,
    old_byte: u8,
    new_byte: u8,
) -> (r: (Checksum, State))
    requires
        MODULUS > 0,
    ensures
        r == rrs_step(MODULUS, OFFSET, WINDOW_SIZE as u32, state, old_byte, new_byte),
{
    crate::rrs::process_byte_freestanding::<MODULUS, OFFSET>(state, WINDOW_SIZE, old_byte, new_byte)
}

} // verus!
