//! The RRS family of rolling hashes, as used by rsync and others: a plain sum
//! and a position-weighted sum of the window's bytes, both modulo `MODULUS`.
use crate::thin::Thinned;
use crate::{Hasher, WINDOW_SIZE};
use vstd::prelude::*;

verus! {

pub type Checksum = u32;

/// The two running sums.
#[derive(Clone, Copy, Debug, PartialEq, Eq, Structural)]
pub struct State {
    pub a: u32,
    pub b: u32,
}

/// One step of the family over a window of `width` bytes, in wrapping 32-bit
/// arithmetic: `a' = (a - old + new) mod M`, `b' = (b - width * (old + OFFSET)
/// + a') mod M`, and the checksum holds `a'` in its high and `b'` in its low
/// 16 bits.
pub open spec fn rrs_step(
    modulus: u32,
    offset: u32,
    width: u32,
    state: State,
    old_byte: u8,
    new_byte: u8,
) -> (Checksum, State) {
    let a = (state.a.wrapping_sub(old_byte as u32).wrapping_add(new_byte as u32) % modulus) as u32;
    let b = (state.b.wrapping_sub(width.wrapping_mul((old_byte as u32).wrapping_add(offset))).wrapping_add(
        a,
    ) % modulus) as u32;
    (b.wrapping_add(a << 16u32), State { a, b })
}

/// A hash of the RRS family. It holds no data; `MODULUS` must not be zero.
#[derive(Clone, Copy, Debug)]
pub struct Rrs<const MODULUS: u32, const OFFSET: u32> {
    marker: (),
}

impl<const MODULUS: u32, const OFFSET: u32> Rrs<MODULUS, OFFSET> {
    #[verifier::type_invariant]
    spec fn modulus_is_positive(self) -> bool {
        MODULUS > 0
    }

    /// The one value of this type.
    pub closed spec fn spec_new() -> Self {
        Rrs { marker: () }
    }

    pub fn new() -> (r: Self)
        requires
            MODULUS > 0,
        ensures
            r == Self::spec_new(),
    {
        Rrs { marker: () }
    }
}

impl<const MODULUS: u32, const OFFSET: u32> Hasher for Rrs<MODULUS, OFFSET> {
    type Checksum = Checksum;

    type State = State;

    open spec fn spec_initial_state() -> State {
        State { a: 0, b: 0 }
    }

    fn initial_state() -> (r: State) {
        State { a: 0, b: 0 }
    }

    open spec fn step(&self, state: State, old_byte: u8, new_byte: u8) -> (Checksum, State) {
        rrs_step(MODULUS, OFFSET, WINDOW_SIZE as u32, state, old_byte, new_byte)
    }

    fn process_byte(&self, state: State, old_byte: u8, new_byte: u8) -> (r: (Checksum, State)) {
        proof {
            use_type_invariant(self);
        }
        process_byte_freestanding::<MODULUS, OFFSET>(state, WINDOW_SIZE, old_byte, new_byte)
    }
}

impl Default for Rrs<25_536, 31> {
    fn default() -> (r: Self)
        ensures
            r == Self::spec_new(),
    {
        Rrs::new()
    }
}

impl<const MODULUS: u32, const OFFSET: u32> Thinned for Rrs<MODULUS, OFFSET> {
    const BLOCK_SIZE: usize = WINDOW_SIZE;
}

/// One step of `Rrs<MODULUS, OFFSET>` over a window of `width` bytes.
pub fn process_byte_freestanding<const MODULUS: u32, const OFFSET: u32>(
    state: State,
    width: usize,
    old_byte: u8,
    new_byte: u8,
) -> (r: (Checksum, State))
    requires
        MODULUS > 0,
        width > 0,
    ensures
        r == rrs_step(MODULUS, OFFSET, width as u32, state, old_byte, new_byte),
{
    let width = width as u32;
    let a_new = state.a.wrapping_sub(old_byte as u32).wrapping_add(new_byte as u32) % MODULUS;
    let b_new = state.b.wrapping_sub(width.wrapping_mul((old_byte as u32).wrapping_add(OFFSET))).wrapping_add(
        a_new,
    ) % MODULUS;
    let sum = b_new.wrapping_add(a_new << 16u32);
    (sum, State { a: a_new, b: b_new })
}

} // verus!
