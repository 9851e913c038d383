//! Content-defined chunking: a rolling hash over a fixed window of bytes, a
//! boundary policy turning its checksums into chunk boundaries, and consumers
//! that materialize the resulting chunks.
use vstd::prelude::*;

pub mod algorithms;
pub mod chunk;
pub mod config;
pub mod iter;
pub mod laws;
pub mod model;
pub mod rrs;
pub mod thin;
pub mod tree;
pub mod util;

pub use config::Config;

verus! {

/// Number of bytes in the rolling window.
pub const WINDOW_SIZE: usize = 64;

/// A checksum's significance: the number of trailing zero bits. Higher levels
/// are rarer, so a threshold on the level selects how coarse a split is.
pub trait Leveled: Sized {
    spec fn spec_level(self) -> u32;

    fn level(self) -> (r: u32)
        ensures
            r == self.spec_level(),
    ;
}

impl Leveled for bool {
    open spec fn spec_level(self) -> u32 {
        if self {
            1
        } else {
            0
        }
    }

    fn level(self) -> (r: u32) {
        self as u32
    }
}

impl Leveled for u8 {
    open spec fn spec_level(self) -> u32 {
        self.trailing_zeros()
    }

    fn level(self) -> (r: u32) {
        self.trailing_zeros()
    }
}

impl Leveled for u16 {
    open spec fn spec_level(self) -> u32 {
        self.trailing_zeros()
    }

    fn level(self) -> (r: u32) {
        self.trailing_zeros()
    }
}

impl Leveled for u32 {
    open spec fn spec_level(self) -> u32 {
        self.trailing_zeros()
    }

    fn level(self) -> (r: u32) {
        self.trailing_zeros()
    }
}

impl Leveled for u64 {
    open spec fn spec_level(self) -> u32 {
        self.trailing_zeros()
    }

    fn level(self) -> (r: u32) {
        self.trailing_zeros()
    }
}

/// Trailing zeros of a 128-bit value: those of its low half, or, when the low
/// half is zero, 64 more than those of its high half.
pub open spec fn u128_trailing_zeros(x: u128) -> u32 {
    if x as u64 != 0 {
        (x as u64).trailing_zeros()
    } else {
        (64 + ((x >> 64u128) as u64).trailing_zeros()) as u32
    }
}

fn u128_level(x: u128) -> (r: u32)
    ensures
        r == u128_trailing_zeros(x),
{
    let low = x as u64;
    if low != 0 {
        low.trailing_zeros()
    } else {
        let high = (x >> 64u128) as u64;
        proof {
            vstd::std_specs::bits::axiom_u64_trailing_zeros(high);
        }
        64 + high.trailing_zeros()
    }
}

impl Leveled for u128 {
    open spec fn spec_level(self) -> u32 {
        u128_trailing_zeros(self)
    }

    fn level(self) -> (r: u32) {
        u128_level(self)
    }
}

// A signed integer has the trailing zeros of its two's complement bit pattern.
impl Leveled for i8 {
    open spec fn spec_level(self) -> u32 {
        (self as u8).trailing_zeros()
    }

    fn level(self) -> (r: u32) {
        (self as u8).trailing_zeros()
    }
}

impl Leveled for i16 {
    open spec fn spec_level(self) -> u32 {
        (self as u16).trailing_zeros()
    }

    fn level(self) -> (r: u32) {
        (self as u16).trailing_zeros()
    }
}

impl Leveled for i32 {
    open spec fn spec_level(self) -> u32 {
        (self as u32).trailing_zeros()
    }

    fn level(self) -> (r: u32) {
        (self as u32).trailing_zeros()
    }
}

impl Leveled for i64 {
    open spec fn spec_level(self) -> u32 {
        (self as u64).trailing_zeros()
    }

    fn level(self) -> (r: u32) {
        (self as u64).trailing_zeros()
    }
}

impl Leveled for i128 {
    open spec fn spec_level(self) -> u32 {
        u128_trailing_zeros(self as u128)
    }

    fn level(self) -> (r: u32) {
        u128_level(self as u128)
    }
}

/// A rolling checksum algorithm: a pure step from a state and the byte leaving
/// the window and the byte entering it, to a checksum and the next state.
pub trait Hasher: Sized {
    type Checksum: Copy + Default + Leveled;

    type State: Copy;

    /// The state before any byte has been seen.
    spec fn spec_initial_state() -> Self::State;

    fn initial_state() -> (r: Self::State)
        ensures
            r == Self::spec_initial_state(),
    ;

    /// What one step of the algorithm computes.
    spec fn step(&self, state: Self::State, old_byte: u8, new_byte: u8) -> (
        Self::Checksum,
        Self::State,
    );

    fn process_byte(&self, state: Self::State, old_byte: u8, new_byte: u8) -> (r: (
        Self::Checksum,
        Self::State,
    ))
        ensures
            r == self.step(state, old_byte, new_byte),
    ;
}

/// The state reached from `state` by stepping through `pairs` in order.
pub open spec fn state_after_pairs<H: Hasher>(h: H, state: H::State, pairs: Seq<(u8, u8)>) -> H::State
    decreases pairs.len(),
{
    if pairs.len() == 0 {
        state
    } else {
        h.step(state_after_pairs(h, state, pairs.drop_last()), pairs.last().0, pairs.last().1).1
    }
}

/// The checksum of the last step through `pairs`.
pub open spec fn checksum_after_pairs<H: Hasher>(
    h: H,
    state: H::State,
    pairs: Seq<(u8, u8)>,
) -> H::Checksum
    recommends
        pairs.len() > 0,
{
    h.step(state_after_pairs(h, state, pairs.drop_last()), pairs.last().0, pairs.last().1).0
}

/// Folds `process_byte` over the (old, new) byte pairs. An empty sequence
/// leaves the state as it is, with the checksum type's default value.
pub fn process_sequence<H: Hasher>(hasher: &H, state: H::State, bytes: &[(u8, u8)]) -> (r: (
    H::Checksum,
    H::State,
))
    ensures
        r.1 == state_after_pairs(*hasher, state, bytes@),
        bytes@.len() > 0 ==> r.0 == checksum_after_pairs(*hasher, state, bytes@),
        bytes@.len() == 0 ==> call_ensures(H::Checksum::default, (), r.0),
{
    let mut acc: (H::Checksum, H::State) = (H::Checksum::default(), state);
    let mut i: usize = 0;
    while i < bytes.len()
        invariant
            i <= bytes@.len(),
            acc.1 == state_after_pairs(*hasher, state, bytes@.take(i as int)),
            i > 0 ==> acc.0 == checksum_after_pairs(*hasher, state, bytes@.take(i as int)),
            i == 0 ==> call_ensures(H::Checksum::default, (), acc.0),
        decreases bytes@.len() - i,
    {
        let (old_byte, new_byte) = bytes[i];
        acc = hasher.process_byte(acc.1, old_byte, new_byte);
        proof {
            assert(bytes@.take(i + 1).drop_last() =~= bytes@.take(i as int));
        }
        i += 1;
    }
    proof {
        assert(bytes@.take(i as int) =~= bytes@);
    }
    acc
}

/// Stepping through two sequences one after the other is stepping through
/// their concatenation: a batch can be split anywhere.
pub proof fn lemma_pairs_concat<H: Hasher>(
    h: H,
    state: H::State,
    first: Seq<(u8, u8)>,
    second: Seq<(u8, u8)>,
)
    ensures
        state_after_pairs(h, state, first + second) == state_after_pairs(
            h,
            state_after_pairs(h, state, first),
            second,
        ),
        second.len() > 0 ==> checksum_after_pairs(h, state, first + second)
            == checksum_after_pairs(h, state_after_pairs(h, state, first), second),
    decreases second.len(),
{
    if second.len() > 0 {
        assert((first + second).drop_last() =~= first + second.drop_last());
        lemma_pairs_concat(h, state, first, second.drop_last());
    } else {
        assert(first + second =~= first);
    }
}

/// An algorithm with a stable name for diagnostics.
pub trait Named: Hasher {
    const NAME: &'static str;
}

} // verus!
