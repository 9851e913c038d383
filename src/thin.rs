//! Rolling hashes that can consume their input a block at a time.
use crate::{checksum_after_pairs, process_sequence, state_after_pairs, Hasher};
use vstd::prelude::*;

verus! {

/// The (old, new) pairs of two blocks of one length, position by position.
pub open spec fn zip_blocks(old_block: Seq<u8>, new_block: Seq<u8>) -> Seq<(u8, u8)> {
    Seq::new(old_block.len(), |i: int| (old_block[i], new_block[i]))
}

/// A rolling hash that can consume blocks of `BLOCK_SIZE` bytes. An override of
/// `process_block` must give what stepping byte by byte gives.
pub trait Thinned: Hasher {
    const BLOCK_SIZE: usize;

    /// Steps through the two blocks pair by pair, returning the last checksum
    /// and state.
    fn process_block(&self, state: Self::State, old_block: &[u8], new_block: &[u8]) -> (r: (
        Self::Checksum,
        Self::State,
    ))
        requires
            old_block@.len() == Self::BLOCK_SIZE,
            new_block@.len() == old_block@.len(),
        ensures
            r.1 == state_after_pairs(*self, state, zip_blocks(old_block@, new_block@)),
            old_block@.len() > 0 ==> r.0 == checksum_after_pairs(
                *self,
                state,
                zip_blocks(old_block@, new_block@),
            ),
            old_block@.len() == 0 ==> call_ensures(Self::Checksum::default, (), r.0),
    {
        let mut pairs: Vec<(u8, u8)> = Vec::with_capacity(old_block.len());
        let mut i: usize = 0;
        while i < old_block.len()
            invariant
                i <= old_block@.len(),
                new_block@.len() == old_block@.len(),
                pairs@ == zip_blocks(old_block@, new_block@).take(i as int),
            decreases old_block@.len() - i,
        {
            pairs.push((old_block[i], new_block[i]));
            i += 1;
            proof {
                assert(pairs@ =~= zip_blocks(old_block@, new_block@).take(i as int));
            }
        }
        proof {
            assert(pairs@ =~= zip_blocks(old_block@, new_block@));
        }
        process_sequence(self, state, pairs.as_slice())
    }
}

} // verus!
