//! The rolling window engine, the boundary detector and the chunk producers.
use crate::chunk::{ChunkData, ResumableChunk};
use crate::model::{
    boundary_at, checksum_after, checksum_at, chunks, chunks_from, clip, empty_window, events,
    events_upto, evicted, evicted_after, extents, extents_upto, lemma_chunks_from_start,
    lemma_closed_extent, lemma_events_upto_len, lemma_events_upto_prefix, lemma_extents_cover,
    lemma_extents_total, lemma_extents_upto_prefix, lemma_final_extent, lemma_fresh_rolling,
    lemma_run_at_most, lemma_total_length_take, run_at, state_after, state_at, total_length,
    Policy,
};
use crate::{Hasher, Leveled, WINDOW_SIZE};
use vstd::prelude::*;

verus! {

/// Why a run of bytes ended, with the hash state at its end.
pub enum Boundary<Hash: Hasher> {
    /// The checksum reached the threshold; its level.
    Level(u32, Hash::State),
    /// The run reached the maximum size.
    Capped(Hash::State),
    /// The input ended.
    Eof(Hash::State),
}

impl<Hash: Hasher> Boundary<Hash> {
    pub open spec fn spec_state(self) -> Hash::State {
        match self {
            Boundary::Level(_, state) => state,
            Boundary::Capped(state) => state,
            Boundary::Eof(state) => state,
        }
    }

    pub fn into_state(self) -> (r: Hash::State)
        ensures
            r == self.spec_state(),
    {
        match self {
            Boundary::Level(_, state) => state,
            Boundary::Capped(state) => state,
            Boundary::Eof(state) => state,
        }
    }
}

/// One byte of input, or a boundary after the bytes before it.
pub enum Event<Hash: Hasher> {
    Data(u8),
    Boundary(Boundary<Hash>),
}

} // verus!

verus! {

proof fn lemma_slot_of_evicted(pos: int)
    requires
        pos >= WINDOW_SIZE,
    ensures
        (pos - WINDOW_SIZE) % (WINDOW_SIZE as int) == pos % (WINDOW_SIZE as int),
{
}

proof fn lemma_slot_advance(pos: int)
    requires
        pos >= 0,
    ensures
        (pos + 1) % (WINDOW_SIZE as int) == if pos % (WINDOW_SIZE as int) + 1 == WINDOW_SIZE {
            0
        } else {
            pos % (WINDOW_SIZE as int) + 1
        },
{
}

/// Two positions less than a window apart use different slots of the ring.
proof fn lemma_slots_differ(i: int, pos: int)
    requires
        0 <= i < pos < i + WINDOW_SIZE,
    ensures
        i % (WINDOW_SIZE as int) != pos % (WINDOW_SIZE as int),
{
}

/// The rolling window engine: one hash instance driven over a byte slice,
/// with the last `WINDOW_SIZE` bytes kept in a ring buffer.
pub struct Rolling<'a, Hash: Hasher> {
    hasher: Hash,
    state: Hash::State,
    begin: usize,
    ring: [u8; WINDOW_SIZE],
    source: &'a [u8],
    pos: usize,
    start_state: Ghost<Hash::State>,
    start_window: Ghost<Seq<u8>>,
}

impl<'a, Hash: Hasher> Rolling<'a, Hash> {
    pub closed spec fn spec_hasher(&self) -> Hash {
        self.hasher
    }

    /// The whole input.
    pub closed spec fn spec_source(&self) -> Seq<u8> {
        self.source@
    }

    /// How many bytes have been consumed.
    pub closed spec fn spec_pos(&self) -> nat {
        self.pos as nat
    }

    /// The state the engine started from.
    pub closed spec fn spec_start_state(&self) -> Hash::State {
        self.start_state@
    }

    /// The bytes taken to come before the input, oldest first.
    pub closed spec fn spec_start_window(&self) -> Seq<u8> {
        self.start_window@
    }

    /// Whether the engine started at the beginning of a stream.
    pub open spec fn spec_fresh(&self) -> bool {
        &&& self.spec_start_state() == Hash::spec_initial_state()
        &&& self.spec_start_window() == empty_window()
    }

    /// The state is that of the consumed bytes, and the ring holds the last
    /// `WINDOW_SIZE` of them (the start window's bytes where fewer have been
    /// seen), the oldest at `begin`.
    pub closed spec fn wf(&self) -> bool {
        &&& self.pos <= self.source@.len()
        &&& self.begin == self.pos % WINDOW_SIZE
        &&& self.start_window@.len() == WINDOW_SIZE
        &&& self.state == state_after(
            self.hasher,
            self.start_state@,
            self.start_window@,
            self.source@,
            self.pos as nat,
        )
        &&& forall|i: int|
            0 <= i < self.pos && self.pos - WINDOW_SIZE <= i ==> #[trigger] self.source@[i]
                == self.ring@[i % (WINDOW_SIZE as int)]
        &&& forall|j: int|
            self.pos <= j < WINDOW_SIZE ==> #[trigger] self.ring@[j] == self.start_window@[j]
    }

    pub fn start(hasher: Hash, source: &'a [u8]) -> (r: Self)
        ensures
            r.wf(),
            r.spec_fresh(),
            r.spec_pos() <= r.spec_source().len(),
            r.spec_hasher() == hasher,
            r.spec_source() == source@,
            r.spec_pos() == 0,
    {
        Rolling {
            hasher,
            state: Hash::initial_state(),
            begin: 0,
            ring: [0; WINDOW_SIZE],
            source,
            pos: 0,
            start_state: Ghost(Hash::spec_initial_state()),
            start_window: Ghost(empty_window()),
        }
    }

    /// Continues a rolling computation over `source` from a saved `state`.
    /// The state alone does not determine what follows: `window` must hold
    /// the `WINDOW_SIZE` bytes that came before `source`, oldest first, as
    /// `window_before` takes them from the earlier input.
    pub fn resume(hasher: Hash, state: Hash::State, window: [u8; WINDOW_SIZE], source: &'a [u8]) -> (r: Self)
        ensures
            r.wf(),
            r.spec_pos() <= r.spec_source().len(),
            r.spec_hasher() == hasher,
            r.spec_start_state() == state,
            r.spec_start_window() == window@,
            r.spec_source() == source@,
            r.spec_pos() == 0,
    {
        Rolling {
            hasher,
            state,
            begin: 0,
            ring: window,
            source,
            pos: 0,
            start_state: Ghost(state),
            start_window: Ghost(window@),
        }
    }

    /// Rolls `byte`, the next byte of the input, into the window.
    fn feed(&mut self, byte: u8) -> (r: Hash::Checksum)
        requires
            old(self).wf(),
            old(self).pos < old(self).source@.len(),
            byte == old(self).source@[old(self).pos as int],
        ensures
            final(self).wf(),
            final(self).hasher == old(self).hasher,
            final(self).source@ == old(self).source@,
            final(self).start_state == old(self).start_state,
            final(self).start_window == old(self).start_window,
            final(self).pos == old(self).pos + 1,
            r == checksum_after(
                old(self).hasher,
                old(self).start_state@,
                old(self).start_window@,
                old(self).source@,
                old(self).pos as nat,
            ),
    {
        let ghost pos = self.pos as int;
        let ghost ring = self.ring@;
        let len = self.source.len();
        proof {
            if pos >= WINDOW_SIZE {
                lemma_slot_of_evicted(pos);
                assert(self.source@[pos - WINDOW_SIZE] == ring[(pos - WINDOW_SIZE) % (
                WINDOW_SIZE as int)]);
            }
        }
        let evicted_byte = self.ring[self.begin];
        assert(evicted_byte == evicted_after(self.start_window@, self.source@, pos));
        let (sum, new_state) = self.hasher.process_byte(self.state, evicted_byte, byte);
        self.state = new_state;
        self.ring[self.begin] = byte;
        self.begin = if self.begin + 1 == WINDOW_SIZE {
            0
        } else {
            self.begin + 1
        };
        self.pos += 1;
        proof {
            lemma_slot_advance(pos);
            assert forall|i: int|
                0 <= i < self.pos && self.pos - WINDOW_SIZE <= i implies #[trigger] self.source@[i]
                == self.ring@[i % (WINDOW_SIZE as int)] by {
                if i < pos {
                    lemma_slots_differ(i, pos);
                }
            }
        }
        sum
    }

    /// The checksum for the next byte of the input, or `None` at its end.
    pub fn next(&mut self) -> (r: Option<Hash::Checksum>)
        requires
            old(self).wf(),
        ensures
            final(self).wf(),
            old(self).spec_pos() <= old(self).spec_source().len(),
            final(self).spec_pos() <= final(self).spec_source().len(),
            final(self).spec_hasher() == old(self).spec_hasher(),
            final(self).spec_source() == old(self).spec_source(),
            final(self).spec_start_state() == old(self).spec_start_state(),
            final(self).spec_start_window() == old(self).spec_start_window(),
            old(self).spec_pos() < old(self).spec_source().len() ==> {
                &&& final(self).spec_pos() == old(self).spec_pos() + 1
                &&& r == Some(
                    checksum_after(
                        old(self).spec_hasher(),
                        old(self).spec_start_state(),
                        old(self).spec_start_window(),
                        old(self).spec_source(),
                        old(self).spec_pos(),
                    ),
                )
            },
            old(self).spec_fresh() && old(self).spec_pos() < old(self).spec_source().len() ==> r
                == Some(
                checksum_at(old(self).spec_hasher(), old(self).spec_source(), old(self).spec_pos()),
            ),
            old(self).spec_pos() == old(self).spec_source().len() ==> {
                &&& final(self).spec_pos() == old(self).spec_pos()
                &&& r is None
            },
    {
        if self.pos < self.source.len() {
            let byte = self.source[self.pos];
            proof {
                lemma_fresh_rolling(self.hasher, self.source@, self.pos as nat);
            }
            Some(self.feed(byte))
        } else {
            None
        }
    }
}

/// The `WINDOW_SIZE` bytes of `data` before position `end`, oldest first, with
/// zeros before the start: what `Rolling::resume` needs to continue at `end`.
pub fn window_before(data: &[u8], end: usize) -> (r: [u8; WINDOW_SIZE])
    requires
        end <= data@.len(),
    ensures
        r@ == crate::model::window_before(data@, end as int),
{
    let mut window = [0u8; WINDOW_SIZE];
    let mut j: usize = 0;
    while j < WINDOW_SIZE
        invariant
            j <= WINDOW_SIZE,
            end <= data@.len(),
            forall|k: int| 0 <= k < j ==> window@[k] == evicted(data@, end + k),
        decreases WINDOW_SIZE - j,
    {
        if end >= WINDOW_SIZE - j {
            window[j] = data[end - (WINDOW_SIZE - j)];
        } else {
            window[j] = 0;
        }
        j += 1;
    }
    assert(window@ =~= crate::model::window_before(data@, end as int));
    window
}

/// A rolling engine that hands out each byte with its checksum.
pub struct WithRolling<'a, Hash: Hasher>(pub Rolling<'a, Hash>);

impl<'a, Hash: Hasher> WithRolling<'a, Hash> {
    /// The hash state after the bytes consumed so far.
    pub fn state(&self) -> (r: &Hash::State)
        requires
            self.0.wf(),
        ensures
            *r == state_after(
                self.0.spec_hasher(),
                self.0.spec_start_state(),
                self.0.spec_start_window(),
                self.0.spec_source(),
                self.0.spec_pos(),
            ),
            self.0.spec_fresh() ==> *r == state_at(
                self.0.spec_hasher(),
                self.0.spec_source(),
                self.0.spec_pos(),
            ),
    {
        proof {
            lemma_fresh_rolling(self.0.hasher, self.0.source@, self.0.pos as nat);
        }
        &self.0.state
    }

    /// The next byte of the input with its checksum, or `None` at its end.
    pub fn next(&mut self) -> (r: Option<(u8, Hash::Checksum)>)
        requires
            old(self).0.wf(),
        ensures
            final(self).0.wf(),
            old(self).0.spec_pos() <= old(self).0.spec_source().len(),
            final(self).0.spec_pos() <= final(self).0.spec_source().len(),
            final(self).0.spec_hasher() == old(self).0.spec_hasher(),
            final(self).0.spec_source() == old(self).0.spec_source(),
            final(self).0.spec_start_state() == old(self).0.spec_start_state(),
            final(self).0.spec_start_window() == old(self).0.spec_start_window(),
            old(self).0.spec_pos() < old(self).0.spec_source().len() ==> {
                &&& final(self).0.spec_pos() == old(self).0.spec_pos() + 1
                &&& r == Some(
                    (
                        old(self).0.spec_source()[old(self).0.spec_pos() as int],
                        checksum_after(
                            old(self).0.spec_hasher(),
                            old(self).0.spec_start_state(),
                            old(self).0.spec_start_window(),
                            old(self).0.spec_source(),
                            old(self).0.spec_pos(),
                        ),
                    ),
                )
            },
            old(self).0.spec_fresh() && old(self).0.spec_pos() < old(self).0.spec_source().len()
                ==> r == Some(
                (
                    old(self).0.spec_source()[old(self).0.spec_pos() as int],
                    checksum_at(
                        old(self).0.spec_hasher(),
                        old(self).0.spec_source(),
                        old(self).0.spec_pos(),
                    ),
                ),
            ),
            old(self).0.spec_pos() == old(self).0.spec_source().len() ==> {
                &&& final(self).0.spec_pos() == old(self).0.spec_pos()
                &&& r is None
            },
    {
        let rolling = &mut self.0;
        if rolling.pos < rolling.source.len() {
            let byte = rolling.source[rolling.pos];
            proof {
                lemma_fresh_rolling(rolling.hasher, rolling.source@, rolling.pos as nat);
            }
            Some((byte, rolling.feed(byte)))
        } else {
            None
        }
    }
}

} // verus!

verus! {

/// The boundary detector: turns the input into its event sequence, each byte
/// as `Data` and, on the next call, the boundary that byte closes.
pub struct Delimited<
    'a,
    Hash: Hasher,
    const THRESHOLD: u32,
    const MIN_SIZE: usize,
    const MAX_SIZE: usize,
> {
    prepared: Option<(Option<u32>, Hash::State)>,
    counter: usize,
    halt: bool,
    pub input: WithRolling<'a, Hash>,
}

impl<
    'a,
    Hash: Hasher,
    const THRESHOLD: u32,
    const MIN_SIZE: usize,
    const MAX_SIZE: usize,
> Delimited<'a, Hash, THRESHOLD, MIN_SIZE, MAX_SIZE> {
    pub open spec fn policy() -> Policy {
        Policy { threshold: THRESHOLD, min_size: MIN_SIZE, max_size: MAX_SIZE }
    }

    pub closed spec fn spec_hasher(&self) -> Hash {
        self.input.0.spec_hasher()
    }

    pub closed spec fn spec_source(&self) -> Seq<u8> {
        self.input.0.spec_source()
    }

    /// How many bytes have been consumed.
    pub closed spec fn spec_pos(&self) -> nat {
        self.input.0.spec_pos()
    }

    /// Whether a boundary is staged, to be handed out on the next call.
    pub closed spec fn spec_pending(&self) -> bool {
        self.prepared is Some
    }

    /// Whether the end-of-input boundary has been handed out.
    pub closed spec fn spec_halted(&self) -> bool {
        self.halt
    }

    /// Every event this detector hands out, in order.
    pub open spec fn spec_events(&self) -> Seq<Event<Hash>> {
        events(self.spec_hasher(), Self::policy(), self.spec_source())
    }

    /// How many events have been handed out.
    pub closed spec fn spec_yielded(&self) -> nat {
        let n = events_upto(
            self.spec_hasher(),
            Self::policy(),
            self.spec_source(),
            self.input.0.spec_pos(),
        ).len();
        if self.halt {
            n + 1
        } else if self.prepared is Some {
            (n - 1) as nat
        } else {
            n
        }
    }

    pub closed spec fn wf(&self) -> bool {
        let h = self.spec_hasher();
        let src = self.spec_source();
        let pos = self.input.0.spec_pos();
        &&& self.input.0.wf()
        &&& self.input.0.spec_fresh()
        &&& self.counter == run_at(h, Self::policy(), src, pos)
        &&& self.halt ==> pos == src.len() && self.prepared is None
        &&& match self.prepared {
            Some((may, state)) => pos > 0 && boundary_at(h, Self::policy(), src, (pos - 1) as nat)
                == Some(
                match may {
                    Some(level) => Boundary::<Hash>::Level(level, state),
                    None => Boundary::<Hash>::Capped(state),
                },
            ),
            None => true,
        }
    }

    pub fn start(hasher: Hash, source: &'a [u8]) -> (r: Self)
        requires
            MIN_SIZE <= MAX_SIZE,
        ensures
            r.wf(),
            r.spec_hasher() == hasher,
            r.spec_source() == source@,
            r.spec_yielded() == 0,
    {
        Delimited {
            prepared: None,
            counter: 0,
            halt: false,
            input: WithRolling(Rolling::start(hasher, source)),
        }
    }

    /// The next event, or `None` once the end-of-input boundary has been
    /// handed out.
    pub fn next(&mut self) -> (r: Option<Event<Hash>>)
        requires
            old(self).wf(),
        ensures
            final(self).wf(),
            final(self).spec_hasher() == old(self).spec_hasher(),
            final(self).spec_source() == old(self).spec_source(),
            old(self).spec_yielded() < old(self).spec_events().len() ==> {
                &&& r == Some(old(self).spec_events()[old(self).spec_yielded() as int])
                &&& final(self).spec_yielded() == old(self).spec_yielded() + 1
            },
            old(self).spec_yielded() >= old(self).spec_events().len() ==> {
                &&& r is None
                &&& final(self).spec_yielded() == old(self).spec_yielded()
            },
            old(self).spec_halted() ==> {
                &&& final(self).spec_halted()
                &&& final(self).spec_pos() == old(self).spec_pos()
            },
            !old(self).spec_halted() && old(self).spec_pending() ==> {
                &&& !final(self).spec_halted()
                &&& !final(self).spec_pending()
                &&& final(self).spec_pos() == old(self).spec_pos()
            },
            !old(self).spec_halted() && old(self).spec_pending() ==> {
                let b = boundary_at(
                    old(self).spec_hasher(),
                    Self::policy(),
                    old(self).spec_source(),
                    (old(self).spec_pos() - 1) as nat,
                );
                &&& b is Some
                &&& r == Some(Event::Boundary(b.unwrap()))
            },
            !old(self).spec_halted() && !old(self).spec_pending() && old(self).spec_pos()
                < old(self).spec_source().len() ==> {
                &&& !final(self).spec_halted()
                &&& final(self).spec_pos() == old(self).spec_pos() + 1
                &&& r == Some(Event::<Hash>::Data(old(self).spec_source()[old(self).spec_pos() as int]))
            },
            !old(self).spec_halted() && !old(self).spec_pending() && old(self).spec_pos()
                == old(self).spec_source().len() ==> {
                &&& final(self).spec_halted()
                &&& final(self).spec_pos() == old(self).spec_pos()
                &&& r == Some(
                    Event::Boundary(
                        Boundary::<Hash>::Eof(
                            state_at(
                                old(self).spec_hasher(),
                                old(self).spec_source(),
                                old(self).spec_pos(),
                            ),
                        ),
                    ),
                )
            },
    {
        let ghost h = self.spec_hasher();
        let ghost p = Self::policy();
        let ghost src = self.spec_source();
        let ghost pos = self.input.0.spec_pos();
        proof {
            lemma_events_upto_prefix(h, p, src, pos, src.len());
        }
        if self.halt {
            return None;
        }
        if let Some((may, state)) = self.prepared {
            self.prepared = None;
            let boundary = match may {
                Some(level) => Boundary::Level(level, state),
                None => Boundary::Capped(state),
            };
            proof {
                let e_pos = events_upto(h, p, src, pos);
                let e_all = events_upto(h, p, src, src.len());
                assert(e_pos.last() == Event::Boundary(boundary));
                assert(e_all.take(e_pos.len() as int)[e_pos.len() - 1] == e_pos.last());
                assert(events(h, p, src)[e_pos.len() - 1] == e_all[e_pos.len() - 1]);
            }
            return Some(Event::Boundary(boundary));
        }
        match self.input.next() {
            Some((byte, sum)) => {
                proof {
                    lemma_run_at_most(h, p, src, pos);
                    lemma_events_upto_prefix(h, p, src, pos + 1, src.len());
                }
                self.counter += 1;
                let lev = sum.level();
                if lev >= THRESHOLD && self.counter >= MIN_SIZE {
                    self.prepared = Some((Some(lev), *self.input.state()));
                    self.counter = 0;
                } else if self.counter == MAX_SIZE {
                    self.prepared = Some((None, *self.input.state()));
                    self.counter = 0;
                }
                proof {
                    let e_pos = events_upto(h, p, src, pos);
                    let e_next = events_upto(h, p, src, pos + 1);
                    let e_all = events_upto(h, p, src, src.len());
                    assert(e_next[e_pos.len() as int] == Event::<Hash>::Data(byte));
                    assert(e_all.take(e_next.len() as int)[e_pos.len() as int] == e_next[e_pos.len() as int]);
                    assert(events(h, p, src)[e_pos.len() as int] == e_all[e_pos.len() as int]);
                }
                Some(Event::Data(byte))
            },
            None => {
                self.halt = true;
                let state = *self.input.state();
                proof {
                    assert(events(h, p, src)[events_upto(h, p, src, pos).len() as int] == Event::Boundary(Boundary::<Hash>::Eof(state)));
                }
                Some(Event::Boundary(Boundary::Eof(state)))
            },
        }
    }
}

} // verus!

verus! {

/// A run of bytes, by its length alone (never zero), and the boundary that
/// closed it.
pub struct Extent<Hash: Hasher> {
    pub length: usize,
    pub boundary: Boundary<Hash>,
}

/// The boundary detector without the bytes: hands out the length of each run
/// and its boundary.
pub struct Distances<
    'a,
    Hash: Hasher,
    const THRESHOLD: u32,
    const MIN_SIZE: usize,
    const MAX_SIZE: usize,
> {
    counter: usize,
    halt: bool,
    pub input: Rolling<'a, Hash>,
}

impl<
    'a,
    Hash: Hasher,
    const THRESHOLD: u32,
    const MIN_SIZE: usize,
    const MAX_SIZE: usize,
> Distances<'a, Hash, THRESHOLD, MIN_SIZE, MAX_SIZE> {
    pub open spec fn policy() -> Policy {
        Policy { threshold: THRESHOLD, min_size: MIN_SIZE, max_size: MAX_SIZE }
    }

    pub closed spec fn spec_hasher(&self) -> Hash {
        self.input.spec_hasher()
    }

    pub closed spec fn spec_source(&self) -> Seq<u8> {
        self.input.spec_source()
    }

    /// Every extent this iterator hands out, in order.
    pub open spec fn spec_extents(&self) -> Seq<(nat, Boundary<Hash>)> {
        extents(self.spec_hasher(), Self::policy(), self.spec_source())
    }

    /// How many extents have been handed out.
    pub closed spec fn spec_yielded(&self) -> nat {
        if self.halt {
            self.spec_extents().len()
        } else {
            extents_upto(
                self.spec_hasher(),
                Self::policy(),
                self.spec_source(),
                self.input.spec_pos(),
            ).len()
        }
    }

    pub closed spec fn wf(&self) -> bool {
        &&& self.input.wf()
        &&& self.input.spec_fresh()
        &&& !self.halt ==> self.counter == run_at(
            self.spec_hasher(),
            Self::policy(),
            self.spec_source(),
            self.input.spec_pos(),
        )
        &&& self.halt ==> self.input.spec_pos() == self.spec_source().len() && self.counter == 0
    }

    pub fn start(hasher: Hash, source: &'a [u8]) -> (r: Self)
        requires
            MIN_SIZE <= MAX_SIZE,
        ensures
            r.wf(),
            r.spec_hasher() == hasher,
            r.spec_source() == source@,
            r.spec_yielded() == 0,
    {
        Distances { counter: 0, halt: false, input: Rolling::start(hasher, source) }
    }

    /// Ends the current run with `boundary`; nothing when the run is empty.
    fn yield_extent(&mut self, boundary: Boundary<Hash>) -> (r: Option<Extent<Hash>>)
        ensures
            final(self).counter == 0,
            final(self).halt == old(self).halt,
            final(self).input == old(self).input,
            old(self).counter == 0 ==> r is None,
            old(self).counter > 0 ==> r == Some(
                Extent { length: old(self).counter, boundary },
            ),
    {
        let length = self.counter;
        self.counter = 0;
        if length == 0 {
            None
        } else {
            Some(Extent { length, boundary })
        }
    }

    /// The next extent, or `None` once the input is exhausted.
    pub fn next(&mut self) -> (r: Option<Extent<Hash>>)
        requires
            old(self).wf(),
        ensures
            final(self).wf(),
            final(self).spec_hasher() == old(self).spec_hasher(),
            final(self).spec_source() == old(self).spec_source(),
            final(self).spec_yielded() <= final(self).spec_extents().len(),
            r is Some ==> r.unwrap().length > 0,
            old(self).spec_yielded() < old(self).spec_extents().len() ==> {
                &&& r is Some
                &&& r.unwrap().length == old(self).spec_extents()[old(self).spec_yielded() as int].0
                &&& r.unwrap().boundary == old(self).spec_extents()[old(self).spec_yielded() as int].1
                &&& final(self).spec_yielded() == old(self).spec_yielded() + 1
            },
            old(self).spec_yielded() >= old(self).spec_extents().len() ==> {
                &&& r is None
                &&& final(self).spec_yielded() == old(self).spec_yielded()
            },
    {
        let ghost h = self.spec_hasher();
        let ghost p = Self::policy();
        let ghost src = self.spec_source();
        let ghost start_pos = self.input.spec_pos();
        let ghost n = src.len();
        proof {
            lemma_extents_upto_prefix(h, p, src, start_pos, n);
        }
        if self.halt {
            return None;
        }
        loop
            invariant
                self.wf(),
                !self.halt,
                self.spec_hasher() == h,
                self.spec_source() == src,
                start_pos <= self.input.spec_pos() <= n,
                extents_upto(h, p, src, self.input.spec_pos()).len() == extents_upto(
                    h,
                    p,
                    src,
                    start_pos,
                ).len(),
                p == Self::policy(),
                n == src.len(),
                h == old(self).spec_hasher(),
                src == old(self).spec_source(),
                start_pos == old(self).input.spec_pos(),
                !old(self).halt,
            ensures
                self.wf(),
                !self.halt,
                self.spec_hasher() == h,
                self.spec_source() == src,
                self.input.spec_pos() == n,
                extents_upto(h, p, src, n).len() == extents_upto(h, p, src, start_pos).len(),
            decreases n - self.input.spec_pos(),
        {
            let ghost pos = self.input.spec_pos();
            match self.input.next() {
                Some(sum) => {
                    proof {
                        lemma_run_at_most(h, p, src, pos);
                        lemma_extents_upto_prefix(h, p, src, pos + 1, n);
                        lemma_fresh_rolling(h, src, pos + 1);
                    }
                    self.counter += 1;
                    let lev = sum.level();
                    if lev >= THRESHOLD && self.counter >= MIN_SIZE {
                        let boundary = Boundary::Level(lev, self.input.state);
                        proof {
                            let e = extents_upto(h, p, src, pos + 1);
                            assert(e.last() == ((run_at(h, p, src, pos) + 1) as nat, boundary));
                            assert(extents_upto(h, p, src, n).take(e.len() as int)[e.len() - 1] == e.last());
                        }
                        return self.yield_extent(boundary);
                    } else if self.counter == MAX_SIZE {
                        let boundary = Boundary::Capped(self.input.state);
                        proof {
                            let e = extents_upto(h, p, src, pos + 1);
                            assert(e.last() == ((run_at(h, p, src, pos) + 1) as nat, boundary));
                            assert(extents_upto(h, p, src, n).take(e.len() as int)[e.len() - 1] == e.last());
                        }
                        return self.yield_extent(boundary);
                    }
                },
                None => {
                    break ;
                },
            }
        }
        self.halt = true;
        proof {
            lemma_fresh_rolling(h, src, n);
        }
        let boundary = Boundary::Eof(self.input.state);
        self.yield_extent(boundary)
    }
}

/// Chunks of an input held in one slice, borrowed from it without copying.
pub struct Spans<'a, Hash: Hasher, const THRESHOLD: u32, const MIN_SIZE: usize, const MAX_SIZE: usize> {
    saved: &'a [u8],
    distances: Distances<'a, Hash, THRESHOLD, MIN_SIZE, MAX_SIZE>,
}

impl<
    'a,
    Hash: Hasher,
    const THRESHOLD: u32,
    const MIN_SIZE: usize,
    const MAX_SIZE: usize,
> Spans<'a, Hash, THRESHOLD, MIN_SIZE, MAX_SIZE> {
    pub open spec fn policy() -> Policy {
        Policy { threshold: THRESHOLD, min_size: MIN_SIZE, max_size: MAX_SIZE }
    }

    pub closed spec fn spec_hasher(&self) -> Hash {
        self.distances.spec_hasher()
    }

    pub closed spec fn spec_source(&self) -> Seq<u8> {
        self.distances.spec_source()
    }

    /// Every chunk this iterator hands out, in order.
    pub open spec fn spec_chunks(&self) -> Seq<(Seq<u8>, Hash::State)> {
        chunks(self.spec_hasher(), Self::policy(), self.spec_source())
    }

    /// How many chunks have been handed out.
    pub closed spec fn spec_yielded(&self) -> nat {
        self.distances.spec_yielded()
    }

    pub closed spec fn wf(&self) -> bool {
        let ext = self.distances.spec_extents();
        let src = self.spec_source();
        &&& self.distances.wf()
        &&& self.distances.spec_yielded() <= ext.len()
        &&& self.saved@ == src.subrange(
            total_length(ext.take(self.distances.spec_yielded() as int)) as int,
            src.len() as int,
        )
    }

    pub fn start(hasher: Hash, data: &'a [u8]) -> (r: Self)
        requires
            MIN_SIZE <= MAX_SIZE,
        ensures
            r.wf(),
            r.spec_hasher() == hasher,
            r.spec_source() == data@,
            r.spec_yielded() == 0,
    {
        let distances = Distances::start(hasher, data);
        proof {
            assert(distances.spec_extents().take(0) =~= Seq::<(nat, Boundary<Hash>)>::empty());
            assert(data@.subrange(0, data@.len() as int) =~= data@);
        }
        Spans { saved: data, distances }
    }

    /// The next chunk, borrowed from the input, or `None` after the last.
    pub fn next(&mut self) -> (r: Option<ResumableChunk<'a, Hash>>)
        requires
            old(self).wf(),
        ensures
            final(self).wf(),
            final(self).spec_hasher() == old(self).spec_hasher(),
            final(self).spec_source() == old(self).spec_source(),
            r is Some ==> r.unwrap().spec_bytes().len() > 0,
            old(self).spec_yielded() < old(self).spec_chunks().len() ==> {
                &&& r is Some
                &&& r.unwrap().spec_bytes() == old(self).spec_chunks()[old(self).spec_yielded() as int].0
                &&& r.unwrap().spec_data() is Borrowed
                &&& r.unwrap().spec_state() == old(self).spec_chunks()[old(self).spec_yielded() as int].1
                &&& final(self).spec_yielded() == old(self).spec_yielded() + 1
            },
            old(self).spec_yielded() >= old(self).spec_chunks().len() ==> {
                &&& r is None
                &&& final(self).spec_yielded() == old(self).spec_yielded()
            },
    {
        let ghost ext = self.distances.spec_extents();
        let ghost k = self.distances.spec_yielded() as int;
        let ghost src = self.spec_source();
        match self.distances.next() {
            Some(extent) => {
                proof {
                    lemma_total_length_take(ext, k);
                    lemma_extents_total(self.spec_hasher(), Self::policy(), src);
                }
                let Extent { length, boundary } = extent;
                let (head, tail) = self.saved.split_at(length);
                self.saved = tail;
                proof {
                    assert(head@ =~= src.subrange(
                        total_length(ext.take(k)) as int,
                        total_length(ext.take(k + 1)) as int,
                    ));
                    assert(tail@ =~= src.subrange(total_length(ext.take(k + 1)) as int, src.len() as int));
                }
                Some(ResumableChunk::new(ChunkData::Borrowed(head), boundary.into_state()))
            },
            None => None,
        }
    }
}

} // verus!

verus! {

/// Owned chunks: the bytes of each run copied out of the event stream, with
/// the state at the run's end.
pub struct Splits<'a, Hash: Hasher, const THRESHOLD: u32, const MIN_SIZE: usize, const MAX_SIZE: usize> {
    reserve: usize,
    preparing: Option<Vec<u8>>,
    pub source: Delimited<'a, Hash, THRESHOLD, MIN_SIZE, MAX_SIZE>,
    origin: Ghost<nat>,
}

impl<
    'a,
    Hash: Hasher,
    const THRESHOLD: u32,
    const MIN_SIZE: usize,
    const MAX_SIZE: usize,
> Delimited<'a, Hash, THRESHOLD, MIN_SIZE, MAX_SIZE> {
    /// Chunks made from the rest of this detector's events: one for each run
    /// of bytes still to come, holding those bytes, with the state of the
    /// boundary that ends it. A run already partly handed out gives only its
    /// remaining bytes; a staged boundary with no bytes left before it gives
    /// nothing. Each buffer is sized at first for twice the minimum chunk
    /// size, or for the longest possible chunk if that is less.
    pub fn splits(self) -> (r: Splits<'a, Hash, THRESHOLD, MIN_SIZE, MAX_SIZE>)
        requires
            self.wf(),
        ensures
            r.wf(),
            r.spec_hasher() == self.spec_hasher(),
            r.spec_source() == self.spec_source(),
            r.spec_origin() == self.spec_pos(),
            r.spec_yielded() == if self.spec_halted() || self.spec_pos() == self.spec_source().len() {
                extents(self.spec_hasher(), Self::policy(), self.spec_source()).len()
            } else {
                extents_upto(
                    self.spec_hasher(),
                    Self::policy(),
                    self.spec_source(),
                    self.spec_pos(),
                ).len()
            },
            self.spec_yielded() == 0 ==> r.spec_yielded() == 0 && r.spec_chunks() == chunks(
                self.spec_hasher(),
                Self::policy(),
                self.spec_source(),
            ),
    {
        let ghost h = self.spec_hasher();
        let ghost src = self.spec_source();
        let ghost pos = self.spec_pos();
        let ghost fresh = self.spec_yielded() == 0;
        proof {
            if pos > 0 {
                lemma_events_upto_len(h, Self::policy(), src, pos);
            }
            lemma_run_at_most(h, Self::policy(), src, pos);
            lemma_chunks_from_start(h, Self::policy(), src);
        }
        // No chunk is longer than the maximum size or the input, so no buffer
        // needs more room than either.
        let wanted = if MIN_SIZE <= usize::MAX / 2 {
            2 * MIN_SIZE
        } else {
            usize::MAX
        };
        let longest = if MAX_SIZE < self.input.0.source.len() {
            MAX_SIZE
        } else {
            self.input.0.source.len()
        };
        let reserve = if wanted < longest {
            wanted
        } else {
            longest
        };
        let mut source = self;
        // A staged boundary has no bytes left to go with it.
        if source.prepared.is_some() {
            source.next();
        }
        // Nor has the end of input, once every byte has been handed out.
        if !source.halt && source.input.0.pos == source.input.0.source.len() {
            source.next();
        }
        Splits { reserve, preparing: None, source, origin: Ghost(pos) }
    }
}

impl<
    'a,
    Hash: Hasher,
    const THRESHOLD: u32,
    const MIN_SIZE: usize,
    const MAX_SIZE: usize,
> Splits<'a, Hash, THRESHOLD, MIN_SIZE, MAX_SIZE> {
    pub open spec fn policy() -> Policy {
        Policy { threshold: THRESHOLD, min_size: MIN_SIZE, max_size: MAX_SIZE }
    }

    pub closed spec fn spec_hasher(&self) -> Hash {
        self.source.spec_hasher()
    }

    pub closed spec fn spec_source(&self) -> Seq<u8> {
        self.source.spec_source()
    }

    /// Where in the input this iterator began.
    pub closed spec fn spec_origin(&self) -> nat {
        self.origin@
    }

    /// The chunks of the input as seen from where this iterator began; it
    /// hands out those from `spec_yielded()` on, in order.
    pub open spec fn spec_chunks(&self) -> Seq<(Seq<u8>, Hash::State)> {
        chunks_from(self.spec_hasher(), Self::policy(), self.spec_source(), self.spec_origin() as int)
    }

    /// Where the buffered bytes begin.
    pub closed spec fn spec_buffer_start(&self) -> int {
        clip(self.origin@ as int, self.source.spec_pos() - self.spec_pending_len())
    }

    /// Length of the run whose bytes are buffered.
    pub closed spec fn spec_pending_len(&self) -> nat {
        let h = self.spec_hasher();
        let pos = self.source.spec_pos();
        if self.source.spec_pending() {
            extents_upto(h, Self::policy(), self.spec_source(), pos).last().0
        } else {
            run_at(h, Self::policy(), self.spec_source(), pos)
        }
    }

    /// How many chunks have been handed out.
    pub closed spec fn spec_yielded(&self) -> nat {
        let n = extents_upto(
            self.spec_hasher(),
            Self::policy(),
            self.spec_source(),
            self.source.spec_pos(),
        ).len();
        if self.source.spec_halted() {
            extents(self.spec_hasher(), Self::policy(), self.spec_source()).len()
        } else if self.source.spec_pending() {
            (n - 1) as nat
        } else {
            n
        }
    }

    pub closed spec fn wf(&self) -> bool {
        let h = self.spec_hasher();
        let src = self.spec_source();
        let pos = self.source.spec_pos();
        &&& self.source.wf()
        &&& self.source.spec_halted() ==> self.preparing is None
        &&& !self.source.spec_halted() ==> {
            &&& self.spec_pending_len() <= pos
            &&& self.origin@ <= pos
            &&& self.origin@ < src.len()
            &&& self.source.spec_pending() ==> self.origin@ < pos
            &&& self.source.spec_pending() ==> extents_upto(h, Self::policy(), src, pos).len() > 0
            &&& (self.preparing is Some <==> self.spec_buffer_start() < pos)
            &&& self.preparing is Some ==> self.preparing.unwrap()@ == src.subrange(
                self.spec_buffer_start(),
                pos as int,
            )
        }
    }

    /// The next chunk, copied into a buffer of its own, or `None` after the
    /// last.
    pub fn next(&mut self) -> (r: Option<ResumableChunk<'static, Hash>>)
        requires
            old(self).wf(),
        ensures
            final(self).wf(),
            final(self).spec_hasher() == old(self).spec_hasher(),
            final(self).spec_source() == old(self).spec_source(),
            final(self).spec_origin() == old(self).spec_origin(),
            final(self).spec_chunks() == old(self).spec_chunks(),
            r is Some ==> r.unwrap().spec_bytes().len() > 0,
            old(self).spec_yielded() < old(self).spec_chunks().len() ==> {
                &&& r is Some
                &&& r.unwrap().spec_bytes() == old(self).spec_chunks()[old(self).spec_yielded() as int].0
                &&& r.unwrap().spec_data() is Owned
                &&& r.unwrap().spec_state() == old(self).spec_chunks()[old(self).spec_yielded() as int].1
                &&& final(self).spec_yielded() == old(self).spec_yielded() + 1
            },
            old(self).spec_yielded() >= old(self).spec_chunks().len() ==> {
                &&& r is None
                &&& final(self).spec_yielded() == old(self).spec_yielded()
            },
    {
        let ghost h = self.spec_hasher();
        let ghost p = Self::policy();
        let ghost src = self.spec_source();
        let ghost n = src.len();
        let ghost start = self.spec_yielded();
        loop
            invariant
                self.wf(),
                self.spec_hasher() == h,
                self.spec_source() == src,
                p == Self::policy(),
                n == src.len(),
                self.spec_yielded() == start,
                h == old(self).spec_hasher(),
                src == old(self).spec_source(),
                start == old(self).spec_yielded(),
                self.origin == old(self).origin,
            decreases self.source.spec_events().len() - self.source.spec_yielded(),
        {
            let ghost pos = self.source.spec_pos();
            let ghost pending = self.source.spec_pending();
            let ghost halted = self.source.spec_halted();
            let ghost run = run_at(h, p, src, pos);
            proof {
                lemma_events_upto_prefix(h, p, src, pos, n);
                lemma_extents_upto_prefix(h, p, src, pos, n);
                lemma_extents_cover(h, p, src, pos);
                lemma_run_at_most(h, p, src, pos);
                if pending {
                    lemma_closed_extent(h, p, src, pos);
                }
                if run > 0 && pos == n {
                    lemma_final_extent(h, p, src);
                }
            }
            match self.source.next() {
                Some(Event::Data(byte)) => {
                    let mut buffer = match self.preparing.take() {
                        Some(v) => v,
                        None => Vec::with_capacity(self.reserve),
                    };
                    buffer.push(byte);
                    self.preparing = Some(buffer);
                    proof {
                        assert(self.preparing.unwrap()@ =~= src.subrange(
                            self.spec_buffer_start(),
                            pos as int + 1,
                        ));
                    }
                },
                Some(Event::Boundary(bd)) => {
                    let prep = self.preparing.take();
                    return match prep {
                        Some(v) => Some(ResumableChunk::new(ChunkData::Owned(v), bd.into_state())),
                        None => None,
                    };
                },
                None => {
                    return None;
                },
            }
        }
    }
}

} // verus!
