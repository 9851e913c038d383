//! What chunking computes, stated over the whole input: the rolling state and
//! checksum at each position, the boundary policy's decisions, and from them
//! the event sequence, the extents and the chunks.
use crate::iter::{Boundary, Event};
use crate::{Hasher, Leveled, WINDOW_SIZE};
use vstd::prelude::*;

verus! {

/// The boundary policy: a boundary needs a checksum level of at least
/// `threshold` and a run of at least `min_size` bytes; a run that reaches
/// `max_size` bytes is capped.
#[derive(Clone, Copy, Debug, PartialEq, Eq, Structural)]
pub struct Policy {
    pub threshold: u32,
    pub min_size: usize,
    pub max_size: usize,
}

/// The byte that leaves the window as `bytes[i]` enters it: the one
/// `WINDOW_SIZE` positions back, or zero while the window fills.
pub open spec fn evicted(bytes: Seq<u8>, i: int) -> u8 {
    if i >= WINDOW_SIZE {
        bytes[i - WINDOW_SIZE]
    } else {
        0
    }
}

/// The hash state after rolling over the first `n` bytes.
pub open spec fn state_at<H: Hasher>(h: H, bytes: Seq<u8>, n: nat) -> H::State
    decreases n,
{
    if n == 0 {
        H::spec_initial_state()
    } else {
        h.step(state_at(h, bytes, (n - 1) as nat), evicted(bytes, n - 1), bytes[n - 1]).1
    }
}

/// The checksum computed as `bytes[i]` enters the window.
pub open spec fn checksum_at<H: Hasher>(h: H, bytes: Seq<u8>, i: nat) -> H::Checksum {
    h.step(state_at(h, bytes, i), evicted(bytes, i as int), bytes[i as int]).0
}

/// The byte that leaves the window as `bytes[i]` enters it, when rolling
/// resumed with `window` as the bytes before `bytes`.
pub open spec fn evicted_after(window: Seq<u8>, bytes: Seq<u8>, i: int) -> u8 {
    if i >= WINDOW_SIZE {
        bytes[i - WINDOW_SIZE]
    } else {
        window[i]
    }
}

/// The hash state after rolling over the first `n` bytes, starting from
/// `start` with `window` as the bytes before them.
pub open spec fn state_after<H: Hasher>(
    h: H,
    start: H::State,
    window: Seq<u8>,
    bytes: Seq<u8>,
    n: nat,
) -> H::State
    decreases n,
{
    if n == 0 {
        start
    } else {
        h.step(
            state_after(h, start, window, bytes, (n - 1) as nat),
            evicted_after(window, bytes, n - 1),
            bytes[n - 1],
        ).1
    }
}

/// The checksum computed as `bytes[i]` enters the window, when rolling
/// resumed from `start` with `window` before `bytes`.
pub open spec fn checksum_after<H: Hasher>(
    h: H,
    start: H::State,
    window: Seq<u8>,
    bytes: Seq<u8>,
    i: nat,
) -> H::Checksum {
    h.step(
        state_after(h, start, window, bytes, i),
        evicted_after(window, bytes, i as int),
        bytes[i as int],
    ).0
}

/// The `WINDOW_SIZE` bytes before position `n` of `bytes`, oldest first, with
/// zeros before the start.
pub open spec fn window_before(bytes: Seq<u8>, n: int) -> Seq<u8> {
    Seq::new(WINDOW_SIZE as nat, |j: int| evicted(bytes, n + j))
}

/// The window before any input: all zeros.
pub open spec fn empty_window() -> Seq<u8> {
    Seq::new(WINDOW_SIZE as nat, |j: int| 0u8)
}

/// The policy's decision on a byte whose checksum has `level` and which makes
/// the current run `run` bytes long: `Some(Some(level))` for a boundary at that
/// level, `Some(None)` for a capped run, `None` for no boundary.
pub open spec fn decide(p: Policy, level: u32, run: nat) -> Option<Option<u32>> {
    if level >= p.threshold && run >= p.min_size {
        Some(Some(level))
    } else if run == p.max_size {
        Some(None)
    } else {
        None
    }
}

/// The policy's decision on byte `i`.
pub open spec fn decision_at<H: Hasher>(h: H, p: Policy, bytes: Seq<u8>, i: nat) -> Option<
    Option<u32>,
>
    decreases i, 1nat,
{
    decide(p, checksum_at(h, bytes, i).spec_level(), run_at(h, p, bytes, i) + 1)
}

/// The length of the run in progress after the first `n` bytes.
pub open spec fn run_at<H: Hasher>(h: H, p: Policy, bytes: Seq<u8>, n: nat) -> nat
    decreases n, 0nat,
{
    if n == 0 {
        0
    } else if decision_at(h, p, bytes, (n - 1) as nat) is Some {
        0
    } else {
        run_at(h, p, bytes, (n - 1) as nat) + 1
    }
}

/// The boundary that byte `i` closes, if any, with the state after it.
pub open spec fn boundary_at<H: Hasher>(h: H, p: Policy, bytes: Seq<u8>, i: nat) -> Option<
    Boundary<H>,
> {
    match decision_at(h, p, bytes, i) {
        Some(Some(level)) => Some(Boundary::Level(level, state_at(h, bytes, i + 1))),
        Some(None) => Some(Boundary::Capped(state_at(h, bytes, i + 1))),
        None => None,
    }
}

/// The events for the first `n` bytes: each byte, followed by the boundary it
/// closes, if any.
pub open spec fn events_upto<H: Hasher>(h: H, p: Policy, bytes: Seq<u8>, n: nat) -> Seq<Event<H>>
    decreases n,
{
    if n == 0 {
        Seq::empty()
    } else {
        let with_byte = events_upto(h, p, bytes, (n - 1) as nat).push(Event::Data(bytes[n - 1]));
        match boundary_at(h, p, bytes, (n - 1) as nat) {
            Some(b) => with_byte.push(Event::Boundary(b)),
            None => with_byte,
        }
    }
}

/// The whole event sequence for `bytes`, closed by the end-of-input boundary.
pub open spec fn events<H: Hasher>(h: H, p: Policy, bytes: Seq<u8>) -> Seq<Event<H>> {
    events_upto(h, p, bytes, bytes.len()).push(
        Event::Boundary(Boundary::Eof(state_at(h, bytes, bytes.len()))),
    )
}

/// The runs closed by a boundary within the first `n` bytes: each run's length
/// and the boundary that closed it.
pub open spec fn extents_upto<H: Hasher>(h: H, p: Policy, bytes: Seq<u8>, n: nat) -> Seq<
    (nat, Boundary<H>),
>
    decreases n,
{
    if n == 0 {
        Seq::empty()
    } else {
        let before = extents_upto(h, p, bytes, (n - 1) as nat);
        match boundary_at(h, p, bytes, (n - 1) as nat) {
            Some(b) => before.push(((run_at(h, p, bytes, (n - 1) as nat) + 1) as nat, b)),
            None => before,
        }
    }
}

/// All runs of `bytes` with their boundaries: the closed ones, then the run
/// left at the end of input, if it is not empty.
pub open spec fn extents<H: Hasher>(h: H, p: Policy, bytes: Seq<u8>) -> Seq<(nat, Boundary<H>)> {
    let n = bytes.len();
    if run_at(h, p, bytes, n) > 0 {
        extents_upto(h, p, bytes, n).push(
            (run_at(h, p, bytes, n), Boundary::Eof(state_at(h, bytes, n))),
        )
    } else {
        extents_upto(h, p, bytes, n)
    }
}

/// The sum of the lengths of `ext`.
pub open spec fn total_length<H: Hasher>(ext: Seq<(nat, Boundary<H>)>) -> nat
    decreases ext.len(),
{
    if ext.len() == 0 {
        0
    } else {
        total_length(ext.drop_last()) + ext.last().0
    }
}

/// The chunks of `bytes`: the bytes of each extent, in order, with the state at
/// its end.
pub open spec fn chunks<H: Hasher>(h: H, p: Policy, bytes: Seq<u8>) -> Seq<(Seq<u8>, H::State)> {
    let ext = extents(h, p, bytes);
    Seq::new(
        ext.len(),
        |k: int|
            (
                bytes.subrange(
                    total_length(ext.take(k)) as int,
                    total_length(ext.take(k + 1)) as int,
                ),
                ext[k].1.spec_state(),
            ),
    )
}

/// `x`, or `origin` if `x` is smaller.
pub open spec fn clip(origin: int, x: int) -> int {
    if x < origin {
        origin
    } else {
        x
    }
}

/// The chunks of `bytes` as seen from position `origin` on: each chunk keeps
/// only its bytes at or after `origin`, so chunks that end by `origin` are
/// empty and the one running across it is cut short.
pub open spec fn chunks_from<H: Hasher>(h: H, p: Policy, bytes: Seq<u8>, origin: int) -> Seq<
    (Seq<u8>, H::State),
> {
    let ext = extents(h, p, bytes);
    Seq::new(
        ext.len(),
        |k: int|
            (
                bytes.subrange(
                    clip(origin, total_length(ext.take(k)) as int),
                    clip(origin, total_length(ext.take(k + 1)) as int),
                ),
                ext[k].1.spec_state(),
            ),
    )
}

/// From the start, the chunks are all there.
pub proof fn lemma_chunks_from_start<H: Hasher>(h: H, p: Policy, bytes: Seq<u8>)
    ensures
        chunks_from(h, p, bytes, 0) == chunks(h, p, bytes),
{
    assert(chunks_from(h, p, bytes, 0) =~= chunks(h, p, bytes));
}

/// The concatenation of the byte sequences of `chunks`.
pub open spec fn concat_chunks<S>(chunks: Seq<(Seq<u8>, S)>) -> Seq<u8>
    decreases chunks.len(),
{
    if chunks.len() == 0 {
        Seq::empty()
    } else {
        concat_chunks(chunks.drop_last()) + chunks.last().0
    }
}

/// A run is never longer than the bytes before it.
pub proof fn lemma_run_at_most<H: Hasher>(h: H, p: Policy, bytes: Seq<u8>, n: nat)
    ensures
        run_at(h, p, bytes, n) <= n,
    decreases n,
{
    if n > 0 {
        lemma_run_at_most(h, p, bytes, (n - 1) as nat);
    }
}

/// The events of a shorter prefix begin the events of a longer one.
pub proof fn lemma_events_upto_prefix<H: Hasher>(h: H, p: Policy, bytes: Seq<u8>, n: nat, m: nat)
    requires
        n <= m,
    ensures
        events_upto(h, p, bytes, n).len() <= events_upto(h, p, bytes, m).len(),
        events_upto(h, p, bytes, m).take(events_upto(h, p, bytes, n).len() as int)
            == events_upto(h, p, bytes, n),
    decreases m,
{
    if n < m {
        lemma_events_upto_prefix(h, p, bytes, n, (m - 1) as nat);
        assert(events_upto(h, p, bytes, m).take(events_upto(h, p, bytes, n).len() as int)
            =~= events_upto(h, p, bytes, n));
    } else {
        assert(events_upto(h, p, bytes, m).take(events_upto(h, p, bytes, n).len() as int)
            =~= events_upto(h, p, bytes, n));
    }
}

/// The extents closed within a shorter prefix begin those of a longer one.
pub proof fn lemma_extents_upto_prefix<H: Hasher>(h: H, p: Policy, bytes: Seq<u8>, n: nat, m: nat)
    requires
        n <= m,
    ensures
        extents_upto(h, p, bytes, n).len() <= extents_upto(h, p, bytes, m).len(),
        extents_upto(h, p, bytes, m).take(extents_upto(h, p, bytes, n).len() as int)
            == extents_upto(h, p, bytes, n),
    decreases m,
{
    if n < m {
        lemma_extents_upto_prefix(h, p, bytes, n, (m - 1) as nat);
        assert(extents_upto(h, p, bytes, m).take(extents_upto(h, p, bytes, n).len() as int)
            =~= extents_upto(h, p, bytes, n));
    } else {
        assert(extents_upto(h, p, bytes, m).take(extents_upto(h, p, bytes, n).len() as int)
            =~= extents_upto(h, p, bytes, n));
    }
}

/// The closed extents and the run in progress together cover the prefix.
pub proof fn lemma_extents_cover<H: Hasher>(h: H, p: Policy, bytes: Seq<u8>, n: nat)
    ensures
        total_length(extents_upto(h, p, bytes, n)) + run_at(h, p, bytes, n) == n,
    decreases n,
{
    if n > 0 {
        lemma_extents_cover(h, p, bytes, (n - 1) as nat);
        let ext = extents_upto(h, p, bytes, n);
        if boundary_at(h, p, bytes, (n - 1) as nat) is Some {
            assert(ext.drop_last() =~= extents_upto(h, p, bytes, (n - 1) as nat));
        }
    }
}

/// The total of a prefix of the extents grows by the next extent's length
/// and never passes the total of all of them.
pub proof fn lemma_total_length_take<H: Hasher>(ext: Seq<(nat, Boundary<H>)>, k: int)
    requires
        0 <= k < ext.len(),
    ensures
        total_length(ext.take(k + 1)) == total_length(ext.take(k)) + ext[k].0,
        total_length(ext.take(k + 1)) <= total_length(ext),
    decreases ext.len() - k,
{
    assert(ext.take(k + 1).drop_last() =~= ext.take(k));
    if k + 1 < ext.len() {
        lemma_total_length_take(ext, k + 1);
    } else {
        assert(ext.take(k + 1) =~= ext);
    }
}

/// The extents cover the whole input.
pub proof fn lemma_extents_total<H: Hasher>(h: H, p: Policy, bytes: Seq<u8>)
    ensures
        total_length(extents(h, p, bytes)) == bytes.len(),
{
    lemma_extents_cover(h, p, bytes, bytes.len());
    let ext = extents(h, p, bytes);
    if run_at(h, p, bytes, bytes.len()) > 0 {
        assert(ext.drop_last() =~= extents_upto(h, p, bytes, bytes.len()));
    }
}

/// Every byte of a prefix contributes an event.
pub proof fn lemma_events_upto_len<H: Hasher>(h: H, p: Policy, bytes: Seq<u8>, n: nat)
    ensures
        events_upto(h, p, bytes, n).len() >= n,
        n > 0 && boundary_at(h, p, bytes, (n - 1) as nat) is Some ==> events_upto(
            h,
            p,
            bytes,
            n,
        ).len() >= n + 1,
    decreases n,
{
    if n > 0 {
        lemma_events_upto_len(h, p, bytes, (n - 1) as nat);
    }
}

/// When byte `n - 1` closes a run, that run is the last closed extent of the
/// prefix, ends exactly at `n`, and stands at the same place among all extents.
pub proof fn lemma_closed_extent<H: Hasher>(h: H, p: Policy, bytes: Seq<u8>, n: nat)
    requires
        0 < n <= bytes.len(),
        boundary_at(h, p, bytes, (n - 1) as nat) is Some,
    ensures
        ({
            let e = extents_upto(h, p, bytes, n);
            let all = extents(h, p, bytes);
            &&& e.len() > 0
            &&& e.last() == ((run_at(h, p, bytes, (n - 1) as nat) + 1) as nat, boundary_at(
                h,
                p,
                bytes,
                (n - 1) as nat,
            ).unwrap())
            &&& run_at(h, p, bytes, n) == 0
            &&& total_length(e) == n
            &&& total_length(e.drop_last()) == n - e.last().0
            &&& e.len() <= all.len()
            &&& all.take(e.len() as int) == e
            &&& all.take(e.len() - 1) == e.drop_last()
            &&& all[e.len() - 1] == e.last()
        }),
{
    let e = extents_upto(h, p, bytes, n);
    let all = extents(h, p, bytes);
    let closed = extents_upto(h, p, bytes, bytes.len());
    lemma_extents_cover(h, p, bytes, n);
    lemma_extents_upto_prefix(h, p, bytes, n, bytes.len());
    assert(all.take(closed.len() as int) =~= closed);
    assert(all.take(e.len() as int) =~= e);
    assert(all.take(e.len() - 1) =~= e.drop_last());
    assert(all[e.len() - 1] == all.take(e.len() as int)[e.len() - 1]);
}

/// The run left at the end of input, when not empty, is the last extent.
pub proof fn lemma_final_extent<H: Hasher>(h: H, p: Policy, bytes: Seq<u8>)
    requires
        run_at(h, p, bytes, bytes.len()) > 0,
    ensures
        ({
            let closed = extents_upto(h, p, bytes, bytes.len());
            let all = extents(h, p, bytes);
            let run = run_at(h, p, bytes, bytes.len());
            &&& all.len() == closed.len() + 1
            &&& all[closed.len() as int] == (run, Boundary::<H>::Eof(state_at(h, bytes, bytes.len())))
            &&& all.take(closed.len() as int) == closed
            &&& all.take(closed.len() as int + 1) == all
            &&& total_length(closed) == bytes.len() - run
        }),
{
    let closed = extents_upto(h, p, bytes, bytes.len());
    let all = extents(h, p, bytes);
    lemma_extents_cover(h, p, bytes, bytes.len());
    assert(all.take(closed.len() as int) =~= closed);
    assert(all.take(closed.len() as int + 1) =~= all);
}

/// Rolling from the start is rolling resumed from the initial state with an
/// all-zero window.
pub proof fn lemma_fresh_rolling<H: Hasher>(h: H, bytes: Seq<u8>, n: nat)
    ensures
        state_after(h, H::spec_initial_state(), empty_window(), bytes, n) == state_at(h, bytes, n),
        n < bytes.len() ==> checksum_after(h, H::spec_initial_state(), empty_window(), bytes, n)
            == checksum_at(h, bytes, n),
    decreases n,
{
    if n > 0 {
        lemma_fresh_rolling(h, bytes, (n - 1) as nat);
    }
    assert(evicted_after(empty_window(), bytes, n as int) == evicted(bytes, n as int));
    if n > 0 {
        assert(evicted_after(empty_window(), bytes, n - 1) == evicted(bytes, n - 1));
    }
}

} // verus!
