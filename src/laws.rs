//! Properties of chunking that hold for every algorithm, policy and input.
use crate::iter::{Boundary, Event};
use crate::model::{
    boundary_at, checksum_after, checksum_at, chunks, concat_chunks, decide, decision_at, events,
    events_upto, evicted, evicted_after, extents, extents_upto, lemma_extents_total,
    lemma_total_length_take, run_at, state_after, state_at, total_length, window_before, Policy,
};
use crate::algorithms::bozo32::{lemma_checksum_window_local, lemma_state_is_window_value, Bozo32};
use crate::{Hasher, Leveled, WINDOW_SIZE};
use vstd::arithmetic::div_mod::{lemma_fundamental_div_mod, lemma_fundamental_div_mod_converse};
use vstd::prelude::*;

verus! {

/// A policy whose maximum is at least its minimum and at least one byte.
pub open spec fn sound_policy(p: Policy) -> bool {
    &&& p.min_size <= p.max_size
    &&& p.max_size >= 1
}

/// Under a sound policy the run in progress is always shorter than the maximum.
pub proof fn lemma_run_below_max<H: Hasher>(h: H, p: Policy, bytes: Seq<u8>, n: nat)
    requires
        sound_policy(p),
    ensures
        run_at(h, p, bytes, n) < p.max_size,
    decreases n,
{
    if n > 0 {
        lemma_run_below_max(h, p, bytes, (n - 1) as nat);
        let run = run_at(h, p, bytes, (n - 1) as nat) + 1;
        assert(decision_at(h, p, bytes, (n - 1) as nat) == decide(
            p,
            checksum_at(h, bytes, (n - 1) as nat).spec_level(),
            run,
        ));
    }
}

/// Every run closed by a boundary within the first `n` bytes is between the
/// minimum and the maximum size.
pub proof fn lemma_closed_extents_bounded<H: Hasher>(h: H, p: Policy, bytes: Seq<u8>, n: nat)
    requires
        sound_policy(p),
    ensures
        forall|k: int|
            0 <= k < extents_upto(h, p, bytes, n).len() ==> p.min_size <= #[trigger] extents_upto(
                h,
                p,
                bytes,
                n,
            )[k].0 <= p.max_size,
    decreases n,
{
    if n > 0 {
        lemma_closed_extents_bounded(h, p, bytes, (n - 1) as nat);
        lemma_run_below_max(h, p, bytes, (n - 1) as nat);
        let run = run_at(h, p, bytes, (n - 1) as nat) + 1;
        assert(decision_at(h, p, bytes, (n - 1) as nat) == decide(
            p,
            checksum_at(h, bytes, (n - 1) as nat).spec_level(),
            run,
        ));
        let prev = extents_upto(h, p, bytes, (n - 1) as nat);
        let cur = extents_upto(h, p, bytes, n);
        assert forall|k: int| 0 <= k < cur.len() implies p.min_size <= (#[trigger] cur[k]).0
            <= p.max_size by {
            if k < prev.len() {
                assert(cur[k] == prev[k]);
            }
        }
    }
}

/// Chunk lengths: under a sound policy every chunk but the last is between the
/// minimum and the maximum size, and the last is not longer than the maximum.
pub proof fn lemma_chunk_lengths<H: Hasher>(h: H, p: Policy, bytes: Seq<u8>)
    requires
        sound_policy(p),
    ensures
        forall|k: int|
            0 <= k < chunks(h, p, bytes).len() - 1 ==> p.min_size <= (#[trigger] chunks(
                h,
                p,
                bytes,
            )[k]).0.len() <= p.max_size,
        chunks(h, p, bytes).len() > 0 ==> chunks(h, p, bytes).last().0.len() <= p.max_size,
{
    let ext = extents(h, p, bytes);
    let closed = extents_upto(h, p, bytes, bytes.len());
    lemma_closed_extents_bounded(h, p, bytes, bytes.len());
    lemma_run_below_max(h, p, bytes, bytes.len());
    lemma_chunk_lengths_are_extents(h, p, bytes);
    assert forall|k: int| 0 <= k < ext.len() - 1 implies p.min_size <= (#[trigger] ext[k]).0 <= p.max_size by {
        assert(ext[k] == closed[k]);
    }
    if ext.len() > 0 {
        let k = ext.len() - 1;
        if k < closed.len() {
            assert(ext[k] == closed[k]);
        }
    }
}

/// Each chunk is as long as its extent.
pub proof fn lemma_chunk_lengths_are_extents<H: Hasher>(h: H, p: Policy, bytes: Seq<u8>)
    ensures
        chunks(h, p, bytes).len() == extents(h, p, bytes).len(),
        forall|k: int|
            0 <= k < chunks(h, p, bytes).len() ==> (#[trigger] chunks(h, p, bytes)[k]).0.len()
                == extents(h, p, bytes)[k].0,
{
    let ext = extents(h, p, bytes);
    lemma_extents_total(h, p, bytes);
    assert forall|k: int| 0 <= k < ext.len() implies (#[trigger] chunks(h, p, bytes)[k]).0.len()
        == ext[k].0 by {
        lemma_total_length_take(ext, k);
    }
}

/// Concatenating the chunks in order gives back the input.
pub proof fn lemma_chunks_concat<H: Hasher>(h: H, p: Policy, bytes: Seq<u8>)
    ensures
        concat_chunks(chunks(h, p, bytes)) == bytes,
{
    let ext = extents(h, p, bytes);
    let c = chunks(h, p, bytes);
    lemma_extents_total(h, p, bytes);
    assert forall|k: int| 0 <= k <= c.len() implies concat_chunks(#[trigger] c.take(k))
        == bytes.subrange(0, total_length(ext.take(k)) as int) by {
        lemma_concat_prefix(h, p, bytes, k);
    }
    assert(c.take(c.len() as int) =~= c);
    assert(ext.take(ext.len() as int) =~= ext);
    assert(bytes.subrange(0, bytes.len() as int) =~= bytes);
}

proof fn lemma_concat_prefix<H: Hasher>(h: H, p: Policy, bytes: Seq<u8>, k: int)
    requires
        0 <= k <= chunks(h, p, bytes).len(),
    ensures
        concat_chunks(chunks(h, p, bytes).take(k)) == bytes.subrange(
            0,
            total_length(extents(h, p, bytes).take(k)) as int,
        ),
    decreases k,
{
    let ext = extents(h, p, bytes);
    let c = chunks(h, p, bytes);
    lemma_extents_total(h, p, bytes);
    if k == 0 {
        assert(c.take(0) =~= Seq::<(Seq<u8>, H::State)>::empty());
        assert(ext.take(0) =~= Seq::<(nat, Boundary<H>)>::empty());
        assert(bytes.subrange(0, 0) =~= Seq::<u8>::empty());
    } else {
        lemma_concat_prefix(h, p, bytes, k - 1);
        lemma_total_length_take(ext, k - 1);
        assert(c.take(k).drop_last() =~= c.take(k - 1));
        assert(bytes.subrange(0, total_length(ext.take(k)) as int) =~= bytes.subrange(
            0,
            total_length(ext.take(k - 1)) as int,
        ) + c[k - 1].0);
    }
}

/// Inputs that agree on their first `n` bytes agree on the state and checksum
/// at every position within them.
pub proof fn lemma_prefix_rolling<H: Hasher>(h: H, a: Seq<u8>, b: Seq<u8>, n: nat)
    requires
        n <= a.len(),
        n <= b.len(),
        a.take(n as int) == b.take(n as int),
    ensures
        state_at(h, a, n) == state_at(h, b, n),
        n > 0 ==> checksum_at(h, a, (n - 1) as nat) == checksum_at(h, b, (n - 1) as nat),
    decreases n,
{
    if n > 0 {
        assert(a.take(n - 1) =~= a.take(n as int).take(n - 1));
        assert(b.take(n - 1) =~= b.take(n as int).take(n - 1));
        lemma_prefix_rolling(h, a, b, (n - 1) as nat);
        assert(a[n - 1] == a.take(n as int)[n - 1]);
        assert(b[n - 1] == b.take(n as int)[n - 1]);
        if n - 1 >= crate::WINDOW_SIZE {
            assert(a[n - 1 - crate::WINDOW_SIZE] == a.take(n as int)[n - 1 - crate::WINDOW_SIZE]);
            assert(b[n - 1 - crate::WINDOW_SIZE] == b.take(n as int)[n - 1 - crate::WINDOW_SIZE]);
        }
        assert(evicted(a, n - 1) == evicted(b, n - 1));
    }
}

/// Locality before an edit: inputs that agree on their first `n` bytes have
/// the same events and the same closed runs for those bytes, so every chunk
/// that ends before the first difference is identical in both.
pub proof fn lemma_prefix_locality<H: Hasher>(h: H, p: Policy, a: Seq<u8>, b: Seq<u8>, n: nat)
    requires
        n <= a.len(),
        n <= b.len(),
        a.take(n as int) == b.take(n as int),
    ensures
        run_at(h, p, a, n) == run_at(h, p, b, n),
        events_upto(h, p, a, n) == events_upto(h, p, b, n),
        extents_upto(h, p, a, n) == extents_upto(h, p, b, n),
    decreases n,
{
    if n > 0 {
        assert(a.take(n - 1) =~= a.take(n as int).take(n - 1));
        assert(b.take(n - 1) =~= b.take(n as int).take(n - 1));
        lemma_prefix_locality(h, p, a, b, (n - 1) as nat);
        lemma_prefix_rolling(h, a, b, n);
        assert(a[n - 1] == a.take(n as int)[n - 1]);
        assert(decision_at(h, p, a, (n - 1) as nat) == decision_at(h, p, b, (n - 1) as nat));
        assert(boundary_at(h, p, a, (n - 1) as nat) == boundary_at(h, p, b, (n - 1) as nat));
    }
}

/// Whether `e` is a boundary found in the input, by level or by cap.
pub open spec fn is_cut<H: Hasher>(e: Event<H>) -> bool {
    ||| e matches Event::Boundary(Boundary::Level(_, _))
    ||| e matches Event::Boundary(Boundary::Capped(_))
}

/// The bytes of the `Data` events of `ev`, in order.
pub open spec fn data_of<H: Hasher>(ev: Seq<Event<H>>) -> Seq<u8>
    decreases ev.len(),
{
    if ev.len() == 0 {
        Seq::empty()
    } else {
        match ev.last() {
            Event::Data(byte) => data_of(ev.drop_last()).push(byte),
            Event::Boundary(_) => data_of(ev.drop_last()),
        }
    }
}

proof fn lemma_events_upto_grammar<H: Hasher>(h: H, p: Policy, bytes: Seq<u8>, n: nat)
    requires
        n <= bytes.len(),
    ensures
        data_of(events_upto(h, p, bytes, n)) == bytes.take(n as int),
        forall|i: int|
            0 <= i < events_upto(h, p, bytes, n).len() ==> !(#[trigger] events_upto(
                h,
                p,
                bytes,
                n,
            )[i] matches Event::Boundary(Boundary::Eof(_))),
        forall|i: int|
            0 <= i < events_upto(h, p, bytes, n).len() && is_cut(
                #[trigger] events_upto(h, p, bytes, n)[i],
            ) ==> i > 0 && events_upto(h, p, bytes, n)[i - 1] is Data,
    decreases n,
{
    if n > 0 {
        lemma_events_upto_grammar(h, p, bytes, (n - 1) as nat);
        let prev = events_upto(h, p, bytes, (n - 1) as nat);
        let with_byte = prev.push(Event::Data(bytes[n - 1]));
        let cur = events_upto(h, p, bytes, n);
        assert(with_byte.drop_last() =~= prev);
        assert(bytes.take(n as int) =~= bytes.take(n - 1).push(bytes[n - 1]));
        assert(data_of(with_byte) == bytes.take(n as int));
        match boundary_at(h, p, bytes, (n - 1) as nat) {
            Some(b) => {
                assert(with_byte.push(Event::Boundary(b)).drop_last() =~= with_byte);
                lemma_boundary_at_is_cut(h, p, bytes, (n - 1) as nat);
            },
            None => {},
        }
        assert forall|i: int| 0 <= i < cur.len() implies !(#[trigger] cur[i] matches Event::Boundary(
            Boundary::Eof(_),
        )) by {
            if i < prev.len() {
                assert(cur[i] == prev[i]);
            }
        }
        assert forall|i: int| 0 <= i < cur.len() && is_cut(#[trigger] cur[i]) implies i > 0
            && cur[i - 1] is Data by {
            if i < prev.len() {
                assert(cur[i] == prev[i]);
                assert(cur[i - 1] == prev[i - 1]);
            }
        }
    } else {
        assert(bytes.take(0) =~= Seq::<u8>::empty());
    }
}

/// The event grammar: the events carry the input's bytes in order, end with
/// the one end-of-input boundary, and every other boundary directly follows a
/// byte.
pub proof fn lemma_event_grammar<H: Hasher>(h: H, p: Policy, bytes: Seq<u8>)
    ensures
        ({
            let ev = events(h, p, bytes);
            &&& data_of(ev) == bytes
            &&& ev.last() matches Event::Boundary(Boundary::Eof(_))
            &&& forall|i: int| 0 <= i < ev.len() - 1 ==> !(#[trigger] ev[i] matches Event::Boundary(Boundary::Eof(_)))
            &&& forall|i: int| 0 <= i < ev.len() && is_cut(#[trigger] ev[i]) ==> i > 0 && ev[i - 1] is Data
        }),
{
    let ev = events(h, p, bytes);
    let closed = events_upto(h, p, bytes, bytes.len());
    lemma_events_upto_grammar(h, p, bytes, bytes.len());
    assert(ev.drop_last() =~= closed);
    assert(bytes.take(bytes.len() as int) =~= bytes);
    assert forall|i: int| 0 <= i < ev.len() - 1 implies !(#[trigger] ev[i] matches Event::Boundary(Boundary::Eof(_))) by {
        assert(ev[i] == closed[i]);
    }
    assert forall|i: int| 0 <= i < ev.len() && is_cut(#[trigger] ev[i]) implies i > 0 && ev[i - 1] is Data by {
        assert(ev[i] == closed[i]);
        assert(ev[i - 1] == closed[i - 1]);
    }
}

/// Under a sound policy an input of at least the maximum size has a boundary
/// before its end.
pub proof fn lemma_long_input_is_cut<H: Hasher>(h: H, p: Policy, bytes: Seq<u8>)
    requires
        sound_policy(p),
        bytes.len() >= p.max_size,
    ensures
        extents_upto(h, p, bytes, bytes.len()).len() > 0,
        exists|i: int| 0 <= i < events(h, p, bytes).len() && is_cut(#[trigger] events(h, p, bytes)[i]),
{
    lemma_some_cut_within(h, p, bytes, p.max_size as nat);
    lemma_extents_upto_grows(h, p, bytes, p.max_size as nat, bytes.len());
    lemma_event_cut_exists(h, p, bytes);
}

proof fn lemma_some_cut_within<H: Hasher>(h: H, p: Policy, bytes: Seq<u8>, n: nat)
    requires
        sound_policy(p),
        n == p.max_size,
        n <= bytes.len(),
    ensures
        extents_upto(h, p, bytes, n).len() > 0,
{
    assert(extents_upto(h, p, bytes, n).len() > 0) by {
        if extents_upto(h, p, bytes, n).len() == 0 {
            lemma_no_cut_run(h, p, bytes, n);
        }
    }
}

proof fn lemma_no_cut_run<H: Hasher>(h: H, p: Policy, bytes: Seq<u8>, n: nat)
    requires
        extents_upto(h, p, bytes, n).len() == 0,
    ensures
        run_at(h, p, bytes, n) == n,
    decreases n,
{
    if n > 0 {
        lemma_extents_upto_grows(h, p, bytes, (n - 1) as nat, n);
        lemma_no_cut_run(h, p, bytes, (n - 1) as nat);
    }
}

proof fn lemma_extents_upto_grows<H: Hasher>(h: H, p: Policy, bytes: Seq<u8>, n: nat, m: nat)
    requires
        n <= m,
    ensures
        extents_upto(h, p, bytes, n).len() <= extents_upto(h, p, bytes, m).len(),
    decreases m,
{
    if n < m {
        lemma_extents_upto_grows(h, p, bytes, n, (m - 1) as nat);
    }
}

proof fn lemma_event_cut_exists<H: Hasher>(h: H, p: Policy, bytes: Seq<u8>)
    requires
        extents_upto(h, p, bytes, bytes.len()).len() > 0,
    ensures
        exists|i: int| 0 <= i < events(h, p, bytes).len() && is_cut(#[trigger] events(h, p, bytes)[i]),
{
    let k = lemma_cut_in_events_upto(h, p, bytes, bytes.len());
    let ev = events(h, p, bytes);
    assert(ev[k] == events_upto(h, p, bytes, bytes.len())[k]);
}

proof fn lemma_cut_in_events_upto<H: Hasher>(h: H, p: Policy, bytes: Seq<u8>, n: nat) -> (k: int)
    requires
        extents_upto(h, p, bytes, n).len() > 0,
    ensures
        0 <= k < events_upto(h, p, bytes, n).len(),
        is_cut(events_upto(h, p, bytes, n)[k]),
    decreases n,
{
    let prev = events_upto(h, p, bytes, (n - 1) as nat);
    match boundary_at(h, p, bytes, (n - 1) as nat) {
        Some(b) => {
            lemma_boundary_at_is_cut(h, p, bytes, (n - 1) as nat);
            (prev.len() + 1) as int
        },
        None => {
            let k = lemma_cut_in_events_upto(h, p, bytes, (n - 1) as nat);
            assert(events_upto(h, p, bytes, n)[k] == prev[k]);
            k
        },
    }
}

proof fn lemma_boundary_at_is_cut<H: Hasher>(h: H, p: Policy, bytes: Seq<u8>, i: nat)
    requires
        boundary_at(h, p, bytes, i) is Some,
    ensures
        is_cut(Event::Boundary(boundary_at(h, p, bytes, i).unwrap())),
{
}

/// Resumption: rolling resumed at position `m` of the input, from the state
/// there and the window of bytes before it, reaches the same states and
/// computes the same checksums as rolling over the whole input.
pub proof fn lemma_resume<H: Hasher>(h: H, bytes: Seq<u8>, m: nat, k: nat)
    requires
        m + k <= bytes.len(),
    ensures
        state_after(
            h,
            state_at(h, bytes, m),
            window_before(bytes, m as int),
            bytes.subrange(m as int, bytes.len() as int),
            k,
        ) == state_at(h, bytes, m + k),
        m + k < bytes.len() ==> checksum_after(
            h,
            state_at(h, bytes, m),
            window_before(bytes, m as int),
            bytes.subrange(m as int, bytes.len() as int),
            k,
        ) == checksum_at(h, bytes, m + k),
    decreases k,
{
    let tail = bytes.subrange(m as int, bytes.len() as int);
    let window = window_before(bytes, m as int);
    if k > 0 {
        lemma_resume(h, bytes, m, (k - 1) as nat);
        assert(evicted_after(window, tail, k - 1) == evicted(bytes, m + k - 1));
        assert(tail[k - 1] == bytes[m + k - 1]);
    }
    if m + k < bytes.len() {
        assert(evicted_after(window, tail, k as int) == evicted(bytes, (m + k) as int));
        assert(tail[k as int] == bytes[(m + k) as int]);
    }
}

/// Where two inputs agree on a stretch and the window before it, the windows
/// before each byte of the stretch agree.
proof fn lemma_stretch_windows(a: Seq<u8>, i: nat, b: Seq<u8>, j: nat, len: nat, k: nat)
    requires
        WINDOW_SIZE <= i,
        WINDOW_SIZE <= j,
        k < len,
        i + len <= a.len(),
        j + len <= b.len(),
        a.subrange(i - WINDOW_SIZE, i + len as int) == b.subrange(j - WINDOW_SIZE, j + len as int),
    ensures
        crate::model::window_before(a, i + k + 1int) == crate::model::window_before(
            b,
            j + k + 1int,
        ),
{
    let wa = crate::model::window_before(a, i + k + 1int);
    let wb = crate::model::window_before(b, j + k + 1int);
    assert forall|t: int| 0 <= t < WINDOW_SIZE implies wa[t] == wb[t] by {
        assert(a[i + k + 1 + t - WINDOW_SIZE] == a.subrange(i - WINDOW_SIZE, i + len as int)[k + 1
            + t]);
        assert(b[j + k + 1 + t - WINDOW_SIZE] == b.subrange(j - WINDOW_SIZE, j + len as int)[k + 1
            + t]);
    }
    assert(wa =~= wb);
}

/// With the same window and the same run so far, `Bozo32` makes the same
/// decision, with the same state, on the next byte.
proof fn lemma_bozo32_same_step(p: Policy, a: Seq<u8>, x: nat, b: Seq<u8>, y: nat)
    requires
        x < a.len(),
        y < b.len(),
        crate::model::window_before(a, x + 1int) == crate::model::window_before(b, y + 1int),
        run_at(Bozo32, p, a, x) == run_at(Bozo32, p, b, y),
    ensures
        boundary_at(Bozo32, p, a, x) == boundary_at(Bozo32, p, b, y),
        run_at(Bozo32, p, a, x + 1) == run_at(Bozo32, p, b, y + 1),
{
    lemma_checksum_window_local(a, x, b, y);
    lemma_state_is_window_value(a, x + 1);
    lemma_state_is_window_value(b, y + 1);
    assert(state_at(Bozo32, a, x + 1) == state_at(Bozo32, b, y + 1));
    assert(decision_at(Bozo32, p, a, x) == decision_at(Bozo32, p, b, y));
}

/// Resynchronization after an edit, for `Bozo32`: where two inputs agree on
/// a stretch of `len` bytes and on the `WINDOW_SIZE` bytes before it, and their
/// runs in progress have the same length at its start (as they do right after
/// a boundary in both), they make the same decision, with the same state, at
/// every byte of the stretch.
pub proof fn lemma_bozo32_resync(p: Policy, a: Seq<u8>, i: nat, b: Seq<u8>, j: nat, len: nat)
    requires
        WINDOW_SIZE <= i,
        WINDOW_SIZE <= j,
        i + len <= a.len(),
        j + len <= b.len(),
        a.subrange(i - WINDOW_SIZE, i + len as int) == b.subrange(j - WINDOW_SIZE, j + len as int),
        run_at(Bozo32, p, a, i) == run_at(Bozo32, p, b, j),
    ensures
        run_at(Bozo32, p, a, i + len) == run_at(Bozo32, p, b, j + len),
        forall|k: nat|
            k < len ==> #[trigger] boundary_at(Bozo32, p, a, i + k) == boundary_at(
                Bozo32,
                p,
                b,
                j + k,
            ),
    decreases len,
{
    if len > 0 {
        let k = (len - 1) as nat;
        assert(a.subrange(i - WINDOW_SIZE, i + k as int) =~= a.subrange(
            i - WINDOW_SIZE,
            i + len as int,
        ).subrange(0, WINDOW_SIZE + k as int));
        assert(b.subrange(j - WINDOW_SIZE, j + k as int) =~= b.subrange(
            j - WINDOW_SIZE,
            j + len as int,
        ).subrange(0, WINDOW_SIZE + k as int));
        lemma_bozo32_resync(p, a, i, b, j, k);
        lemma_stretch_windows(a, i, b, j, len, k);
        lemma_bozo32_same_step(p, a, i + k, b, j + k);
    }
}

/// How many `Data` events come directly before index `e` of `ev`.
pub open spec fn data_run_before<H: Hasher>(ev: Seq<Event<H>>, e: int) -> nat
    decreases e,
{
    if e <= 0 {
        0
    } else if ev[e - 1] is Data {
        data_run_before(ev, e - 1) + 1
    } else {
        0
    }
}

proof fn lemma_data_run_prefix<H: Hasher>(short: Seq<Event<H>>, long: Seq<Event<H>>, e: int)
    requires
        0 <= e <= short.len() <= long.len(),
        long.take(short.len() as int) == short,
    ensures
        data_run_before(long, e) == data_run_before(short, e),
    decreases e,
{
    if e > 0 {
        assert(long[e - 1] == long.take(short.len() as int)[e - 1]);
        lemma_data_run_prefix(short, long, e - 1);
    }
}

proof fn lemma_event_runs_upto<H: Hasher>(h: H, p: Policy, bytes: Seq<u8>, n: nat)
    requires
        sound_policy(p),
        n <= bytes.len(),
    ensures
        ({
            let ev = events_upto(h, p, bytes, n);
            &&& data_run_before(ev, ev.len() as int) == run_at(h, p, bytes, n)
            &&& forall|e: int|
                0 <= e < ev.len() && is_cut(#[trigger] ev[e]) ==> p.min_size <= data_run_before(
                    ev,
                    e,
                ) <= p.max_size
        }),
    decreases n,
{
    if n > 0 {
        let i = (n - 1) as nat;
        lemma_event_runs_upto(h, p, bytes, i);
        lemma_run_below_max(h, p, bytes, i);
        let prev = events_upto(h, p, bytes, i);
        let with_byte = prev.push(Event::Data(bytes[i as int]));
        let cur = events_upto(h, p, bytes, n);
        let run = run_at(h, p, bytes, i) + 1;
        assert(decision_at(h, p, bytes, i) == decide(p, checksum_at(h, bytes, i).spec_level(), run));
        assert(with_byte.take(prev.len() as int) =~= prev);
        assert(cur.take(prev.len() as int) =~= prev);
        assert(cur.take(with_byte.len() as int) =~= with_byte);
        lemma_data_run_prefix(prev, with_byte, prev.len() as int);
        assert(with_byte[prev.len() as int] is Data);
        assert(data_run_before(with_byte, with_byte.len() as int) == run);
        lemma_data_run_prefix(with_byte, cur, with_byte.len() as int);
        assert forall|e: int| 0 <= e < cur.len() && is_cut(#[trigger] cur[e]) implies p.min_size
            <= data_run_before(cur, e) <= p.max_size by {
            if e < prev.len() {
                assert(cur[e] == prev[e]);
                lemma_data_run_prefix(prev, cur, e);
            } else {
                assert(e == with_byte.len());
                lemma_boundary_at_is_cut(h, p, bytes, i);
            }
        }
    }
}

/// Run lengths in the event sequence: under a sound policy, every boundary
/// found in the input directly follows between the minimum and the maximum
/// number of `Data` events since the boundary before it, and the end of input
/// follows at most the maximum.
pub proof fn lemma_event_runs_bounded<H: Hasher>(h: H, p: Policy, bytes: Seq<u8>)
    requires
        sound_policy(p),
    ensures
        ({
            let ev = events(h, p, bytes);
            &&& forall|e: int|
                0 <= e < ev.len() && is_cut(#[trigger] ev[e]) ==> p.min_size <= data_run_before(
                    ev,
                    e,
                ) <= p.max_size
            &&& data_run_before(ev, ev.len() - 1) <= p.max_size
        }),
{
    let ev = events(h, p, bytes);
    let closed = events_upto(h, p, bytes, bytes.len());
    lemma_event_runs_upto(h, p, bytes, bytes.len());
    lemma_run_below_max(h, p, bytes, bytes.len());
    assert(ev.take(closed.len() as int) =~= closed);
    lemma_data_run_prefix(closed, ev, closed.len() as int);
    assert forall|e: int| 0 <= e < ev.len() && is_cut(#[trigger] ev[e]) implies p.min_size
        <= data_run_before(ev, e) <= p.max_size by {
        assert(e < closed.len());
        assert(ev[e] == closed[e]);
        lemma_data_run_prefix(closed, ev, e);
    }
}

/// When no checksum reaches the threshold at a byte where the run has reached
/// the minimum size, every boundary found in the input is a capped one.
pub proof fn lemma_unreached_threshold_caps<H: Hasher>(h: H, p: Policy, bytes: Seq<u8>)
    requires
        forall|i: nat|
            i < bytes.len() && run_at(h, p, bytes, i) + 1 >= p.min_size ==> (#[trigger] checksum_at(
                h,
                bytes,
                i,
            )).spec_level() < p.threshold,
    ensures
        forall|e: int|
            0 <= e < events(h, p, bytes).len() ==> !(#[trigger] events(h, p, bytes)[e] matches Event::Boundary(
                Boundary::Level(_, _),
            )),
{
    lemma_no_level_upto(h, p, bytes, bytes.len());
    let ev = events(h, p, bytes);
    let closed = events_upto(h, p, bytes, bytes.len());
    assert forall|e: int| 0 <= e < ev.len() implies !(#[trigger] ev[e] matches Event::Boundary(
        Boundary::Level(_, _),
    )) by {
        if e < closed.len() {
            assert(ev[e] == closed[e]);
        }
    }
}

proof fn lemma_no_level_upto<H: Hasher>(h: H, p: Policy, bytes: Seq<u8>, n: nat)
    requires
        n <= bytes.len(),
        forall|i: nat|
            i < bytes.len() && run_at(h, p, bytes, i) + 1 >= p.min_size ==> (#[trigger] checksum_at(
                h,
                bytes,
                i,
            )).spec_level() < p.threshold,
    ensures
        forall|e: int|
            0 <= e < events_upto(h, p, bytes, n).len() ==> !(#[trigger] events_upto(
                h,
                p,
                bytes,
                n,
            )[e] matches Event::Boundary(Boundary::Level(_, _))),
    decreases n,
{
    if n > 0 {
        let i = (n - 1) as nat;
        lemma_no_level_upto(h, p, bytes, i);
        let prev = events_upto(h, p, bytes, i);
        let cur = events_upto(h, p, bytes, n);
        assert(decision_at(h, p, bytes, i) == decide(
            p,
            checksum_at(h, bytes, i).spec_level(),
            run_at(h, p, bytes, i) + 1,
        ));
        assert forall|e: int| 0 <= e < cur.len() implies !(#[trigger] cur[e] matches Event::Boundary(
            Boundary::Level(_, _),
        )) by {
            if e < prev.len() {
                assert(cur[e] == prev[e]);
            }
        }
    }
}

/// Where no checksum reaches the threshold at a byte where the run has
/// reached the minimum size, the runs are capped at every `max_size` bytes:
/// the run after `n` bytes is `n % max_size` long, and byte `i` closes a
/// (capped) run exactly when `i + 1` is a multiple of `max_size`.
pub proof fn lemma_unreached_threshold_cuts<H: Hasher>(h: H, p: Policy, bytes: Seq<u8>, n: nat)
    requires
        p.max_size >= 1,
        n <= bytes.len(),
        forall|i: nat|
            i < bytes.len() && run_at(h, p, bytes, i) + 1 >= p.min_size ==> (#[trigger] checksum_at(
                h,
                bytes,
                i,
            )).spec_level() < p.threshold,
    ensures
        run_at(h, p, bytes, n) == n % (p.max_size as nat),
        forall|i: nat|
            i < n ==> ((#[trigger] boundary_at(h, p, bytes, i)) is Some <==> (i + 1) % (
            p.max_size as nat) == 0),
        forall|i: nat|
            i < n && (#[trigger] boundary_at(h, p, bytes, i)) is Some ==> boundary_at(
                h,
                p,
                bytes,
                i,
            ).unwrap() is Capped,
    decreases n,
{
    let m = p.max_size as int;
    if n > 0 {
        let i = (n - 1) as nat;
        lemma_unreached_threshold_cuts(h, p, bytes, i);
        let run = run_at(h, p, bytes, i) + 1;
        assert(decision_at(h, p, bytes, i) == decide(p, checksum_at(h, bytes, i).spec_level(), run));
        lemma_fundamental_div_mod(i as int, m);
        let q = (i as int) / m;
        let r = (i as int) % m;
        assert(0 <= r < m);
        if r + 1 < m {
            assert(n as int == q * m + (r + 1)) by (nonlinear_arith)
                requires
                    i as int == m * q + r,
                    n == i + 1,
            ;
            lemma_fundamental_div_mod_converse(n as int, m, q, r + 1);
        } else {
            assert(n as int == (q + 1) * m + 0) by (nonlinear_arith)
                requires
                    i as int == m * q + r,
                    r + 1 == m,
                    n == i + 1,
            ;
            lemma_fundamental_div_mod_converse(n as int, m, q + 1, 0);
        }
        assert forall|k: nat| k < n implies ((#[trigger] boundary_at(h, p, bytes, k)) is Some <==> (k
            + 1) % (p.max_size as nat) == 0) by {
            if k < i {
                assert(boundary_at(h, p, bytes, k) is Some <==> (k + 1) % (p.max_size as nat) == 0);
            }
        }
    } else {
        assert(0nat % (p.max_size as nat) == 0) by {
            lemma_fundamental_div_mod_converse(0, m, 0, 0);
        }
    }
}

} // verus!
