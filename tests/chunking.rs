use hashsplit::algorithms::{Bozo32, Rrs1};
use hashsplit::chunk::{ChunkData, ResumableChunk};
use hashsplit::iter::{
    window_before, Boundary, Delimited, Distances, Event, Rolling, Spans, WithRolling,
};
use hashsplit::rrs::State;
use hashsplit::{Config, Hasher, WINDOW_SIZE};

fn random_bytes(len: usize, seed: u64) -> Vec<u8> {
    let mut x = seed;
    let mut out = Vec::with_capacity(len);
    while out.len() < len {
        x ^= x << 13;
        x ^= x >> 7;
        x ^= x << 17;
        out.extend_from_slice(&x.to_le_bytes());
    }
    out.truncate(len);
    out
}

fn all_events<const T: u32, const MIN: usize, const MAX: usize>(
    data: &[u8],
) -> Vec<Event<Rrs1>> {
    let mut d: Delimited<Rrs1, T, MIN, MAX> = Delimited::start(Rrs1::new(), data);
    let mut out = Vec::new();
    while let Some(e) = d.next() {
        out.push(e);
    }
    assert!(d.next().is_none());
    out
}

fn owned_chunks<const T: u32, const MIN: usize, const MAX: usize>(
    data: &[u8],
) -> Vec<(Vec<u8>, State)> {
    owned_chunks_with::<Rrs1, T, MIN, MAX>(Rrs1::new(), data)
}

fn owned_chunks_with<H: Hasher, const T: u32, const MIN: usize, const MAX: usize>(
    hasher: H,
    data: &[u8],
) -> Vec<(Vec<u8>, H::State)> {
    let cfg: Config<H, T, MIN, MAX> = Config::new(hasher);
    let mut s = cfg.delimited(data).splits();
    let mut out = Vec::new();
    while let Some(c) = s.next() {
        out.push((c.bytes().to_vec(), c.state));
    }
    assert!(s.next().is_none());
    out
}

fn borrowed_chunks<const T: u32, const MIN: usize, const MAX: usize>(
    data: &[u8],
) -> Vec<(Vec<u8>, State)> {
    let mut s: Spans<Rrs1, T, MIN, MAX> = Spans::start(Rrs1::new(), data);
    let mut out = Vec::new();
    while let Some(c) = s.next() {
        out.push((c.bytes().to_vec(), c.state));
    }
    assert!(s.next().is_none());
    out
}

#[test]
fn config_name() {
    let cfg: Config<Rrs1, 13, 0x01_00_00, 0x20_00_00> = Config::new(Rrs1::new());
    assert_eq!("HashSplit_13_RRS1_64Ki_2Mi", cfg.to_string());
}

#[test]
fn config_name_sizes() {
    let cfg: Config<Bozo32, 0, 13, 1073741824> = Config::new(Bozo32);
    assert_eq!(cfg.to_string(), "HashSplit_0_Bozo32_13_1Gi");
    let cfg: Config<Bozo32, 7, 65536, 2097152> = Config::default();
    assert_eq!(cfg.to_string(), "HashSplit_7_Bozo32_64Ki_2Mi");
    let cfg: Config<Rrs1, 120, 3072, 5242880> = Config::new(Rrs1::new());
    assert_eq!(cfg.to_string(), "HashSplit_120_RRS1_3Ki_5Mi");
}

#[test]
fn rolling_matches_steps() {
    let data = random_bytes(200, 1);
    let hasher = Rrs1::new();
    let mut r = Rolling::start(Rrs1::new(), &data);
    let mut state = Rrs1::initial_state();
    for i in 0..data.len() {
        let old = if i >= WINDOW_SIZE { data[i - WINDOW_SIZE] } else { 0 };
        let (sum, st) = hasher.process_byte(state, old, data[i]);
        state = st;
        assert_eq!(r.next(), Some(sum));
    }
    assert_eq!(r.next(), None);
}

#[test]
fn with_rolling_hands_out_bytes() {
    let data = vec![9u8, 8, 7];
    let mut w = WithRolling(Rolling::start(Bozo32, &data));
    assert_eq!(*w.state(), 0);
    assert_eq!(w.next(), Some((9, 9)));
    assert_eq!(*w.state(), 9);
    assert_eq!(w.next().map(|p| p.0), Some(8));
    assert_eq!(w.next().map(|p| p.0), Some(7));
    assert_eq!(w.next(), None);
}

#[test]
fn empty_input_has_only_eof() {
    let ev = all_events::<13, 4, 8>(&[]);
    assert_eq!(ev.len(), 1);
    assert!(matches!(ev[0], Event::Boundary(Boundary::Eof(State { a: 0, b: 0 }))));
    assert!(owned_chunks::<13, 4, 8>(&[]).is_empty());
    assert!(borrowed_chunks::<13, 4, 8>(&[]).is_empty());
}

#[test]
fn event_grammar() {
    let data = random_bytes(5000, 2);
    let ev = all_events::<3, 16, 64>(&data);
    assert!(matches!(ev.last(), Some(Event::Boundary(Boundary::Eof(_)))));
    let mut bytes = Vec::new();
    let mut cuts = 0;
    for (i, e) in ev.iter().enumerate() {
        match e {
            Event::Data(b) => bytes.push(*b),
            Event::Boundary(Boundary::Eof(_)) => assert_eq!(i, ev.len() - 1),
            Event::Boundary(_) => {
                cuts += 1;
                assert!(i > 0 && matches!(ev[i - 1], Event::Data(_)));
            }
        }
    }
    assert_eq!(bytes, data);
    assert!(cuts >= 1);
}

#[test]
fn capped_runs_when_threshold_unreachable() {
    let data = random_bytes(100, 3);
    let ev = all_events::<33, 4, 10>(&data);
    let mut run = 0;
    let mut caps = 0;
    for e in &ev {
        match e {
            Event::Data(_) => run += 1,
            Event::Boundary(Boundary::Capped(_)) => {
                assert_eq!(run, 10);
                run = 0;
                caps += 1;
            }
            Event::Boundary(Boundary::Level(..)) => panic!("no checksum has 33 trailing zeros"),
            Event::Boundary(Boundary::Eof(_)) => assert_eq!(run, 0),
        }
    }
    assert_eq!(caps, 10);
}

#[test]
fn zero_input_cuts_at_minimum() {
    // All-zero bytes keep the Bozo32 state at zero, whose level is 32.
    let data = vec![0u8; 50];
    let chunks = owned_chunks_with::<Bozo32, 13, 8, 20>(Bozo32, &data);
    let lengths: Vec<usize> = chunks.iter().map(|c| c.0.len()).collect();
    assert_eq!(lengths, vec![8, 8, 8, 8, 8, 8, 2]);
    let mut d: Delimited<Bozo32, 13, 8, 20> = Delimited::start(Bozo32, &data);
    let mut ev = Vec::new();
    while let Some(e) = d.next() {
        ev.push(e);
    }
    assert!(matches!(ev[8], Event::Boundary(Boundary::Level(32, 0))));
}

#[test]
fn chunk_lengths_bounded() {
    let data = random_bytes(20000, 4);
    let chunks = owned_chunks::<4, 32, 100>(&data);
    assert!(chunks.len() > 1);
    for (i, c) in chunks.iter().enumerate() {
        assert!(c.0.len() <= 100);
        if i + 1 < chunks.len() {
            assert!(c.0.len() >= 32);
        }
    }
}

#[test]
fn equal_minimum_and_maximum() {
    let data = random_bytes(1000, 5);
    let chunks = owned_chunks::<0, 7, 7>(&data);
    for c in &chunks[..chunks.len() - 1] {
        assert_eq!(c.0.len(), 7);
    }
    assert_eq!(chunks.last().unwrap().0.len(), 1000 % 7);
}

#[test]
fn concatenation_round_trip() {
    let data = random_bytes(30000, 6);
    let owned = owned_chunks::<5, 64, 512>(&data);
    let joined: Vec<u8> = owned.iter().flat_map(|c| c.0.clone()).collect();
    assert_eq!(joined, data);
    let borrowed = borrowed_chunks::<5, 64, 512>(&data);
    let joined: Vec<u8> = borrowed.iter().flat_map(|c| c.0.clone()).collect();
    assert_eq!(joined, data);
}

#[test]
fn owned_and_borrowed_agree() {
    let data = random_bytes(12345, 7);
    assert_eq!(owned_chunks::<6, 100, 1000>(&data), borrowed_chunks::<6, 100, 1000>(&data));
}

#[test]
fn distances_match_chunks() {
    let data = random_bytes(9000, 8);
    let cfg: Config<Rrs1, 5, 50, 300> = Config::new(Rrs1::new());
    let mut d: Distances<Rrs1, 5, 50, 300> = cfg.distances(&data);
    let mut lengths = Vec::new();
    let mut states = Vec::new();
    while let Some(e) = d.next() {
        assert!(e.length > 0);
        lengths.push(e.length);
        states.push(e.boundary.into_state());
    }
    let chunks = owned_chunks::<5, 50, 300>(&data);
    assert_eq!(lengths, chunks.iter().map(|c| c.0.len()).collect::<Vec<_>>());
    assert_eq!(states, chunks.iter().map(|c| c.1).collect::<Vec<_>>());
    assert_eq!(lengths.iter().sum::<usize>(), data.len());
}

#[test]
fn chunk_state_is_rolling_state() {
    let data = random_bytes(4000, 9);
    let chunks = owned_chunks::<4, 40, 200>(&data);
    let mut r = WithRolling(Rolling::start(Rrs1::new(), &data));
    for c in &chunks {
        for _ in 0..c.0.len() {
            r.next();
        }
        assert_eq!(*r.state(), c.1);
    }
}

#[test]
fn locality_before_an_edit() {
    let data = random_bytes(20000, 10);
    let mut edited = data.clone();
    edited.insert(15000, 0xAB);
    let before = owned_chunks::<4, 64, 400>(&data);
    let after = owned_chunks::<4, 64, 400>(&edited);
    let mut offset = 0;
    for (a, b) in before.iter().zip(after.iter()) {
        if offset + a.0.len() > 15000 {
            break;
        }
        assert_eq!(a, b);
        offset += a.0.len();
    }
    assert!(offset > 10000);
}

#[test]
fn locality_resynchronizes_after_an_edit() {
    let data = random_bytes(40000, 11);
    let mut edited = data.clone();
    edited.remove(1000);
    let before = owned_chunks_with::<Bozo32, 5, 32, 4000>(Bozo32, &data);
    let after = owned_chunks_with::<Bozo32, 5, 32, 4000>(Bozo32, &edited);
    let tail_before: Vec<_> = before.iter().rev().take(5).collect();
    let tail_after: Vec<_> = after.iter().rev().take(5).collect();
    assert_eq!(tail_before, tail_after);
}

#[test]
fn resumable_chunk_views() {
    let data = vec![1u8, 2, 3];
    let owned: ResumableChunk<Rrs1> = ResumableChunk::new(ChunkData::Owned(data.clone()), State { a: 1, b: 2 });
    assert_eq!(owned.bytes(), &[1, 2, 3]);
    assert_eq!(owned.state, State { a: 1, b: 2 });
    let borrowed: ResumableChunk<Bozo32> = ResumableChunk::new(ChunkData::Borrowed(&data[1..]), 7);
    assert_eq!(borrowed.bytes(), &[2, 3]);
    assert_eq!(borrowed.state, 7);
}

#[test]
fn boundary_states() {
    let s = State { a: 3, b: 4 };
    assert_eq!(Boundary::<Rrs1>::Level(5, s).into_state(), s);
    assert_eq!(Boundary::<Rrs1>::Capped(s).into_state(), s);
    assert_eq!(Boundary::<Rrs1>::Eof(s).into_state(), s);
}

#[test]
fn random_three_mebibytes_rrs1() {
    let len = 3 * 1024 * 1024;
    let data = random_bytes(len, 0x9E37_79B9_7F4A_7C15);
    let ev = all_events::<13, 65536, 2097152>(&data);
    let mut total = 0usize;
    let mut cuts = 0;
    let mut levels = 0;
    let mut run = 0usize;
    for e in &ev {
        match e {
            Event::Data(_) => {
                total += 1;
                run += 1;
            }
            Event::Boundary(Boundary::Level(l, _)) => {
                assert!(*l >= 13);
                assert!(run >= 65536 && run <= 2097152);
                cuts += 1;
                levels += 1;
                run = 0;
            }
            Event::Boundary(Boundary::Capped(_)) => {
                assert_eq!(run, 2097152);
                cuts += 1;
                run = 0;
            }
            Event::Boundary(Boundary::Eof(_)) => assert!(run <= 2097152),
        }
    }
    assert!(cuts >= 1);
    assert_eq!(total, len);
    if levels == 0 {
        assert!(ev.iter().all(|e| !matches!(e, Event::Boundary(Boundary::Level(..)))));
    }
}

#[test]
fn window_before_pads_with_zeros() {
    let data: Vec<u8> = (1..=100).collect();
    let w = window_before(&data, 2);
    assert_eq!(&w[..62], &[0u8; 62][..]);
    assert_eq!(&w[62..], &[1, 2]);
    let w = window_before(&data, 100);
    assert_eq!(&w[..], &data[36..]);
    assert_eq!(window_before(&data, 0), [0u8; WINDOW_SIZE]);
}

#[test]
fn resume_at_chunk_boundary() {
    let data = random_bytes(5000, 12);
    let chunks = owned_chunks::<4, 40, 200>(&data);
    let offset = chunks[0].0.len() + chunks[1].0.len();
    let state = chunks[1].1;
    let mut fresh = Rolling::start(Rrs1::new(), &data);
    for _ in 0..offset {
        fresh.next();
    }
    let mut resumed = Rolling::resume(Rrs1::new(), state, window_before(&data, offset), &data[offset..]);
    let mut count = 0;
    loop {
        let a = fresh.next();
        assert_eq!(a, resumed.next());
        if a.is_none() {
            break;
        }
        count += 1;
    }
    assert_eq!(count, data.len() - offset);
}

#[test]
fn resume_needs_the_window() {
    let data = random_bytes(3000, 13);
    let offset = 1000;
    let mut fresh = WithRolling(Rolling::start(Bozo32, &data));
    for _ in 0..offset {
        fresh.next();
    }
    let state = *fresh.state();
    let mut with_window = Rolling::resume(Bozo32, state, window_before(&data, offset), &data[offset..]);
    let mut without = Rolling::resume(Bozo32, state, [0u8; WINDOW_SIZE], &data[offset..]);
    let mut differ = false;
    for _ in 0..WINDOW_SIZE {
        let expected = fresh.next().map(|p| p.1);
        assert_eq!(with_window.next(), expected);
        if without.next() != expected {
            differ = true;
        }
    }
    assert!(differ);
}

#[test]
fn largest_maximum_gives_one_chunk() {
    let data = random_bytes(3000, 14);
    let chunks = owned_chunks::<33, 0, { usize::MAX }>(&data);
    assert_eq!(chunks.len(), 1);
    assert_eq!(chunks[0].0, data);
}

#[test]
fn largest_minimum_never_cuts_by_level() {
    let data = vec![0u8; 500];
    let chunks = owned_chunks_with::<Bozo32, 0, { usize::MAX }, { usize::MAX }>(Bozo32, &data);
    assert_eq!(chunks.len(), 1);
}

#[test]
fn zero_minimum_cuts_after_every_qualifying_byte() {
    let data = vec![0u8; 5];
    let chunks = owned_chunks_with::<Bozo32, 1, 0, 3>(Bozo32, &data);
    let lengths: Vec<usize> = chunks.iter().map(|c| c.0.len()).collect();
    assert_eq!(lengths, vec![1, 1, 1, 1, 1]);
}

#[test]
fn config_name_extreme_sizes() {
    let cfg: Config<Bozo32, 4294967295, 0, { usize::MAX }> = Config::new(Bozo32);
    assert_eq!(cfg.to_string(), "HashSplit_4294967295_Bozo32_0Gi_18446744073709551615");
    let cfg: Config<Bozo32, 1, 1024, 3221225472> = Config::new(Bozo32);
    assert_eq!(cfg.to_string(), "HashSplit_1_Bozo32_1Ki_3Gi");
}

#[test]
fn bozo32_checksums_are_local_to_the_window() {
    let data = random_bytes(3000, 15);
    let mut edited = data.clone();
    edited.insert(1000, 0x5A);
    let sums = |input: &[u8]| {
        let mut r = Rolling::start(Bozo32, input);
        let mut out = Vec::new();
        while let Some(s) = r.next() {
            out.push(s);
        }
        out
    };
    let before = sums(&data);
    let after = sums(&edited);
    assert_eq!(before[..1000], after[..1000]);
    assert_ne!(before[1000], after[1000]);
    for i in (1000 + WINDOW_SIZE)..data.len() {
        assert_eq!(before[i], after[i + 1]);
    }
}

fn splits_after<const T: u32, const MIN: usize, const MAX: usize>(
    data: &[u8],
    events_taken: usize,
) -> Vec<(Vec<u8>, State)> {
    let mut d: Delimited<Rrs1, T, MIN, MAX> = Delimited::start(Rrs1::new(), data);
    for _ in 0..events_taken {
        d.next();
    }
    let mut s = d.splits();
    let mut out = Vec::new();
    while let Some(c) = s.next() {
        out.push((c.bytes().to_vec(), c.state));
    }
    out
}

#[test]
fn splits_of_a_partly_consumed_detector() {
    let data = random_bytes(6000, 16);
    let full = owned_chunks::<4, 40, 300>(&data);
    let first = full[0].0.len();
    // Stop in the middle of the second chunk: its rest comes first.
    let taken_bytes = first + 10;
    let rest = splits_after::<4, 40, 300>(&data, taken_bytes + 1);
    assert_eq!(rest[0].0, full[1].0[10..].to_vec());
    assert_eq!(rest[0].1, full[1].1);
    assert_eq!(&rest[1..], &full[2..]);
    // Stop right after the byte that closes the first chunk: its boundary
    // gives nothing, and the rest follows whole.
    let rest = splits_after::<4, 40, 300>(&data, first);
    assert_eq!(&rest[..], &full[1..]);
    // Stop after the whole input.
    let all_events = all_events::<4, 40, 300>(&data).len();
    assert!(splits_after::<4, 40, 300>(&data, all_events).is_empty());
    assert!(splits_after::<4, 40, 300>(&data, all_events - 1).is_empty());
}

#[test]
fn rrs1_default_config() {
    let cfg: Config<Rrs1, 13, 0x01_00_00, 0x20_00_00> = Default::default();
    assert_eq!("HashSplit_13_RRS1_64Ki_2Mi", cfg.to_string());
}

#[test]
fn chunk_kinds() {
    let data = random_bytes(2000, 17);
    let mut s: Spans<Rrs1, 4, 40, 300> = Spans::start(Rrs1::new(), &data);
    let c = s.next().unwrap();
    assert!(std::ptr::eq(c.bytes().as_ptr(), data.as_ptr()));
}

#[test]
fn bozo32_owned_chunks_of_three_bytes() {
    let chunks = owned_chunks_with::<Bozo32, 2, 1, 2>(Bozo32, &[1, 2, 3]);
    assert_eq!(chunks, vec![(vec![1, 2], 65523), (vec![3], 4293132486)]);
}
