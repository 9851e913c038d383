use hashsplit::algorithms::bozo32;
use hashsplit::algorithms::rrs as fixed_rrs;
use hashsplit::algorithms::{Bozo32, Rrs1};
use hashsplit::rrs::{self, Rrs, State};
use hashsplit::thin::Thinned;
use hashsplit::util::Checkpoint;
use hashsplit::{process_sequence, Hasher, Leveled, Named};

#[test]
fn bool_levels() {
    assert_eq!(false.level(), 0);
    assert_eq!(true.level(), 1);
}

#[test]
fn unsigned_levels_count_trailing_zeros() {
    assert_eq!(8u8.level(), 3);
    assert_eq!(0u8.level(), 8);
    assert_eq!(0x0100u16.level(), 8);
    assert_eq!(0x8000_0000u32.level(), 31);
    assert_eq!(0u32.level(), 32);
    assert_eq!(12u64.level(), 2);
    assert_eq!(0u64.level(), 64);
}

#[test]
fn wide_levels_use_both_halves() {
    assert_eq!(0x10u128.level(), 4);
    assert_eq!((1u128 << 70).level(), 70);
    assert_eq!(0u128.level(), 128);
    assert_eq!((-(1i128 << 100)).level(), 100);
}

#[test]
fn signed_levels_use_the_bit_pattern() {
    assert_eq!((-1i8).level(), 0);
    assert_eq!((-128i8).level(), 7);
    assert_eq!((-4i16).level(), 2);
    assert_eq!(i32::MIN.level(), 31);
    assert_eq!(0i32.level(), 32);
    assert_eq!((-16i64).level(), 4);
}

#[test]
fn rrs1_first_step() {
    let (sum, state) = fixed_rrs::process_byte_freestanding::<25_536, 31>(State { a: 0, b: 0 }, 0, 5);
    assert_eq!(state, State { a: 5, b: 14405 });
    assert_eq!(sum, 342085);
    assert_eq!(sum, state.b + (state.a << 16));
}

#[test]
fn rrs1_step_with_eviction() {
    let hasher = Rrs1::new();
    let (sum, state) = hasher.process_byte(State { a: 5, b: 12345 }, 7, 200);
    assert_eq!(state, State { a: 198, b: 10111 });
    assert_eq!(sum, 12986239);
}

#[test]
fn rrs_width_is_a_parameter() {
    let (sum, state) = rrs::process_byte_freestanding::<25_536, 31>(State { a: 0, b: 0 }, 3, 0, 5);
    assert_eq!(state, State { a: 5, b: 16296 });
    assert_eq!(sum, 343976);
    let wide = rrs::process_byte_freestanding::<25_536, 31>(State { a: 0, b: 0 }, 64, 0, 5);
    assert_eq!(wide, (342085, State { a: 5, b: 14405 }));
}

#[test]
fn rrs_initial_state_is_zero() {
    assert_eq!(<Rrs<25_536, 31> as Hasher>::initial_state(), State { a: 0, b: 0 });
    assert_eq!(<Bozo32 as Hasher>::initial_state(), 0);
}

#[test]
fn bozo32_steps() {
    assert_eq!(bozo32::process_byte_freestanding(0, 0, 5), (5, 5));
    assert_eq!(bozo32::process_byte_freestanding(12345, 7, 200), (2279811434, 2279811434));
    assert_eq!(Bozo32.process_byte(12345, 7, 200), (2279811434, 2279811434));
}

#[test]
fn bozo32_power_constant() {
    let mut pow: u32 = 1;
    for _ in 0..hashsplit::WINDOW_SIZE {
        pow = pow.wrapping_mul(bozo32::PRIME);
    }
    assert_eq!(pow, bozo32::PRIME_POW);
}

#[test]
fn names() {
    assert_eq!(<Rrs1 as Named>::NAME, "RRS1");
    assert_eq!(<Bozo32 as Named>::NAME, "Bozo32");
}

#[test]
fn batched_equals_byte_by_byte_rrs() {
    let hasher = Rrs1::new();
    let pairs = vec![(1u8, 2u8), (3, 4), (250, 0)];
    let batched = process_sequence(&hasher, State { a: 0, b: 0 }, &pairs);
    let mut state = State { a: 0, b: 0 };
    let mut sum = 0;
    for &(old, new) in &pairs {
        let (s, st) = hasher.process_byte(state, old, new);
        sum = s;
        state = st;
    }
    assert_eq!(batched, (sum, state));
    assert_eq!(batched, (1057499211, State { a: 16136, b: 10315 }));
}

#[test]
fn batched_equals_byte_by_byte_bozo() {
    let pairs: Vec<(u8, u8)> = (0..100u32).map(|i| ((i * 7 % 256) as u8, (i * 13 % 256) as u8)).collect();
    let batched = process_sequence(&Bozo32, 99, &pairs);
    let folded = pairs.iter().fold((0u32, 99u32), |(_, st), &(o, n)| Bozo32.process_byte(st, o, n));
    assert_eq!(batched, folded);
}

#[test]
fn batched_empty_keeps_state() {
    let batched = process_sequence(&Rrs1::new(), State { a: 3, b: 4 }, &[]);
    assert_eq!(batched, (0, State { a: 3, b: 4 }));
}

#[test]
fn checkpoint_on_bool() {
    assert_eq!(true.check(), Some(()));
    assert_eq!(false.check(), None);
}

#[test]
fn block_equals_byte_by_byte() {
    let old_block: Vec<u8> = (0..64u32).map(|i| (i * 3) as u8).collect();
    let new_block: Vec<u8> = (0..64u32).map(|i| (255 - i) as u8).collect();
    let hasher = Rrs1::new();
    let by_block = hasher.process_block(State { a: 7, b: 9 }, &old_block, &new_block);
    let mut acc = (0u32, State { a: 7, b: 9 });
    for i in 0..64 {
        acc = hasher.process_byte(acc.1, old_block[i], new_block[i]);
    }
    assert_eq!(by_block, acc);
    let by_block = Bozo32.process_block(1, &old_block, &new_block);
    let pairs: Vec<(u8, u8)> = old_block.iter().copied().zip(new_block.iter().copied()).collect();
    assert_eq!(by_block, process_sequence(&Bozo32, 1, &pairs));
    assert_eq!(<Bozo32 as Thinned>::BLOCK_SIZE, 64);
}
