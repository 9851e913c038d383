//! A polynomial rolling hash with a single 32-bit state.
use crate::model::{checksum_at, evicted, state_at, window_before};
use crate::thin::Thinned;
use crate::{Hasher, Named, WINDOW_SIZE};
use vstd::arithmetic::div_mod::{
    lemma_add_mod_noop, lemma_fundamental_div_mod, lemma_mod_multiples_vanish,
    lemma_mul_mod_noop_left, lemma_sub_mod_noop,
};
use vstd::arithmetic::power::pow;
use vstd::prelude::*;

verus! {

pub type Checksum = u32;

pub type State = u32;

pub const PRIME: u32 = 65_521;

/// `PRIME` to the power `WINDOW_SIZE`, modulo 2^32.
pub const PRIME_POW: u32 = 0x180b_dc01;

/// `base` to the power `exp`, modulo 2^32.
pub open spec fn pow_mod32(base: nat, exp: nat) -> nat
    decreases exp,
{
    if exp == 0 {
        1
    } else {
        (pow_mod32(base, (exp - 1) as nat) * base) % 0x1_0000_0000
    }
}

/// The precomputed constant is the power it stands for.
pub proof fn lemma_prime_pow()
    ensures
        PRIME_POW == pow_mod32(PRIME as nat, WINDOW_SIZE as nat),
{
    // One power at a time, each from the one before.
    assert(pow_mod32(65521, 0) == 1);
    assert(pow_mod32(65521, 1) == 65521);
    assert(pow_mod32(65521, 2) == 4293001441);
    assert(pow_mod32(65521, 3) == 44233425);
    assert(pow_mod32(65521, 4) == 3410281921);
    assert(pow_mod32(65521, 5) == 3703138737);
    assert(pow_mod32(65521, 6) == 2060701345);
    assert(pow_mod32(65521, 7) == 2620908689);
    assert(pow_mod32(65521, 8) == 3175783297);
    assert(pow_mod32(65521, 9) == 2216813425);
    assert(pow_mod32(65521, 10) == 628403297);
    assert(pow_mod32(65521, 11) == 2055923281);
    assert(pow_mod32(65521, 12) == 3089989953);
    assert(pow_mod32(65521, 13) == 3063311665);
    assert(pow_mod32(65521, 14) == 3126893089);
    assert(pow_mod32(65521, 15) == 2927097873);
    assert(pow_mod32(65521, 16) == 3205068545);
    assert(pow_mod32(65521, 17) == 1165166321);
    assert(pow_mod32(65521, 18) == 4113799137);
    assert(pow_mod32(65521, 19) == 970660305);
    assert(pow_mod32(65521, 20) == 3053092033);
    assert(pow_mod32(65521, 21) == 3541282993);
    assert(pow_mod32(65521, 22) == 1384752545);
    assert(pow_mod32(65521, 23) == 3482340241);
    assert(pow_mod32(65521, 24) == 572297857);
    assert(pow_mod32(65521, 25) == 2463394417);
    assert(pow_mod32(65521, 26) == 3489579873);
    assert(pow_mod32(65521, 27) == 2473823569);
    assert(pow_mod32(65521, 28) == 3918248001);
    assert(pow_mod32(65521, 29) == 152122417);
    assert(pow_mod32(65521, 30) == 2888757537);
    assert(pow_mod32(65521, 31) == 3663781649);
    assert(pow_mod32(65521, 32) == 325316097);
    assert(pow_mod32(65521, 33) == 3408268785);
    assert(pow_mod32(65521, 34) == 649473761);
    assert(pow_mod32(65521, 35) == 3929293009);
    assert(pow_mod32(65521, 36) == 2277585857);
    assert(pow_mod32(65521, 37) == 1064236977);
    assert(pow_mod32(65521, 38) == 1076919457);
    assert(pow_mod32(65521, 39) == 3117003409);
    assert(pow_mod32(65521, 40) == 3485436289);
    assert(pow_mod32(65521, 41) == 1564995953);
    assert(pow_mod32(65521, 42) == 2050611809);
    assert(pow_mod32(65521, 43) == 2969384017);
    assert(pow_mod32(65521, 44) == 3581603649);
    assert(pow_mod32(65521, 45) == 1829567281);
    assert(pow_mod32(65521, 46) == 2540587041);
    assert(pow_mod32(65521, 47) == 1756022289);
    assert(pow_mod32(65521, 48) == 2752472321);
    assert(pow_mod32(65521, 49) == 3357152497);
    assert(pow_mod32(65521, 50) == 1533658593);
    assert(pow_mod32(65521, 51) == 1789814737);
    assert(pow_mod32(65521, 52) == 664332993);
    assert(pow_mod32(65521, 53) == 2563456689);
    assert(pow_mod32(65521, 54) == 1254642593);
    assert(pow_mod32(65521, 55) == 4058257809);
    assert(pow_mod32(65521, 56) == 3979575425);
    assert(pow_mod32(65521, 57) == 2591848561);
    assert(pow_mod32(65521, 58) == 1797648737);
    assert(pow_mod32(65521, 59) == 2854738769);
    assert(pow_mod32(65521, 60) == 3808110145);
    assert(pow_mod32(65521, 61) == 3649684017);
    assert(pow_mod32(65521, 62) == 52338465);
    assert(pow_mod32(65521, 63) == 1884663057);
    assert(pow_mod32(65521, 64) == 403430401);
}

/// One step: `state * PRIME + new - old * PRIME^WINDOW_SIZE`, modulo 2^32.
pub open spec fn bozo_step(state: State, old_byte: u8, new_byte: u8) -> u32 {
    state.wrapping_mul(PRIME).wrapping_add(new_byte as u32).wrapping_sub(
        (old_byte as u32).wrapping_mul(PRIME_POW),
    )
}

#[derive(Clone, Copy, Debug, Default)]
pub struct Bozo32;

impl Hasher for Bozo32 {
    type Checksum = Checksum;

    type State = State;

    open spec fn spec_initial_state() -> State {
        0
    }

    fn initial_state() -> (r: State) {
        0
    }

    open spec fn step(&self, state: State, old_byte: u8, new_byte: u8) -> (Checksum, State) {
        (bozo_step(state, old_byte, new_byte), bozo_step(state, old_byte, new_byte))
    }

    fn process_byte(&self, state: State, old_byte: u8, new_byte: u8) -> (r: (Checksum, State)) {
        process_byte_freestanding(state, old_byte, new_byte)
    }
}

/// One step of `Bozo32`; the checksum is the new state.
pub fn process_byte_freestanding(state: State, old_byte: u8, new_byte: u8) -> (r: (Checksum, State))
    ensures
        r.0 == bozo_step(state, old_byte, new_byte),
        r.1 == r.0,
{
    let sum = state.wrapping_mul(PRIME).wrapping_add(new_byte as u32).wrapping_sub(
        (old_byte as u32).wrapping_mul(PRIME_POW),
    );
    (sum, sum)
}

impl Named for Bozo32 {
    const NAME: &'static str = "Bozo32";
}

impl Thinned for Bozo32 {
    const BLOCK_SIZE: usize = WINDOW_SIZE;
}

/// The bytes of `w` read as a number in base `PRIME`, the first byte the
/// most significant.
pub open spec fn window_value(w: Seq<u8>) -> int
    decreases w.len(),
{
    if w.len() == 0 {
        0
    } else {
        window_value(w.drop_last()) * PRIME + w.last()
    }
}

proof fn lemma_pow_mod32(k: nat)
    ensures
        pow_mod32(PRIME as nat, k) == pow(PRIME as int, k) % 0x1_0000_0000,
    decreases k,
{
    reveal(pow);
    if k > 0 {
        lemma_pow_mod32((k - 1) as nat);
        lemma_mul_mod_noop_left(pow(PRIME as int, (k - 1) as nat), PRIME as int, 0x1_0000_0000);
        assert(pow(PRIME as int, k) == pow(PRIME as int, (k - 1) as nat) * PRIME);
    }
}

proof fn lemma_window_value_front(w: Seq<u8>)
    requires
        w.len() > 0,
    ensures
        window_value(w) == w[0] * pow(PRIME as int, (w.len() - 1) as nat) + window_value(
            w.drop_first(),
        ),
    decreases w.len(),
{
    if w.len() == 1 {
        reveal(pow);
        assert(w.drop_last() =~= Seq::<u8>::empty());
        assert(w.drop_first() =~= Seq::<u8>::empty());
        assert(pow(PRIME as int, 0) == 1);
        assert(window_value(w.drop_last()) == 0);
        assert(window_value(w.drop_first()) == 0);
        assert(w.last() == w[0]);
    } else {
        let front = w.drop_last();
        lemma_window_value_front(front);
        assert(front.drop_first() =~= w.drop_first().drop_last());
        let p = pow(PRIME as int, (w.len() - 2) as nat);
        reveal(pow);
        assert(pow(PRIME as int, (w.len() - 1) as nat) == PRIME * p);
        let a = window_value(front.drop_first());
        assert(front[0] == w[0]);
        assert(w.drop_first().last() == w.last());
        assert(window_value(w.drop_first()) == a * PRIME + w.last());
        assert((w[0] * p + a) * PRIME + w.last() == w[0] * (PRIME * p) + (a * PRIME + w.last()))
            by (nonlinear_arith);
    }
}

proof fn lemma_window_value_zeros(w: Seq<u8>)
    requires
        forall|j: int| 0 <= j < w.len() ==> w[j] == 0,
    ensures
        window_value(w) == 0,
    decreases w.len(),
{
    if w.len() > 0 {
        lemma_window_value_zeros(w.drop_last());
    }
}

/// One step in integers: the wrapping operations are arithmetic modulo 2^32.
proof fn lemma_step_mod(state: u32, old_byte: u8, new_byte: u8)
    ensures
        bozo_step(state, old_byte, new_byte) as int == (state * PRIME + new_byte - old_byte
            * PRIME_POW) % 0x1_0000_0000,
{
    let m: int = 0x1_0000_0000;
    let t1 = (state * PRIME) % m;
    let t3 = (old_byte * PRIME_POW) % m;
    lemma_add_mod_noop(state * PRIME, new_byte as int, m);
    lemma_sub_mod_noop(state * PRIME + new_byte, old_byte * PRIME_POW, m);
    assert((t1 + new_byte) % m == (t1 % m + (new_byte as int) % m) % m);
}

/// Values congruent modulo 2^32 stay congruent through one step.
proof fn lemma_step_congruent(a: int, h: int, b: int, big: int, x: int, e: int)
    requires
        a % 0x1_0000_0000 == h % 0x1_0000_0000,
        b % 0x1_0000_0000 == big % 0x1_0000_0000,
    ensures
        (a * PRIME + x - e * b) % 0x1_0000_0000 == (h * PRIME + x - e * big) % 0x1_0000_0000,
{
    let m: int = 0x1_0000_0000;
    lemma_fundamental_div_mod(a, m);
    lemma_fundamental_div_mod(h, m);
    lemma_fundamental_div_mod(b, m);
    lemma_fundamental_div_mod(big, m);
    let k = (a / m - h / m) * PRIME - e * (b / m - big / m);
    assert(a * PRIME + x - e * b == m * k + (h * PRIME + x - e * big)) by (nonlinear_arith)
        requires
            a == m * (a / m) + a % m,
            h == m * (h / m) + h % m,
            b == m * (b / m) + b % m,
            big == m * (big / m) + big % m,
            a % m == h % m,
            b % m == big % m,
            k == (a / m - h / m) * PRIME - e * (b / m - big / m),
    ;
    lemma_mod_multiples_vanish(k, h * PRIME + x - e * big, m);
}

/// `Bozo32` depends on the window alone: after any number of bytes its state
/// is the last `WINDOW_SIZE` of them (zeros before the start) read in base
/// `PRIME`, modulo 2^32. So its checksums at two positions with the same
/// window are equal, whatever came before.
pub proof fn lemma_state_is_window_value(bytes: Seq<u8>, n: nat)
    requires
        n <= bytes.len(),
    ensures
        state_at(Bozo32, bytes, n) as int == window_value(window_before(bytes, n as int))
            % 0x1_0000_0000,
    decreases n,
{
    if n == 0 {
        lemma_window_value_zeros(window_before(bytes, 0));
    } else {
        let i = (n - 1) as nat;
        lemma_state_is_window_value(bytes, i);
        let w = window_before(bytes, i as int);
        let next = window_before(bytes, n as int);
        let e = evicted(bytes, i as int);
        let x = bytes[i as int];
        let prev = state_at(Bozo32, bytes, i);
        assert(next =~= w.drop_first().push(x));
        assert(next.drop_last() =~= w.drop_first());
        assert(w[0] == e);
        lemma_step_mod(prev, e, x);
        lemma_prime_pow();
        lemma_pow_mod32(WINDOW_SIZE as nat);
        lemma_step_congruent(
            prev as int,
            window_value(w),
            PRIME_POW as int,
            pow(PRIME as int, WINDOW_SIZE as nat),
            x as int,
            e as int,
        );
        lemma_window_value_front(w);
        let rest = window_value(w.drop_first());
        let p63 = pow(PRIME as int, (WINDOW_SIZE - 1) as nat);
        assert(pow(PRIME as int, WINDOW_SIZE as nat) == PRIME * p63) by {
            reveal(pow);
        }
        assert((e * p63 + rest) * PRIME + x - e * (PRIME * p63) == rest * PRIME + x)
            by (nonlinear_arith);
    }
}

/// Locality of `Bozo32` checksums: two positions, in the same input or in
/// two inputs, whose windows hold the same bytes get the same checksum. An
/// edit changes only the checksums of the `WINDOW_SIZE` positions whose
/// window covers it.
pub proof fn lemma_checksum_window_local(a: Seq<u8>, i: nat, b: Seq<u8>, j: nat)
    requires
        i < a.len(),
        j < b.len(),
        window_before(a, i + 1int) == window_before(b, j + 1int),
    ensures
        checksum_at(Bozo32, a, i) == checksum_at(Bozo32, b, j),
{
    lemma_state_is_window_value(a, i + 1);
    lemma_state_is_window_value(b, j + 1);
    assert(checksum_at(Bozo32, a, i) == state_at(Bozo32, a, i + 1));
    assert(checksum_at(Bozo32, b, j) == state_at(Bozo32, b, j + 1));
}

} // verus!
