use crate::utils::bit_is_set;
use vstd::prelude::*;

verus! {

/// A source of numbers that is started from one number and then hands out one
/// number after another.
pub trait RndGen<T>: Sized {
    /// The generator that the seed `x` starts.
    fn initialize(x: T) -> Self;

    /// The next number of the stream.
    fn next(&mut self) -> T;
}

/// The four lanes of the generator's state.
pub type State = [u64; 4];

/// The odd number by which the seeding sequence advances.
pub const SPLITMIX_GAMMA: u64 = 0x9E37_79B9_7F4A_7C15;

/// Multiplier of the first mixing round.
pub const SPLITMIX_MUL_1: u64 = 0xBF58_476D_1CE4_E5B9;

/// Multiplier of the second mixing round.
pub const SPLITMIX_MUL_2: u64 = 0x94D0_49BB_1331_11EB;

/// The seeding sequence's counter after one more step.
pub open spec fn splitmix_advance(x: u64) -> u64 {
    x.wrapping_add(SPLITMIX_GAMMA)
}

/// The mixing function of the seeding sequence: two rounds of xor-shift and
/// multiplication, and a last xor-shift.
pub open spec fn splitmix_mix(z: u64) -> u64 {
    let a = (z ^ (z >> 30)).wrapping_mul(SPLITMIX_MUL_1);
    let b = (a ^ (a >> 27)).wrapping_mul(SPLITMIX_MUL_2);
    b ^ (b >> 31)
}

/// The counter after `n` steps from `x`.
pub open spec fn splitmix_counter(x: u64, n: nat) -> u64
    decreases n,
{
    if n == 0 {
        x
    } else {
        splitmix_advance(splitmix_counter(x, (n - 1) as nat))
    }
}

/// The word `x` with its bits rotated to the left by `k` places.
pub open spec fn rotated_left(x: u64, k: u32) -> u64 {
    (x << k) | (x >> ((64 - k) as u32))
}

/// The state that the seed `seed` gives: the first four numbers of the
/// seeding sequence.
pub open spec fn seeded_state(seed: u64) -> Seq<u64> {
    seq![
        splitmix_mix(splitmix_counter(seed, 1)),
        splitmix_mix(splitmix_counter(seed, 2)),
        splitmix_mix(splitmix_counter(seed, 3)),
        splitmix_mix(splitmix_counter(seed, 4)),
    ]
}

/// The number that the generator hands out in state `s`: the sum of the first
/// and the last lane.
pub open spec fn xoshiro_output(s: Seq<u64>) -> u64 {
    s[0].wrapping_add(s[3])
}

/// The state that follows the state `s`.
pub open spec fn xoshiro_step(s: Seq<u64>) -> Seq<u64> {
    let t = s[1] << 17;
    let s2 = s[2] ^ s[0];
    let s3 = s[3] ^ s[1];
    let s1 = s[1] ^ s2;
    let s0 = s[0] ^ s3;
    seq![s0, s1, s2 ^ t, rotated_left(s3, 45)]
}

/// A rotation loses no bit: bit `i` of the rotated word is the bit of `x`
/// that stood `k` places lower, counted round the word.
pub proof fn lemma_rotation_moves_bits(x: u64, k: u32, i: u64)
    by (bit_vector)
    requires
        0 < k < 64,
        i < 64,
    ensures
        bit_is_set(rotated_left(x, k), i) <==> bit_is_set(x, ((i + 64 - k) % 64) as u64),
{
}

/// The xoshiro256+ generator.
#[derive(Debug, Clone, Copy)]
pub struct Xoshiro256p {
    pub s: State,
}

impl View for Xoshiro256p {
    type V = Seq<u64>;

    open spec fn view(&self) -> Seq<u64> {
        self.s@
    }
}

impl RndGen<u64> for Xoshiro256p {
    /// The generator whose four lanes are the first four numbers of the
    /// seeding sequence that starts at `x`.
    fn initialize(x: u64) -> (generator: Self)
        ensures
            generator@ == seeded_state(x),
    {
        Xoshiro256p { s: generate_init_state(x) }
    }

    /// Hands out the next number and moves to the next state.
    fn next(&mut self) -> (number: u64)
        ensures
            number == xoshiro_output(old(self)@),
            final(self)@ == xoshiro_step(old(self)@),
    {
        xoshiro256p(&mut self.s)
    }
}

/// One step of xoshiro256+: the number for the state as it is, and the state
/// that follows.
pub fn xoshiro256p(state: &mut State) -> (res: u64)
    ensures
        res == xoshiro_output(old(state)@),
        final(state)@ == xoshiro_step(old(state)@),
{
    let res = state[0].wrapping_add(state[3]);
    let t = state[1] << 17;

    state[2] = state[2] ^ state[0];
    state[3] = state[3] ^ state[1];
    state[1] = state[1] ^ state[2];
    state[0] = state[0] ^ state[3];

    state[2] = state[2] ^ t;
    state[3] = rol64(state[3], 45);
    assert(state@ =~= xoshiro_step(old(state)@));
    res
}

/// The word `x` with its bits rotated to the left by `k` places.
pub fn rol64(x: u64, k: u32) -> (rotated: u64)
    requires
        0 < k < 64,
    ensures
        rotated == rotated_left(x, k),
{
    (x << k) | (x >> (64 - k))
}

/// The four lanes that the seed `init` gives.
pub fn generate_init_state(init: u64) -> (state: State)
    ensures
        state@ == seeded_state(init),
{
    let mut counter = init;
    proof {
        reveal_with_fuel(splitmix_counter, 5);
    }
    let a = splitmix64(&mut counter);
    let b = splitmix64(&mut counter);
    let c = splitmix64(&mut counter);
    let d = splitmix64(&mut counter);
    let state = [a, b, c, d];
    assert(state@ =~= seeded_state(init));
    state
}

/// One step of the SplitMix64 sequence: advances the counter `x` and gives
/// the mixed counter.
pub fn splitmix64(x: &mut u64) -> (mixed: u64)
    ensures
        *final(x) == splitmix_advance(*old(x)),
        mixed == splitmix_mix(*final(x)),
{
    *x = x.wrapping_add(SPLITMIX_GAMMA);
    let mut ret = *x;
    ret = (ret ^ (ret >> 30)).wrapping_mul(SPLITMIX_MUL_1);
    ret = (ret ^ (ret >> 27)).wrapping_mul(SPLITMIX_MUL_2);
    ret ^ (ret >> 31)
}

} // verus!
