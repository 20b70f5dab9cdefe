//! A seedable generator: the same seed gives the same stream on every machine.

use vstd::prelude::*;

verus! {

/// The state that follows `state`.
pub open spec fn step(state: u64) -> u64 {
    state.wrapping_add(0x9E37_79B9_7F4A_7C15u64)
}

/// The output of a state.
pub open spec fn mix(state: u64) -> u64 {
    let a = (state ^ (state >> 30u64)).wrapping_mul(0xBF58_476D_1CE4_E5B9u64);
    let b = (a ^ (a >> 27u64)).wrapping_mul(0x94D0_49BB_1331_11EBu64);
    b ^ (b >> 31u64)
}

/// The SplitMix64 generator.
#[derive(Debug)]
pub struct SplitMix64(u64);

impl View for SplitMix64 {
    type V = u64;

    closed spec fn view(&self) -> u64 {
        self.0
    }
}

impl Clone for SplitMix64 {
    fn clone(&self) -> (r: Self)
        ensures
            r@ == self@,
    {
        SplitMix64(self.0)
    }
}

impl SplitMix64 {
    /// A generator whose stream `seed` determines.
    #[must_use]
    pub fn new(seed: u64) -> (r: Self)
        ensures
            r@ == seed,
    {
        SplitMix64(seed)
    }

    /// Advances the state and returns the next value.
    #[must_use]
    pub fn next_u64(&mut self) -> (v: u64)
        ensures
            final(self)@ == step(old(self)@),
            v == mix(step(old(self)@)),
    {
        self.0 = self.0.wrapping_add(0x9E37_79B9_7F4A_7C15u64);
        let mut z: u64 = self.0;
        z = (z ^ (z >> 30u64)).wrapping_mul(0xBF58_476D_1CE4_E5B9u64);
        z = (z ^ (z >> 27u64)).wrapping_mul(0x94D0_49BB_1331_11EBu64);
        z ^ (z >> 31u64)
    }

    /// Advances the state and returns a value in `0..n`.
    #[must_use]
    pub fn below(&mut self, n: u64) -> (v: u64)
        requires
            n > 0,
        ensures
            final(self)@ == step(old(self)@),
            v == mix(step(old(self)@)) % n,
            v < n,
    {
        self.next_u64() % n
    }
}

/// A factor that another one undoes is one-to-one.
proof fn lemma_factor_is_one_to_one(x: u64, y: u64, factor: u64, inverse: u64)
    requires
        (factor * inverse) % 0x1_0000_0000_0000_0000 == 1,
        x.wrapping_mul(factor) == y.wrapping_mul(factor),
    ensures
        x == y,
{
    let m: int = 0x1_0000_0000_0000_0000;
    assert forall|v: u64| #![trigger v.wrapping_mul(factor)] (v.wrapping_mul(factor) * inverse) % m
        == v by {
        let f = factor as int;
        let g = inverse as int;
        assert(v.wrapping_mul(factor) == (v * f) % m);
        vstd::arithmetic::div_mod::lemma_mul_mod_noop_left(v * f, g, m);
        assert((v * f) * g == v * (f * g)) by (nonlinear_arith);
        vstd::arithmetic::div_mod::lemma_mul_mod_noop_right(v as int, f * g, m);
        vstd::arithmetic::div_mod::lemma_small_mod(v as nat, m as nat);
    }
}

/// Distinct states have distinct outputs.
pub proof fn law_outputs_are_one_to_one(a: u64, b: u64)
    requires
        mix(a) == mix(b),
    ensures
        a == b,
{
    let a1 = (a ^ (a >> 30u64)).wrapping_mul(0xBF58_476D_1CE4_E5B9u64);
    let b1 = (b ^ (b >> 30u64)).wrapping_mul(0xBF58_476D_1CE4_E5B9u64);
    let a2 = (a1 ^ (a1 >> 27u64)).wrapping_mul(0x94D0_49BB_1331_11EBu64);
    let b2 = (b1 ^ (b1 >> 27u64)).wrapping_mul(0x94D0_49BB_1331_11EBu64);
    assert(a2 ^ (a2 >> 31u64) == b2 ^ (b2 >> 31u64) ==> a2 == b2) by (bit_vector);
    lemma_factor_is_one_to_one(
        a1 ^ (a1 >> 27u64),
        b1 ^ (b1 >> 27u64),
        0x94D0_49BB_1331_11EBu64,
        0x3196_42B2_D24D_8EC3u64,
    );
    assert(a1 ^ (a1 >> 27u64) == b1 ^ (b1 >> 27u64) ==> a1 == b1) by (bit_vector);
    lemma_factor_is_one_to_one(
        a ^ (a >> 30u64),
        b ^ (b >> 30u64),
        0xBF58_476D_1CE4_E5B9u64,
        0x96DE_1B17_3F11_9089u64,
    );
    assert(a ^ (a >> 30u64) == b ^ (b >> 30u64) ==> a == b) by (bit_vector);
}

/// Distinct seeds give distinct first values, and distinct values at every later draw.
pub proof fn law_distinct_seeds_give_distinct_values(a: u64, b: u64, k: nat)
    requires
        a != b,
    ensures
        mix(state_after(a, k + 1)) != mix(state_after(b, k + 1)),
{
    lemma_states_stay_apart(a, b, k + 1);
    if mix(state_after(a, k + 1)) == mix(state_after(b, k + 1)) {
        law_outputs_are_one_to_one(state_after(a, k + 1), state_after(b, k + 1));
    }
}

proof fn lemma_states_stay_apart(a: u64, b: u64, k: nat)
    requires
        a != b,
    ensures
        state_after(a, k) != state_after(b, k),
    decreases k,
{
    if k > 0 {
        lemma_states_stay_apart(a, b, (k - 1) as nat);
    }
}

/// The state after `k` draws.
pub open spec fn state_after(seed: u64, k: nat) -> u64
    decreases k,
{
    if k == 0 {
        seed
    } else {
        step(state_after(seed, (k - 1) as nat))
    }
}

/// Each draw moves the state by one odd constant, so that the state after `k`
/// draws is the seed plus `k` times that constant.
pub proof fn law_state_is_an_arithmetic_progression(seed: u64, k: nat)
    ensures
        state_after(seed, k) == (seed + k * 0x9E37_79B9_7F4A_7C15) % 0x1_0000_0000_0000_0000,
    decreases k,
{
    if k > 0 {
        let p = (k - 1) as nat;
        law_state_is_an_arithmetic_progression(seed, p);
        let c: int = 0x9E37_79B9_7F4A_7C15;
        let m: int = 0x1_0000_0000_0000_0000;
        assert(k * c == p * c + c) by (nonlinear_arith)
            requires
                k == p + 1,
        ;
        let s = state_after(seed, p);
        assert(step(s) == (s + c) % m);
        assert(((seed + p * c) % m + c) % m == (seed + p * c + c) % m) by {
            vstd::arithmetic::div_mod::lemma_add_mod_noop(seed + p * c, c, m);
            vstd::arithmetic::div_mod::lemma_small_mod(c as nat, m as nat);
        }
    } else {
        vstd::arithmetic::div_mod::lemma_small_mod(seed as nat, 0x1_0000_0000_0000_0000nat);
    }
}

/// The value of the draw number `k`, counted from zero, that follows a state.
pub open spec fn value(state: u64, k: int) -> u64 {
    mix(state_after(state, (k + 1) as nat))
}

/// The draws that follow the next state are the later draws of this one.
pub proof fn lemma_later_values(state: u64, k: int)
    requires
        0 <= k,
    ensures
        state_after(step(state), k as nat) == state_after(state, (k + 1) as nat),
        value(step(state), k) == value(state, k + 1),
        value(state, 0) == mix(step(state)),
    decreases k,
{
    reveal_with_fuel(state_after, 2);
    if k > 0 {
        lemma_later_values(state, k - 1);
    }
    assert(state_after(step(state), (k + 1) as nat) == step(state_after(step(state), k as nat)));
    assert(state_after(state, (k + 2) as nat) == step(state_after(state, (k + 1) as nat)));
}

/// Both an odd and an even value are drawn: the first one from the state zero is odd, and
/// the one after it is even.
pub proof fn lemma_odd_and_even_values()
    ensures
        value(0, 0) == 0xE220_A839_7B1D_CDAFu64,
        value(0x9E37_79B9_7F4A_7C15u64, 0) == 0x6E78_9E6A_A1B9_65F4u64,
{
    reveal_with_fuel(state_after, 2);
    assert(step(0) == 0x9E37_79B9_7F4A_7C15u64);
    assert(step(0x9E37_79B9_7F4A_7C15u64) == 0x3C6E_F372_FE94_F82Au64);
    assert(mix(0x9E37_79B9_7F4A_7C15u64) == 0xE220_A839_7B1D_CDAFu64) by {
        assert(0x9E37_79B9_7F4A_7C15u64 ^ (0x9E37_79B9_7F4A_7C15u64 >> 30u64) == 0x9E37_79BB_0797_9AF0u64) by (bit_vector);
        assert(0x9E37_79BB_0797_9AF0u64.wrapping_mul(0xBF58_476D_1CE4_E5B9u64) == 0x6F68_261B_57E7_A770u64);
        assert(0x6F68_261B_57E7_A770u64 ^ (0x6F68_261B_57E7_A770u64 >> 27u64) == 0x6F68_2616_BAE3_641Au64) by (bit_vector);
        assert(0x6F68_2616_BAE3_641Au64.wrapping_mul(0x94D0_49BB_1331_11EBu64) == 0xE220_A838_BF5C_9DDEu64);
        assert(0xE220_A838_BF5C_9DDEu64 ^ (0xE220_A838_BF5C_9DDEu64 >> 31u64) == 0xE220_A839_7B1D_CDAFu64) by (bit_vector);
    }
    assert(mix(0x3C6E_F372_FE94_F82Au64) == 0x6E78_9E6A_A1B9_65F4u64) by {
        assert(0x3C6E_F372_FE94_F82Au64 ^ (0x3C6E_F372_FE94_F82Au64 >> 30u64) == 0x3C6E_F372_0F2F_35E1u64) by (bit_vector);
        assert(0x3C6E_F372_0F2F_35E1u64.wrapping_mul(0xBF58_476D_1CE4_E5B9u64) == 0x2A94_FCBF_CCB4_3499u64);
        assert(0x2A94_FCBF_CCB4_3499u64 ^ (0x2A94_FCBF_CCB4_3499u64 >> 27u64) == 0x2A94_FCBA_9E2B_A360u64) by (bit_vector);
        assert(0x2A94_FCBA_9E2B_A360u64.wrapping_mul(0x94D0_49BB_1331_11EBu64) == 0x6E78_9E6A_7D48_5920u64);
        assert(0x6E78_9E6A_7D48_5920u64 ^ (0x6E78_9E6A_7D48_5920u64 >> 31u64) == 0x6E78_9E6A_A1B9_65F4u64) by (bit_vector);
    }
}

} // verus!
