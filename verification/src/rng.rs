//! Pseudo-random numbers.

use vstd::prelude::*;

verus! {

/// A generator of the kind xorshift64*. Its numbers are a function of the seed.
pub struct Rng(u64);

/// The state that follows a state.
pub open spec fn next_state(x: u64) -> u64 {
    let a = x ^ (x >> 12);
    let b = a ^ (a << 25);
    b ^ (b >> 27)
}

/// The number that a state stands for.
pub open spec fn number_of(x: u64) -> u64 {
    ((x * 0x2545_F491_4F6C_DD1D) % 0x1_0000_0000_0000_0000) as u64
}

/// The number that a generator in state `x` gives next.
pub open spec fn next_number(x: u64) -> u64 {
    number_of(next_state(x))
}

/// The state that a seed leads to. It is never zero, which would stay zero.
pub open spec fn seeded(seed: u64) -> u64 {
    seed | 1
}

impl Rng {
    pub closed spec fn state(&self) -> u64 {
        self.0
    }

    pub fn new(seed: u64) -> (r: Self)
        ensures
            r.state() == seeded(seed),
    {
        Rng(seed | 1)
    }

    pub fn next_u64(&mut self) -> (r: u64)
        ensures
            final(self).state() == next_state(old(self).state()),
            r == next_number(old(self).state()),
    {
        let mut x: u64 = self.0;
        x = x ^ (x >> 12);
        x = x ^ (x << 25);
        x = x ^ (x >> 27);
        self.0 = x;
        x.wrapping_mul(0x2545_F491_4F6C_DD1D)
    }

    /// A number below `n`.
    pub fn below(&mut self, n: usize) -> (r: usize)
        requires
            n > 0,
        ensures
            final(self).state() == next_state(old(self).state()),
            r == next_number(old(self).state()) % (n as u64),
            r < n,
    {
        (self.next_u64() % n as u64) as usize
    }
}

// ---------------------------------------------------------------------------
// Laws
// ---------------------------------------------------------------------------

/// A generator never gets stuck at zero, whatever the seed.
pub proof fn law_state_is_never_zero(seed: u64, x: u64)
    ensures
        seeded(seed) != 0,
        x != 0 ==> next_state(x) != 0,
{
    assert(seed | 1 != 0) by (bit_vector);
    let a = x ^ (x >> 12);
    let b = a ^ (a << 25);
    assert(x != 0 ==> a != 0) by (bit_vector)
        requires
            a == x ^ (x >> 12),
    ;
    assert(a != 0 ==> b != 0) by (bit_vector)
        requires
            b == a ^ (a << 25),
    ;
    assert(b != 0 ==> b ^ (b >> 27) != 0) by (bit_vector);
}

/// The steps of the generator can be taken back: shifts by twenty-seven,
/// twenty-five and twelve bits, one after another, lead to the state before.
pub proof fn law_states_can_be_taken_back(x: u64)
    ensures
        ({
            let y = next_state(x);
            let b = y ^ (y >> 27) ^ (y >> 54);
            let a = b ^ (b << 25) ^ (b << 50);
            x == a ^ (a >> 12) ^ (a >> 24) ^ (a >> 36) ^ (a >> 48) ^ (a >> 60)
        }),
{
    let a = x ^ (x >> 12);
    let b = a ^ (a << 25);
    let y = b ^ (b >> 27);
    assert(b == y ^ (y >> 27) ^ (y >> 54)) by (bit_vector)
        requires
            y == b ^ (b >> 27),
    ;
    assert(a == b ^ (b << 25) ^ (b << 50)) by (bit_vector)
        requires
            b == a ^ (a << 25),
    ;
    assert(x == a ^ (a >> 12) ^ (a >> 24) ^ (a >> 36) ^ (a >> 48) ^ (a >> 60)) by (bit_vector)
        requires
            a == x ^ (x >> 12),
    ;
}

/// A state can be told from its number, by the inverse of the factor; so no two
/// states give the same number.
pub proof fn law_states_can_be_told_from_numbers(x: u64)
    ensures
        (number_of(x) * 0x5907_1D96_D81E_CD35) % 0x1_0000_0000_0000_0000 == x,
{
    let m = 0x1_0000_0000_0000_0000int;
    let f = 0x2545_F491_4F6C_DD1Dint;
    let g = 0x5907_1D96_D81E_CD35int;
    let q = (x * f) / m;
    let r = (x * f) % m;
    assert(x * f == q * m + r) by (nonlinear_arith)
        requires
            q == (x * f) / m,
            r == (x * f) % m,
            m == 0x1_0000_0000_0000_0000int,
    ;
    assert(f * g == 1 + 934_034_299_265_436_267int * m);
    let k = 934_034_299_265_436_267int;
    assert(r * g == (x * k - q * g) * m + x) by (nonlinear_arith)
        requires
            x * f == q * m + r,
            f * g == 1 + k * m,
    ;
    vstd::arithmetic::div_mod::lemma_fundamental_div_mod_converse(
        r * g,
        m,
        x * k - q * g,
        x as int,
    );
}
} // verus!
