//! Fixed-point phase arithmetic shared by the oscillators: a `u32` phase in
//! which 2^32 stands for a full turn, wrapping on overflow.

use vstd::prelude::*;

verus! {

/// Phase after one step of `inc`, wrapping at a full turn.
pub open spec fn phase_step(p: u32, inc: u32) -> u32 {
    ((p as int + inc as int) % 0x1_0000_0000) as u32
}

/// Phase after `k` steps of `inc` from `p`.
pub open spec fn phase_after(p: u32, inc: u32, k: nat) -> u32
    decreases k,
{
    if k == 0 {
        p
    } else {
        phase_after(phase_step(p, inc), inc, (k - 1) as nat)
    }
}

/// Table entry selected by `phase`: its top bits, masked to the table size.
pub open spec fn lut_index(phase: u32, shift: u32, mask: u32) -> int {
    ((phase >> shift) & mask) as int
}

/// One step of phase accumulation, taken in front or at the back, agrees.
pub proof fn lemma_phase_after_last(p: u32, inc: u32, k: nat)
    ensures
        phase_after(p, inc, k + 1) == phase_step(phase_after(p, inc, k), inc),
    decreases k,
{
    reveal_with_fuel(phase_after, 2);
    if k > 0 {
        lemma_phase_after_last(phase_step(p, inc), inc, (k - 1) as nat);
    }
}

/// Reducing modulo a full turn before adding more turns changes nothing.
pub proof fn lemma_turn_mod(a: int, b: int)
    ensures
        (a % 0x1_0000_0000 + b) % 0x1_0000_0000 == (a + b) % 0x1_0000_0000,
{
    vstd::arithmetic::div_mod::lemma_fundamental_div_mod(a, 0x1_0000_0000);
    vstd::arithmetic::div_mod::lemma_mod_multiples_vanish(a / 0x1_0000_0000, a % 0x1_0000_0000 + b, 0x1_0000_0000);
}

/// The accumulator wraps at a full turn: `n` steps of `inc` from `p` land on
/// `(p + n * inc) mod 2^32`, so that, for instance, four quarter turns come
/// back to the start.
pub proof fn lemma_phase_after_turns(p: u32, inc: u32, n: nat)
    ensures
        phase_after(p, inc, n) as int == (p as int + n * inc as int) % 0x1_0000_0000,
    decreases n,
{
    if n == 0 {
        assert((p as int) % 0x1_0000_0000 == p as int);
    } else {
        let q = phase_step(p, inc);
        lemma_phase_after_turns(q, inc, (n - 1) as nat);
        lemma_turn_mod(p as int + inc as int, (n - 1) * inc as int);
        assert(p as int + inc as int + (n - 1) * inc as int == p as int + n * inc as int) by (nonlinear_arith);
    }
}

/// Steps that add up to whole turns bring the phase back: the oscillator
/// repeats itself after them.
pub proof fn lemma_phase_after_whole_turns(p: u32, inc: u32, n: nat, m: nat)
    requires
        n * inc as int == m * 0x1_0000_0000,
    ensures
        phase_after(p, inc, n) == p,
        phase_after(phase_after(p, inc, n), inc, 1) == phase_after(p, inc, 1),
{
    lemma_phase_after_turns(p, inc, n);
    vstd::arithmetic::div_mod::lemma_mod_multiples_vanish(m as int, p as int, 0x1_0000_0000);
    assert(p as int + m * 0x1_0000_0000 == m * 0x1_0000_0000 + p as int);
    assert((p as int) % 0x1_0000_0000 == p as int);
}

} // verus!
