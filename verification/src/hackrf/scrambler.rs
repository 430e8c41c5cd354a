//! Multiplicative (self-synchronising) scrambler, as used by G3RUH 9600 bd
//! packet radio: each output bit is the input bit XOR the parity of the
//! tapped bits of the shift register, and the output bit is shifted in.

use vstd::prelude::*;

verus! {

/// Number of bits set in `x`.
pub open spec fn popcount(x: u32) -> nat
    decreases x,
{
    if x == 0 {
        0
    } else {
        (x % 2) as nat + popcount(x / 2)
    }
}

/// A number has no more bits set than its value.
proof fn lemma_popcount_le(x: u32)
    ensures
        popcount(x) <= x,
    decreases x,
{
    if x != 0 {
        lemma_popcount_le(x / 2);
    }
}

/// Number of bits set in `x`, counted from the lowest bit up.
fn count_ones(x: u32) -> (r: u32)
    ensures
        r == popcount(x),
{
    let mut v = x;
    let mut n: u32 = 0;
    proof {
        lemma_popcount_le(x);
    }
    while v != 0
        invariant
            n + popcount(v) == popcount(x),
            popcount(x) <= x,
        decreases v,
    {
        let low = v & 1;
        assert(v & 1 == v % 2) by (bit_vector);
        assert(v >> 1 == v / 2) by (bit_vector);
        n = n + low;
        v = v >> 1;
    }
    n
}

/// The bit the scrambler emits for input `bit` (its lowest bit is used) from
/// register `state` with taps `poly`.
pub open spec fn scramble_output(state: u32, poly: u32, bit: u8) -> u8 {
    (((bit % 2) as nat + popcount(state & poly)) % 2) as u8
}

/// The register after shifting in the bit `b`; the oldest bit falls out.
pub open spec fn shift_in(state: u32, b: u8) -> u32 {
    (state << 1u32) | (b as u32)
}

/// Output of the scrambler on a stream of bits, starting from `state`.
pub open spec fn scramble_bits(state: u32, poly: u32, bits: Seq<u8>) -> Seq<u8>
    decreases bits.len(),
{
    if bits.len() == 0 {
        Seq::<u8>::empty()
    } else {
        let o = scramble_output(state, poly, bits[0]);
        seq![o] + scramble_bits(shift_in(state, o), poly, bits.skip(1))
    }
}

/// Output of the matching descrambler: the same XOR, but the register takes
/// the received bit.
pub open spec fn descramble_bits(state: u32, poly: u32, bits: Seq<u8>) -> Seq<u8>
    decreases bits.len(),
{
    if bits.len() == 0 {
        Seq::<u8>::empty()
    } else {
        let o = scramble_output(state, poly, bits[0]);
        seq![o] + descramble_bits(shift_in(state, bits[0]), poly, bits.skip(1))
    }
}

/// Register of the scrambler after it has scrambled `bits` from `state`.
pub open spec fn state_after(state: u32, poly: u32, bits: Seq<u8>) -> u32
    decreases bits.len(),
{
    if bits.len() == 0 {
        state
    } else {
        state_after(shift_in(state, scramble_output(state, poly, bits[0])), poly, bits.skip(1))
    }
}

/// The scrambler emits one bit per bit it takes.
pub proof fn lemma_scramble_len(state: u32, poly: u32, bits: Seq<u8>)
    ensures
        scramble_bits(state, poly, bits).len() == bits.len(),
    decreases bits.len(),
{
    if bits.len() > 0 {
        lemma_scramble_len(shift_in(state, scramble_output(state, poly, bits[0])), poly, bits.skip(1));
    }
}

/// Scrambling one more bit appends its output, computed from the register
/// left by the bits before it.
pub proof fn lemma_scramble_push(state: u32, poly: u32, bits: Seq<u8>, b: u8)
    ensures
        scramble_bits(state, poly, bits.push(b)) == scramble_bits(state, poly, bits).push(
            scramble_output(state_after(state, poly, bits), poly, b),
        ),
        state_after(state, poly, bits.push(b)) == shift_in(
            state_after(state, poly, bits),
            scramble_output(state_after(state, poly, bits), poly, b),
        ),
    decreases bits.len(),
{
    let bb = bits.push(b);
    if bits.len() == 0 {
        assert(bb.skip(1) =~= Seq::<u8>::empty());
        assert(bb[0] == b);
        let o = scramble_output(state, poly, b);
        assert(scramble_bits(shift_in(state, o), poly, bb.skip(1)) == Seq::<u8>::empty());
        assert(scramble_bits(state, poly, bb) =~= seq![o]);
        assert(scramble_bits(state, poly, bits) =~= Seq::<u8>::empty());
        assert(state_after(shift_in(state, o), poly, bb.skip(1)) == shift_in(state, o));
        assert(state_after(state, poly, bits) == state);
    } else {
        let o = scramble_output(state, poly, bits[0]);
        let next = shift_in(state, o);
        assert(bb[0] == bits[0]);
        assert(bb.skip(1) =~= bits.skip(1).push(b));
        lemma_scramble_push(next, poly, bits.skip(1), b);
        assert(scramble_bits(state, poly, bb) =~= scramble_bits(state, poly, bits).push(
            scramble_output(state_after(state, poly, bits), poly, b),
        ));
    }
}

/// Shift register and tap mask of a multiplicative scrambler.
pub struct Scrambler {
    state: u32,
    poly: u32,
}

impl Scrambler {
    pub closed spec fn state(&self) -> u32 {
        self.state
    }

    pub closed spec fn poly(&self) -> u32 {
        self.poly
    }

    /// A scrambler with taps `poly` (bit `k` set taps `x^(k+1)`) and
    /// register `seed`.
    pub fn new(poly: u32, seed: u32) -> (s: Self)
        ensures
            s.state() == seed,
            s.poly() == poly,
    {
        Scrambler { state: seed, poly }
    }

    /// Scrambles one bit: returns the input bit XOR the parity of the tapped
    /// register bits, and shifts that output bit into the register.
    pub fn scramble_bit(&mut self, bit: u8) -> (out: u8)
        ensures
            out == scramble_output(old(self).state(), old(self).poly(), bit),
            final(self).state() == shift_in(old(self).state(), out),
            final(self).poly() == old(self).poly(),
    {
        let ones = count_ones(self.state & self.poly);
        let xor_sum = ones % 2;
        let out_bit = ((bit as u32 ^ xor_sum) as u8) & 1;
        assert(((bit as u32 ^ xor_sum) as u8) & 1 == ((bit % 2) + xor_sum) % 2) by (bit_vector)
            requires
                xor_sum < 2,
        ;
        self.state = (self.state << 1u32) | (out_bit as u32);
        out_bit
    }

    /// Loads `seed` into the register.
    pub fn reset(&mut self, seed: u32)
        ensures
            final(self).state() == seed,
            final(self).poly() == old(self).poly(),
    {
        self.state = seed;
    }
}

/// The scrambled stream determines the input: descrambling with the same
/// taps and seed gives back every input bit.
pub proof fn lemma_descramble_scramble(seed: u32, poly: u32, bits: Seq<u8>)
    requires
        forall|i: int| 0 <= i < bits.len() ==> #[trigger] bits[i] <= 1,
    ensures
        descramble_bits(seed, poly, scramble_bits(seed, poly, bits)) == bits,
    decreases bits.len(),
{
    if bits.len() > 0 {
        let o = scramble_output(seed, poly, bits[0]);
        let next = shift_in(seed, o);
        let tail = bits.skip(1);
        assert forall|i: int| 0 <= i < tail.len() implies #[trigger] tail[i] <= 1 by {
            assert(tail[i] == bits[i + 1]);
        }
        lemma_descramble_scramble(next, poly, tail);
        let sc = scramble_bits(seed, poly, bits);
        assert(sc[0] == o);
        assert(sc.skip(1) =~= scramble_bits(next, poly, tail));
        assert(scramble_output(seed, poly, o) == bits[0]);
        assert(descramble_bits(seed, poly, sc) =~= bits);
    }
}

} // verus!
