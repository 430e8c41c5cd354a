//! Table driven numerically controlled oscillator with 8-bit I/Q output.
//!
//! The phase is a `u32` in which 2^32 stands for a full turn; its top bits
//! select an entry of a table of packed (I, Q) pairs, I in the low byte and Q
//! in the high byte of each `u16`.

use vstd::prelude::*;
use crate::phase::{phase_step, phase_after, lut_index, lemma_phase_after_last, lemma_phase_after_turns};

verus! {

/// The (I, Q) pair packed in one table entry.
pub open spec fn unpack_iq(packed: u16) -> (i8, i8) {
    (packed as i8, (packed >> 8u16) as i8)
}

/// Interleaved I, Q samples of `n` steps of `inc` from phase `p`, each taken
/// at the phase before its step.
pub open spec fn iq_run(lut: Seq<u16>, shift: u32, mask: u32, p: u32, inc: u32, n: nat) -> Seq<i8> {
    Seq::new(
        2 * n,
        |j: int|
            {
                let iq = unpack_iq(lut[lut_index(phase_after(p, inc, (j / 2) as nat), shift, mask)]);
                if j % 2 == 0 {
                    iq.0
                } else {
                    iq.1
                }
            },
    )
}

/// Oscillator state: the phase and the table it reads.
pub struct TableNco {
    phase: u32,
    lut: Vec<u16>,
    lut_mask: u32,
    lut_shift: u32,
}

impl TableNco {
    /// The table holds a power of two of entries, one more than the mask.
    #[verifier::type_invariant]
    spec fn well_formed(self) -> bool {
        &&& self.lut@.len() >= 1
        &&& self.lut@.len() == self.lut_mask as int + 1
        &&& self.lut_shift <= 32
    }

    pub closed spec fn phase(&self) -> u32 {
        self.phase
    }

    pub closed spec fn lut(&self) -> Seq<u16> {
        self.lut@
    }

    pub closed spec fn lut_mask(&self) -> u32 {
        self.lut_mask
    }

    pub closed spec fn lut_shift(&self) -> u32 {
        self.lut_shift
    }

    /// The (I, Q) pair the table gives at phase `p`.
    pub open spec fn sample_at(&self, p: u32) -> (i8, i8) {
        unpack_iq(self.lut()[lut_index(p, self.lut_shift(), self.lut_mask())])
    }

    /// Interleaved samples of successive calls of `next`: each call gives the
    /// sample at the current phase and then advances the phase by `inc`.
    pub open spec fn next_run(&self, p: u32, inc: u32, n: nat) -> Seq<i8>
        decreases n,
    {
        if n == 0 {
            Seq::<i8>::empty()
        } else {
            let s = self.sample_at(p);
            seq![s.0, s.1] + self.next_run(phase_step(p, inc), inc, (n - 1) as nat)
        }
    }

    /// An oscillator at phase zero over a table of `2^lut_size_bits` packed
    /// (I, Q) entries, the entry `k` standing for the angle `2 pi k / size`.
    pub fn new(lut_size_bits: u32, lut: Vec<u16>) -> (nco: Self)
        requires
            lut_size_bits <= 32,
            lut@.len() == vstd::arithmetic::power2::pow2(lut_size_bits as nat),
        ensures
            nco.phase() == 0,
            nco.lut() == lut@,
            nco.lut_mask() as int == lut@.len() - 1,
            nco.lut_shift() == 32 - lut_size_bits,
    {
        proof {
            vstd::arithmetic::power2::lemma_pow2_pos(lut_size_bits as nat);
            if lut_size_bits < 32 {
                vstd::arithmetic::power2::lemma_pow2_strictly_increases(lut_size_bits as nat, 32);
            }
            vstd::arithmetic::power2::lemma2_to64();
        }
        let size = lut.len();
        TableNco { phase: 0, lut, lut_mask: (size - 1) as u32, lut_shift: 32 - lut_size_bits }
    }

    /// Returns the (I, Q) pair at the current phase, then advances the phase
    /// by `phase_inc`.
    pub fn next(&mut self, phase_inc: u32) -> (iq: (i8, i8))
        requires
            old(self).lut_shift() < 32,
        ensures
            iq == old(self).sample_at(old(self).phase()),
            final(self).phase() == phase_step(old(self).phase(), phase_inc),
            final(self).phase() as int == (old(self).phase() as int + phase_inc as int)
                % 0x1_0000_0000,
            final(self).lut() == old(self).lut(),
            final(self).lut_mask() == old(self).lut_mask(),
            final(self).lut_shift() == old(self).lut_shift(),
    {
        proof {
            use_type_invariant(&*self);
        }
        let x = self.phase >> self.lut_shift;
        let m = self.lut_mask;
        assert(x & m <= m) by (bit_vector);
        let idx = (x & m) as usize;
        let packed = self.lut[idx];
        let i = #[verifier::truncate] (packed as i8);
        let q = #[verifier::truncate] ((packed >> 8u16) as i8);
        self.phase = self.phase.wrapping_add(phase_inc);
        (i, q)
    }

    /// Writes `buffer.len() / 2` interleaved (I, Q) samples into `buffer`, as
    /// that many calls of `next` would give them, and advances the phase as
    /// they would. A last odd element is left as it was.
    pub fn fill_buffer(&mut self, phase_inc: u32, buffer: &mut [i8])
        requires
            old(self).lut_shift() < 32 || old(buffer)@.len() < 2,
        ensures
            final(buffer)@.len() == old(buffer)@.len(),
            final(buffer)@.take(2 * (old(buffer)@.len() / 2) as int) == iq_run(
                old(self).lut(),
                old(self).lut_shift(),
                old(self).lut_mask(),
                old(self).phase(),
                phase_inc,
                (old(buffer)@.len() / 2) as nat,
            ),
            old(buffer)@.len() % 2 == 1 ==> final(buffer)@.last() == old(buffer)@.last(),
            final(self).phase() == phase_after(
                old(self).phase(),
                phase_inc,
                (old(buffer)@.len() / 2) as nat,
            ),
            final(self).phase() as int == (old(self).phase() as int + (old(buffer)@.len() / 2)
                * phase_inc as int) % 0x1_0000_0000,
            final(self).lut() == old(self).lut(),
            final(self).lut_mask() == old(self).lut_mask(),
            final(self).lut_shift() == old(self).lut_shift(),
    {
        proof {
            use_type_invariant(&*self);
        }
        let len = buffer.len();
        let num_samples = len / 2;
        if num_samples == 0 {
            assert((self.phase as int) % 0x1_0000_0000 == self.phase as int);
            assert(buffer@.take(0) =~= Seq::<i8>::empty());
            return;
        }
        let ghost p0 = self.phase;
        let ghost b0 = buffer@;
        let ghost run = iq_run(self.lut@, self.lut_shift, self.lut_mask, p0, phase_inc, num_samples as nat);
        let mut p = self.phase;
        let mut i: usize = 0;
        while i < num_samples
            invariant
                len == b0.len(),
                num_samples == b0.len() / 2,
                i <= num_samples,
                buffer@.len() == b0.len(),
                self.lut_shift < 32,
                self.lut@.len() == self.lut_mask as int + 1,
                p == phase_after(p0, phase_inc, i as nat),
                run == iq_run(self.lut@, self.lut_shift, self.lut_mask, p0, phase_inc, num_samples as nat),
                forall|j: int| 0 <= j < 2 * i ==> buffer@[j] == run[j],
                forall|j: int| 2 * i <= j < b0.len() ==> buffer@[j] == b0[j],
            decreases num_samples - i,
        {
            let x = p >> self.lut_shift;
            let m = self.lut_mask;
            assert(x & m <= m) by (bit_vector);
            let idx = (x & m) as usize;
            let packed = self.lut[idx];
            assert(2 * i + 1 < buffer@.len());
            buffer[2 * i] = #[verifier::truncate] (packed as i8);
            buffer[2 * i + 1] = #[verifier::truncate] ((packed >> 8u16) as i8);
            proof {
                lemma_phase_after_last(p0, phase_inc, i as nat);
                assert((2 * i as int) / 2 == i as int);
                assert((2 * i as int + 1) / 2 == i as int);
            }
            p = p.wrapping_add(phase_inc);
            i = i + 1;
        }
        self.phase = p;
        assert(buffer@.take(2 * num_samples as int) =~= run);
        proof {
            lemma_phase_after_turns(p0, phase_inc, num_samples as nat);
        }
    }

    /// The current phase.
    pub fn current_phase(&self) -> (p: u32)
        ensures
            p == self.phase(),
    {
        self.phase
    }

    /// Sets the phase.
    pub fn set_phase(&mut self, phase: u32)
        ensures
            final(self).phase() == phase,
            final(self).lut() == old(self).lut(),
            final(self).lut_mask() == old(self).lut_mask(),
            final(self).lut_shift() == old(self).lut_shift(),
    {
        proof {
            use_type_invariant(&*self);
        }
        self.phase = phase;
    }

    /// Successive calls of `next` give the samples that `fill_buffer` writes:
    /// the `2 k`-th and `2 k + 1`-th values of `n` calls are the (I, Q) pair at
    /// the phase after `k` steps.
    pub proof fn lemma_fill_buffer_matches_next(&self, p: u32, inc: u32, n: nat)
        ensures
            self.next_run(p, inc, n) == iq_run(self.lut(), self.lut_shift(), self.lut_mask(), p, inc, n),
        decreases n,
    {
        if n > 0 {
            let q = phase_step(p, inc);
            self.lemma_fill_buffer_matches_next(q, inc, (n - 1) as nat);
            let a = self.next_run(p, inc, n);
            let b = iq_run(self.lut(), self.lut_shift(), self.lut_mask(), p, inc, n);
            let c = iq_run(self.lut(), self.lut_shift(), self.lut_mask(), q, inc, (n - 1) as nat);
            assert forall|j: int| 0 <= j < 2 * n implies a[j] == b[j] by {
                if j >= 2 {
                    assert(a[j] == c[j - 2]);
                    assert((j - 2) / 2 == j / 2 - 1);
                    assert((j - 2) % 2 == j % 2);
                    assert(phase_after(q, inc, ((j - 2) / 2) as nat) == phase_after(p, inc, (j / 2) as nat));
                }
            }
            assert(a =~= b);
        }
    }
}

} // verus!
