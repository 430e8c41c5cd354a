//! Radio-side decisions of the transmitters: where the local oscillator is
//! tuned and how interleaved I/Q samples are laid out for the DAC channels.

use vstd::prelude::*;

verus! {

/// Local oscillator frequency for a carrier of `freq` Hz corrected by
/// `offset` Hz: the sum taken in signed 64-bit arithmetic, read back as
/// unsigned.
pub open spec fn lo_frequency(freq: u64, offset: i64) -> u64 {
    ((freq as i64) as int + offset as int) as u64
}

/// Whether correcting `freq` by `offset` stays within signed 64 bits.
pub open spec fn lo_in_range(freq: u64, offset: i64) -> bool {
    i64::MIN <= (freq as i64) as int + offset as int <= i64::MAX
}

/// Computes `lo_frequency`.
pub fn tx_lo_frequency(freq: u64, offset: i64) -> (lo: u64)
    requires
        lo_in_range(freq, offset),
    ensures
        lo == lo_frequency(freq, offset),
{
    let f = #[verifier::truncate] (freq as i64);
    let sum = f + offset;
    #[verifier::truncate] (sum as u64)
}

/// Tuning memory of a transmitter: its frequency correction and the last
/// carrier it was tuned to (0 before any).
pub struct LoTuning {
    offset: i64,
    last_freq: u64,
}

impl LoTuning {
    pub closed spec fn offset(&self) -> i64 {
        self.offset
    }

    pub closed spec fn last_freq(&self) -> u64 {
        self.last_freq
    }

    /// Tuning memory with correction `offset`, not yet tuned.
    pub fn new(offset: i64) -> (t: Self)
        ensures
            t.offset() == offset,
            t.last_freq() == 0,
    {
        LoTuning { offset, last_freq: 0 }
    }

    /// Whether carrier `freq` differs from the one the transmitter is on.
    pub fn needs_retune(&self, freq: u64) -> (r: bool)
        ensures
            r == (freq != self.last_freq()),
    {
        freq != self.last_freq
    }

    /// The oscillator frequency to set for carrier `freq`, or nothing when
    /// the transmitter is already on that carrier.
    pub fn retune_target(&self, freq: u64) -> (r: Option<u64>)
        requires
            freq != self.last_freq() ==> lo_in_range(freq, self.offset()),
        ensures
            freq == self.last_freq() ==> r is None,
            freq != self.last_freq() ==> r == Some(lo_frequency(freq, self.offset())),
    {
        if freq == self.last_freq {
            None
        } else {
            Some(tx_lo_frequency(freq, self.offset))
        }
    }

    /// Records that the transmitter is now on carrier `freq`.
    pub fn tuned(&mut self, freq: u64)
        ensures
            final(self).last_freq() == freq,
            final(self).offset() == old(self).offset(),
    {
        self.last_freq = freq;
    }
}

/// Splits interleaved I/Q samples into the I channel and the Q channel; a
/// last unpaired value is dropped.
pub fn split_iq(samples: &[i16]) -> (r: (Vec<i16>, Vec<i16>))
    ensures
        r.0@.len() == samples@.len() / 2,
        r.1@.len() == samples@.len() / 2,
        forall|k: int| 0 <= k < samples@.len() / 2 ==> r.0@[k] == samples@[2 * k] && r.1@[k]
            == samples@[2 * k + 1],
{
    let len = samples.len();
    let n = len / 2;
    let mut i_samples: Vec<i16> = Vec::with_capacity(n);
    let mut q_samples: Vec<i16> = Vec::with_capacity(n);
    let mut k: usize = 0;
    while k < n
        invariant
            len == samples@.len(),
            n == samples@.len() / 2,
            k <= n,
            i_samples@.len() == k,
            q_samples@.len() == k,
            forall|j: int| 0 <= j < k ==> i_samples@[j] == samples@[2 * j] && q_samples@[j]
                == samples@[2 * j + 1],
        decreases n - k,
    {
        i_samples.push(samples[2 * k]);
        q_samples.push(samples[2 * k + 1]);
        k = k + 1;
    }
    (i_samples, q_samples)
}

} // verus!
