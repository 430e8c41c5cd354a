//! Continuous-phase 2-FSK modulation to 16-bit I/Q samples.
//!
//! Each data bit, most significant first, steers
//! the oscillator up (bit 1) or down (bit 0) by the frequency deviation. The
//! sample clock is not a whole multiple of the bit clock: the sample index at
//! which each bit ends is given by the caller in `bit_ends`, the phase
//! running on without a jump from one bit to the next.

use vstd::prelude::*;
use vstd::string::*;
use crate::phase::{phase_after, lut_index, lemma_phase_after_turns, lemma_turn_mod};
use crate::fsk::{
    LUT_SIZE_BITS, deviation_increment, negated_increment, data_bits, incs_of, samples_before,
    preamble_data, schedule_covers, tone_increments, chain_schedule, lemma_samples_before_agree,
    lemma_chain_schedule, lemma_samples_before_mono, turned, bit_sample, data_bit,
};
use crate::hex::{
    HexError, HexFault, fault_view, parse_hex_byte, parse_hex_bytes, spec_parse_hex_byte, spec_parse_hex_bytes,
    hex_pairs_panics, pad_even, trim_hex_prefix,
};
use crate::pluto::nco::{TableNco, iq_run, unpack_iq};

verus! {

/// Samples of the first `k` bits and the phase after them: bit `j` adds the
/// oscillator output for `samples_before(j + 1) - samples_before(j)` steps of
/// `incs[j]`, continuing from the phase the previous bit left.
pub open spec fn fsk_iq(
    lut: Seq<u32>,
    shift: u32,
    mask: u32,
    p0: u32,
    incs: Seq<u32>,
    ends: Seq<usize>,
    k: nat,
) -> (Seq<i16>, u32)
    decreases k,
{
    if k == 0 {
        (Seq::<i16>::empty(), p0)
    } else {
        let prev = fsk_iq(lut, shift, mask, p0, incs, ends, (k - 1) as nat);
        let c = (samples_before(ends, k as int) - samples_before(ends, k - 1)) as nat;
        (
            prev.0 + iq_run(lut, shift, mask, prev.1, incs[k - 1], c),
            phase_after(prev.1, incs[k - 1], c),
        )
    }
}

/// Each bit adds two values (I and Q) per sample it spans, so a frame
/// holds twice as many values as the last sample any of its bits reaches.
pub proof fn lemma_fsk_iq_len(
    lut: Seq<u32>,
    shift: u32,
    mask: u32,
    p0: u32,
    incs: Seq<u32>,
    ends: Seq<usize>,
    k: nat,
)
    ensures
        fsk_iq(lut, shift, mask, p0, incs, ends, k).0.len() == 2 * samples_before(ends, k as int),
    decreases k,
{
    if k > 0 {
        lemma_fsk_iq_len(lut, shift, mask, p0, incs, ends, (k - 1) as nat);
    }
}

/// `fsk_iq` reads only the increments of the bits it covers.
proof fn lemma_fsk_iq_prefix(
    lut: Seq<u32>,
    shift: u32,
    mask: u32,
    p0: u32,
    a: Seq<u32>,
    b: Seq<u32>,
    ends: Seq<usize>,
    k: nat,
)
    requires
        k <= a.len(),
        k <= b.len(),
        forall|j: int| 0 <= j < k ==> a[j] == b[j],
    ensures
        fsk_iq(lut, shift, mask, p0, a, ends, k) == fsk_iq(lut, shift, mask, p0, b, ends, k),
    decreases k,
{
    if k > 0 {
        lemma_fsk_iq_prefix(lut, shift, mask, p0, a, b, ends, (k - 1) as nat);
    }
}

/// `fsk_iq` reads only the increments and the ends of the bits it covers.
proof fn lemma_fsk_iq_agree(
    lut: Seq<u32>,
    shift: u32,
    mask: u32,
    p0: u32,
    ia: Seq<u32>,
    ea: Seq<usize>,
    ib: Seq<u32>,
    eb: Seq<usize>,
    k: nat,
)
    requires
        k <= ia.len(),
        k <= ib.len(),
        k <= ea.len(),
        k <= eb.len(),
        forall|j: int| 0 <= j < k ==> ia[j] == ib[j] && ea[j] == eb[j],
    ensures
        fsk_iq(lut, shift, mask, p0, ia, ea, k) == fsk_iq(lut, shift, mask, p0, ib, eb, k),
    decreases k,
{
    if k > 0 {
        lemma_fsk_iq_agree(lut, shift, mask, p0, ia, ea, ib, eb, (k - 1) as nat);
        lemma_samples_before_agree(ea, eb, k as int);
        lemma_samples_before_agree(ea, eb, k - 1);
    }
}

/// Modulating two runs of bits one after the other, the second from the
/// phase the first ends at, gives the samples of the two runs modulated as
/// one, on the chained schedule: the phase runs on without a jump.
pub proof fn lemma_fsk_iq_chain(
    lut: Seq<u32>,
    shift: u32,
    mask: u32,
    p0: u32,
    ia: Seq<u32>,
    ea: Seq<usize>,
    ka: nat,
    ib: Seq<u32>,
    eb: Seq<usize>,
    kb: nat,
)
    requires
        ka <= ia.len(),
        ka <= ea.len(),
        kb <= ib.len(),
        kb <= eb.len(),
        forall|i: int| 0 <= i < eb.len() ==> eb[i] + samples_before(ea, ka as int) <= usize::MAX,
    ensures
        ({
            let first = fsk_iq(lut, shift, mask, p0, ia, ea, ka);
            let second = fsk_iq(lut, shift, mask, first.1, ib, eb, kb);
            fsk_iq(lut, shift, mask, p0, ia.take(ka as int) + ib, chain_schedule(ea, ka, eb), ka + kb)
                == (first.0 + second.0, second.1)
        }),
    decreases kb,
{
    let ic = ia.take(ka as int) + ib;
    let ec = chain_schedule(ea, ka, eb);
    let first = fsk_iq(lut, shift, mask, p0, ia, ea, ka);
    if kb == 0 {
        lemma_fsk_iq_agree(lut, shift, mask, p0, ia, ea, ic, ec, ka);
        assert(first.0 + Seq::<i16>::empty() =~= first.0);
    } else {
        lemma_fsk_iq_chain(lut, shift, mask, p0, ia, ea, ka, ib, eb, (kb - 1) as nat);
        lemma_chain_schedule(ea, ka, eb, kb as int);
        lemma_chain_schedule(ea, ka, eb, kb - 1);
        assert(ic[ka + kb - 1] == ib[kb - 1]);
        let prev = fsk_iq(lut, shift, mask, first.1, ib, eb, (kb - 1) as nat);
        let c = (samples_before(eb, kb as int) - samples_before(eb, kb - 1)) as nat;
        let run = iq_run(lut, shift, mask, prev.1, ib[kb - 1], c);
        assert((first.0 + prev.0) + run =~= first.0 + (prev.0 + run));
    }
}

/// Each bit sends the oscillator's samples at that bit's own increment, the
/// phase running on from bit to bit and wrapping at a full turn: sample `t`
/// of bit `j` is the table entry at phase `p0 + turned(j) + t * incs[j]`
/// (mod 2^32), and the phase after `k` bits is `p0 + turned(k)` (mod 2^32).
pub proof fn lemma_fsk_iq_tones(
    lut: Seq<u32>,
    shift: u32,
    mask: u32,
    p0: u32,
    incs: Seq<u32>,
    ends: Seq<usize>,
    k: nat,
)
    requires
        k <= incs.len(),
    ensures
        fsk_iq(lut, shift, mask, p0, incs, ends, k).1 as int == (p0 + turned(incs, ends, k))
            % 0x1_0000_0000,
        forall|j: int, t: int|
            0 <= j < k && 0 <= t < samples_before(ends, j + 1) - samples_before(ends, j) ==> #[trigger] bit_sample(
                fsk_iq(lut, shift, mask, p0, incs, ends, k).0,
                ends,
                j,
                t,
            ) == unpack_iq(
                lut[lut_index(
                    ((p0 + turned(incs, ends, j as nat) + t * incs[j]) % 0x1_0000_0000) as u32,
                    shift,
                    mask,
                )],
            ),
    decreases k,
{
    if k == 0 {
        assert((p0 as int) % 0x1_0000_0000 == p0 as int);
    } else {
        let km = (k - 1) as nat;
        lemma_fsk_iq_tones(lut, shift, mask, p0, incs, ends, km);
        lemma_fsk_iq_len(lut, shift, mask, p0, incs, ends, km);
        let prev = fsk_iq(lut, shift, mask, p0, incs, ends, km);
        let inc = incs[k - 1];
        let c = (samples_before(ends, k as int) - samples_before(ends, k - 1)) as nat;
        let run = iq_run(lut, shift, mask, prev.1, inc, c);
        let out = fsk_iq(lut, shift, mask, p0, incs, ends, k).0;
        assert(out == prev.0 + run);
        lemma_phase_after_turns(prev.1, inc, c);
        lemma_turn_mod(p0 + turned(incs, ends, km), c * inc);
        assert forall|j: int, t: int|
            0 <= j < k && 0 <= t < samples_before(ends, j + 1) - samples_before(
                ends,
                j,
            ) implies #[trigger] bit_sample(out, ends, j, t) == unpack_iq(
            lut[lut_index(
                ((p0 + turned(incs, ends, j as nat) + t * incs[j]) % 0x1_0000_0000) as u32,
                shift,
                mask,
            )],
        ) by {
            let n = samples_before(ends, j) + t;
            if j < k - 1 {
                lemma_samples_before_mono(ends, j + 1, k - 1);
                assert(bit_sample(out, ends, j, t) == bit_sample(prev.0, ends, j, t));
            } else {
                assert(j == k - 1);
                let r = 2 * t;
                assert(out[2 * n] == run[r]);
                assert(out[2 * n + 1] == run[r + 1]);
                assert(r / 2 == t);
                assert((r + 1) / 2 == t);
                lemma_phase_after_turns(prev.1, inc, t as nat);
                lemma_turn_mod(p0 + turned(incs, ends, km), t * inc);
            }
        }
    }
}

/// The increment each bit is sent with: the upper tone for a 1, the lower
/// tone for a 0.
pub proof fn lemma_bit_increments(data: Seq<u8>, pos: u32, neg: u32)
    ensures
        incs_of(data_bits(data), pos, neg).len() == 8 * data.len(),
        forall|j: int|
            0 <= j < 8 * data.len() ==> #[trigger] incs_of(data_bits(data), pos, neg)[j] == if data_bit(
                data,
                j,
            ) == 1 {
                pos
            } else {
                neg
            },
{
}

/// 2-FSK modulator producing interleaved 16-bit I/Q samples.
pub struct FskModulator {
    nco: TableNco,
    phase_inc_pos: u32,
    phase_inc_neg: u32,
    preamble_syncword_iq: Vec<i16>,
    frame_start_phase: u32,
}

impl FskModulator {
    /// The oscillator's table is indexed by a shift of less than a word.
    pub closed spec fn wf(&self) -> bool {
        self.nco.lut_shift() < 32
    }

    pub closed spec fn nco(&self) -> TableNco {
        self.nco
    }

    pub closed spec fn phase_inc_pos(&self) -> u32 {
        self.phase_inc_pos
    }

    pub closed spec fn phase_inc_neg(&self) -> u32 {
        self.phase_inc_neg
    }

    pub closed spec fn preamble_syncword(&self) -> Seq<i16> {
        self.preamble_syncword_iq@
    }

    /// Oscillator phase every frame starts from: the phase the cached
    /// preamble and syncword end at.
    pub closed spec fn frame_start_phase(&self) -> u32 {
        self.frame_start_phase
    }

    /// Samples of `data` and the oscillator phase after them, the oscillator
    /// starting at phase `p0`.
    pub open spec fn modulated_from(&self, p0: u32, data: Seq<u8>, ends: Seq<usize>) -> (
        Seq<i16>,
        u32,
    ) {
        fsk_iq(
            self.nco().lut(),
            self.nco().lut_shift(),
            self.nco().lut_mask(),
            p0,
            incs_of(data_bits(data), self.phase_inc_pos(), self.phase_inc_neg()),
            ends,
            8 * data.len(),
        )
    }

    /// Samples of `data` and the oscillator phase after them, the oscillator
    /// going on from where it stands.
    pub open spec fn modulated(&self, data: Seq<u8>, ends: Seq<usize>) -> (Seq<i16>, u32) {
        self.modulated_from(self.nco().phase(), data, ends)
    }

    /// State after modulating `data` from oscillator phase `p0`: only the
    /// oscillator phase moves.
    pub open spec fn after_modulation_from(
        &self,
        post: &Self,
        p0: u32,
        data: Seq<u8>,
        ends: Seq<usize>,
    ) -> bool {
        &&& post.nco().phase() == self.modulated_from(p0, data, ends).1
        &&& post.nco().lut() == self.nco().lut()
        &&& post.nco().lut_shift() == self.nco().lut_shift()
        &&& post.nco().lut_mask() == self.nco().lut_mask()
        &&& post.phase_inc_pos() == self.phase_inc_pos()
        &&& post.phase_inc_neg() == self.phase_inc_neg()
    }

    /// State after modulating `data` from where the oscillator stands.
    pub open spec fn after_modulation(&self, post: &Self, data: Seq<u8>, ends: Seq<usize>) -> bool {
        self.after_modulation_from(post, self.nco().phase(), data, ends)
    }

    /// A modulator at `sample_rate` samples per second with the given
    /// frequency deviation, over an oscillator table of `2^LUT_SIZE_BITS`
    /// entries, without preamble or syncword.
    pub fn new(sample_rate: u32, deviation: u32, lut: Vec<u32>) -> (m: Self)
        requires
            sample_rate > 0,
            lut@.len() == vstd::arithmetic::power2::pow2(LUT_SIZE_BITS as nat),
        ensures
            m.phase_inc_pos() == deviation_increment(deviation, sample_rate),
            m.phase_inc_neg() == negated_increment(m.phase_inc_pos()),
            m.nco().phase() == 0,
            m.nco().lut() == lut@,
            m.nco().lut_shift() == 32 - LUT_SIZE_BITS,
            m.nco().lut_mask() as int == lut@.len() - 1,
            m.preamble_syncword() == Seq::<i16>::empty(),
            m.frame_start_phase() == 0,
            m.wf(),
    {
        let (phase_inc_pos, phase_inc_neg) = tone_increments(sample_rate, deviation);
        FskModulator {
            nco: TableNco::new(LUT_SIZE_BITS, lut),
            phase_inc_pos,
            phase_inc_neg,
            preamble_syncword_iq: Vec::new(),
            frame_start_phase: 0,
        }
    }

    /// Parses the preamble byte and the syncword, and caches the samples of
    /// the preamble byte repeated `preamble_repetition` times followed by the
    /// syncword, and the oscillator phase they end at, from which every frame
    /// is then modulated. `bit_ends` gives the end sample of each of those
    /// bits.
    pub fn set_preamble_and_syncword(
        &mut self,
        preamble_str: &str,
        preamble_repetition: u32,
        syncword_str: &str,
        bit_ends: &[usize],
    ) -> (res: Result<(), HexError>)
        requires
            old(self).wf(),
            spec_parse_hex_byte(preamble_str.spec_bytes()) is Ok ==> !hex_pairs_panics(
                pad_even(trim_hex_prefix(syncword_str.spec_bytes())),
            ),
            spec_parse_hex_byte(preamble_str.spec_bytes()) matches Ok(p) ==> spec_parse_hex_bytes(
                syncword_str.spec_bytes(),
            ) matches Ok(w) ==> schedule_covers(
                preamble_data(p, preamble_repetition, w).len(),
                bit_ends@,
            ),
        ensures
            spec_parse_hex_byte(preamble_str.spec_bytes()) matches Err(e) ==> fault_view(res) == Err::<
                (),
                HexFault,
            >(e) && *final(self) == *old(self),
            spec_parse_hex_byte(preamble_str.spec_bytes()) is Ok ==> (spec_parse_hex_bytes(
                syncword_str.spec_bytes(),
            ) matches Err(e) ==> fault_view(res) == Err::<(), HexFault>(e) && *final(self) == *old(
                self,
            )),
            spec_parse_hex_byte(preamble_str.spec_bytes()) matches Ok(p) ==> spec_parse_hex_bytes(
                syncword_str.spec_bytes(),
            ) matches Ok(w) ==> {
                let data = preamble_data(p, preamble_repetition, w);
                &&& res is Ok
                &&& final(self).wf()
                &&& final(self).preamble_syncword() == old(self).modulated(data, bit_ends@).0
                &&& final(self).frame_start_phase() == old(self).modulated(data, bit_ends@).1
                &&& old(self).after_modulation(&*final(self), data, bit_ends@)
            },
    {
        let preamble_byte = match parse_hex_byte(preamble_str) {
            Ok(b) => b,
            Err(e) => return Err(e),
        };
        let syncword = match parse_hex_bytes(syncword_str) {
            Ok(w) => w,
            Err(e) => return Err(e),
        };
        let ghost w = syncword@;
        let ghost target = preamble_data(preamble_byte, preamble_repetition, w);
        let n_ends = bit_ends.len();
        assert(8 * target.len() <= n_ends);
        let mut data: Vec<u8> = Vec::with_capacity(preamble_repetition as usize + syncword.len());
        let mut r: u32 = 0;
        while r < preamble_repetition
            invariant
                r <= preamble_repetition,
                data@ == Seq::new(r as nat, |i: int| preamble_byte),
            decreases preamble_repetition - r,
        {
            data.push(preamble_byte);
            assert(data@ =~= Seq::new((r + 1) as nat, |i: int| preamble_byte));
            r = r + 1;
        }
        let mut i: usize = 0;
        let ghost head = data@;
        while i < syncword.len()
            invariant
                i <= syncword@.len(),
                w == syncword@,
                data@ == head + w.take(i as int),
            decreases syncword@.len() - i,
        {
            data.push(syncword[i]);
            assert(data@ =~= head + w.take(i + 1));
            i = i + 1;
        }
        assert(data@ =~= target);
        let iq = self.modulate_internal(data.as_slice(), bit_ends);
        self.preamble_syncword_iq = iq;
        self.frame_start_phase = self.nco.current_phase();
        Ok(())
    }

    /// The cached samples of the preamble and syncword.
    pub fn get_preamble_syncword_iq(&self) -> (iq: &[i16])
        ensures
            iq@ == self.preamble_syncword(),
    {
        self.preamble_syncword_iq.as_slice()
    }

    /// Modulates a frame, the oscillator starting from the phase the cached
    /// preamble and syncword end at, so that they and the frame make one
    /// continuous-phase signal.
    pub fn modulate(&mut self, data: &[u8], bit_ends: &[usize]) -> (iq: Vec<i16>)
        requires
            old(self).wf(),
            schedule_covers(data@.len(), bit_ends@),
        ensures
            iq@ == old(self).modulated_from(old(self).frame_start_phase(), data@, bit_ends@).0,
            old(self).after_modulation_from(
                &*final(self),
                old(self).frame_start_phase(),
                data@,
                bit_ends@,
            ),
            final(self).preamble_syncword() == old(self).preamble_syncword(),
            final(self).frame_start_phase() == old(self).frame_start_phase(),
            final(self).wf(),
    {
        self.nco.set_phase(self.frame_start_phase);
        self.modulate_internal(data, bit_ends)
    }

    fn modulate_internal(&mut self, data: &[u8], bit_ends: &[usize]) -> (iq: Vec<i16>)
        requires
            old(self).wf(),
            schedule_covers(data@.len(), bit_ends@),
        ensures
            iq@ == old(self).modulated(data@, bit_ends@).0,
            old(self).after_modulation(&*final(self), data@, bit_ends@),
            final(self).preamble_syncword() == old(self).preamble_syncword(),
            final(self).frame_start_phase() == old(self).frame_start_phase(),
            final(self).wf(),
    {
        let ghost raw = data_bits(data@);
        let ghost ends = bit_ends@;
        let ghost lut = self.nco.lut();
        let ghost shift = self.nco.lut_shift();
        let ghost mask = self.nco.lut_mask();
        let ghost p0 = self.nco.phase();
        let pos = self.phase_inc_pos;
        let neg = self.phase_inc_neg;
        let n_ends = bit_ends.len();
        assert(8 * data@.len() <= n_ends);
        let n_bits = data.len() * 8;
        let mut buffer: Vec<i16> = Vec::new();
        let mut cur: usize = 0;
        let mut k: usize = 0;
        let ghost mut line: Seq<u8> = Seq::empty();
        assert(raw.take(0) =~= Seq::<u8>::empty());
        while k < n_bits
            invariant
                n_bits == 8 * data@.len(),
                raw == data_bits(data@),
                ends == bit_ends@,
                schedule_covers(data@.len(), ends),
                k <= n_bits,
                self.nco.lut_shift() < 32,
                self.nco.lut() == lut,
                self.nco.lut_shift() == shift,
                self.nco.lut_mask() == mask,
                self.phase_inc_pos == pos,
                self.phase_inc_neg == neg,
                self.preamble_syncword_iq == old(self).preamble_syncword_iq,
                self.frame_start_phase == old(self).frame_start_phase,
                line == raw.take(k as int),
                cur == samples_before(ends, k as int),
                buffer@.len() == 2 * cur,
                buffer@ == fsk_iq(lut, shift, mask, p0, incs_of(line, pos, neg), ends, k as nat).0,
                self.nco.phase() == fsk_iq(
                    lut,
                    shift,
                    mask,
                    p0,
                    incs_of(line, pos, neg),
                    ends,
                    k as nat,
                ).1,
            decreases n_bits - k,
        {
            let byte = data[k / 8];
            let bit_idx = (k % 8) as u8;
            let bit = (byte >> (7 - bit_idx)) & 1;
            assert(bit == raw[k as int]);
            let ghost old_line = line;
            proof {
                line = line.push(bit);
            }
            assert(line =~= raw.take(k + 1));
            let phase_inc = if bit == 1 {
                pos
            } else {
                neg
            };
            let ghost incs_old = incs_of(old_line, pos, neg);
            let ghost incs_new = incs_of(line, pos, neg);
            assert(incs_new =~= incs_old.push(phase_inc));
            proof {
                lemma_fsk_iq_prefix(lut, shift, mask, p0, incs_old, incs_new, ends, k as nat);
            }
            let end = bit_ends[k];
            let to_gen = end.saturating_sub(cur);
            if to_gen > 0 {
                let mut chunk: Vec<i16> = vec![0i16; to_gen * 2];
                self.nco.fill_buffer(phase_inc, chunk.as_mut_slice());
                assert(chunk@.take(2 * (chunk@.len() / 2) as int) =~= chunk@);
                buffer.append(&mut chunk);
                cur = end;
            } else {
                assert(iq_run(lut, shift, mask, self.nco.phase(), phase_inc, 0) =~= Seq::<i16>::empty());
                assert(buffer@ + Seq::<i16>::empty() =~= buffer@);
            }
            k = k + 1;
        }
        assert(raw.take(n_bits as int) =~= raw);
        buffer
    }
}

/// Every frame continues the cached preamble and syncword without a phase
/// jump. Once `set_preamble_and_syncword` has cached the samples of `pre`
/// (turning `before` into `after`), the cached samples followed by those
/// `modulate` gives for any frame are the samples of the preamble's bits
/// followed by the frame's, modulated as one signal from where the
/// oscillator stood, on the frame's schedule chained to the preamble's.
pub proof fn lemma_frame_continues_preamble(
    before: FskModulator,
    after: FskModulator,
    pre: Seq<u8>,
    pre_ends: Seq<usize>,
    frame: Seq<u8>,
    ends: Seq<usize>,
)
    requires
        after.preamble_syncword() == before.modulated(pre, pre_ends).0,
        after.frame_start_phase() == before.modulated(pre, pre_ends).1,
        before.after_modulation(&after, pre, pre_ends),
        8 * pre.len() <= pre_ends.len(),
        8 * frame.len() <= ends.len(),
        forall|i: int|
            0 <= i < ends.len() ==> ends[i] + samples_before(pre_ends, 8 * pre.len() as int)
                <= usize::MAX,
    ensures
        after.preamble_syncword() + after.modulated_from(after.frame_start_phase(), frame, ends).0
            == fsk_iq(
            before.nco().lut(),
            before.nco().lut_shift(),
            before.nco().lut_mask(),
            before.nco().phase(),
            incs_of(data_bits(pre + frame), before.phase_inc_pos(), before.phase_inc_neg()),
            chain_schedule(pre_ends, 8 * pre.len(), ends),
            8 * pre.len() + 8 * frame.len(),
        ).0,
{
    let pos = before.phase_inc_pos();
    let neg = before.phase_inc_neg();
    let ia = incs_of(data_bits(pre), pos, neg);
    let ib = incs_of(data_bits(frame), pos, neg);
    assert(ia.take(8 * pre.len() as int) =~= ia);
    assert forall|k: int| 0 <= k < 8 * (pre.len() + frame.len()) implies #[trigger] data_bits(
        pre + frame,
    )[k] == (data_bits(pre) + data_bits(frame))[k] by {
        if k >= 8 * pre.len() {
            let j = k - 8 * pre.len();
            assert(k / 8 == pre.len() + j / 8) by (nonlinear_arith)
                requires
                    j == k - 8 * pre.len(),
                    j >= 0,
            ;
            assert(k % 8 == j % 8) by (nonlinear_arith)
                requires
                    j == k - 8 * pre.len(),
                    j >= 0,
            ;
        }
    }
    assert(data_bits(pre + frame) =~= data_bits(pre) + data_bits(frame));
    assert(incs_of(data_bits(pre + frame), pos, neg) =~= ia + ib);
    lemma_fsk_iq_chain(
        before.nco().lut(),
        before.nco().lut_shift(),
        before.nco().lut_mask(),
        before.nco().phase(),
        ia,
        pre_ends,
        8 * pre.len(),
        ib,
        ends,
        8 * frame.len(),
    );
}

} // verus!
