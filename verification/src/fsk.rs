//! Definitions shared by the 2-FSK modulators: the tone increments, the bits
//! of a frame, and the per-bit sample schedule.

use vstd::prelude::*;

verus! {

/// Number of entries of the oscillator table, as a power of two.
pub const LUT_SIZE_BITS: u32 = 10;

/// Phase increment per sample for a tone `deviation` Hz above the carrier,
/// at `sample_rate` samples per second (2^32 is a full turn), wrapped to 32
/// bits.
pub open spec fn deviation_increment(deviation: u32, sample_rate: u32) -> u32 {
    (((deviation as nat) * 0x1_0000_0000nat / (sample_rate as nat)) % 0x1_0000_0000nat) as u32
}

/// The phase increment of the opposite tone.
pub open spec fn negated_increment(inc: u32) -> u32 {
    ((0x1_0000_0000int - inc as int) % 0x1_0000_0000int) as u32
}

/// Bit `k` of `data`, the bits of each byte taken most significant first.
pub open spec fn data_bit(data: Seq<u8>, k: int) -> u8 {
    (data[k / 8] >> ((7 - k % 8) as u8)) & 1u8
}

/// The bits of `data`, most significant first.
pub open spec fn data_bits(data: Seq<u8>) -> Seq<u8> {
    Seq::new(8 * data.len(), |k: int| data_bit(data, k))
}

/// The phase increment of each transmitted bit.
pub open spec fn incs_of(line: Seq<u8>, pos: u32, neg: u32) -> Seq<u32> {
    line.map_values(
        |b: u8|
            if b == 1 {
                pos
            } else {
                neg
            },
    )
}

/// Number of samples emitted once the first `k` bits are sent: the largest
/// end index among them (samples are never taken back).
pub open spec fn samples_before(ends: Seq<usize>, k: int) -> nat
    decreases k,
{
    if k <= 0 {
        0
    } else {
        let m = samples_before(ends, k - 1);
        if ends[k - 1] > m {
            ends[k - 1] as nat
        } else {
            m
        }
    }
}

/// Samples already emitted never decrease as more bits are sent.
pub proof fn lemma_samples_before_mono(ends: Seq<usize>, j: int, k: int)
    requires
        j <= k,
    ensures
        samples_before(ends, j) <= samples_before(ends, k),
    decreases k - j,
{
    if j < k {
        lemma_samples_before_mono(ends, j, k - 1);
    }
}

/// The phase the first `k` bits turn the oscillator by, in phase units and
/// without wrapping: each bit turns it by its number of samples times its
/// increment.
pub open spec fn turned(incs: Seq<u32>, ends: Seq<usize>, k: nat) -> int
    decreases k,
{
    if k == 0 {
        0
    } else {
        turned(incs, ends, (k - 1) as nat) + (samples_before(ends, k as int) - samples_before(
            ends,
            k - 1,
        )) * incs[k - 1]
    }
}

/// The interleaved (I, Q) pair `t` samples into bit `j` of `out`.
pub open spec fn bit_sample<T>(out: Seq<T>, ends: Seq<usize>, j: int, t: int) -> (T, T) {
    let n = samples_before(ends, j) + t;
    (out[2 * n], out[2 * n + 1])
}

/// The schedule of the first `ka` bits timed by `a` followed by the bits
/// timed by `b`, these shifted to start where the former end.
pub open spec fn chain_schedule(a: Seq<usize>, ka: nat, b: Seq<usize>) -> Seq<usize> {
    Seq::new(
        ka + b.len(),
        |j: int|
            if j < ka {
                a[j]
            } else {
                (b[j - ka] + samples_before(a, ka as int)) as usize
            },
    )
}

/// `samples_before` reads only the ends of the bits it counts.
pub proof fn lemma_samples_before_agree(a: Seq<usize>, c: Seq<usize>, k: int)
    requires
        k <= a.len(),
        k <= c.len(),
        forall|j: int| 0 <= j < k ==> a[j] == c[j],
    ensures
        samples_before(a, k) == samples_before(c, k),
    decreases k,
{
    if k > 0 {
        lemma_samples_before_agree(a, c, k - 1);
    }
}

/// In a chained schedule, the bits of the second part end where they would
/// alone, shifted by the samples of the first part.
pub proof fn lemma_chain_schedule(a: Seq<usize>, ka: nat, b: Seq<usize>, j: int)
    requires
        ka <= a.len(),
        0 <= j <= b.len(),
        forall|i: int| 0 <= i < b.len() ==> b[i] + samples_before(a, ka as int) <= usize::MAX,
    ensures
        samples_before(chain_schedule(a, ka, b), ka + j) == samples_before(a, ka as int)
            + samples_before(b, j),
    decreases j,
{
    let c = chain_schedule(a, ka, b);
    if j == 0 {
        lemma_samples_before_agree(a, c, ka as int);
    } else {
        lemma_chain_schedule(a, ka, b, j - 1);
        assert(c[ka + j - 1] == b[j - 1] + samples_before(a, ka as int));
    }
}

/// The upper tone turns the phase by the deviation's share of a full turn
/// per sample, rounded down: `inc * sample_rate <= deviation * 2^32 <
/// (inc + 1) * sample_rate` when the deviation is below the sample rate; and
/// the lower tone is its opposite, the two adding up to whole turns.
pub proof fn lemma_tone_increments(deviation: u32, sample_rate: u32)
    requires
        0 < sample_rate,
        deviation < sample_rate,
    ensures
        deviation_increment(deviation, sample_rate) * sample_rate <= deviation * 0x1_0000_0000,
        deviation * 0x1_0000_0000 < (deviation_increment(deviation, sample_rate) + 1) * sample_rate,
        (deviation_increment(deviation, sample_rate) + negated_increment(
            deviation_increment(deviation, sample_rate),
        )) % 0x1_0000_0000 == 0,
{
    let num = (deviation as nat) * 0x1_0000_0000nat;
    let q = num / (sample_rate as nat);
    assert(q < 0x1_0000_0000) by (nonlinear_arith)
        requires
            q == num / (sample_rate as nat),
            num == (deviation as nat) * 0x1_0000_0000nat,
            deviation < sample_rate,
            0 < sample_rate,
    {
        vstd::arithmetic::div_mod::lemma_div_is_ordered(num as int, (sample_rate as int) * 0x1_0000_0000, sample_rate as int);
        vstd::arithmetic::div_mod::lemma_div_multiples_vanish(0x1_0000_0000, sample_rate as int);
    }
    assert(q % 0x1_0000_0000nat == q);
    vstd::arithmetic::div_mod::lemma_fundamental_div_mod(num as int, sample_rate as int);
    assert(q * sample_rate <= num && num < (q + 1) * sample_rate) by (nonlinear_arith)
        requires
            num == (sample_rate as int) * (q as int) + (num as int) % (sample_rate as int),
            0 <= (num as int) % (sample_rate as int) < sample_rate,
    ;
}

/// Bit `j` of byte `i` is bit `8 i + j` of the data.
proof fn lemma_bit_position(i: int, j: int)
    requires
        0 <= i,
        0 <= j < 8,
    ensures
        (8 * i + j) / 8 == i,
        (8 * i + j) % 8 == j,
{
    assert((8 * i + j) / 8 == i && (8 * i + j) % 8 == j) by (nonlinear_arith)
        requires
            0 <= i,
            0 <= j < 8,
    ;
}

/// A byte's bits, most significant first, rebuild the byte.
pub proof fn lemma_data_bits_msb_first(data: Seq<u8>, i: int)
    requires
        0 <= i < data.len(),
    ensures
        data[i] as int == 128 * data_bits(data)[8 * i] + 64 * data_bits(data)[8 * i + 1] + 32
            * data_bits(data)[8 * i + 2] + 16 * data_bits(data)[8 * i + 3] + 8 * data_bits(data)[8
            * i + 4] + 4 * data_bits(data)[8 * i + 5] + 2 * data_bits(data)[8 * i + 6] + data_bits(
            data,
        )[8 * i + 7],
{
    let x = data[i];
    lemma_bit_position(i, 0);
    lemma_bit_position(i, 1);
    lemma_bit_position(i, 2);
    lemma_bit_position(i, 3);
    lemma_bit_position(i, 4);
    lemma_bit_position(i, 5);
    lemma_bit_position(i, 6);
    lemma_bit_position(i, 7);
    assert(x as int == 128 * ((x >> 7u8) & 1u8) + 64 * ((x >> 6u8) & 1u8) + 32 * ((x >> 5u8) & 1u8)
        + 16 * ((x >> 4u8) & 1u8) + 8 * ((x >> 3u8) & 1u8) + 4 * ((x >> 2u8) & 1u8) + 2 * ((x
        >> 1u8) & 1u8) + ((x >> 0u8) & 1u8)) by (bit_vector);
    assert(data_bits(data)[8 * i] == (x >> 7u8) & 1u8);
    assert(data_bits(data)[8 * i + 1] == (x >> 6u8) & 1u8);
    assert(data_bits(data)[8 * i + 2] == (x >> 5u8) & 1u8);
    assert(data_bits(data)[8 * i + 3] == (x >> 4u8) & 1u8);
    assert(data_bits(data)[8 * i + 4] == (x >> 3u8) & 1u8);
    assert(data_bits(data)[8 * i + 5] == (x >> 2u8) & 1u8);
    assert(data_bits(data)[8 * i + 6] == (x >> 1u8) & 1u8);
    assert(data_bits(data)[8 * i + 7] == (x >> 0u8) & 1u8);
}

/// On a schedule whose ends never decrease, the bits sent so far end where
/// the schedule puts the last of them, so bit `k` spans `ends[k] - ends[k -
/// 1]` samples.
pub proof fn lemma_samples_before_sorted(ends: Seq<usize>, k: int)
    requires
        0 < k <= ends.len(),
        forall|a: int, b: int| 0 <= a <= b < k ==> ends[a] <= ends[b],
    ensures
        samples_before(ends, k) == ends[k - 1],
    decreases k,
{
    assert(samples_before(ends, 0) == 0);
    if k > 1 {
        lemma_samples_before_sorted(ends, k - 1);
        assert(ends[k - 2] <= ends[k - 1]);
    }
}

/// The bytes modulated for the preamble and syncword: the preamble byte
/// repeated, then the syncword.
pub open spec fn preamble_data(preamble: u8, repetition: u32, syncword: Seq<u8>) -> Seq<u8> {
    Seq::new(repetition as nat, |i: int| preamble) + syncword
}

/// What `bit_ends` must give: one end per bit, each small enough for the
/// samples up to it to be counted in memory.
pub open spec fn schedule_covers(n_bytes: nat, ends: Seq<usize>) -> bool {
    &&& 8 * n_bytes <= ends.len()
    &&& forall|k: int| 0 <= k < 8 * n_bytes ==> ends[k] <= usize::MAX / 2
}

/// Phase increments per sample of the upper and of the lower tone.
pub(crate) fn tone_increments(sample_rate: u32, deviation: u32) -> (r: (u32, u32))
    requires
        sample_rate > 0,
    ensures
        r.0 == deviation_increment(deviation, sample_rate),
        r.1 == negated_increment(r.0),
{
    let d = deviation as u64;
    let scaled = d << 32u64;
    assert(scaled == d * 0x1_0000_0000u64) by (bit_vector)
        requires
            d < 0x1_0000_0000u64,
            scaled == d << 32u64,
    ;
    let q = scaled / (sample_rate as u64);
    let phase_inc_pos = #[verifier::truncate] (q as u32);
    assert(phase_inc_pos == q % 0x1_0000_0000u64) by (bit_vector)
        requires
            phase_inc_pos == #[verifier::truncate] (q as u32),
    ;
    let phase_inc_neg = 0u32.wrapping_sub(phase_inc_pos);
    (phase_inc_pos, phase_inc_neg)
}

} // verus!
