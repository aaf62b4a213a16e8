//! The log-mel spectrogram the sound classifier reads: 25 ms frames, a 10 ms
//! hop, 128 mel bins, the mean removed and pre-emphasis before the transform.
//!
//! What is decided here is which samples a frame reads, which values meet in
//! which step, and where each result lands. The arithmetic on a value is
//! handed in, so the same code runs over any kind of number.

use crate::fourier::{fft, transforms};
use vstd::arithmetic::power2::{lemma2_to64, pow2};
use vstd::prelude::*;

verus! {

/// The rate the model was trained at, and the only one that is accepted.
pub const SAMPLE_RATE: u32 = 16_000;

/// 25 ms at 16 kHz.
pub const FRAME_LENGTH: usize = 400;

/// 10 ms at 16 kHz.
pub const HOP_LENGTH: usize = 160;

/// The transform's input size: a frame, zero-padded to the next power of two.
pub const FFT_LENGTH: usize = 512;

/// One-sided bins a real transform of `FFT_LENGTH` carries.
pub const NUM_FREQ_BINS: usize = 257;

/// Mel bins the model's encoder reads.
pub const NUM_MEL_BINS: usize = 128;

/// Frames the features are padded or truncated to.
pub const MAX_FRAMES: usize = 1024;

/// How many frames `sample_count` samples hold.
pub open spec fn frames_in(sample_count: int) -> int {
    if sample_count < FRAME_LENGTH {
        0
    } else {
        1 + (sample_count - FRAME_LENGTH) / (HOP_LENGTH as int)
    }
}

/// How many `FRAME_LENGTH`-sample frames `sample_count` samples give at
/// `HOP_LENGTH` stride, with no centering. Zero when there are not even
/// enough samples for one frame.
pub fn num_frames(sample_count: usize) -> (frames: usize)
    ensures
        frames == frames_in(sample_count as int),
{
    if sample_count < FRAME_LENGTH {
        0
    } else {
        1 + (sample_count - FRAME_LENGTH) / HOP_LENGTH
    }
}

/// The frames counted are those that fit: each ends within the samples, and
/// one more hop would not.
pub proof fn law_every_frame_fits_and_no_other_does(sample_count: int, t: int)
    requires
        0 <= sample_count,
        0 <= t,
    ensures
        t < frames_in(sample_count) <==> 160 * t + 400 <= sample_count,
{
}

/// Whether `values` are what the transform reads of the frame `samples`: each
/// sample settled about the frame's mean, sharpened by the settled sample
/// before it - not by the sharpened one - and tapered by its place, and blanks
/// up to the transform's length.
pub open spec fn frames<
    S,
    T,
    C,
    M: Fn(&[S]) -> T,
    L: Fn(S, T) -> T,
    E: Fn(T, Option<T>) -> T,
    H: Fn(usize, T) -> C,
>(
    samples: Seq<S>,
    values: Seq<C>,
    blank: C,
    mean: M,
    settle: L,
    emphasize: E,
    taper: H,
) -> bool {
    &&& values.len() == FFT_LENGTH
    &&& forall|i: int| FRAME_LENGTH <= i < FFT_LENGTH ==> values[i] == blank
    &&& exists|frame: &[S], about: T, settled: Seq<T>, sharp: Seq<T>|
        {
            &&& frame@ == samples
            &&& #[trigger] call_ensures(mean, (frame,), about)
            &&& settled.len() == FRAME_LENGTH
            &&& sharp.len() == FRAME_LENGTH
            &&& forall|i: int|
                0 <= i < FRAME_LENGTH ==> call_ensures(
                    settle,
                    (samples[i], about),
                    #[trigger] settled[i],
                )
            &&& #[trigger] sharpens(settled, sharp, emphasize)
            &&& forall|i: int|
                0 <= i < FRAME_LENGTH ==> call_ensures(
                    taper,
                    (i as usize, sharp[i]),
                    #[trigger] values[i],
                )
        }
}

/// Whether each value of `sharp` is the settled one at its place emphasized
/// against the settled one before it.
pub open spec fn sharpens<T, E: Fn(T, Option<T>) -> T>(
    settled: Seq<T>,
    sharp: Seq<T>,
    emphasize: E,
) -> bool {
    &&& sharp.len() == settled.len()
    &&& forall|i: int|
        0 <= i < settled.len() ==> call_ensures(
            emphasize,
            (
                settled[i],
                if i == 0 {
                    None
                } else {
                    Some(settled[i - 1])
                },
            ),
            #[trigger] sharp[i],
        )
}

/// What the transform reads of the frame that starts at `start`.
fn framed<
    S: Copy,
    T: Copy,
    C: Copy,
    M: Fn(&[S]) -> T,
    L: Fn(S, T) -> T,
    E: Fn(T, Option<T>) -> T,
    H: Fn(usize, T) -> C,
>(
    samples: &[S],
    start: usize,
    blank: C,
    mean: &M,
    settle: &L,
    emphasize: &E,
    taper: &H,
) -> (values: Vec<C>)
    requires
        start + FRAME_LENGTH <= samples@.len(),
        forall|frame: &[S]| frame@.len() == FRAME_LENGTH ==> call_requires(*mean, (frame,)),
        forall|sample: S, about: T| call_requires(*settle, (sample, about)),
        forall|value: T, before: Option<T>| call_requires(*emphasize, (value, before)),
        forall|i: usize, value: T| i < FRAME_LENGTH ==> call_requires(*taper, (i, value)),
    ensures
        frames(
            samples@.subrange(start as int, start + FRAME_LENGTH),
            values@,
            blank,
            *mean,
            *settle,
            *emphasize,
            *taper,
        ),
{
    let len: usize = samples.len();
    assert(start + FRAME_LENGTH <= len);
    let frame: &[S] = vstd::slice::slice_subrange(samples, start, start + FRAME_LENGTH);
    let about = mean(frame);
    let mut settled: Vec<T> = Vec::new();
    let mut i: usize = 0;
    while i < FRAME_LENGTH
        invariant
            i <= FRAME_LENGTH,
            frame@.len() == FRAME_LENGTH,
            settled@.len() == i,
            forall|sample: S, about: T| call_requires(*settle, (sample, about)),
            forall|k: int|
                0 <= k < i ==> call_ensures(*settle, (frame@[k], about), #[trigger] settled@[k]),
        decreases FRAME_LENGTH - i,
    {
        settled.push(settle(frame[i], about));
        i = i + 1;
    }
    // Every value is emphasized against its neighbour as it was, so the
    // emphasized ones go elsewhere.
    let mut sharp: Vec<T> = Vec::new();
    let mut i: usize = 0;
    while i < FRAME_LENGTH
        invariant
            i <= FRAME_LENGTH,
            settled@.len() == FRAME_LENGTH,
            sharp@.len() == i,
            forall|value: T, before: Option<T>| call_requires(*emphasize, (value, before)),
            sharpens(settled@.take(i as int), sharp@, *emphasize),
        decreases FRAME_LENGTH - i,
    {
        let before = if i == 0 {
            None
        } else {
            Some(settled[i - 1])
        };
        let ghost was = sharp@;
        let ghost taken = settled@.take(i as int);
        sharp.push(emphasize(settled[i], before));
        i = i + 1;
        proof {
            let now = settled@.take(i as int);
            assert forall|k: int| 0 <= k < now.len() implies call_ensures(
                *emphasize,
                (
                    now[k],
                    if k == 0 {
                        None
                    } else {
                        Some(now[k - 1])
                    },
                ),
                #[trigger] sharp@[k],
            ) by {
                if k < i - 1 {
                    assert(was[k] == sharp@[k]);
                    assert(now[k] == taken[k]);
                }
            }
        }
    }
    assert(settled@.take(i as int) =~= settled@);
    let mut values: Vec<C> = Vec::new();
    let mut i: usize = 0;
    while i < FRAME_LENGTH
        invariant
            i <= FRAME_LENGTH,
            sharp@.len() == FRAME_LENGTH,
            values@.len() == i,
            forall|i: usize, value: T| i < FRAME_LENGTH ==> call_requires(*taper, (i, value)),
            forall|k: int|
                0 <= k < i ==> call_ensures(*taper, (k as usize, sharp@[k]), #[trigger] values@[k]),
        decreases FRAME_LENGTH - i,
    {
        values.push(taper(i, sharp[i]));
        i = i + 1;
    }
    let ghost tapered = values@;
    while values.len() < FFT_LENGTH
        invariant
            FRAME_LENGTH <= values@.len() <= FFT_LENGTH,
            tapered.len() == FRAME_LENGTH,
            forall|k: int| 0 <= k < FRAME_LENGTH ==> values@[k] == tapered[k],
            forall|k: int| FRAME_LENGTH <= k < values@.len() ==> values@[k] == blank,
        decreases FFT_LENGTH - values@.len(),
    {
        values.push(blank);
    }
    proof {
        assert(call_ensures(*mean, (frame,), about));
        assert(sharpens(settled@, sharp@, *emphasize));
        assert forall|k: int| 0 <= k < FRAME_LENGTH implies call_ensures(
            *taper,
            (k as usize, sharp@[k]),
            #[trigger] values@[k],
        ) by {
            assert(values@[k] == tapered[k]);
        }
    }
    values
}

/// The triangular mel filter bank, row-major by frequency bin: filter `mel`
/// spans the boundary points `mel`, `mel + 1` and `mel + 2`, and `triangle` is
/// the weight it gives a frequency, from those three.
pub fn mel_filter_bank<T: Copy, R: Fn(T, T, T, T) -> T>(
    freqs: &Vec<T>,
    boundaries: &Vec<T>,
    triangle: &R,
) -> (filters: Vec<T>)
    requires
        freqs@.len() == NUM_FREQ_BINS,
        boundaries@.len() == NUM_MEL_BINS + 2,
        forall|freq: T, low: T, peak: T, high: T|
            call_requires(*triangle, (freq, low, peak, high)),
    ensures
        filters@.len() == NUM_FREQ_BINS * NUM_MEL_BINS,
        forall|bin: int, mel: int|
            0 <= bin < NUM_FREQ_BINS && 0 <= mel < NUM_MEL_BINS ==> #[trigger] weighs(
                freqs@[bin],
                boundaries@,
                mel,
                filters@[bin * NUM_MEL_BINS + mel],
                *triangle,
            ),
{
    let mut filters: Vec<T> = Vec::new();
    let mut bin: usize = 0;
    while bin < NUM_FREQ_BINS
        invariant
            bin <= NUM_FREQ_BINS,
            freqs@.len() == NUM_FREQ_BINS,
            boundaries@.len() == NUM_MEL_BINS + 2,
            filters@.len() == bin * NUM_MEL_BINS,
            forall|freq: T, low: T, peak: T, high: T|
                call_requires(*triangle, (freq, low, peak, high)),
            forall|b: int, m: int|
                0 <= b < bin && 0 <= m < NUM_MEL_BINS ==> #[trigger] weighs(
                    freqs@[b],
                    boundaries@,
                    m,
                    filters@[b * NUM_MEL_BINS + m],
                    *triangle,
                ),
        decreases NUM_FREQ_BINS - bin,
    {
        let mut mel: usize = 0;
        while mel < NUM_MEL_BINS
            invariant
                bin < NUM_FREQ_BINS,
                mel <= NUM_MEL_BINS,
                freqs@.len() == NUM_FREQ_BINS,
                boundaries@.len() == NUM_MEL_BINS + 2,
                filters@.len() == bin * NUM_MEL_BINS + mel,
                forall|freq: T, low: T, peak: T, high: T|
                    call_requires(*triangle, (freq, low, peak, high)),
                forall|b: int, m: int|
                    ((0 <= b < bin && 0 <= m < NUM_MEL_BINS) || (b == bin && 0 <= m < mel))
                        ==> #[trigger] weighs(
                        freqs@[b],
                        boundaries@,
                        m,
                        filters@[b * NUM_MEL_BINS + m],
                        *triangle,
                    ),
            decreases NUM_MEL_BINS - mel,
        {
            let ghost was = filters@;
            let weight = triangle(
                freqs[bin],
                boundaries[mel],
                boundaries[mel + 1],
                boundaries[mel + 2],
            );
            filters.push(weight);
            proof {
                assert forall|b: int, m: int|
                    ((0 <= b < bin && 0 <= m < NUM_MEL_BINS) || (b == bin && 0 <= m < mel + 1)) implies #[trigger] weighs(
                    freqs@[b],
                    boundaries@,
                    m,
                    filters@[b * NUM_MEL_BINS + m],
                    *triangle,
                ) by {
                    if b < bin || m < mel {
                        assert(weighs(
                            freqs@[b],
                            boundaries@,
                            m,
                            was[b * NUM_MEL_BINS + m],
                            *triangle,
                        ));
                    }
                }
            }
            mel = mel + 1;
        }
        bin = bin + 1;
    }
    filters
}

/// Whether `weight` is what filter `mel` gives a frequency.
pub open spec fn weighs<T, R: Fn(T, T, T, T) -> T>(
    freq: T,
    boundaries: Seq<T>,
    mel: int,
    weight: T,
    triangle: R,
) -> bool {
    call_ensures(
        triangle,
        (freq, boundaries[mel], boundaries[mel + 1], boundaries[mel + 2]),
        weight,
    )
}

/// Whether `powers` are those of the first bins of a spectrum.
pub open spec fn powered<C, T, P: Fn(C) -> T>(
    spectrum: Seq<C>,
    powers: Seq<T>,
    power: P,
) -> bool {
    forall|bin: int|
        0 <= bin < powers.len() ==> call_ensures(power, (spectrum[bin],), #[trigger] powers[bin])
}

/// Whether `sums` are what filter `mel` gathers of the powers, bin after bin:
/// each sum is the one before it, the filter's weight at the bin and the
/// bin's power taken together.
pub open spec fn gathers<T, Q: Fn(T, T, T) -> T>(
    powers: Seq<T>,
    filters: Seq<T>,
    mel: int,
    sums: Seq<T>,
    gather: Q,
) -> bool {
    &&& sums.len() == NUM_FREQ_BINS + 1
    &&& forall|bin: int|
        0 <= bin < NUM_FREQ_BINS ==> call_ensures(
            gather,
            (sums[bin], filters[bin * NUM_MEL_BINS + mel], #[trigger] powers[bin]),
            sums[bin + 1],
        )
}

/// Whether `value` is what filter `mel` makes of the powers: its sum over the
/// bins, from `zero` on, finished.
pub open spec fn projects<T, Q: Fn(T, T, T) -> T, F: Fn(T) -> T>(
    powers: Seq<T>,
    filters: Seq<T>,
    mel: int,
    value: T,
    zero: T,
    gather: Q,
    finish: F,
) -> bool {
    exists|sums: Seq<T>|
        {
            &&& #[trigger] gathers(powers, filters, mel, sums, gather)
            &&& sums.first() == zero
            &&& call_ensures(finish, (sums.last(),), value)
        }
}

/// What one filter makes of the powers of the one-sided bins.
pub fn project<T: Copy, Q: Fn(T, T, T) -> T, F: Fn(T) -> T>(
    powers: &Vec<T>,
    filters: &Vec<T>,
    mel: usize,
    zero: T,
    gather: &Q,
    finish: &F,
) -> (value: T)
    requires
        powers@.len() == NUM_FREQ_BINS,
        filters@.len() == NUM_FREQ_BINS * NUM_MEL_BINS,
        mel < NUM_MEL_BINS,
        forall|sum: T, weight: T, power: T| call_requires(*gather, (sum, weight, power)),
        forall|sum: T| call_requires(*finish, (sum,)),
    ensures
        projects(powers@, filters@, mel as int, value, zero, *gather, *finish),
{
    let mut sum: T = zero;
    let ghost mut sums: Seq<T> = seq![zero];
    let mut bin: usize = 0;
    while bin < NUM_FREQ_BINS
        invariant
            bin <= NUM_FREQ_BINS,
            mel < NUM_MEL_BINS,
            powers@.len() == NUM_FREQ_BINS,
            filters@.len() == NUM_FREQ_BINS * NUM_MEL_BINS,
            forall|sum: T, weight: T, power: T| call_requires(*gather, (sum, weight, power)),
            sums.len() == bin + 1,
            sums.first() == zero,
            sums.last() == sum,
            forall|b: int|
                0 <= b < bin ==> call_ensures(
                    *gather,
                    (sums[b], filters@[b * NUM_MEL_BINS + mel], #[trigger] powers@[b]),
                    sums[b + 1],
                ),
        decreases NUM_FREQ_BINS - bin,
    {
        let ghost was = sums;
        sum = gather(sum, filters[bin * NUM_MEL_BINS + mel], powers[bin]);
        proof {
            sums = sums.push(sum);
            assert forall|b: int| 0 <= b < bin + 1 implies call_ensures(
                *gather,
                (sums[b], filters@[b * NUM_MEL_BINS + mel], #[trigger] powers@[b]),
                sums[b + 1],
            ) by {
                assert(sums[b] == was[b]);
                if b < bin {
                    assert(sums[b + 1] == was[b + 1]);
                }
            }
        }
        bin = bin + 1;
    }
    assert(gathers(powers@, filters@, mel as int, sums, *gather));
    finish(sum)
}

/// Whether `row` is the mel row of a spectrum: each bin is what a filter makes
/// of the powers of the one-sided bins.
pub open spec fn mels<C, T, P: Fn(C) -> T, Q: Fn(T, T, T) -> T, F: Fn(T) -> T>(
    spectrum: Seq<C>,
    row: Seq<T>,
    power: P,
    filters: Seq<T>,
    zero: T,
    gather: Q,
    finish: F,
) -> bool {
    &&& row.len() == NUM_MEL_BINS
    &&& exists|powers: Seq<T>|
        {
            &&& powers.len() == NUM_FREQ_BINS
            &&& #[trigger] powered(spectrum, powers, power)
            &&& forall|m: int|
                0 <= m < NUM_MEL_BINS ==> projects(
                    powers,
                    filters,
                    m,
                    #[trigger] row[m],
                    zero,
                    gather,
                    finish,
                )
        }
}

fn mel_row<C: Copy, T: Copy, P: Fn(C) -> T, Q: Fn(T, T, T) -> T, F: Fn(T) -> T>(
    spectrum: &Vec<C>,
    power: &P,
    filters: &Vec<T>,
    zero: T,
    gather: &Q,
    finish: &F,
) -> (row: Vec<T>)
    requires
        spectrum@.len() >= NUM_FREQ_BINS,
        filters@.len() == NUM_FREQ_BINS * NUM_MEL_BINS,
        forall|value: C| call_requires(*power, (value,)),
        forall|sum: T, weight: T, power: T| call_requires(*gather, (sum, weight, power)),
        forall|sum: T| call_requires(*finish, (sum,)),
    ensures
        mels(spectrum@, row@, *power, filters@, zero, *gather, *finish),
{
    let mut powers: Vec<T> = Vec::new();
    let mut bin: usize = 0;
    while bin < NUM_FREQ_BINS
        invariant
            bin <= NUM_FREQ_BINS <= spectrum@.len(),
            powers@.len() == bin,
            forall|value: C| call_requires(*power, (value,)),
            powered(spectrum@, powers@, *power),
        decreases NUM_FREQ_BINS - bin,
    {
        powers.push(power(spectrum[bin]));
        bin = bin + 1;
    }
    let mut row: Vec<T> = Vec::new();
    let mut m: usize = 0;
    while m < NUM_MEL_BINS
        invariant
            m <= NUM_MEL_BINS,
            row@.len() == m,
            powers@.len() == NUM_FREQ_BINS,
            filters@.len() == NUM_FREQ_BINS * NUM_MEL_BINS,
            forall|sum: T, weight: T, power: T| call_requires(*gather, (sum, weight, power)),
            forall|sum: T| call_requires(*finish, (sum,)),
            forall|k: int|
                0 <= k < m ==> projects(
                    powers@,
                    filters@,
                    k,
                    #[trigger] row@[k],
                    zero,
                    *gather,
                    *finish,
                ),
        decreases NUM_MEL_BINS - m,
    {
        row.push(project(&powers, filters, m, zero, gather, finish));
        m = m + 1;
    }
    assert(powered(spectrum@, powers@, *power));
    row
}

/// The arithmetic of a row, which is not this module's: how a frame's mean is
/// taken and taken off, how a sample is emphasized and tapered, how two values
/// meet in the transform, what a bin's power is, and how a filter gathers
/// powers and finishes their sum. What meets what is `frame_row`'s.
pub struct Formulas<T, C, W, M, L, E, H, G, N, B, P, Q, F> {
    /// The mean of a frame's samples.
    pub mean: M,
    /// A sample without the mean.
    pub settle: L,
    /// A settled sample against the settled one before it.
    pub emphasize: E,
    /// An emphasized sample under the window, by its place.
    pub taper: H,
    /// What the frame is padded with.
    pub blank: C,
    /// The factor a stage of the transform begins with.
    pub one: W,
    /// The factor a stage over blocks of a length turns by.
    pub step: G,
    /// A factor turned by another.
    pub turn: N,
    /// What two values that meet under a factor become.
    pub butterfly: B,
    /// The power of a bin.
    pub power: P,
    /// The filters' weights, bin-major.
    pub filters: Vec<T>,
    /// An empty sum, and what a row that is missing is filled with.
    pub zero: T,
    /// A sum with one bin more: the sum so far, the weight and the power.
    pub gather: Q,
    /// A bin of the row out of its sum.
    pub finish: F,
}

/// Whether the arithmetic takes whatever it may be handed.
pub open spec fn ready<
    S,
    T,
    C,
    W,
    M: Fn(&[S]) -> T,
    L: Fn(S, T) -> T,
    E: Fn(T, Option<T>) -> T,
    H: Fn(usize, T) -> C,
    G: Fn(usize) -> W,
    N: Fn(W, W) -> W,
    B: Fn(C, C, W) -> (C, C),
    P: Fn(C) -> T,
    Q: Fn(T, T, T) -> T,
    F: Fn(T) -> T,
>(formulas: Formulas<T, C, W, M, L, E, H, G, N, B, P, Q, F>) -> bool {
    &&& forall|frame: &[S]|
        frame@.len() == FRAME_LENGTH ==> call_requires(formulas.mean, (frame,))
    &&& forall|sample: S, about: T| call_requires(formulas.settle, (sample, about))
    &&& forall|value: T, before: Option<T>| call_requires(formulas.emphasize, (value, before))
    &&& forall|i: usize, value: T| i < FRAME_LENGTH ==> call_requires(formulas.taper, (i, value))
    &&& forall|len: usize| call_requires(formulas.step, (len,))
    &&& forall|w: W, by: W| call_requires(formulas.turn, (w, by))
    &&& forall|a: C, b: C, w: W| call_requires(formulas.butterfly, (a, b, w))
    &&& forall|value: C| call_requires(formulas.power, (value,))
    &&& formulas.filters@.len() == NUM_FREQ_BINS * NUM_MEL_BINS
    &&& forall|sum: T, weight: T, power: T| call_requires(formulas.gather, (sum, weight, power))
    &&& forall|sum: T| call_requires(formulas.finish, (sum,))
}

/// Whether `row` is the row of a frame's samples: what the transform reads of
/// them, its spectrum, and the mel projection of that.
pub open spec fn rows_to<
    S,
    T,
    C,
    W,
    M: Fn(&[S]) -> T,
    L: Fn(S, T) -> T,
    E: Fn(T, Option<T>) -> T,
    H: Fn(usize, T) -> C,
    G: Fn(usize) -> W,
    N: Fn(W, W) -> W,
    B: Fn(C, C, W) -> (C, C),
    P: Fn(C) -> T,
    Q: Fn(T, T, T) -> T,
    F: Fn(T) -> T,
>(frame: Seq<S>, row: Seq<T>, formulas: Formulas<T, C, W, M, L, E, H, G, N, B, P, Q, F>) -> bool {
    exists|values: Seq<C>, spectrum: Seq<C>|
        {
            &&& frames(
                frame,
                values,
                formulas.blank,
                formulas.mean,
                formulas.settle,
                formulas.emphasize,
                formulas.taper,
            )
            &&& #[trigger] transforms(
                values,
                spectrum,
                formulas.one,
                formulas.step,
                formulas.turn,
                formulas.butterfly,
            )
            &&& mels(
                spectrum,
                row,
                formulas.power,
                formulas.filters@,
                formulas.zero,
                formulas.gather,
                formulas.finish,
            )
        }
}

/// One frame's row: the mean removed, pre-emphasis, the taper, the transform
/// zero-padded to `FFT_LENGTH`, the power of each bin, and the mel projection
/// of those powers.
pub fn frame_row<
    S: Copy,
    T: Copy,
    C: Copy,
    W: Copy,
    M: Fn(&[S]) -> T,
    L: Fn(S, T) -> T,
    E: Fn(T, Option<T>) -> T,
    H: Fn(usize, T) -> C,
    G: Fn(usize) -> W,
    N: Fn(W, W) -> W,
    B: Fn(C, C, W) -> (C, C),
    P: Fn(C) -> T,
    Q: Fn(T, T, T) -> T,
    F: Fn(T) -> T,
>(
    samples: &[S],
    start: usize,
    formulas: &Formulas<T, C, W, M, L, E, H, G, N, B, P, Q, F>,
) -> (row: Vec<T>)
    requires
        start + FRAME_LENGTH <= samples@.len(),
        ready::<S, T, C, W, M, L, E, H, G, N, B, P, Q, F>(*formulas),
    ensures
        rows_to(
            samples@.subrange(start as int, start + FRAME_LENGTH),
            row@,
            *formulas,
        ),
        row@.len() == NUM_MEL_BINS,
{
    let mut values = framed(
        samples,
        start,
        formulas.blank,
        &formulas.mean,
        &formulas.settle,
        &formulas.emphasize,
        &formulas.taper,
    );
    assert(values@.len() == pow2(9)) by {
        lemma2_to64();
    }
    let ghost before = values@;
    fft(&mut values, formulas.one, &formulas.step, &formulas.turn, &formulas.butterfly);
    assert(transforms(
        before,
        values@,
        formulas.one,
        formulas.step,
        formulas.turn,
        formulas.butterfly,
    ));
    mel_row(
        &values,
        &formulas.power,
        &formulas.filters,
        formulas.zero,
        &formulas.gather,
        &formulas.finish,
    )
}

/// Whether `features` are the rows laid out one after another, each value
/// normalized, and normalized zeros wherever there is no row.
pub open spec fn lays_out<T, U, N: Fn(T) -> U>(
    rows: Seq<Seq<T>>,
    zero: T,
    features: Seq<U>,
    normalize: N,
) -> bool {
    &&& features.len() == MAX_FRAMES * NUM_MEL_BINS
    &&& rows.len() <= MAX_FRAMES
    &&& forall|t: int, m: int|
        0 <= t < rows.len() && 0 <= m < NUM_MEL_BINS ==> #[trigger] normalizes(
            normalize,
            rows[t][m],
            features[t * NUM_MEL_BINS + m],
        )
    &&& exists|padded: U|
        {
            &&& #[trigger] normalizes(normalize, zero, padded)
            &&& forall|i: int|
                rows.len() * NUM_MEL_BINS <= i < features.len() ==> features[i] == padded
        }
}

/// Whether a value normalizes to another.
pub open spec fn normalizes<T, U, N: Fn(T) -> U>(normalize: N, value: T, to: U) -> bool {
    call_ensures(normalize, (value,), to)
}

/// Whether `rows` are the rows of the frames the samples hold, `MAX_FRAMES`
/// at most, each `HOP_LENGTH` samples after the one before it.
pub open spec fn reads_rows<
    S,
    T,
    C,
    W,
    M: Fn(&[S]) -> T,
    L: Fn(S, T) -> T,
    E: Fn(T, Option<T>) -> T,
    H: Fn(usize, T) -> C,
    G: Fn(usize) -> W,
    N: Fn(W, W) -> W,
    B: Fn(C, C, W) -> (C, C),
    P: Fn(C) -> T,
    Q: Fn(T, T, T) -> T,
    F: Fn(T) -> T,
>(samples: Seq<S>, rows: Seq<Seq<T>>, formulas: Formulas<T, C, W, M, L, E, H, G, N, B, P, Q, F>) -> bool {
    &&& rows.len() == if frames_in(samples.len() as int) < MAX_FRAMES {
        frames_in(samples.len() as int)
    } else {
        MAX_FRAMES as int
    }
    &&& forall|t: int|
        0 <= t < rows.len() ==> rows_to(
            samples.subrange(t * HOP_LENGTH, t * HOP_LENGTH + FRAME_LENGTH),
            #[trigger] rows[t],
            formulas,
        )
}

/// The samples as the model's features: `MAX_FRAMES * NUM_MEL_BINS` values,
/// frame-major, padded with normalized zero rows when there are fewer than
/// `MAX_FRAMES` frames and truncated when there are more.
pub fn extract<
    S: Copy,
    T: Copy,
    C: Copy,
    W: Copy,
    M: Fn(&[S]) -> T,
    L: Fn(S, T) -> T,
    E: Fn(T, Option<T>) -> T,
    H: Fn(usize, T) -> C,
    G: Fn(usize) -> W,
    N: Fn(W, W) -> W,
    B: Fn(C, C, W) -> (C, C),
    P: Fn(C) -> T,
    Q: Fn(T, T, T) -> T,
    F: Fn(T) -> T,
    U: Copy,
    Z: Fn(T) -> U,
>(
    samples: &[S],
    formulas: &Formulas<T, C, W, M, L, E, H, G, N, B, P, Q, F>,
    normalize: &Z,
) -> (features: Vec<U>)
    requires
        ready::<S, T, C, W, M, L, E, H, G, N, B, P, Q, F>(*formulas),
        forall|value: T| call_requires(*normalize, (value,)),
    ensures
        exists|rows: Seq<Seq<T>>|
            #[trigger] reads_rows(samples@, rows, *formulas) && lays_out(
                rows,
                formulas.zero,
                features@,
                *normalize,
            ),
{
    let count: usize = num_frames(samples.len());
    let frames: usize = if count < MAX_FRAMES {
        count
    } else {
        MAX_FRAMES
    };
    let mut out: Vec<U> = Vec::new();
    let ghost mut rows: Seq<Seq<T>> = Seq::empty();
    let mut t: usize = 0;
    while t < frames
        invariant
            t <= frames <= MAX_FRAMES,
            frames <= frames_in(samples@.len() as int),
            rows.len() == t,
            out@.len() == t * NUM_MEL_BINS,
            ready::<S, T, C, W, M, L, E, H, G, N, B, P, Q, F>(*formulas),
            forall|value: T| call_requires(*normalize, (value,)),
            forall|s: int|
                0 <= s < t ==> rows_to(
                    samples@.subrange(s * HOP_LENGTH, s * HOP_LENGTH + FRAME_LENGTH),
                    #[trigger] rows[s],
                    *formulas,
                ),
            forall|s: int, m: int|
                0 <= s < t && 0 <= m < NUM_MEL_BINS ==> #[trigger] normalizes(
                    *normalize,
                    rows[s][m],
                    out@[s * NUM_MEL_BINS + m],
                ),
        decreases frames - t,
    {
        proof {
            law_every_frame_fits_and_no_other_does(samples@.len() as int, t as int);
        }
        let values = frame_row(samples, t * HOP_LENGTH, formulas);
        let ghost was = out@;
        let ghost rows_before = rows;
        let mut m: usize = 0;
        while m < NUM_MEL_BINS
            invariant
                m <= NUM_MEL_BINS,
                values@.len() == NUM_MEL_BINS,
                was.len() == t * NUM_MEL_BINS,
                out@.len() == was.len() + m,
                forall|value: T| call_requires(*normalize, (value,)),
                forall|i: int| 0 <= i < was.len() ==> out@[i] == was[i],
                forall|k: int|
                    0 <= k < m ==> normalizes(
                        *normalize,
                        #[trigger] values@[k],
                        out@[was.len() + k],
                    ),
            decreases NUM_MEL_BINS - m,
        {
            let normalized = normalize(values[m]);
            out.push(normalized);
            m = m + 1;
        }
        proof {
            rows = rows.push(values@);
            assert forall|s: int| 0 <= s < t + 1 implies rows_to(
                samples@.subrange(s * HOP_LENGTH, s * HOP_LENGTH + FRAME_LENGTH),
                #[trigger] rows[s],
                *formulas,
            ) by {
                if s < t {
                    assert(rows[s] == rows_before[s]);
                }
            }
            assert forall|s: int, k: int|
                0 <= s < t + 1 && 0 <= k < NUM_MEL_BINS implies #[trigger] normalizes(
                *normalize,
                rows[s][k],
                out@[s * NUM_MEL_BINS + k],
            ) by {
                if s < t {
                    assert(normalizes(*normalize, rows_before[s][k], was[s * NUM_MEL_BINS + k]));
                } else {
                    assert(normalizes(*normalize, values@[k], out@[was.len() + k]));
                }
            }
        }
        t = t + 1;
    }
    let padded = normalize(formulas.zero);
    let ghost written = out@;
    while out.len() < MAX_FRAMES * NUM_MEL_BINS
        invariant
            written.len() <= out@.len() <= MAX_FRAMES * NUM_MEL_BINS,
            forall|i: int| 0 <= i < written.len() ==> out@[i] == written[i],
            forall|i: int| written.len() <= i < out@.len() ==> out@[i] == padded,
        decreases MAX_FRAMES * NUM_MEL_BINS - out@.len(),
    {
        out.push(padded);
    }
    proof {
        assert forall|s: int, m: int|
            0 <= s < rows.len() && 0 <= m < NUM_MEL_BINS implies #[trigger] normalizes(
            *normalize,
            rows[s][m],
            out@[s * NUM_MEL_BINS + m],
        ) by {
            assert(normalizes(*normalize, rows[s][m], written[s * NUM_MEL_BINS + m]));
        }
        assert(normalizes(*normalize, formulas.zero, padded));
        assert(reads_rows(samples@, rows, *formulas));
        assert(lays_out(rows, formulas.zero, out@, *normalize));
    }
    out
}

/// Feature number `t * 128 + m` is the normalization of bin `m` of row `t`,
/// whatever the other bins of the row hold, and where there is no row `t` it
/// is that of an empty sum.
pub proof fn law_each_feature_is_its_own_bins<T, U, Z: Fn(T) -> U>(
    rows: Seq<Seq<T>>,
    zero: T,
    features: Seq<U>,
    normalize: Z,
    t: int,
    m: int,
)
    requires
        lays_out(rows, zero, features, normalize),
        0 <= t < 1024,
        0 <= m < 128,
    ensures
        features.len() == 1024 * 128,
        t < rows.len() ==> call_ensures(normalize, (rows[t][m],), features[t * 128 + m]),
        t >= rows.len() ==> call_ensures(normalize, (zero,), features[t * 128 + m]),
{
    if t < rows.len() {
        assert(normalizes(normalize, rows[t][m], features[t * NUM_MEL_BINS + m]));
    } else {
        let padded = choose|padded: U|
            {
                &&& #[trigger] normalizes(normalize, zero, padded)
                &&& forall|i: int|
                    rows.len() * NUM_MEL_BINS <= i < features.len() ==> features[i] == padded
            };
        assert(features[t * 128 + m] == padded);
    }
}

/// Where no two values normalize alike, two inputs whose rows differ in bin
/// `m` of row `t` have features that differ at `t * 128 + m`.
pub proof fn law_rows_that_differ_in_a_bin_differ_in_its_feature<T, U, Z: Fn(T) -> U>(
    rows: Seq<Seq<T>>,
    features: Seq<U>,
    others: Seq<Seq<T>>,
    other_features: Seq<U>,
    zero: T,
    normalize: Z,
    t: int,
    m: int,
)
    requires
        lays_out(rows, zero, features, normalize),
        lays_out(others, zero, other_features, normalize),
        forall|a: T, b: T, to: U|
            #![trigger call_ensures(normalize, (a,), to), call_ensures(normalize, (b,), to)]
            call_ensures(normalize, (a,), to) && call_ensures(normalize, (b,), to) ==> a == b,
        0 <= t < rows.len(),
        t < others.len(),
        0 <= m < 128,
        rows[t][m] != others[t][m],
    ensures
        features[t * 128 + m] != other_features[t * 128 + m],
{
    law_each_feature_is_its_own_bins(rows, zero, features, normalize, t, m);
    law_each_feature_is_its_own_bins(others, zero, other_features, normalize, t, m);
}

/// Samples have a row for every frame that fits in them, a thousand and
/// twenty-four at most, and row `t` is that of the four hundred samples from
/// `160 * t` on: without its first hundred and sixty samples, the same input
/// has the same rows but the first.
pub proof fn law_dropping_a_hop_drops_a_row<
    S,
    T,
    C,
    W,
    M: Fn(&[S]) -> T,
    L: Fn(S, T) -> T,
    E: Fn(T, Option<T>) -> T,
    H: Fn(usize, T) -> C,
    G: Fn(usize) -> W,
    N: Fn(W, W) -> W,
    B: Fn(C, C, W) -> (C, C),
    P: Fn(C) -> T,
    Q: Fn(T, T, T) -> T,
    F: Fn(T) -> T,
>(
    samples: Seq<S>,
    rows: Seq<Seq<T>>,
    formulas: Formulas<T, C, W, M, L, E, H, G, N, B, P, Q, F>,
    t: int,
)
    requires
        reads_rows(samples, rows, formulas),
        0 <= t < 1024,
    ensures
        rows.len() <= 1024,
        t < rows.len() <==> 160 * t + 400 <= samples.len(),
        t < rows.len() ==> rows_to(samples.subrange(160 * t, 160 * t + 400), rows[t], formulas),
        560 <= samples.len() < 160 * 1024 + 400 ==> reads_rows(
            samples.skip(160),
            rows.skip(1),
            formulas,
        ),
{
    if 560 <= samples.len() < 160 * 1024 + 400 {
        let (rest, left) = (samples.skip(160), rows.skip(1));
        assert forall|t: int| 0 <= t < left.len() implies rows_to(
            rest.subrange(t * HOP_LENGTH, t * HOP_LENGTH + FRAME_LENGTH),
            #[trigger] left[t],
            formulas,
        ) by {
            assert(left[t] == rows[t + 1]);
            assert(rest.subrange(t * HOP_LENGTH, t * HOP_LENGTH + FRAME_LENGTH)
                =~= samples.subrange(160 * (t + 1), 160 * (t + 1) + 400));
        }
    }
}

/// What the transform reads of a frame, where each formula has one answer.
/// Value `i` is sample `i` without the frame's mean, emphasized against the
/// sample before it without the mean and not emphasized - against nothing, at
/// the first - and tapered at its own place. Past the four hundredth they are
/// blank, five hundred and twelve in all.
pub proof fn law_each_value_is_its_own_samples<
    S,
    T,
    C,
    M: Fn(&[S]) -> T,
    L: Fn(S, T) -> T,
    E: Fn(T, Option<T>) -> T,
    H: Fn(usize, T) -> C,
>(
    samples: Seq<S>,
    values: Seq<C>,
    blank: C,
    mean: M,
    settle: L,
    emphasize: E,
    taper: H,
    about: spec_fn(Seq<S>) -> T,
    settled: spec_fn(S, T) -> T,
    emphasized: spec_fn(T, Option<T>) -> T,
    tapered: spec_fn(int, T) -> C,
    i: int,
)
    requires
        frames(samples, values, blank, mean, settle, emphasize, taper),
        forall|frame: &[S], to: T| #[trigger]
            call_ensures(mean, (frame,), to) ==> to == about(frame@),
        forall|sample: S, by: T, to: T| #[trigger]
            call_ensures(settle, (sample, by), to) ==> to == settled(sample, by),
        forall|value: T, before: Option<T>, to: T| #[trigger]
            call_ensures(emphasize, (value, before), to) ==> to == emphasized(value, before),
        forall|at: usize, value: T, to: C| #[trigger]
            call_ensures(taper, (at, value), to) ==> to == tapered(at as int, value),
        0 <= i < 512,
    ensures
        values.len() == 512,
        i == 0 ==> values[i] == tapered(0, emphasized(settled(samples[0], about(samples)), None)),
        0 < i < 400 ==> values[i] == tapered(
            i,
            emphasized(
                settled(samples[i], about(samples)),
                Some(settled(samples[i - 1], about(samples))),
            ),
        ),
        i >= 400 ==> values[i] == blank,
{
    let (frame, by, flat, sharp) = choose|frame: &[S], by: T, flat: Seq<T>, sharp: Seq<T>|
        {
            &&& frame@ == samples
            &&& #[trigger] call_ensures(mean, (frame,), by)
            &&& flat.len() == FRAME_LENGTH
            &&& sharp.len() == FRAME_LENGTH
            &&& forall|i: int|
                0 <= i < FRAME_LENGTH ==> call_ensures(
                    settle,
                    (samples[i], by),
                    #[trigger] flat[i],
                )
            &&& #[trigger] sharpens(flat, sharp, emphasize)
            &&& forall|i: int|
                0 <= i < FRAME_LENGTH ==> call_ensures(
                    taper,
                    (i as usize, sharp[i]),
                    #[trigger] values[i],
                )
        };
    if i < 400 {
        assert(call_ensures(taper, (i as usize, sharp[i]), values[i]));
        assert(call_ensures(settle, (samples[i], by), flat[i]));
        if i > 0 {
            assert(call_ensures(settle, (samples[i - 1], by), flat[i - 1]));
            assert(call_ensures(emphasize, (flat[i], Some(flat[i - 1])), sharp[i]));
        } else {
            assert(call_ensures(emphasize, (flat[i], None), sharp[i]));
        }
    }
}

/// A sum over the first `bins` bins, each with the weight that filter `m` has
/// for it.
pub open spec fn total<T>(
    powers: spec_fn(int) -> T,
    filters: Seq<T>,
    m: int,
    zero: T,
    gathered: spec_fn(T, T, T) -> T,
    bins: nat,
) -> T
    decreases bins,
{
    if bins == 0 {
        zero
    } else {
        gathered(
            total(powers, filters, m, zero, gathered, (bins - 1) as nat),
            filters[(bins - 1) * 128 + m],
            powers(bins - 1),
        )
    }
}

/// What a row holds, where each formula has one answer: bin `m` is what the
/// sum over all two hundred and fifty-seven bins comes to in the end, from
/// zero on, each bin's own power by the weight that filter `m` has for that
/// bin.
pub proof fn law_each_bin_is_its_own_filters<
    C,
    T,
    P: Fn(C) -> T,
    Q: Fn(T, T, T) -> T,
    F: Fn(T) -> T,
>(
    spectrum: Seq<C>,
    row: Seq<T>,
    power: P,
    filters: Seq<T>,
    zero: T,
    gather: Q,
    finish: F,
    powered: spec_fn(C) -> T,
    gathered: spec_fn(T, T, T) -> T,
    finished: spec_fn(T) -> T,
    m: int,
)
    requires
        mels(spectrum, row, power, filters, zero, gather, finish),
        forall|value: C, to: T| #[trigger] call_ensures(power, (value,), to) ==> to == powered(value),
        forall|sum: T, weight: T, value: T, to: T| #[trigger]
            call_ensures(gather, (sum, weight, value), to) ==> to == gathered(sum, weight, value),
        forall|sum: T, to: T| #[trigger] call_ensures(finish, (sum,), to) ==> to == finished(sum),
        0 <= m < 128,
    ensures
        row.len() == 128,
        row[m] == finished(
            total(|bin: int| powered(spectrum[bin]), filters, m, zero, gathered, 257),
        ),
{
    let powers = choose|powers: Seq<T>|
        {
            &&& powers.len() == NUM_FREQ_BINS
            &&& #[trigger] self::powered(spectrum, powers, power)
            &&& forall|m: int|
                0 <= m < NUM_MEL_BINS ==> projects(
                    powers,
                    filters,
                    m,
                    #[trigger] row[m],
                    zero,
                    gather,
                    finish,
                )
        };
    assert(projects(powers, filters, m, row[m], zero, gather, finish));
    let sums = choose|sums: Seq<T>|
        {
            &&& #[trigger] gathers(powers, filters, m, sums, gather)
            &&& sums.first() == zero
            &&& call_ensures(finish, (sums.last(),), row[m])
        };
    let each = |bin: int| powered(spectrum[bin]);
    assert forall|bin: int| 0 <= bin < 257 implies #[trigger] powers[bin] == each(bin) by {
        assert(call_ensures(power, (spectrum[bin],), powers[bin]));
    }
    lemma_total(powers, each, filters, m, zero, gather, gathered, sums, 257);
}

proof fn lemma_total<T, Q: Fn(T, T, T) -> T>(
    powers: Seq<T>,
    each: spec_fn(int) -> T,
    filters: Seq<T>,
    m: int,
    zero: T,
    gather: Q,
    gathered: spec_fn(T, T, T) -> T,
    sums: Seq<T>,
    bins: nat,
)
    requires
        gathers(powers, filters, m, sums, gather),
        sums.first() == zero,
        forall|bin: int| 0 <= bin < 257 ==> #[trigger] powers[bin] == each(bin),
        forall|sum: T, weight: T, value: T, to: T| #[trigger]
            call_ensures(gather, (sum, weight, value), to) ==> to == gathered(sum, weight, value),
        bins <= 257,
    ensures
        sums[bins as int] == total(each, filters, m, zero, gathered, bins),
    decreases bins,
{
    if bins > 0 {
        lemma_total(
            powers,
            each,
            filters,
            m,
            zero,
            gather,
            gathered,
            sums,
            (bins - 1) as nat,
        );
        assert(powers[bins - 1] == each(bins - 1));
    }
}

/// What one filter makes of a frame's powers is its own sum over the bins,
/// from zero on, as a row's bin is.
pub proof fn law_a_projection_is_its_own_filters<T, Q: Fn(T, T, T) -> T, F: Fn(T) -> T>(
    powers: Seq<T>,
    filters: Seq<T>,
    m: int,
    value: T,
    zero: T,
    gather: Q,
    finish: F,
    gathered: spec_fn(T, T, T) -> T,
    finished: spec_fn(T) -> T,
)
    requires
        projects(powers, filters, m, value, zero, gather, finish),
        powers.len() == 257,
        forall|sum: T, weight: T, power: T, to: T| #[trigger]
            call_ensures(gather, (sum, weight, power), to) ==> to == gathered(sum, weight, power),
        forall|sum: T, to: T| #[trigger] call_ensures(finish, (sum,), to) ==> to == finished(sum),
    ensures
        value == finished(total(|bin: int| powers[bin], filters, m, zero, gathered, 257)),
{
    let sums = choose|sums: Seq<T>|
        {
            &&& #[trigger] gathers(powers, filters, m, sums, gather)
            &&& sums.first() == zero
            &&& call_ensures(finish, (sums.last(),), value)
        };
    let each = |bin: int| powers[bin];
    lemma_total(powers, each, filters, m, zero, gather, gathered, sums, 257);
}

/// The weight that filter `mel` has for a bin is made of that bin's own
/// frequency and of the three boundaries the filter spans, its own, the next
/// and the one after, and stands a hundred and twenty-eight places after that
/// of the bin before.
pub proof fn law_each_weight_is_its_own_bins_and_filters<T, R: Fn(T, T, T, T) -> T>(
    freqs: Seq<T>,
    boundaries: Seq<T>,
    filters: Seq<T>,
    triangle: R,
    bin: int,
    mel: int,
)
    requires
        forall|bin: int, mel: int|
            0 <= bin < NUM_FREQ_BINS && 0 <= mel < NUM_MEL_BINS ==> #[trigger] weighs(
                freqs[bin],
                boundaries,
                mel,
                filters[bin * NUM_MEL_BINS + mel],
                triangle,
            ),
        0 <= bin < 257,
        0 <= mel < 128,
    ensures
        call_ensures(
            triangle,
            (freqs[bin], boundaries[mel], boundaries[mel + 1], boundaries[mel + 2]),
            filters[bin * 128 + mel],
        ),
{
    assert(weighs(freqs[bin], boundaries, mel, filters[bin * NUM_MEL_BINS + mel], triangle));
}

/// Feature number `t * 128 + m` is what filter `m` makes of frame `t`: where
/// each formula has one answer, it is the normalization of the sum over the
/// bins that filter `m` comes to on the spectrum of the four hundred samples
/// from `160 * t` on.
pub proof fn law_a_feature_is_what_its_filter_makes_of_its_frame<
    S,
    T,
    C,
    W,
    M: Fn(&[S]) -> T,
    L: Fn(S, T) -> T,
    E: Fn(T, Option<T>) -> T,
    H: Fn(usize, T) -> C,
    G: Fn(usize) -> W,
    N: Fn(W, W) -> W,
    B: Fn(C, C, W) -> (C, C),
    P: Fn(C) -> T,
    Q: Fn(T, T, T) -> T,
    F: Fn(T) -> T,
    U,
    Z: Fn(T) -> U,
>(
    samples: Seq<S>,
    rows: Seq<Seq<T>>,
    features: Seq<U>,
    formulas: Formulas<T, C, W, M, L, E, H, G, N, B, P, Q, F>,
    normalize: Z,
    powered: spec_fn(C) -> T,
    gathered: spec_fn(T, T, T) -> T,
    finished: spec_fn(T) -> T,
    normalized: spec_fn(T) -> U,
    t: int,
    m: int,
)
    requires
        reads_rows(samples, rows, formulas),
        lays_out(rows, formulas.zero, features, normalize),
        forall|value: C, to: T| #[trigger]
            call_ensures(formulas.power, (value,), to) ==> to == powered(value),
        forall|sum: T, weight: T, power: T, to: T| #[trigger]
            call_ensures(formulas.gather, (sum, weight, power), to) ==> to == gathered(
                sum,
                weight,
                power,
            ),
        forall|sum: T, to: T| #[trigger]
            call_ensures(formulas.finish, (sum,), to) ==> to == finished(sum),
        forall|value: T, to: U| #[trigger]
            call_ensures(normalize, (value,), to) ==> to == normalized(value),
        0 <= t < 1024,
        160 * t + 400 <= samples.len(),
        0 <= m < 128,
    ensures
        exists|values: Seq<C>, spectrum: Seq<C>|
            {
                &&& frames(
                    samples.subrange(160 * t, 160 * t + 400),
                    values,
                    formulas.blank,
                    formulas.mean,
                    formulas.settle,
                    formulas.emphasize,
                    formulas.taper,
                )
                &&& #[trigger] transforms(
                    values,
                    spectrum,
                    formulas.one,
                    formulas.step,
                    formulas.turn,
                    formulas.butterfly,
                )
                &&& features[t * 128 + m] == normalized(
                    finished(
                        total(
                            |bin: int| powered(spectrum[bin]),
                            formulas.filters@,
                            m,
                            formulas.zero,
                            gathered,
                            257,
                        ),
                    ),
                )
            },
{
    law_dropping_a_hop_drops_a_row(samples, rows, formulas, t);
    law_each_feature_is_its_own_bins(rows, formulas.zero, features, normalize, t, m);
    let frame = samples.subrange(160 * t, 160 * t + 400);
    let (values, spectrum) = choose|values: Seq<C>, spectrum: Seq<C>|
        {
            &&& frames(
                frame,
                values,
                formulas.blank,
                formulas.mean,
                formulas.settle,
                formulas.emphasize,
                formulas.taper,
            )
            &&& #[trigger] transforms(
                values,
                spectrum,
                formulas.one,
                formulas.step,
                formulas.turn,
                formulas.butterfly,
            )
            &&& mels(
                spectrum,
                rows[t],
                formulas.power,
                formulas.filters@,
                formulas.zero,
                formulas.gather,
                formulas.finish,
            )
        };
    law_each_bin_is_its_own_filters(
        spectrum,
        rows[t],
        formulas.power,
        formulas.filters@,
        formulas.zero,
        formulas.gather,
        formulas.finish,
        powered,
        gathered,
        finished,
        m,
    );
}

} // verus!
