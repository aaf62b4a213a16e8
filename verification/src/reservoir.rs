//! The eight frames one shot is described by, chosen while the shot is still
//! running.
//!
//! A shot's length is not known until it ends, so the reservoir keeps every
//! `stride`-th frame and doubles the stride whenever it holds more than it
//! has room for, dropping every second frame as it does. What it holds is
//! therefore always evenly spread over the shot so far, at a spacing that
//! halves the memory rather than the coverage. Closing it resamples that
//! spread down to the eight the tower takes.
//!
//! The reservoir never looks inside a frame's tensor, so the element type is
//! a parameter.

use vstd::arithmetic::power2::pow2;
use vstd::prelude::*;

verus! {

/// Frames one clip carries, fixed by the export.
pub const FRAMES: usize = 8;

/// Frames the reservoir holds before it thins. Twice `FRAMES` leaves it never
/// holding fewer than `FRAMES` once a shot is that long, so the resample down
/// to eight always has eight distinct frames to choose from.
pub const CAPACITY: usize = 16;

/// One kept frame: where it sat in the shot, and its tensor.
struct Kept<T> {
    index: usize,
    tensor: Vec<T>,
}

/// The frames kept of the shot running.
pub struct Reservoir<T> {
    kept: Vec<Kept<T>>,
    /// Frames between the ones kept; doubles as the shot grows.
    stride: usize,
    /// Frames the shot has carried, kept or not.
    seen: usize,
}

/// Every second element, the first included.
pub open spec fn evens<A>(s: Seq<A>) -> Seq<A> {
    Seq::new(((s.len() + 1) / 2) as nat, |i: int| s[2 * i])
}

/// A fraction rounded to the nearest integer, halves upwards.
pub open spec fn nearest(num: int, den: int) -> int {
    (2 * num + den) / (2 * den)
}

/// Where slot `slot` of the eight falls among `held` frames: `held - 1` steps
/// shared evenly over seven gaps.
pub open spec fn spread_at(held: nat, slot: int) -> int {
    if held <= 1 {
        0
    } else {
        nearest(slot * (held - 1), FRAMES - 1)
    }
}

/// Tensors laid back to back.
pub open spec fn laid<T>(tensors: Seq<Seq<T>>) -> Seq<T>
    decreases tensors.len(),
{
    if tensors.len() == 0 {
        Seq::empty()
    } else {
        laid(tensors.drop_last()) + tensors.last()
    }
}

impl<T> Reservoir<T> {
    /// Where each kept frame sat in the shot.
    pub closed spec fn positions(self) -> Seq<int> {
        Seq::new(self.kept@.len(), |i: int| self.kept@[i].index as int)
    }

    /// The kept frames' tensors.
    pub closed spec fn tensors(self) -> Seq<Seq<T>> {
        Seq::new(self.kept@.len(), |i: int| self.kept@[i].tensor@)
    }

    /// Frames between the ones kept.
    pub closed spec fn spacing(self) -> nat {
        self.stride as nat
    }

    /// Frames the shot has carried.
    pub closed spec fn count(self) -> nat {
        self.seen as nat
    }

    /// What every operation keeps: the kept frames are the multiples of a
    /// power of two below the frames seen, and that power is the smallest
    /// which leaves no more than `CAPACITY` of them.
    pub open spec fn wf(self) -> bool {
        &&& self.positions().len() == self.tensors().len()
        &&& exists|k: nat| self.spacing() == #[trigger] pow2(k)
        &&& self.spacing() >= 1
        &&& forall|i: int|
            0 <= i < self.positions().len() ==> #[trigger] self.positions()[i] == i
                * self.spacing()
        &&& self.count() <= self.positions().len() * self.spacing()
        &&& self.positions().len() > 0 ==> (self.positions().len() - 1) * self.spacing()
            < self.count()
        &&& self.positions().len() <= CAPACITY
        &&& self.spacing() > 1 ==> self.count() > FRAMES * self.spacing()
    }

    /// Whether the next frame offered is one to keep.
    pub open spec fn keeps_next(self) -> bool {
        self.count() % self.spacing() == 0
    }

    /// Whether `after` is this reservoir once a frame has gone by unkept.
    pub open spec fn passed(self, after: Self) -> bool {
        &&& after.count() == self.count() + 1
        &&& after.positions() == self.positions()
        &&& after.tensors() == self.tensors()
        &&& after.spacing() == self.spacing()
    }

    /// Whether `after` is this reservoir once it has kept the next frame.
    pub open spec fn took(self, after: Self, tensor: Seq<T>) -> bool {
        &&& after.count() == self.count() + 1
        &&& after.positions() == offered(self.positions(), self.count() as int)
        &&& after.tensors() == offered(self.tensors(), tensor)
        &&& after.spacing() == if self.tensors().len() + 1 > CAPACITY {
            2 * self.spacing()
        } else {
            self.spacing()
        }
    }

    /// A reservoir that has seen nothing.
    pub open spec fn is_fresh(self) -> bool {
        &&& self.positions() == Seq::<int>::empty()
        &&& self.tensors() == Seq::<Seq<T>>::empty()
        &&& self.spacing() == 1
        &&& self.count() == 0
    }
}

/// A multiple of the stride is the next one to keep.
proof fn lemma_next_multiple(seen: int, stride: int, held: int)
    by (nonlinear_arith)
    requires
        stride >= 1,
        seen >= 0,
        seen % stride == 0,
        held >= 0,
        seen <= held * stride,
        held > 0 ==> (held - 1) * stride < seen,
    ensures
        seen == held * stride,
{
    let q = seen / stride;
    assert(seen == q * stride);
    assert(q == held);
}

/// One more kept frame covers one more stride.
proof fn lemma_grown(stride: int, held: int)
    by (nonlinear_arith)
    requires
        stride >= 1,
        held >= 0,
    ensures
        held * stride + 1 <= (held + 1) * stride,
{
}

/// What is left of one too many covers as much at twice the stride.
proof fn lemma_thinned(stride: int, held: int, left: int)
    by (nonlinear_arith)
    requires
        stride >= 1,
        held == 16,
        left == 9,
    ensures
        held * stride + 1 <= left * (2 * stride),
        (left - 1) * (2 * stride) < held * stride + 1,
        held * stride + 1 > 8 * (2 * stride),
{
}

/// Between two multiples there is room for one more frame.
proof fn lemma_not_multiple(seen: int, stride: int, held: int)
    by (nonlinear_arith)
    requires
        stride >= 1,
        seen >= 0,
        seen % stride != 0,
        held >= 0,
        seen <= held * stride,
    ensures
        seen + 1 <= held * stride,
        held > 0,
{
    if seen == held * stride {
        assert(seen % stride == 0);
    }
}

impl<T> Default for Reservoir<T> {
    fn default() -> (r: Self)
        ensures
            r.wf(),
            r.is_fresh(),
    {
        let r = Reservoir { kept: Vec::with_capacity(CAPACITY + 1), stride: 1, seen: 0 };
        proof {
            vstd::arithmetic::power2::lemma2_to64();
            assert(r.spacing() == pow2(0));
            assert(r.positions() =~= Seq::<int>::empty());
            assert(r.tensors() =~= Seq::<Seq<T>>::empty());
        }
        r
    }
}

/// What keeping the next frame leaves: the new one added, and every second
/// one dropped if that is one too many.
pub open spec fn offered<A>(kept: Seq<A>, next: A) -> Seq<A> {
    if kept.len() + 1 > CAPACITY {
        evens(kept.push(next))
    } else {
        kept.push(next)
    }
}

impl<T> Reservoir<T> {
    /// Offers the shot's next frame. `preprocess` runs only for the frames
    /// the reservoir keeps, so a long shot pays for one frame in `stride`.
    pub fn offer(&mut self, preprocess: impl FnOnce() -> Vec<T>)
        requires
            old(self).wf(),
            old(self).count() < usize::MAX,
            old(self).keeps_next() ==> call_requires(preprocess, ()),
        ensures
            final(self).wf(),
            !old(self).keeps_next() ==> old(self).passed(*final(self)),
            old(self).keeps_next() ==> exists|tensor: Vec<T>|
                #![trigger call_ensures(preprocess, (), tensor)]
                call_ensures(preprocess, (), tensor) && old(self).took(*final(self), tensor@),
    {
        let ghost stride: int = self.stride as int;
        let ghost seen: int = self.seen as int;
        let ghost held: int = self.kept@.len() as int;
        proof {
            assert(self.positions().len() == held);
        }
        if self.seen % self.stride == 0 {
            proof {
                lemma_next_multiple(seen, stride, held);
            }
            let tensor = preprocess();
            let ghost before = *self;
            self.kept.push(Kept { index: self.seen, tensor });
            assert(self.positions() =~= before.positions().push(seen));
            assert(self.tensors() =~= before.tensors().push(tensor@));
            if self.kept.len() > CAPACITY {
                self.thin();
            }
        } else {
            proof {
                lemma_not_multiple(seen, stride, held);
            }
        }
        self.seen = self.seen + 1;
        proof {
            assert(self.positions().len() == self.kept@.len() == self.tensors().len());
            if seen % stride != 0 {
                assert(self.positions() =~= old(self).positions());
                assert(self.tensors() =~= old(self).tensors());
            } else if held + 1 <= CAPACITY {
                assert(self.positions() =~= old(self).positions().push(seen));
                lemma_grown(stride, held);
            } else {
                assert(self.positions() =~= evens(old(self).positions().push(seen)));
                let k = choose|k: nat| old(self).spacing() == #[trigger] pow2(k);
                vstd::arithmetic::power2::lemma_pow2_unfold(k + 1);
                assert(self.spacing() == pow2(k + 1));
                lemma_thinned(stride, held, self.positions().len() as int);
                assert forall|i: int| 0 <= i < 9 implies #[trigger] self.positions()[i] == i
                    * self.spacing() by {
                    assert((2 * i) * stride == i * (2 * stride)) by (nonlinear_arith);
                }
            }
        }
    }

    /// Every second frame dropped and the stride doubled, which leaves what
    /// is kept evenly spread at the new spacing.
    fn thin(&mut self)
        requires
            2 * old(self).spacing() <= usize::MAX,
        ensures
            final(self).positions() == evens(old(self).positions()),
            final(self).tensors() == evens(old(self).tensors()),
            final(self).spacing() == 2 * old(self).spacing(),
            final(self).count() == old(self).count(),
    {
        let ghost all = self.kept@;
        let mut at: usize = 1;
        while at < self.kept.len()
            invariant
                1 <= at,
                at <= self.kept@.len() + 1,
                self.stride == old(self).stride,
                self.seen == old(self).seen,
                all == old(self).kept@,
                self.kept@.len() + at == all.len() + 1,
                forall|i: int| 0 <= i < at && i < self.kept@.len() ==> self.kept@[i] == all[2 * i],
                forall|i: int| at <= i < self.kept@.len() ==> self.kept@[i] == all[i + at - 1],
            decreases self.kept@.len() + 1 - at,
        {
            let _ = self.kept.remove(at);
            at = at + 1;
        }
        self.stride = self.stride * 2;
        proof {
            assert(self.positions() =~= evens(old(self).positions()));
            assert(self.tensors() =~= evens(old(self).tensors()));
        }
    }
}

impl<T> Reservoir<T> {
    /// Whether the shot's last frame is one of the kept ones. When it is not,
    /// the caller hands it to `close` so the eight span the whole shot.
    pub fn holds_last(&self) -> (held: bool)
        requires
            self.wf(),
        ensures
            held == (self.count() == 0 || self.positions().last() == self.count() - 1),
    {
        let held: usize = self.kept.len();
        proof {
            assert(self.positions().len() == held);
            if held == 0 {
                assert(0 * self.spacing() == 0);
            }
        }
        if held == 0 {
            self.seen == 0
        } else {
            assert(self.seen > 0) by {
                assert((held - 1) * self.spacing() >= 0) by (nonlinear_arith)
                    requires
                        held >= 1,
                        self.spacing() >= 0,
                ;
            }
            self.kept[held - 1].index == self.seen - 1
        }
    }

    /// Where each kept frame sat in the shot.
    pub fn indices(&self) -> (at: Vec<usize>)
        ensures
            at@.len() == self.positions().len(),
            forall|i: int| 0 <= i < at@.len() ==> at@[i] == #[trigger] self.positions()[i],
    {
        let mut at: Vec<usize> = Vec::new();
        for i in 0..self.kept.len()
            invariant
                at@.len() == i,
                i <= self.kept@.len(),
                forall|j: int| 0 <= j < i ==> at@[j] == #[trigger] self.positions()[j],
        {
            at.push(self.kept[i].index);
        }
        at
    }

    /// How many frames the shot has carried.
    pub(crate) fn seen(&self) -> (seen: usize)
        ensures
            seen == self.count(),
    {
        self.seen
    }

    /// Whether the shot has carried no frame yet.
    pub fn is_empty(&self) -> (empty: bool)
        ensures
            empty == (self.count() == 0),
    {
        self.seen == 0
    }
}

/// The tensors `close` reads from: what was kept, and the last frame's behind
/// it where it was handed over.
pub open spec fn with_last<T>(kept: Seq<Seq<T>>, last: Option<Vec<T>>) -> Seq<Seq<T>> {
    match last {
        Some(tensor) => kept.push(tensor@),
        None => kept,
    }
}

/// The eight tensors picked out of those held.
pub open spec fn picked<T>(held: Seq<Seq<T>>) -> Seq<Seq<T>> {
    Seq::new(FRAMES as nat, |slot: int| held[spread_at(held.len(), slot)])
}

impl<T: Copy> Reservoir<T> {
    /// The eight frames the tower reads, back to back as one
    /// `[FRAMES, 3, SIDE, SIDE]` tensor, and the reservoir emptied for the
    /// next shot. `last` is the shot's final frame, which `holds_last` says
    /// whether the reservoir needs.
    pub fn close(&mut self, last: Option<Vec<T>>) -> (input: Vec<T>)
        requires
            old(self).tensors().len() > 0 || last is Some,
        ensures
            input@ == laid(picked(with_last(old(self).tensors(), last))),
            final(self).wf(),
            final(self).is_fresh(),
    {
        let ghost all = with_last(self.tensors(), last);
        let mut fresh = Reservoir::default();
        std::mem::swap(self, &mut fresh);
        let mut kept: Vec<Kept<T>> = fresh.kept;
        if let Some(tensor) = last {
            let index: usize = if fresh.seen > 0 {
                fresh.seen - 1
            } else {
                0
            };
            kept.push(Kept { index, tensor });
        }
        assert(all =~= Seq::new(kept@.len(), |i: int| kept@[i].tensor@));
        let at: [usize; FRAMES] = spread(kept.len());
        let mut input: Vec<T> = Vec::new();
        let mut slot: usize = 0;
        while slot < FRAMES
            invariant
                slot <= FRAMES,
                kept@.len() > 0,
                all == Seq::new(kept@.len(), |i: int| kept@[i].tensor@),
                forall|i: int| 0 <= i < FRAMES ==> #[trigger] at@[i] == spread_at(kept@.len(), i),
                input@ == laid(picked(all).take(slot as int)),
            decreases FRAMES - slot,
        {
            proof {
                lemma_spread_in_bounds(kept@.len(), slot as int);
                assert(at@[slot as int] < kept@.len());
            }
            let tensor: &Vec<T> = &kept[at[slot]].tensor;
            let ghost before = input@;
            let mut i: usize = 0;
            while i < tensor.len()
                invariant
                    i <= tensor@.len(),
                    input@ == before + tensor@.take(i as int),
                decreases tensor@.len() - i,
            {
                input.push(tensor[i]);
                i = i + 1;
                assert(input@ =~= before + tensor@.take(i as int));
            }
            assert(tensor@.take(i as int) =~= tensor@);
            slot = slot + 1;
            assert(picked(all).take(slot as int).drop_last() =~= picked(all).take(slot - 1));
        }
        assert(picked(all).take(FRAMES as int) =~= picked(all));
        input
    }
}

/// Which of `held` frames the eight are taken from: evenly spread over what
/// is there, first and last included. A shot shorter than eight frames
/// repeats some of them, since the tower takes eight either way.
pub fn spread(held: usize) -> (at: [usize; FRAMES])
    ensures
        forall|slot: int| 0 <= slot < FRAMES ==> #[trigger] at@[slot] == spread_at(held as nat, slot),
{
    let mut at: [usize; FRAMES] = [0usize; FRAMES];
    if held <= 1 {
        return at;
    }
    let mut slot: usize = 0;
    while slot < FRAMES
        invariant
            slot <= FRAMES,
            held > 1,
            at@.len() == FRAMES,
            forall|i: int| 0 <= i < slot ==> #[trigger] at@[i] == spread_at(held as nat, i),
        decreases FRAMES - slot,
    {
        proof {
            lemma_spread_in_bounds(held as nat, slot as int);
            assert(slot * (held - 1) <= 7 * (held - 1)) by (nonlinear_arith)
                requires
                    0 <= slot <= 7,
                    held > 1,
            ;
        }
        let steps: u128 = (slot as u128) * ((held - 1) as u128);
        let along: u128 = (2 * steps + 7) / 14;
        assert(along == spread_at(held as nat, slot as int));
        at[slot] = along as usize;
        slot = slot + 1;
    }
    at
}

/// Every position falls among the frames held.
proof fn lemma_spread_in_bounds(held: nat, slot: int)
    requires
        held >= 1,
        0 <= slot < FRAMES,
    ensures
        0 <= spread_at(held, slot) < held,
{
    if held > 1 {
        assert(0 <= slot * (held - 1) <= 7 * (held - 1)) by (nonlinear_arith)
            requires
                0 <= slot <= 7,
                held >= 1,
        ;
    }
}

/// The eight positions span what is held: the first is the first frame, the
/// last is the last, they never go backwards, and the steps between them
/// differ by at most one.
pub proof fn law_spread_spans_what_is_held(held: nat)
    requires
        held >= 1,
    ensures
        spread_at(held, 0) == 0,
        spread_at(held, FRAMES - 1) == held - 1,
        forall|slot: int|
            0 <= slot < FRAMES - 1 ==> {
                let step = #[trigger] spread_at(held, slot + 1) - spread_at(held, slot);
                (held - 1) / 7 <= step <= (held - 1) / 7 + 1
            },
{
    if held > 1 {
        assert(0 * (held - 1) == 0);
        assert forall|slot: int| 0 <= slot < FRAMES - 1 implies {
            let step = #[trigger] spread_at(held, slot + 1) - spread_at(held, slot);
            (held - 1) / 7 <= step <= (held - 1) / 7 + 1
        } by {
            assert((slot + 1) * (held - 1) == slot * (held - 1) + (held - 1)) by (nonlinear_arith);
        }
    }
}

/// Eight frames or more give eight distinct positions.
pub proof fn law_spread_is_distinct(held: nat, a: int, b: int)
    requires
        held >= FRAMES,
        0 <= a < b < FRAMES,
    ensures
        spread_at(held, a) < spread_at(held, b),
    decreases b - a,
{
    law_spread_spans_what_is_held(held);
    assert(spread_at(held, b - 1 + 1) - spread_at(held, b - 1) >= (held - 1) / 7);
    if a < b - 1 {
        law_spread_is_distinct(held, a, b - 1);
    }
}

/// Once a shot is as long as the tower is wide, the reservoir never holds
/// fewer frames than the tower takes.
pub proof fn law_never_fewer_than_the_tower_takes<T>(r: Reservoir<T>)
    requires
        r.wf(),
        r.count() >= FRAMES,
    ensures
        r.positions().len() >= FRAMES,
{
    let held = r.positions().len() as int;
    let stride = r.spacing() as int;
    if held < FRAMES {
        assert(held * stride <= 7 * stride) by (nonlinear_arith)
            requires
                held <= 7,
                stride >= 1,
        ;
    }
}

/// What is kept is decided by how many frames the shot has carried and by
/// nothing else: two reservoirs that have seen as many keep the same ones.
pub proof fn law_positions_depend_on_the_count_alone<T>(a: Reservoir<T>, b: Reservoir<T>)
    requires
        a.wf(),
        b.wf(),
        a.count() == b.count(),
    ensures
        a.spacing() == b.spacing(),
        a.positions() == b.positions(),
{
    lemma_spacing_is_least(a, b);
    lemma_spacing_is_least(b, a);
    let stride = a.spacing() as int;
    let (m, n) = (a.positions().len() as int, b.positions().len() as int);
    assert(m == n) by (nonlinear_arith)
        requires
            stride >= 1,
            m >= 0,
            n >= 0,
            a.count() <= m * stride,
            a.count() <= n * stride,
            a.count() >= 0,
            m > 0 ==> (m - 1) * stride < a.count(),
            n > 0 ==> (n - 1) * stride < a.count(),
    ;
    assert(a.positions() =~= b.positions());
}

proof fn lemma_spacing_is_least<T>(a: Reservoir<T>, b: Reservoir<T>)
    requires
        a.wf(),
        b.wf(),
        a.count() == b.count(),
    ensures
        a.spacing() <= b.spacing(),
{
    if a.spacing() > b.spacing() {
        let ka = choose|k: nat| a.spacing() == #[trigger] pow2(k);
        let kb = choose|k: nat| b.spacing() == #[trigger] pow2(k);
        if ka <= kb {
            if ka < kb {
                vstd::arithmetic::power2::lemma_pow2_strictly_increases(ka, kb);
            }
        } else {
            if kb + 1 < ka {
                vstd::arithmetic::power2::lemma_pow2_strictly_increases(kb + 1, ka);
            }
            vstd::arithmetic::power2::lemma_pow2_unfold(kb + 1);
            assert(a.spacing() >= 2 * b.spacing());
            let n = b.positions().len() as int;
            assert(n * b.spacing() <= 16 * b.spacing()) by (nonlinear_arith)
                requires
                    n <= 16,
                    b.spacing() >= 1,
            ;
        }
    }
}

/// Whether `stride` is the least power of two that leaves no more than
/// `CAPACITY` of `count` frames.
pub open spec fn is_least_stride(count: nat, stride: nat) -> bool {
    &&& exists|k: nat| stride == #[trigger] pow2(k)
    &&& count <= CAPACITY * stride
    &&& forall|k: nat| #[trigger] pow2(k) < stride ==> count > CAPACITY * pow2(k)
}

/// A long shot pays for one frame in `stride`: of a shot that has carried
/// `count` frames, the next is prepared exactly where `count` is a multiple of
/// the least power of two that leaves no more than `CAPACITY` of them. Where it
/// is not, the frame only goes by.
pub proof fn law_one_frame_in_a_stride_is_prepared<T>(r: Reservoir<T>, stride: nat)
    requires
        r.wf(),
        is_least_stride(r.count(), stride),
    ensures
        r.spacing() == stride,
        r.keeps_next() == (r.count() % stride == 0),
{
    lemma_spacing_is_the_least_stride(r);
    let (a, b) = (r.spacing(), stride);
    if a < b {
        let k = choose|k: nat| a == #[trigger] pow2(k);
        assert(r.count() > CAPACITY * pow2(k));
    } else if b < a {
        let k = choose|k: nat| b == #[trigger] pow2(k);
        assert(r.count() > CAPACITY * pow2(k));
    }
}

proof fn lemma_spacing_is_the_least_stride<T>(r: Reservoir<T>)
    requires
        r.wf(),
    ensures
        is_least_stride(r.count(), r.spacing()),
{
    let n = r.positions().len() as int;
    let stride = r.spacing() as int;
    assert(n * stride <= 16 * stride) by (nonlinear_arith)
        requires
            n <= 16,
            stride >= 1,
    ;
    let ks = choose|k: nat| r.spacing() == #[trigger] pow2(k);
    assert forall|k: nat| #[trigger] pow2(k) < r.spacing() implies r.count() > CAPACITY * pow2(
        k,
    ) by {
        if k >= ks {
            if k > ks {
                vstd::arithmetic::power2::lemma_pow2_strictly_increases(ks, k);
            }
        } else {
            if k + 1 < ks {
                vstd::arithmetic::power2::lemma_pow2_strictly_increases(k + 1, ks);
            }
            vstd::arithmetic::power2::lemma_pow2_unfold(k + 1);
            vstd::arithmetic::power2::lemma_pow2_pos(k);
        }
    }
}

/// The least power of two that leaves no more than `CAPACITY` of `count`
/// frames.
pub open spec fn stride_of(count: nat) -> nat
    decreases count,
{
    if count <= CAPACITY {
        1
    } else {
        2 * stride_of((count + 1) / 2)
    }
}

pub(crate) fn stride(count: usize) -> (stride: usize)
    ensures
        stride == stride_of(count as nat),
        1 <= stride,
        stride <= 1 || stride < count,
    decreases count,
{
    if count <= CAPACITY {
        1
    } else {
        2 * stride(count / 2 + count % 2)
    }
}

proof fn lemma_stride_of_is_least(count: nat)
    ensures
        is_least_stride(count, stride_of(count)),
    decreases count,
{
    vstd::arithmetic::power2::lemma2_to64();
    if count <= CAPACITY {
        assert(stride_of(count) == pow2(0));
        assert forall|k: nat| #[trigger] pow2(k) < 1 implies count > CAPACITY * pow2(k) by {
            vstd::arithmetic::power2::lemma_pow2_pos(k);
        }
    } else {
        let half = ((count + 1) / 2) as nat;
        lemma_stride_of_is_least(half);
        let kh = choose|k: nat| stride_of(half) == #[trigger] pow2(k);
        vstd::arithmetic::power2::lemma_pow2_unfold(kh + 1);
        assert(stride_of(count) == pow2(kh + 1));
        assert forall|k: nat| #[trigger] pow2(k) < stride_of(count) implies count > CAPACITY
            * pow2(k) by {
            if k > 0 {
                vstd::arithmetic::power2::lemma_pow2_unfold(k);
                assert(pow2((k - 1) as nat) < stride_of(half));
            }
        }
    }
}

/// The spacing of what is kept follows the frames seen, and nothing else.
pub proof fn law_the_spacing_follows_the_count<T>(r: Reservoir<T>)
    requires
        r.wf(),
    ensures
        r.spacing() == stride_of(r.count()),
        r.keeps_next() == keeps_at(r.count()),
        r.count() > 0 ==> (r.positions().last() == r.count() - 1) == ends_on_kept(r.count()),
{
    lemma_stride_of_is_least(r.count());
    law_one_frame_in_a_stride_is_prepared(r, stride_of(r.count()));
    if r.count() > 0 {
        let (n, s, last) = (
            r.positions().len() as int,
            r.spacing() as int,
            r.count() - 1,
        );
        if n == 0 {
            assert(0 * s == 0);
        }
        assert(r.positions()[n - 1] == (n - 1) * s);
        lemma_last_multiple(n, s, last);
    }
}

proof fn lemma_last_multiple(n: int, s: int, last: int)
    by (nonlinear_arith)
    requires
        n >= 1,
        s >= 1,
        (n - 1) * s <= last,
        last < n * s,
    ensures
        ((n - 1) * s == last) == (last % s == 0),
{
    let q = last / s;
    assert(last == q * s + last % s);
    assert(0 <= last % s < s);
    assert(q == n - 1);
}

/// Whether a shot's frame at a place is kept when it arrives.
pub open spec fn keeps_at(place: nat) -> bool {
    place % stride_of(place) == 0
}

/// Whether the last of a shot's frames is among those kept of it.
pub open spec fn ends_on_kept(count: nat) -> bool {
    (count - 1) % (stride_of(count) as int) == 0
}

/// Whether one offer leads from `before` to `after`, where `made` says what a
/// shot's frame at a place is made into.
pub open spec fn feeds<T>(
    before: Reservoir<T>,
    after: Reservoir<T>,
    made: spec_fn(int, Seq<T>) -> bool,
) -> bool {
    if before.keeps_next() {
        exists|tensor: Seq<T>|
            #[trigger] made(before.count() as int, tensor) && before.took(after, tensor)
    } else {
        before.passed(after)
    }
}

/// Whether `history` is what a reservoir goes through as a shot's frames are
/// offered to it, one after another.
pub open spec fn fed<T>(
    history: Seq<Reservoir<T>>,
    made: spec_fn(int, Seq<T>) -> bool,
) -> bool {
    &&& history.len() > 0
    &&& history.first().is_fresh()
    &&& forall|n: int|
        0 <= n < history.len() - 1 ==> feeds(#[trigger] history[n], history[n + 1], made)
}

/// Whether each kept tensor is what the frame at its own place is made into.
pub open spec fn holds_own<T>(r: Reservoir<T>, made: spec_fn(int, Seq<T>) -> bool) -> bool {
    forall|i: int|
        0 <= i < r.positions().len() ==> made(
            #[trigger] r.positions()[i],
            r.tensors()[i],
        )
}

/// Each kept tensor is what the frame at its own place was made into: after
/// `n` offers the reservoir has seen `n` frames, and the tensor it keeps for a
/// place is that place's frame's.
pub proof fn law_each_tensor_is_its_own_frames<T>(
    history: Seq<Reservoir<T>>,
    made: spec_fn(int, Seq<T>) -> bool,
    n: int,
)
    requires
        fed(history, made),
        0 <= n < history.len(),
    ensures
        history[n].wf(),
        history[n].count() == n,
        holds_own(history[n], made),
    decreases n,
{
    if n == 0 {
        lemma_fresh(history[0], made);
    } else {
        law_each_tensor_is_its_own_frames(history, made, n - 1);
        assert(feeds(history[n - 1], history[n - 1 + 1], made));
        lemma_feeds(history[n - 1], history[n], made);
    }
}

/// A fresh reservoir is well-formed and holds nothing.
pub(crate) proof fn lemma_fresh<T>(r: Reservoir<T>, made: spec_fn(int, Seq<T>) -> bool)
    requires
        r.is_fresh(),
    ensures
        r.wf(),
        holds_own(r, made),
{
    vstd::arithmetic::power2::lemma2_to64();
    assert(r.spacing() == pow2(0));
}

/// An offer keeps the reservoir well-formed, and every tensor its own
/// frame's.
pub(crate) proof fn lemma_feeds<T>(
    before: Reservoir<T>,
    after: Reservoir<T>,
    made: spec_fn(int, Seq<T>) -> bool,
)
    requires
        before.wf(),
        holds_own(before, made),
        feeds(before, after, made),
    ensures
        after.wf(),
        after.count() == before.count() + 1,
        holds_own(after, made),
{
    let stride = before.spacing() as int;
    let seen = before.count() as int;
    let held = before.positions().len() as int;
    if before.keeps_next() {
        let tensor = choose|tensor: Seq<T>|
            #[trigger] made(seen, tensor) && before.took(after, tensor);
        lemma_next_multiple(seen, stride, held);
        lemma_grown(stride, held);
        let (places, tensors) = (
            before.positions().push(seen),
            before.tensors().push(tensor),
        );
        assert forall|i: int| 0 <= i < places.len() implies made(
            #[trigger] places[i],
            tensors[i],
        ) by {
            if i < held {
                assert(places[i] == before.positions()[i]);
            }
        }
        assert forall|i: int| 0 <= i < places.len() implies (#[trigger] places[i]) == i
            * stride by {
            if i < held {
                assert(places[i] == before.positions()[i]);
            }
        }
        if held + 1 > CAPACITY {
            let k = choose|k: nat| before.spacing() == #[trigger] pow2(k);
            vstd::arithmetic::power2::lemma_pow2_unfold(k + 1);
            assert(after.spacing() == pow2(k + 1));
            lemma_thinned(stride, held, after.positions().len() as int);
            assert forall|i: int| 0 <= i < after.positions().len() implies (
            #[trigger] after.positions()[i]) == i * after.spacing() && made(
                after.positions()[i],
                after.tensors()[i],
            ) by {
                assert(after.positions()[i] == places[2 * i]);
                assert((2 * i) * stride == i * (2 * stride)) by (nonlinear_arith);
            }
        } else {
            assert forall|i: int| 0 <= i < after.positions().len() implies (
            #[trigger] after.positions()[i]) == i * after.spacing() && made(
                after.positions()[i],
                after.tensors()[i],
            ) by {
                assert(after.positions()[i] == places[i]);
            }
        }
    } else {
        lemma_not_multiple(seen, stride, held);
    }
}

/// Which of a shot's `count` frames stands in a slot of the eight: those kept
/// lie a stride apart, the last frame is behind them, and the slot's is the
/// one that the spread over them falls on.
pub open spec fn chosen(count: nat, slot: int) -> int {
    let stride = stride_of(count) as int;
    let held = (count - 1 + stride - 1) / stride + 1;
    let place = spread_at(held as nat, slot) * stride;
    if place < count - 1 {
        place
    } else {
        count - 1
    }
}

/// The eight that a closing reservoir picks are the frames chosen of the shot.
pub proof fn law_the_eight_are_chosen_by_the_count<T>(r: Reservoir<T>, slot: int)
    requires
        r.wf(),
        r.count() > 0,
        0 <= slot < FRAMES,
    ensures
        ({
            let held = closing_positions(r);
            &&& 0 <= spread_at(held.len(), slot) < held.len()
            &&& held[spread_at(held.len(), slot)] == chosen(r.count(), slot)
        }),
{
    law_the_spacing_follows_the_count(r);
    let (n, s, last) = (r.positions().len() as int, r.spacing() as int, r.count() - 1);
    if n == 0 {
        assert(0 * s == 0);
    }
    let held = closing_positions(r);
    lemma_held(n, s, last);
    assert(held.len() == (last + s - 1) / s + 1);
    let at = spread_at(held.len(), slot);
    lemma_spread_in_bounds(held.len(), slot);
    if at < n {
        assert(held[at] == r.positions()[at]);
        assert(at * s <= (n - 1) * s) by (nonlinear_arith)
            requires
                at <= n - 1,
                s >= 1,
        ;
    } else {
        assert(at == n);
    }
}

proof fn lemma_held(n: int, s: int, last: int)
    by (nonlinear_arith)
    requires
        n >= 1,
        s >= 1,
        (n - 1) * s <= last,
        last < n * s,
    ensures
        (last + s - 1) / s + 1 == if (n - 1) * s == last {
            n
        } else {
            n + 1
        },
{
    if (n - 1) * s == last {
        assert(last + s - 1 == (n - 1) * s + (s - 1));
        assert((last + s - 1) / s == n - 1);
    } else {
        assert(last + s - 1 == n * s + (last - 1 - (n - 1) * s));
        assert(0 <= last - 1 - (n - 1) * s < s);
        assert((last + s - 1) / s == n);
    }
}

/// Where the frames that `close` reads from sat in the shot, when it is
/// handed the last frame exactly where `holds_last` says it is missing.
pub open spec fn closing_positions<T>(r: Reservoir<T>) -> Seq<int> {
    if r.count() == 0 || r.positions().last() == r.count() - 1 {
        r.positions()
    } else {
        r.positions().push(r.count() - 1)
    }
}

/// The eight frames of a shot span the whole of it: the first is the shot's
/// first frame and the last is its last.
pub proof fn law_the_eight_span_the_shot<T>(r: Reservoir<T>)
    requires
        r.wf(),
        r.count() > 0,
    ensures
        ({
            let held = closing_positions(r);
            &&& held[spread_at(held.len(), 0)] == 0
            &&& held[spread_at(held.len(), FRAMES - 1)] == r.count() - 1
        }),
{
    let n = r.positions().len() as int;
    if n == 0 {
        assert(0 * r.spacing() == 0);
    }
    assert(n > 0);
    law_spread_spans_what_is_held(closing_positions(r).len());
    assert(r.positions()[0] == 0 * r.spacing());
    assert(0 * r.spacing() == 0);
}

proof fn lemma_laid_length<T>(tensors: Seq<Seq<T>>, len: nat)
    requires
        forall|i: int| 0 <= i < tensors.len() ==> (#[trigger] tensors[i]).len() == len,
    ensures
        laid(tensors).len() == tensors.len() * len,
    decreases tensors.len(),
{
    if tensors.len() == 0 {
        assert(0 * len == 0);
    } else {
        let rest = tensors.drop_last();
        assert forall|i: int| 0 <= i < rest.len() implies (#[trigger] rest[i]).len() == len by {
            assert(rest[i] == tensors[i]);
        }
        lemma_laid_length(rest, len);
        assert(tensors.len() * len == rest.len() * len + len) by (nonlinear_arith)
            requires
                tensors.len() == rest.len() + 1,
        ;
    }
}

/// However many frames are held, what the tower reads is eight tensors long.
pub proof fn law_the_input_is_eight_tensors<T>(held: Seq<Seq<T>>, len: nat)
    requires
        held.len() > 0,
        forall|i: int| 0 <= i < held.len() ==> (#[trigger] held[i]).len() == len,
    ensures
        laid(picked(held)).len() == FRAMES * len,
{
    let eight = picked(held);
    assert forall|slot: int| 0 <= slot < eight.len() implies (#[trigger] eight[slot]).len()
        == len by {
        lemma_spread_in_bounds(held.len(), slot);
    }
    lemma_laid_length(eight, len);
}

/// Each slot's position is the whole number nearest to its even share: `slot`
/// sevenths of the way from the first frame held to the last.
pub proof fn law_each_slot_falls_nearest_to_its_share(held: nat, slot: int)
    requires
        held >= 1,
        0 <= slot < 8,
    ensures
        0 <= spread_at(held, slot) < held,
        -7 <= 2 * (7 * spread_at(held, slot) - slot * (held - 1)) <= 7,
{
    lemma_spread_in_bounds(held, slot);
    let share = slot * (held - 1);
    if held == 1 {
        assert(share == 0) by (nonlinear_arith)
            requires
                share == slot * (held - 1),
                held == 1,
        ;
    } else {
        assert(spread_at(held, slot) == (2 * share + 7) / 14);
    }
}

/// Tensors of one length lie back to back: value `k` of tensor `slot` is that
/// many whole tensors and `k` values in.
pub proof fn law_tensors_lie_back_to_back<T>(tensors: Seq<Seq<T>>, len: nat, slot: int, k: int)
    requires
        forall|i: int| 0 <= i < tensors.len() ==> (#[trigger] tensors[i]).len() == len,
        0 <= slot < tensors.len(),
        0 <= k < len,
    ensures
        laid(tensors).len() == tensors.len() * len,
        0 <= slot * len + k < tensors.len() * len,
        laid(tensors)[slot * len + k] == tensors[slot][k],
    decreases tensors.len(),
{
    lemma_laid_length(tensors, len);
    let rest = tensors.drop_last();
    assert forall|i: int| 0 <= i < rest.len() implies (#[trigger] rest[i]).len() == len by {
        assert(rest[i] == tensors[i]);
    }
    lemma_laid_length(rest, len);
    let (n, l) = (tensors.len() as int, len as int);
    assert(0 <= slot * l + k < n * l) by (nonlinear_arith)
        requires
            0 <= slot <= n - 1,
            0 <= k < l,
    ;
    if slot < rest.len() {
        law_tensors_lie_back_to_back(rest, len, slot, k);
        assert(rest[slot] == tensors[slot]);
    }
}

/// What the tower reads in a slot is the tensor held nearest to that slot's
/// even share, whole.
pub proof fn law_each_slot_reads_the_tensor_nearest_to_its_share<T>(
    held: Seq<Seq<T>>,
    len: nat,
    slot: int,
    at: int,
    k: int,
)
    requires
        forall|i: int| 0 <= i < held.len() ==> (#[trigger] held[i]).len() == len,
        0 <= slot < 8,
        0 <= at < held.len(),
        -7 <= 2 * (7 * at - slot * (held.len() - 1)) <= 7,
        0 <= k < len,
    ensures
        laid(picked(held)).len() == 8 * len,
        laid(picked(held))[slot * len + k] == held[at][k],
{
    let eight = picked(held);
    assert forall|i: int| 0 <= i < eight.len() implies (#[trigger] eight[i]).len() == len by {
        lemma_spread_in_bounds(held.len(), i);
    }
    law_each_slot_falls_nearest_to_its_share(held.len(), slot);
    assert(spread_at(held.len(), slot) == at);
    law_tensors_lie_back_to_back(eight, len, slot, k);
}

/// A last frame that is handed over fills the last slot, and the first one
/// kept fills the first.
pub proof fn law_the_last_frame_fills_the_last_slot<T>(
    kept: Seq<Seq<T>>,
    last: Vec<T>,
    len: nat,
    k: int,
)
    requires
        kept.len() > 0,
        forall|i: int| 0 <= i < kept.len() ==> (#[trigger] kept[i]).len() == len,
        last@.len() == len,
        0 <= k < len,
    ensures
        laid(picked(with_last(kept, Some(last))))[k] == kept[0][k],
        laid(picked(with_last(kept, Some(last))))[7 * len + k] == last@[k],
        laid(picked(with_last(kept, None)))[k] == kept[0][k],
        laid(picked(with_last(kept, None)))[7 * len + k] == kept.last()[k],
{
    let held = kept.push(last@);
    assert forall|i: int| 0 <= i < held.len() implies (#[trigger] held[i]).len() == len by {
        if i < kept.len() {
            assert(held[i] == kept[i]);
        }
    }
    assert(0 * len == 0 && 0 * kept.len() == 0 && 0 * (kept.len() - 1) == 0);
    law_each_slot_reads_the_tensor_nearest_to_its_share(held, len, 0, 0, k);
    law_each_slot_reads_the_tensor_nearest_to_its_share(held, len, 7, kept.len() as int, k);
    law_each_slot_reads_the_tensor_nearest_to_its_share(kept, len, 0, 0, k);
    law_each_slot_reads_the_tensor_nearest_to_its_share(kept, len, 7, kept.len() - 1, k);
}

/// What one offer does. The frames seen go up by one. Where they were no
/// multiple of the spacing, nothing else changes; where they were, the frame
/// joins behind what is kept, and as the seventeenth it leaves nine: the
/// first, every second after it, and itself.
pub proof fn law_an_offer_joins_and_thins<T>(
    before: Reservoir<T>,
    after: Reservoir<T>,
    made: spec_fn(int, Seq<T>) -> bool,
)
    requires
        before.wf(),
        feeds(before, after, made),
    ensures
        after.count() == before.count() + 1,
        before.count() % before.spacing() != 0 ==> after.positions() == before.positions()
            && after.tensors() == before.tensors() && after.spacing() == before.spacing(),
        before.count() % before.spacing() == 0 ==> exists|tensor: Seq<T>| #[trigger]
            made(before.count() as int, tensor) && joins(before, after, tensor),
{
    if before.keeps_next() {
        let tensor = choose|tensor: Seq<T>|
            #[trigger] made(before.count() as int, tensor) && before.took(after, tensor);
        assert(joins(before, after, tensor));
    }
}

/// Whether a frame has joined those kept: behind fewer than sixteen, and
/// behind every second of sixteen.
pub open spec fn joins<T>(before: Reservoir<T>, after: Reservoir<T>, tensor: Seq<T>) -> bool {
    let n = before.tensors().len();
    if n < 16 {
        &&& after.spacing() == before.spacing()
        &&& after.positions().len() == n + 1
        &&& after.tensors().len() == n + 1
        &&& forall|i: int|
            0 <= i < n ==> (#[trigger] after.positions()[i]) == before.positions()[i]
        &&& forall|i: int| 0 <= i < n ==> (#[trigger] after.tensors()[i]) == before.tensors()[i]
        &&& after.positions()[n as int] == before.count()
        &&& after.tensors()[n as int] == tensor
    } else {
        &&& after.spacing() == 2 * before.spacing()
        &&& after.positions().len() == 9
        &&& after.tensors().len() == 9
        &&& forall|i: int|
            0 <= i < 8 ==> (#[trigger] after.positions()[i]) == before.positions()[2 * i]
        &&& forall|i: int|
            0 <= i < 8 ==> (#[trigger] after.tensors()[i]) == before.tensors()[2 * i]
        &&& after.positions()[8] == before.count()
        &&& after.tensors()[8] == tensor
    }
}

/// After `n` offers what is kept are the multiples of a power of two below
/// `n`, each with its own frame's tensor. No more than sixteen are kept, and
/// at half the spacing it would have been more.
pub proof fn law_what_is_kept_are_the_multiples<T>(
    history: Seq<Reservoir<T>>,
    made: spec_fn(int, Seq<T>) -> bool,
    n: int,
)
    requires
        fed(history, made),
        0 <= n < history.len(),
    ensures
        ({
            let r = history[n];
            let s = r.spacing();
            &&& exists|k: nat| s == #[trigger] pow2(k)
            &&& n <= 16 * s
            &&& s > 1 ==> n > 8 * s
            &&& r.tensors().len() == r.positions().len()
            &&& forall|i: int|
                0 <= i < r.positions().len() ==> {
                    &&& (#[trigger] r.positions()[i]) == i * s
                    &&& i * s < n
                    &&& made(i * s, r.tensors()[i])
                }
            &&& n <= r.positions().len() * s
        }),
{
    law_each_tensor_is_its_own_frames(history, made, n);
    let r = history[n];
    let (held, s) = (r.positions().len() as int, r.spacing() as int);
    assert(held * s <= 16 * s) by (nonlinear_arith)
        requires
            held <= 16,
            s >= 1,
    ;
    assert forall|i: int| 0 <= i < r.positions().len() implies {
        &&& (#[trigger] r.positions()[i]) == i * s
        &&& i * s < n
        &&& made(i * s, r.tensors()[i])
    } by {
        assert(i * s <= (held - 1) * s) by (nonlinear_arith)
            requires
                i <= held - 1,
                s >= 1,
        ;
        assert(r.positions()[i] == i * s);
        assert((held - 1) * s < r.count());
        assert(i * s < n);
        assert(made(r.positions()[i], r.tensors()[i]));
    }
}

/// The stride of a count is a power of two, the least that leaves sixteen of
/// the count's frames or fewer.
pub proof fn law_the_stride_is_the_least_power_that_leaves_sixteen(count: nat)
    ensures
        exists|k: nat| stride_of(count) == #[trigger] pow2(k),
        count <= 16 * stride_of(count),
        stride_of(count) == 1 || count > 8 * stride_of(count),
{
    lemma_stride_of_is_least(count);
    let k = choose|k: nat| stride_of(count) == #[trigger] pow2(k);
    vstd::arithmetic::power2::lemma2_to64();
    if k > 0 {
        vstd::arithmetic::power2::lemma_pow2_unfold(k);
        vstd::arithmetic::power2::lemma_pow2_pos((k - 1) as nat);
        assert(count > CAPACITY * pow2((k - 1) as nat));
    }
}

} // verus!
