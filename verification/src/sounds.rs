//! What AudioSet class the audio sounds like: the audio passes through
//! untouched and each 10 s window's labels above a threshold leave as cues
//! beside it.
//!
//! Consecutive windows overlap by half, so what leaves with a window is only
//! the samples no window before it has sent: the whole window on the first
//! call, and after that the part that lies past the end of the one before.
//!
//! A window whose label set is exactly the window before's leaves no rows.
//! The comparison ignores rank order, and does not touch the audio passed
//! through, only which rows ride beside it.

use crate::double::{
    is_finite, is_probability, law_dropping_a_sign_keeps_the_size, law_one_is_the_unit,
    law_patterns_order_as_their_numbers, law_three_is_three_units, unit, value, whole,
};
use crate::fbank::{
    extract, frames_in, lays_out, num_frames, reads_rows, ready, Formulas,
};
use crate::host::{
    find, first_named, AudioFormat, Feed, Format, FramePayload, Meta, Rational, TensorType,
    WindowMeta,
};
use crate::labels::{
    is_top, label, law_the_top_are_the_highest_at_least_the_threshold, top_labels, COUNT, LABELS,
};
use crate::text::{
    arranges, decimal, decimal_of, law_an_arrangement_is_determined, names_of, same, sorted,
    texts_of, trim, trimmed, views_of,
};
use crate::words::{bytes_of, le_bytes, le_f32s, words_of};
use vstd::prelude::*;

verus! {

/// The name the host binds the graph to.
pub const MODEL: &'static str = "sounds";

/// The graph's own name for the tensor it takes.
pub const INPUT_NAME: &'static str = "input_values";

/// The graph's own name for the tensor it returns.
pub const OUTPUT_NAME: &'static str = "logits";

/// 10 s at 16 kHz: the clip that is classified in one call.
pub const WINDOW: u32 = 160_000;

/// 5 s at 16 kHz: half the window, so consecutive clips overlap.
pub const STRIDE: u32 = 80_000;

/// The parameters the module takes.
pub const PARAMS_SCHEMA: &'static str =
    r#"{"type":"object","properties":{"threshold":{"type":"number","minimum":0,"maximum":1,"default":0.3},"top":{"type":"number","minimum":0,"default":3}},"additionalProperties":false}"#;

/// What a row holds.
pub const ROWS_SCHEMA: &'static str =
    r#"{"type":"object","properties":{"text":{"type":"string"},"start_t":{"type":"number"},"end_t":{"type":"number"}},"required":["text","start_t","end_t"],"additionalProperties":false}"#;

/// The pattern of 0.3.
pub const DEFAULT_THRESHOLD: u64 = 0x3fd3_3333_3333_3333;

/// The pattern of 3.
pub const DEFAULT_TOP: u64 = 0x4008_0000_0000_0000;

/// The parameters as they are written, each a number's bit pattern.
#[derive(Clone, Copy, PartialEq, Eq, Debug)]
pub struct RawParams {
    pub threshold: u64,
    pub top: u64,
}

/// The parameters as they are used: a probability's bit pattern, and a count.
#[derive(Clone, Copy, PartialEq, Eq, Debug)]
pub struct Params {
    pub threshold: u64,
    pub top: usize,
}

/// What the parameters are where none are given.
pub open spec fn defaults() -> RawParams {
    RawParams { threshold: DEFAULT_THRESHOLD, top: DEFAULT_TOP }
}

/// Whether a pattern stands for a number between zero and one.
pub open spec fn probable(bits: u64) -> bool {
    is_finite(bits) && 0 <= value(bits) <= unit()
}

/// Whether a pattern stands for a whole number at least zero.
pub open spec fn counted(bits: u64) -> bool {
    is_finite(bits) && value(bits) >= 0 && value(bits) % (unit() as int) == 0
}

/// Whether `show` writes a pattern as `text`.
pub open spec fn shows<D: Fn(u64) -> String>(show: D, bits: u64, text: Seq<char>) -> bool {
    exists|s: String| s@ == text && #[trigger] call_ensures(show, (bits,), s)
}

/// Whether `r` is what the parameters come to: the threshold without the sign
/// a zero can have and the count, or which of the two is no such thing.
pub open spec fn settles<D: Fn(u64) -> String>(
    raw: RawParams,
    show: D,
    r: Result<Params, String>,
) -> bool {
    if !probable(raw.threshold) {
        r is Err && exists|shown: Seq<char>|
            #[trigger] shows(show, raw.threshold, shown) && r->Err_0@
                == "sounds: threshold is a probability, and "@ + shown
                + " is not between 0 and 1"@
    } else if !counted(raw.top) {
        r is Err && exists|shown: Seq<char>|
            #[trigger] shows(show, raw.top, shown) && r->Err_0@
                == "sounds: top is a count of labels, and "@ + shown
                + " is not a whole number at least 0"@
    } else {
        &&& r is Ok
        &&& r->Ok_0.threshold == raw.threshold % 0x8000_0000_0000_0000
        &&& r->Ok_0.top == if value(raw.top) / (unit() as int) < usize::MAX {
            value(raw.top) / (unit() as int)
        } else {
            usize::MAX as int
        }
    }
}

/// The parameters checked. `show` writes a number for a message.
pub fn check_params<D: Fn(u64) -> String>(raw: RawParams, show: &D) -> (r: Result<Params, String>)
    requires
        forall|bits: u64| call_requires(*show, (bits,)),
    ensures
        settles(raw, *show, r),
{
    if !is_probability(raw.threshold) {
        let shown = show(raw.threshold);
        assert(shows(*show, raw.threshold, shown@));
        let mut message = String::from_str("sounds: threshold is a probability, and ");
        message.append(shown.as_str());
        message.append(" is not between 0 and 1");
        return Err(message);
    }
    match whole(raw.top) {
        None => {
            let shown = show(raw.top);
            assert(shows(*show, raw.top, shown@));
            let mut message = String::from_str("sounds: top is a count of labels, and ");
            message.append(shown.as_str());
            message.append(" is not a whole number at least 0");
            Err(message)
        },
        Some(top) => Ok(Params { threshold: raw.threshold % 0x8000_0000_0000_0000, top }),
    }
}

/// Whether `r` is what written parameters come to: the defaults where there
/// is nothing but white space, and otherwise what `parse` reads of the text
/// within it.
pub open spec fn parses<P: Fn(&str) -> Result<RawParams, String>, D: Fn(u64) -> String>(
    params: Seq<char>,
    parse: P,
    show: D,
    r: Result<Params, String>,
) -> bool {
    if trimmed(params) == ""@ {
        settles(defaults(), show, r)
    } else {
        exists|text: &str, parsed: Result<RawParams, String>|
            {
                &&& text@ == trimmed(params)
                &&& #[trigger] call_ensures(parse, (text,), parsed)
                &&& match parsed {
                    Err(e) => r is Err && r->Err_0@ == "sounds: bad params: "@ + e@,
                    Ok(raw) => settles(raw, show, r),
                }
            }
    }
}

/// Parses and validates params, shared by `init` and `set_params`.
pub fn parse_params<P: Fn(&str) -> Result<RawParams, String>, D: Fn(u64) -> String>(
    params: &str,
    parse: &P,
    show: &D,
) -> (r: Result<Params, String>)
    requires
        forall|text: &str| call_requires(*parse, (text,)),
        forall|bits: u64| call_requires(*show, (bits,)),
    ensures
        parses(params@, *parse, *show, r),
{
    let given = trim(params);
    if same(given, "") {
        check_params(RawParams { threshold: DEFAULT_THRESHOLD, top: DEFAULT_TOP }, show)
    } else {
        let parsed = parse(given);
        assert(call_ensures(*parse, (given,), parsed));
        match parsed {
            Err(e) => {
                let mut message = String::from_str("sounds: bad params: ");
                message.append(e.as_str());
                Err(message)
            },
            Ok(raw) => check_params(raw, show),
        }
    }
}

/// `current`, sorted, so two label sets compare equal regardless of the order
/// the model ranked them in.
pub fn label_set(current: &[&str]) -> (set: Vec<String>)
    ensures
        arranges(views_of(current@), texts_of(set@)),
{
    sorted(current)
}

/// Whether `current` holds the labels of the window before, in any order.
pub open spec fn repeats(previous: Option<Vec<String>>, current: Seq<&str>) -> bool {
    previous matches Some(set) && arranges(views_of(current), texts_of(set@))
}

/// True when `current`'s label set is the same as `previous`'s - the window's
/// own rows are then skipped, since an overlapping window repeating the same
/// labels says nothing an earlier row didn't already. `previous` is absent
/// before the first window, which is never a repeat.
pub fn is_repeat(previous: &Option<Vec<String>>, current: &[&str]) -> (repeat: bool)
    ensures
        repeat == repeats(*previous, current@),
{
    match previous {
        None => false,
        Some(set) => {
            let now = label_set(current);
            let r = same_texts(set, &now);
            proof {
                if arranges(views_of(current@), texts_of(set@)) {
                    law_an_arrangement_is_determined(
                        views_of(current@),
                        views_of(current@),
                        texts_of(now@),
                        texts_of(set@),
                    );
                }
            }
            r
        },
    }
}

/// Whether two lists hold the same texts.
fn same_texts(a: &Vec<String>, b: &Vec<String>) -> (r: bool)
    ensures
        r == (texts_of(a@) == texts_of(b@)),
{
    if a.len() != b.len() {
        assert(texts_of(a@).len() != texts_of(b@).len());
        return false;
    }
    let mut i: usize = 0;
    while i < a.len()
        invariant
            i <= a@.len(),
            a@.len() == b@.len(),
            forall|k: int| 0 <= k < i ==> texts_of(a@)[k] == texts_of(b@)[k],
        decreases a@.len() - i,
    {
        if a[i] != b[i] {
            assert(texts_of(a@)[i as int] != texts_of(b@)[i as int]);
            return false;
        }
        i = i + 1;
    }
    assert(texts_of(a@) =~= texts_of(b@));
    true
}

/// A number without its sign.
pub open spec fn magnitude(n: int) -> int {
    if n < 0 {
        -n
    } else {
        n
    }
}

/// The whole number nearest to `over / under`, the higher of two as near.
pub open spec fn nearest(over: int, under: int) -> int {
    (2 * over + under) / (2 * under)
}

/// `count` samples as ticks of a time base: the nearest whole number of them,
/// halves away from zero, kept within what a timestamp holds. Where a tick is
/// no time at all, any sample is longer than all the ticks there are.
pub open spec fn ticks_of(count: int, num: int, den: int) -> int {
    if count == 0 || den == 0 {
        0
    } else {
        let ticks = nearest(count * magnitude(den), 16_000 * magnitude(num));
        if (num < 0) == (den < 0) {
            if num == 0 || ticks > i64::MAX {
                i64::MAX as int
            } else {
                ticks
            }
        } else {
            if num == 0 || -ticks < i64::MIN {
                i64::MIN as int
            } else {
                -ticks
            }
        }
    }
}

/// `sample_count` samples, as ticks in the stream's own time base.
pub fn ticks_of_samples(sample_count: usize, num: i32, den: i32) -> (ticks: i64)
    ensures
        ticks == ticks_of(sample_count as int, num as int, den as int),
{
    if sample_count == 0 || den == 0 {
        return 0;
    }
    let towards: bool = (num < 0) == (den < 0);
    if num == 0 {
        return if towards {
            i64::MAX
        } else {
            i64::MIN
        };
    }
    let over: u128 = if den < 0 {
        (-(den as i128)) as u128
    } else {
        den as u128
    };
    let under: u128 = 16_000 * (if num < 0 {
        (-(num as i128)) as u128
    } else {
        num as u128
    });
    assert(0 <= sample_count * over <= 0xffff_ffff_ffff_ffff * 0x8000_0000) by (nonlinear_arith)
        requires
            sample_count <= 0xffff_ffff_ffff_ffff,
            0 <= over <= 0x8000_0000,
    ;
    let ticks: u128 = (2 * ((sample_count as u128) * over) + under) / (2 * under);
    if towards {
        if ticks > 0x7fff_ffff_ffff_ffff {
            i64::MAX
        } else {
            ticks as i64
        }
    } else {
        if ticks > 0x8000_0000_0000_0000 {
            i64::MIN
        } else {
            (-(ticks as i128)) as i64
        }
    }
}

/// At one tick a sample, samples are ticks.
pub proof fn law_a_tick_a_sample(count: int)
    requires
        0 <= count <= i64::MAX,
    ensures
        ticks_of(count, 1, 16_000) == count,
{
    let (over, under) = (count * magnitude(16_000), 16_000 * magnitude(1));
    assert(over == 16_000 * count && under == 16_000) by (nonlinear_arith)
        requires
            over == count * magnitude(16_000),
            under == 16_000 * magnitude(1),
            magnitude(16_000) == 16_000,
            magnitude(1) == 1,
    ;
    assert((2 * over + under) / (2 * under) == count) by (nonlinear_arith)
        requires
            over == 16_000 * count,
            under == 16_000,
    ;
}

proof fn lemma_nearest_grows(a: int, b: int, under: int)
    requires
        0 <= a <= b,
        under > 0,
    ensures
        0 <= nearest(a, under) <= nearest(b, under),
{
    vstd::arithmetic::div_mod::lemma_div_is_ordered(2 * a + under, 2 * b + under, 2 * under);
    vstd::arithmetic::div_mod::lemma_div_pos_is_pos(2 * a + under, 2 * under);
}

/// More samples are no fewer ticks, in either direction: fewer samples than
/// `count` lie between none and `count` of them.
pub proof fn law_ticks_grow_with_samples(some: int, count: int, num: int, den: int)
    requires
        0 <= some <= count,
    ensures
        0 <= ticks_of(some, num, den) <= ticks_of(count, num, den) || 0 >= ticks_of(some, num, den)
            >= ticks_of(count, num, den),
{
    if num != 0 && den != 0 {
        assert(some * magnitude(den) <= count * magnitude(den)) by (nonlinear_arith)
            requires
                0 <= some <= count,
                0 <= magnitude(den),
        ;
        assert(0 <= some * magnitude(den)) by (nonlinear_arith)
            requires
                0 <= some,
                0 <= magnitude(den),
        ;
        lemma_nearest_grows(
            some * magnitude(den),
            count * magnitude(den),
            16_000 * magnitude(num),
        );
    }
}

/// One label beside a window: its name, and the window's own span - where it
/// starts and how many samples long it is.
pub struct Cue {
    pub text: &'static str,
    pub pts: i64,
    pub samples: usize,
}

/// A cue for each label, all over one span.
pub open spec fn spanning(pts: i64, samples: usize, found: Seq<&'static str>) -> Seq<Cue> {
    Seq::new(found.len(), |i: int| Cue { text: found[i], pts, samples })
}

/// One window as it leaves: the samples not sent before it, and its cues.
pub struct OutFrame {
    pub pts: i64,
    pub frame: FramePayload,
    pub rows: Vec<Cue>,
}

/// What `init` settled, plus where the stream has reached.
pub struct Opened {
    /// The unit this stream's timestamps are counted in.
    pub time_base: Rational,
    /// The least probability kept, as its bit pattern.
    pub threshold: u64,
    /// How many labels are kept at most.
    pub top: usize,
    /// How far audio has already been sent downstream, so an overlapping
    /// window's shared portion is not sent twice: so many samples past a
    /// timestamp. Absent before the first call.
    pub emitted_through: Option<(i64, usize)>,
    /// The previous window's label set, sorted - absent before the first
    /// window that held any sample.
    pub previous_labels: Option<Vec<String>>,
}

impl Opened {
    /// A time base counts forward.
    pub open spec fn wf(self) -> bool {
        self.time_base.den > 0
    }

    /// How far what was sent reaches past `pts`, in samples times the time
    /// base's denominator.
    pub open spec fn ahead(self, pts: i64) -> int {
        match self.emitted_through {
            Some((from, count)) => (from - pts) * self.time_base.num * 16_000 + count
                * self.time_base.den,
            None => 0,
        }
    }

    /// How many samples of a window of `count` at `pts` were sent already.
    pub open spec fn skipped(self, pts: i64, count: int) -> int {
        if self.ahead(pts) <= 0 {
            0
        } else {
            let sent = nearest(self.ahead(pts), self.time_base.den as int);
            if sent < count {
                sent
            } else {
                count
            }
        }
    }

    /// Whether a window of `count` samples at `pts` can be stamped: the first
    /// of them not sent before lies within what a timestamp holds.
    pub open spec fn stamps(self, pts: i64, count: int) -> bool {
        i64::MIN <= pts + ticks_of(
            self.skipped(pts, count),
            self.time_base.num as int,
            self.time_base.den as int,
        ) <= i64::MAX
    }

    /// The cues a window leaves: one per label found, unless the window holds
    /// nothing or says what the window before said.
    pub open spec fn cues(self, pts: i64, count: int, found: Seq<&'static str>) -> Seq<Cue> {
        if count == 0 || repeats(self.previous_labels, found) {
            Seq::empty()
        } else {
            spanning(pts, count as usize, found)
        }
    }

    /// Whether a window leaves a frame: where there are samples to send, or
    /// cues.
    pub open spec fn sends(self, pts: i64, count: int, found: Seq<&'static str>) -> bool {
        self.skipped(pts, count) < count || self.cues(pts, count, found).len() > 0
    }

    /// Whether what a window leaves, if it leaves anything, can be stamped.
    pub open spec fn fits(self, pts: i64, count: int, found: Seq<&'static str>) -> bool {
        self.sends(pts, count, found) ==> self.stamps(pts, count)
    }

    /// Whether what each of the windows leaves in its turn can be stamped,
    /// wherever those before it brought the stream.
    pub open spec fn fits_all(self, windows: Seq<Heard>) -> bool {
        forall|i: int, states: Seq<Opened>|
            0 <= i < windows.len() && #[trigger] moved(windows, i, states) && states.first()
                == self ==> states.last().fits(
                windows[i].pts,
                windows[i].samples@.len() as int,
                windows[i].found@,
            )
    }

    /// Whether `out` is what a window leaves: a frame where there is anything
    /// to send, at the timestamp of its first sample not sent before.
    pub open spec fn leaves(
        self,
        pts: i64,
        samples: Seq<u32>,
        found: Seq<&'static str>,
        out: Option<OutFrame>,
    ) -> bool {
        let skip = self.skipped(pts, samples.len() as int);
        let cues = self.cues(pts, samples.len() as int, found);
        &&& out is Some == self.sends(pts, samples.len() as int, found)
        &&& out matches Some(o) ==> {
            &&& o.pts == pts + ticks_of(
                skip,
                self.time_base.num as int,
                self.time_base.den as int,
            )
            &&& o.frame matches FramePayload::New(bytes) && bytes@ == bytes_of(samples.skip(skip))
            &&& o.rows@ == cues
        }
    }

    /// What `init` settled is the same.
    pub open spec fn same_settings(self, other: Self) -> bool {
        &&& self.time_base == other.time_base
        &&& self.threshold == other.threshold
        &&& self.top == other.top
    }

    /// Whether `after` is this stream once a window of `count` samples has
    /// arrived at `pts` and `found` are its labels.
    pub open spec fn moves(
        self,
        pts: i64,
        count: usize,
        found: Seq<&'static str>,
        after: Self,
    ) -> bool {
        &&& after.same_settings(self)
        &&& if count == 0 {
            &&& after.emitted_through == self.emitted_through
            &&& after.previous_labels == self.previous_labels
        } else {
            &&& after.emitted_through == Some((pts, count))
            &&& after.previous_labels matches Some(set) && arranges(
                views_of(found),
                texts_of(set@),
            )
        }
    }

    /// How much of a window's front overlaps what was already sent
    /// downstream.
    fn skip(&self, pts: i64, count: usize) -> (skip: usize)
        requires
            self.wf(),
        ensures
            skip == self.skipped(pts, count as int),
            skip <= count,
    {
        match self.emitted_through {
            None => 0,
            Some((from, sent)) => {
                let ticks: i128 = (from as i128) - (pts as i128);
                let (num, den): (i128, i128) = (
                    self.time_base.num as i128,
                    self.time_base.den as i128,
                );
                assert(-0x1_0000_0000_0000_0000 * 0x8000_0000 <= ticks * num
                    <= 0x1_0000_0000_0000_0000 * 0x8000_0000) by (nonlinear_arith)
                    requires
                        -0x1_0000_0000_0000_0000 <= ticks <= 0x1_0000_0000_0000_0000,
                        -0x8000_0000 <= num <= 0x8000_0000,
                ;
                assert(0 <= sent * den <= 0x1_0000_0000_0000_0000 * 0x8000_0000)
                    by (nonlinear_arith)
                    requires
                        sent <= 0x1_0000_0000_0000_0000,
                        0 < den <= 0x8000_0000,
                ;
                let ahead: i128 = ticks * num * 16_000 + (sent as i128) * den;
                assert(ahead == self.ahead(pts));
                if ahead <= 0 {
                    0
                } else {
                    let past: i128 = (2 * ahead + den) / (2 * den);
                    assert(past >= 0) by {
                        lemma_nearest_grows(0, ahead as int, den as int);
                    }
                    if past < count as i128 {
                        past as usize
                    } else {
                        count
                    }
                }
            },
        }
    }

    /// One window: what it sends on, and its labels beside it where they say
    /// something the window before did not. `found` are the labels kept for
    /// it, ranked score first.
    pub fn step(&mut self, pts: i64, samples: &[u32], found: &[&'static str]) -> (out: Option<
        OutFrame,
    >)
        requires
            old(self).wf(),
            old(self).fits(pts, samples@.len() as int, found@),
        ensures
            final(self).wf(),
            old(self).leaves(pts, samples@, found@, out),
            old(self).moves(pts, samples@.len() as usize, found@, *final(self)),
    {
        let count: usize = samples.len();
        let mut rows: Vec<Cue> = Vec::new();
        if count > 0 {
            if !is_repeat(&self.previous_labels, found) {
                let mut i: usize = 0;
                while i < found.len()
                    invariant
                        i <= found@.len(),
                        rows@ == spanning(pts, count, found@.take(i as int)),
                    decreases found@.len() - i,
                {
                    rows.push(Cue { text: found[i], pts, samples: count });
                    i = i + 1;
                    assert(rows@ =~= spanning(pts, count, found@.take(i as int)));
                }
                assert(found@.take(i as int) =~= found@);
            }
        }
        assert(rows@ =~= old(self).cues(pts, count as int, found@));
        let skip: usize = self.skip(pts, count);
        let out = if skip < count || rows.len() > 0 {
            let shift: i64 = ticks_of_samples(skip, self.time_base.num, self.time_base.den);
            let new_samples = vstd::slice::slice_subrange(samples, skip, count);
            assert(new_samples@ =~= samples@.skip(skip as int));
            Some(
                OutFrame { pts: pts + shift, frame: FramePayload::New(le_bytes(new_samples)), rows },
            )
        } else {
            None
        };
        if count > 0 {
            self.emitted_through = Some((pts, count));
            self.previous_labels = Some(label_set(found));
        }
        out
    }
}

/// Whether `states` are the states a stream goes through as the first `i` of
/// the windows arrive.
pub open spec fn moved(windows: Seq<Heard>, i: int, states: Seq<Opened>) -> bool {
    &&& states.len() == i + 1
    &&& forall|j: int|
        0 <= j < i ==> states[j].moves(
            (#[trigger] windows[j]).pts,
            windows[j].samples.len(),
            windows[j].found@,
            states[j + 1],
        )
}

/// Whether two streams answer the same windows alike: they agree on their
/// settings, on how far they sent, and on the labels of the window before.
spec fn alike(a: Opened, b: Opened) -> bool {
    &&& a.same_settings(b)
    &&& a.emitted_through == b.emitted_through
    &&& a.previous_labels is Some == b.previous_labels is Some
    &&& a.previous_labels is Some ==> texts_of(a.previous_labels->0@) == texts_of(
        b.previous_labels->0@,
    )
}

proof fn lemma_moves_keep_alike(
    a: Opened,
    b: Opened,
    pts: i64,
    count: usize,
    found: Seq<&'static str>,
    after_a: Opened,
    after_b: Opened,
)
    requires
        alike(a, b),
        a.moves(pts, count, found, after_a),
        b.moves(pts, count, found, after_b),
    ensures
        alike(after_a, after_b),
{
    if count > 0 {
        law_an_arrangement_is_determined(
            views_of(found),
            views_of(found),
            texts_of(after_a.previous_labels->0@),
            texts_of(after_b.previous_labels->0@),
        );
    }
}

proof fn lemma_states_are_alike(
    windows: Seq<Heard>,
    i: int,
    a: Seq<Opened>,
    b: Seq<Opened>,
    j: int,
)
    requires
        moved(windows, i, a),
        moved(windows, i, b),
        a.first() == b.first(),
        0 <= j <= i <= windows.len(),
    ensures
        alike(a[j], b[j]),
    decreases j,
{
    if j > 0 {
        let w = windows[j - 1];
        lemma_states_are_alike(windows, i, a, b, j - 1);
        lemma_moves_keep_alike(
            a[j - 1],
            b[j - 1],
            w.pts,
            w.samples.len(),
            w.found@,
            a[j],
            b[j],
        );
    }
}

proof fn lemma_alike_fit(
    a: Opened,
    b: Opened,
    pts: i64,
    count: int,
    found: Seq<&'static str>,
)
    requires
        alike(a, b),
    ensures
        a.fits(pts, count, found) == b.fits(pts, count, found),
{
    assert(a.skipped(pts, count) == b.skipped(pts, count));
    assert(repeats(a.previous_labels, found) == repeats(b.previous_labels, found));
}

/// One window as it was heard: where it starts, its samples as the bit
/// patterns of their floats, and the labels kept for it.
pub struct Heard {
    pub pts: i64,
    pub samples: Vec<u32>,
    pub found: Vec<&'static str>,
}

/// Whether `states` are the states a stream goes through as windows arrive,
/// and each window leaves what that step gives.
pub open spec fn ran(
    windows: Seq<Heard>,
    outs: Seq<Option<OutFrame>>,
    states: Seq<Opened>,
) -> bool {
    &&& outs.len() == windows.len()
    &&& states.len() == windows.len() + 1
    &&& forall|i: int|
        0 <= i < windows.len() ==> {
            let w = #[trigger] windows[i];
            &&& states[i].leaves(w.pts, w.samples@, w.found@, outs[i])
            &&& states[i].moves(w.pts, w.samples.len(), w.found@, states[i + 1])
        }
}

/// The frames that did leave.
pub open spec fn kept(outs: Seq<Option<OutFrame>>) -> Seq<OutFrame>
    decreases outs.len(),
{
    if outs.len() == 0 {
        Seq::empty()
    } else {
        match outs.last() {
            Some(out) => kept(outs.drop_last()).push(out),
            None => kept(outs.drop_last()),
        }
    }
}

impl Opened {
    /// Whether `frames` are what one call leaves, and `after` is this stream
    /// once it has been made: every window steps the stream, and what each
    /// leaves is sent on in turn.
    pub open spec fn processes(
        self,
        windows: Seq<Heard>,
        frames: Seq<OutFrame>,
        after: Self,
    ) -> bool {
        exists|outs: Seq<Option<OutFrame>>, states: Seq<Opened>|
            {
                &&& #[trigger] ran(windows, outs, states)
                &&& states.first() == self
                &&& states.last() == after
                &&& frames == kept(outs)
            }
    }

    /// Whether what each of the windows leaves in its turn can be stamped.
    pub fn can_stamp(&self, windows: &Vec<Heard>) -> (r: bool)
        requires
            self.wf(),
        ensures
            r == self.fits_all(windows@),
    {
        // Where the windows so far have brought the stream. Its labels are
        // those of the latest that held a sample, once one of them has.
        let mut state = Opened {
            time_base: self.time_base,
            threshold: self.threshold,
            top: self.top,
            emitted_through: self.emitted_through,
            previous_labels: None,
        };
        let mut heard: bool = false;
        let ghost mut states: Seq<Opened> = seq![*self];
        let mut i: usize = 0;
        while i < windows.len()
            invariant
                i <= windows@.len(),
                state.wf(),
                state.time_base == self.time_base,
                moved(windows@, i as int, states),
                states.first() == *self,
                states.last().time_base == self.time_base,
                states.last().emitted_through == state.emitted_through,
                states.last().previous_labels == if heard {
                    state.previous_labels
                } else {
                    self.previous_labels
                },
                forall|j: int, others: Seq<Opened>|
                    0 <= j < i && #[trigger] moved(windows@, j, others) && others.first() == *self
                        ==> others.last().fits(
                        windows@[j].pts,
                        windows@[j].samples@.len() as int,
                        windows@[j].found@,
                    ),
            decreases windows@.len() - i,
        {
            let window: &Heard = &windows[i];
            let count: usize = window.samples.len();
            let skip: usize = state.skip(window.pts, count);
            let shift: i64 = ticks_of_samples(skip, state.time_base.num, state.time_base.den);
            let repeat: bool = if heard {
                is_repeat(&state.previous_labels, window.found.as_slice())
            } else {
                is_repeat(&self.previous_labels, window.found.as_slice())
            };
            let sends: bool = skip < count || (count > 0 && !repeat && window.found.len() > 0);
            let ghost come: Opened = states.last();
            assert(come.skipped(window.pts, count as int) == skip);
            assert(sends == come.sends(window.pts, count as int, window.found@));
            if sends && window.pts.checked_add(shift).is_none() {
                assert(!come.fits(windows@[i as int].pts, count as int, windows@[i as int].found@));
                return false;
            }
            proof {
                assert forall|others: Seq<Opened>|
                    #[trigger] moved(windows@, i as int, others) && others.first()
                        == *self implies others.last().fits(
                    windows@[i as int].pts,
                    windows@[i as int].samples@.len() as int,
                    windows@[i as int].found@,
                ) by {
                    lemma_states_are_alike(windows@, i as int, states, others, i as int);
                    lemma_alike_fit(
                        come,
                        others.last(),
                        windows@[i as int].pts,
                        windows@[i as int].samples@.len() as int,
                        windows@[i as int].found@,
                    );
                }
            }
            if count > 0 {
                state.emitted_through = Some((window.pts, count));
                state.previous_labels = Some(label_set(window.found.as_slice()));
                heard = true;
            }
            proof {
                let next = Opened {
                    emitted_through: state.emitted_through,
                    previous_labels: if heard {
                        state.previous_labels
                    } else {
                        self.previous_labels
                    },
                    ..come
                };
                assert(come.moves(window.pts, count, window.found@, next));
                let was = states;
                states = states.push(next);
                assert forall|j: int| 0 <= j < i + 1 implies states[j].moves(
                    (#[trigger] windows@[j]).pts,
                    windows@[j].samples.len(),
                    windows@[j].found@,
                    states[j + 1],
                ) by {
                    assert(states[j] == was[j]);
                    if j < i {
                        assert(states[j + 1] == was[j + 1]);
                    }
                }
            }
            i = i + 1;
        }
        true
    }

    /// One call: every window steps the stream, and what each leaves is sent
    /// on in turn.
    pub fn process(&mut self, windows: &Vec<Heard>) -> (frames: Vec<OutFrame>)
        requires
            old(self).wf(),
            old(self).fits_all(windows@),
        ensures
            final(self).wf(),
            old(self).processes(windows@, frames@, *final(self)),
    {
        let mut frames: Vec<OutFrame> = Vec::new();
        let ghost mut outs: Seq<Option<OutFrame>> = Seq::empty();
        let ghost mut states: Seq<Opened> = seq![*self];
        let mut i: usize = 0;
        while i < windows.len()
            invariant
                i <= windows@.len(),
                self.wf(),
                self.time_base == old(self).time_base,
                old(self).fits_all(windows@),
                ran(windows@.take(i as int), outs, states),
                states.first() == *old(self),
                states.last() == *self,
                frames@ == kept(outs),
            decreases windows@.len() - i,
        {
            let window: &Heard = &windows[i];
            assert(moved(windows@, i as int, states)) by {
                assert forall|j: int| 0 <= j < i implies states[j].moves(
                    (#[trigger] windows@[j]).pts,
                    windows@[j].samples.len(),
                    windows@[j].found@,
                    states[j + 1],
                ) by {
                    assert(windows@.take(i as int)[j] == windows@[j]);
                }
            }
            let out = self.step(window.pts, window.samples.as_slice(), window.found.as_slice());
            let ghost (outs_before, states_before) = (outs, states);
            proof {
                outs = outs.push(out);
                states = states.push(*self);
                assert(outs.drop_last() =~= outs_before);
                let (taken, before) = (windows@.take(i + 1), windows@.take(i as int));
                assert forall|j: int| 0 <= j < taken.len() implies {
                    let w = #[trigger] taken[j];
                    &&& states[j].leaves(w.pts, w.samples@, w.found@, outs[j])
                    &&& states[j].moves(w.pts, w.samples.len(), w.found@, states[j + 1])
                } by {
                    if j < i {
                        assert(taken[j] == before[j]);
                        assert(outs[j] == outs_before[j]);
                        assert(states[j + 1] == states_before[j + 1]);
                    }
                }
            }
            match out {
                Some(frame) => {
                    frames.push(frame);
                },
                None => {},
            }
            i = i + 1;
        }
        assert(windows@.take(i as int) =~= windows@);
        assert(ran(windows@, outs, states));
        frames
    }
}

/// Calls join: what two calls leave, one after the other, is what one call
/// leaves of all their windows. So whatever holds of one run holds of a
/// stream, however its windows are handed over.
pub proof fn law_calls_join(
    opened: Opened,
    first: Seq<Heard>,
    left: Seq<OutFrame>,
    between: Opened,
    second: Seq<Heard>,
    right: Seq<OutFrame>,
    after: Opened,
)
    requires
        opened.processes(first, left, between),
        between.processes(second, right, after),
    ensures
        opened.processes(first + second, left + right, after),
{
    let (a_outs, a) = choose|outs: Seq<Option<OutFrame>>, states: Seq<Opened>|
        {
            &&& #[trigger] ran(first, outs, states)
            &&& states.first() == opened
            &&& states.last() == between
            &&& left == kept(outs)
        };
    let (b_outs, b) = choose|outs: Seq<Option<OutFrame>>, states: Seq<Opened>|
        {
            &&& #[trigger] ran(second, outs, states)
            &&& states.first() == between
            &&& states.last() == after
            &&& right == kept(outs)
        };
    let (windows, outs, states) = (first + second, a_outs + b_outs, a + b.drop_first());
    let n = first.len() as int;
    assert(ran(windows, outs, states)) by {
        assert forall|i: int| 0 <= i < windows.len() implies {
            let w = #[trigger] windows[i];
            &&& states[i].leaves(w.pts, w.samples@, w.found@, outs[i])
            &&& states[i].moves(w.pts, w.samples.len(), w.found@, states[i + 1])
        } by {
            if i < n {
                assert(windows[i] == first[i]);
                assert(states[i] == a[i]);
                assert(states[i + 1] == a[i + 1]);
            } else {
                let k = i - n;
                assert(windows[i] == second[k]);
                assert(states[i] == b[k]) by {
                    if k > 0 {
                        assert(states[i] == b.drop_first()[k - 1]);
                    }
                }
                assert(states[i + 1] == b.drop_first()[k]);
            }
        }
    }
    lemma_kept_join(a_outs, b_outs);
    assert(states.first() == opened);
    assert(states.last() == after);
}

proof fn lemma_kept_join(a: Seq<Option<OutFrame>>, b: Seq<Option<OutFrame>>)
    ensures
        kept(a + b) == kept(a) + kept(b),
    decreases b.len(),
{
    if b.len() == 0 {
        assert(a + b =~= a);
        assert(kept(a) + kept(b) =~= kept(a));
    } else {
        lemma_kept_join(a, b.drop_last());
        assert((a + b).drop_last() =~= a + b.drop_last());
        assert(kept(a + b) =~= kept(a) + kept(b));
    }
}

/// The audio that left, in turn.
pub open spec fn audio(outs: Seq<Option<OutFrame>>) -> Seq<u8>
    decreases outs.len(),
{
    if outs.len() == 0 {
        Seq::empty()
    } else {
        audio(outs.drop_last()) + audio_of(outs.last())
    }
}

/// The audio one window sends on.
pub open spec fn audio_of(out: Option<OutFrame>) -> Seq<u8> {
    match out {
        Some(frame) => match frame.frame {
            FramePayload::New(bytes) => bytes@,
            FramePayload::Same => Seq::empty(),
        },
        None => Seq::empty(),
    }
}

/// How far into a stream the windows before the `j`th have read.
pub open spec fn reach(windows: Seq<Heard>, j: int) -> int {
    if j <= 0 {
        0
    } else {
        windows[j - 1].pts - windows[0].pts + windows[j - 1].samples@.len()
    }
}

/// Whether the windows read `stream` from its start at one tick a sample,
/// each beginning no later than the one before it ended and ending no
/// earlier.
pub open spec fn slides(stream: Seq<u32>, windows: Seq<Heard>) -> bool {
    forall|j: int|
        0 <= j < windows.len() ==> {
            let w = #[trigger] windows[j];
            let from = w.pts - windows[0].pts;
            &&& 0 <= from <= reach(windows, j) <= reach(windows, j + 1) <= stream.len()
            &&& w.samples@ == stream.subrange(from, from + w.samples@.len())
        }
}

/// At one tick a sample, what is skipped is what the windows before share:
/// how far they reached past this window's start.
pub proof fn law_the_overlap_is_skipped(opened: Opened, from: i64, sent: usize, pts: i64, count: int)
    requires
        opened.time_base.num == 1,
        opened.time_base.den == 16_000,
        opened.emitted_through == Some((from, sent)),
        0 <= count,
    ensures
        opened.skipped(pts, count) == if from + sent <= pts {
            0
        } else if from + sent - pts < count {
            from + sent - pts
        } else {
            count
        },
{
    let past = from + sent - pts;
    let ahead = opened.ahead(pts);
    assert((from - pts) * opened.time_base.num == from - pts) by (nonlinear_arith)
        requires
            opened.time_base.num == 1,
    ;
    assert(sent * opened.time_base.den == 16_000 * sent) by (nonlinear_arith)
        requires
            opened.time_base.den == 16_000,
    ;
    assert(ahead == 16_000 * past);
    let den = opened.time_base.den as int;
    assert((2 * ahead + den) / (2 * den) == past) by (nonlinear_arith)
        requires
            ahead == 16_000 * past,
            den == 16_000,
    ;
}

/// A window that starts a stride after the window before it sends on its
/// last stride of samples, and nothing else.
pub proof fn law_each_window_sends_a_stride(opened: Opened, from: i64, pts: i64)
    requires
        opened.time_base.num == 1,
        opened.time_base.den == 16_000,
        opened.emitted_through == Some((from, WINDOW as usize)),
        pts == from + STRIDE,
    ensures
        opened.skipped(pts, WINDOW as int) == 80_000,
        WINDOW - STRIDE == 80_000,
{
    law_the_overlap_is_skipped(opened, from, WINDOW as usize, pts, WINDOW as int);
}

/// Past the first quarter of a window, every sample lies in the middle half of
/// exactly one of the windows that follow each other at the stride: no sound
/// is only ever heard from an edge.
pub proof fn law_every_sample_is_heard_from_a_middle(at: int)
    requires
        at >= WINDOW as int / 4,
    ensures
        exists|k: int| #[trigger] heard_in_the_middle(at, k),
        forall|j: int, k: int| #[trigger]
            heard_in_the_middle(at, j) && #[trigger] heard_in_the_middle(at, k) ==> j == k,
{
    let k = (at - WINDOW as int / 4) / (STRIDE as int);
    assert(heard_in_the_middle(at, k));
}

/// Whether a sample lies in the middle half of the window that starts `k`
/// strides in.
pub open spec fn heard_in_the_middle(at: int, k: int) -> bool {
    k >= 0 && k * STRIDE + WINDOW as int / 4 <= at < k * STRIDE + 3 * (WINDOW as int / 4)
}

/// Whether a stream at one tick a sample has sent on what the first `j`
/// windows read.
pub open spec fn has_sent(windows: Seq<Heard>, state: Opened, j: int) -> bool {
    &&& state.time_base.num == 1
    &&& state.time_base.den == 16_000
    &&& state.emitted_through matches Some((from, sent)) ==> from + sent == windows[0].pts + reach(
        windows,
        j,
    )
    &&& state.emitted_through is None ==> reach(windows, j) == 0
}

proof fn lemma_has_sent(
    stream: Seq<u32>,
    windows: Seq<Heard>,
    outs: Seq<Option<OutFrame>>,
    states: Seq<Opened>,
    j: int,
)
    requires
        ran(windows, outs, states),
        has_sent(windows, states.first(), 0),
        slides(stream, windows),
        0 <= j <= windows.len(),
    ensures
        has_sent(windows, states[j], j),
    decreases j,
{
    if j > 0 {
        lemma_has_sent(stream, windows, outs, states, j - 1);
        let w = windows[j - 1];
        assert(states[j - 1].moves(w.pts, w.samples.len(), w.found@, states[j]));
        assert(0 <= w.pts - windows[0].pts <= reach(windows, j - 1) <= reach(windows, j));
    }
}

/// Every sample leaves once: whatever the windows share, what they send on is
/// the stream they read, from its start to where the last of them ends.
pub proof fn law_every_sample_leaves_once(
    stream: Seq<u32>,
    windows: Seq<Heard>,
    outs: Seq<Option<OutFrame>>,
    states: Seq<Opened>,
    j: int,
)
    requires
        ran(windows, outs, states),
        states.first().emitted_through is None,
        states.first().time_base.num == 1,
        states.first().time_base.den == 16_000,
        slides(stream, windows),
        0 <= j <= windows.len(),
    ensures
        audio(outs.take(j)) == bytes_of(stream.take(reach(windows, j))),
    decreases j,
{
    if j == 0 {
        assert(stream.take(0) =~= Seq::empty());
        assert(bytes_of(Seq::<u32>::empty()) =~= Seq::empty());
        assert(outs.take(0) =~= Seq::empty());
    } else {
        let i = j - 1;
        law_every_sample_leaves_once(stream, windows, outs, states, i);
        lemma_has_sent(stream, windows, outs, states, i);
        let w = windows[i];
        assert(states[i].leaves(w.pts, w.samples@, w.found@, outs[i]));
        lemma_sends_the_rest(stream, windows, states[i], outs[i], i);
        lemma_audio_grows(outs, j);
        lemma_stream_grows(stream, reach(windows, i), reach(windows, j));
    }
}

proof fn lemma_audio_grows(outs: Seq<Option<OutFrame>>, j: int)
    requires
        0 < j <= outs.len(),
    ensures
        audio(outs.take(j)) == audio(outs.take(j - 1)) + audio_of(outs[j - 1]),
{
    assert(outs.take(j).drop_last() =~= outs.take(j - 1));
}

proof fn lemma_stream_grows(stream: Seq<u32>, from: int, to: int)
    requires
        0 <= from <= to <= stream.len(),
    ensures
        bytes_of(stream.take(to)) == bytes_of(stream.take(from)) + bytes_of(
            stream.subrange(from, to),
        ),
{
    assert(stream.take(from) + stream.subrange(from, to) =~= stream.take(to));
    lemma_bytes_join(stream.take(from), stream.subrange(from, to));
}

/// Each frame carries the timestamp of its first sample: as far into the
/// stream as everything sent before it.
pub proof fn law_each_frame_is_stamped_with_its_first_sample(
    stream: Seq<u32>,
    windows: Seq<Heard>,
    outs: Seq<Option<OutFrame>>,
    states: Seq<Opened>,
    j: int,
)
    requires
        ran(windows, outs, states),
        states.first().emitted_through is None,
        states.first().time_base.num == 1,
        states.first().time_base.den == 16_000,
        slides(stream, windows),
        stream.len() <= i64::MAX,
        0 <= j < windows.len(),
    ensures
        outs[j] matches Some(out) ==> out.pts == windows[0].pts + reach(windows, j),
{
    lemma_has_sent(stream, windows, outs, states, j);
    let w = windows[j];
    assert(states[j].leaves(w.pts, w.samples@, w.found@, outs[j]));
    let skip = lemma_skips_to_reach(stream, windows, states[j], j);
    assert(0 <= w.pts - windows[0].pts <= reach(windows, j) <= reach(windows, j + 1)
        <= stream.len());
    law_a_tick_a_sample(skip);
}

proof fn lemma_skips_to_reach(
    stream: Seq<u32>,
    windows: Seq<Heard>,
    state: Opened,
    i: int,
) -> (skip: int)
    requires
        slides(stream, windows),
        0 <= i < windows.len(),
        has_sent(windows, state, i),
    ensures
        skip == state.skipped(windows[i].pts, windows[i].samples@.len() as int),
        skip == reach(windows, i) - (windows[i].pts - windows[0].pts),
        0 <= skip <= windows[i].samples@.len(),
{
    let w = windows[i];
    let count = w.samples@.len() as int;
    let skip = state.skipped(w.pts, count);
    assert(0 <= w.pts - windows[0].pts <= reach(windows, i) <= reach(windows, i + 1));
    if let Some((from, sent)) = state.emitted_through {
        law_the_overlap_is_skipped(state, from, sent, w.pts, count);
    }
    skip
}

proof fn lemma_sends_the_rest(
    stream: Seq<u32>,
    windows: Seq<Heard>,
    state: Opened,
    out: Option<OutFrame>,
    i: int,
)
    requires
        slides(stream, windows),
        0 <= i < windows.len(),
        has_sent(windows, state, i),
        state.leaves(windows[i].pts, windows[i].samples@, windows[i].found@, out),
    ensures
        audio_of(out) == bytes_of(stream.subrange(reach(windows, i), reach(windows, i + 1))),
        0 <= reach(windows, i) <= reach(windows, i + 1) <= stream.len(),
{
    let w = windows[i];
    let skip = lemma_skips_to_reach(stream, windows, state, i);
    let fresh = stream.subrange(reach(windows, i), reach(windows, i + 1));
    assert(w.samples@.skip(skip) =~= fresh);
    if out is None {
        assert(bytes_of(fresh) =~= Seq::empty());
    }
}

proof fn lemma_bytes_join(a: Seq<u32>, b: Seq<u32>)
    ensures
        bytes_of(a + b) == bytes_of(a) + bytes_of(b),
{
    assert(bytes_of(a + b) =~= bytes_of(a) + bytes_of(b));
}

/// The labels decide no more than the rows: the same window after the same
/// audio sends the same audio on, whatever was found in it or before it.
pub proof fn law_labels_do_not_touch_the_audio(
    a: Opened,
    b: Opened,
    window: Heard,
    found: Seq<&'static str>,
    out_a: Option<OutFrame>,
    out_b: Option<OutFrame>,
    after_a: Opened,
    after_b: Opened,
)
    requires
        a.time_base == b.time_base,
        a.emitted_through == b.emitted_through,
        a.leaves(window.pts, window.samples@, window.found@, out_a),
        b.leaves(window.pts, window.samples@, found, out_b),
        a.moves(window.pts, window.samples.len(), window.found@, after_a),
        b.moves(window.pts, window.samples.len(), found, after_b),
    ensures
        audio_of(out_a) == audio_of(out_b),
        out_a is Some && out_b is Some ==> out_a->0.pts == out_b->0.pts,
        after_a.emitted_through == after_b.emitted_through,
{
    let count = window.samples@.len() as int;
    let skip = a.skipped(window.pts, count);
    assert(skip == b.skipped(window.pts, count));
    if out_a is None || out_b is None {
        let rest = bytes_of(window.samples@.skip(skip));
        assert(skip >= count);
        lemma_skipped_at_most_all(a, window.pts, count);
        assert(rest =~= Seq::empty());
    }
}

proof fn lemma_skipped_at_most_all(opened: Opened, pts: i64, count: int)
    requires
        0 <= count,
    ensures
        opened.skipped(pts, count) <= count,
{
}

/// A window that holds the labels of the one before it, in whatever order,
/// leaves no rows; one that holds any others leaves a row for each of them,
/// over its own span.
pub proof fn law_only_news_leaves_rows(
    before: Opened,
    first: Heard,
    after: Opened,
    second: Heard,
    out: Option<OutFrame>,
)
    requires
        first.samples@.len() > 0,
        second.samples@.len() > 0,
        before.moves(first.pts, first.samples.len(), first.found@, after),
        after.leaves(second.pts, second.samples@, second.found@, out),
    ensures
        views_of(first.found@).to_multiset() == views_of(second.found@).to_multiset() ==> (
        out matches Some(o) ==> o.rows@.len() == 0),
        views_of(first.found@).to_multiset() != views_of(second.found@).to_multiset() ==> (
        out matches Some(o) ==> o.rows@ == spanning(
            second.pts,
            second.samples.len(),
            second.found@,
        )),
        views_of(first.found@).to_multiset() != views_of(second.found@).to_multiset()
            && second.found@.len() > 0 ==> out is Some,
{
}

/// Whether `r` is what a stream opens as, or the first thing wrong with it:
/// pictures in place of samples, samples of another kind, another rate, more
/// channels than one, and then whatever is wrong with the params.
pub open spec fn opens<P: Fn(&str) -> Result<RawParams, String>, D: Fn(u64) -> String>(
    format: Format,
    time_base: Rational,
    params: Seq<char>,
    parse: P,
    show: D,
    r: Result<Opened, String>,
) -> bool {
    match format {
        Format::Video(_) => r is Err && r->Err_0@
            == "sounds listens to samples, and this stream is video"@,
        Format::Audio(audio) => if audio.sample_fmt@ != "f32"@ {
            r is Err && r->Err_0@ == "sounds does not accept sample format "@ + audio.sample_fmt@
        } else if audio.sample_rate != 16_000 {
            r is Err && r->Err_0@ == "sounds listens at "@ + decimal_of(16_000)
                + " Hz, and this instance is "@ + decimal_of(audio.sample_rate as nat) + " Hz"@
        } else if audio.channels != 1 {
            r is Err && r->Err_0@ == "sounds listens in mono, and this instance has "@ + decimal_of(
                audio.channels as nat,
            ) + " channels"@
        } else {
            exists|parsed: Result<Params, String>|
                {
                    &&& #[trigger] parses(params, parse, show, parsed)
                    &&& match parsed {
                        Err(message) => r is Err && r->Err_0@ == message@,
                        Ok(p) => {
                            &&& r is Ok
                            &&& r->Ok_0.time_base == time_base
                            &&& r->Ok_0.threshold == p.threshold
                            &&& r->Ok_0.top == p.top
                            &&& r->Ok_0.emitted_through is None
                            &&& r->Ok_0.previous_labels is None
                        },
                    }
                }
        },
    }
}

impl Opened {
    /// The stream a format opens, or the first thing wrong with it.
    pub fn init<P: Fn(&str) -> Result<RawParams, String>, D: Fn(u64) -> String>(
        format: &Format,
        time_base: Rational,
        params: &str,
        parse: &P,
        show: &D,
    ) -> (r: Result<Opened, String>)
        requires
            forall|text: &str| call_requires(*parse, (text,)),
            forall|bits: u64| call_requires(*show, (bits,)),
        ensures
            opens(*format, time_base, params@, *parse, *show, r),
    {
        match format {
            Format::Video(_) => Err(
                String::from_str("sounds listens to samples, and this stream is video"),
            ),
            Format::Audio(audio) => {
                if !same(audio.sample_fmt.as_str(), "f32") {
                    let mut message = String::from_str("sounds does not accept sample format ");
                    message.append(audio.sample_fmt.as_str());
                    return Err(message);
                }
                if audio.sample_rate != 16_000 {
                    let mut message = String::from_str("sounds listens at ");
                    message.append(decimal(16_000).as_str());
                    message.append(" Hz, and this instance is ");
                    message.append(decimal(audio.sample_rate as u64).as_str());
                    message.append(" Hz");
                    return Err(message);
                }
                if audio.channels != 1 {
                    let mut message = String::from_str(
                        "sounds listens in mono, and this instance has ",
                    );
                    message.append(decimal(audio.channels as u64).as_str());
                    message.append(" channels");
                    return Err(message);
                }
                let parsed = parse_params(params, parse, show);
                assert(parses(params@, *parse, *show, parsed));
                match parsed {
                    Err(message) => Err(message),
                    Ok(parsed) => Ok(
                        Opened {
                            time_base,
                            threshold: parsed.threshold,
                            top: parsed.top,
                            emitted_through: None,
                            previous_labels: None,
                        },
                    ),
                }
            },
        }
    }

    /// New params for a stream that runs; where they are refused, the old
    /// ones stay.
    pub fn set_params<P: Fn(&str) -> Result<RawParams, String>, D: Fn(u64) -> String>(
        &mut self,
        params: &str,
        parse: &P,
        show: &D,
    ) -> (r: Result<(), String>)
        requires
            forall|text: &str| call_requires(*parse, (text,)),
            forall|bits: u64| call_requires(*show, (bits,)),
        ensures
            exists|parsed: Result<Params, String>|
                {
                    &&& #[trigger] parses(params@, *parse, *show, parsed)
                    &&& match parsed {
                        Err(message) => r is Err && r->Err_0@ == message@ && *final(self) == *old(
                            self,
                        ),
                        Ok(p) => r is Ok && *final(self) == (Opened {
                            threshold: p.threshold,
                            top: p.top,
                            ..*old(self)
                        }),
                    }
                },
    {
        let parsed = parse_params(params, parse, show);
        assert(parses(params@, *parse, *show, parsed));
        match parsed {
            Err(message) => Err(message),
            Ok(parsed) => {
                self.threshold = parsed.threshold;
                self.top = parsed.top;
                Ok(())
            },
        }
    }
}

/// What the module says of itself.
pub fn describe() -> (meta: WindowMeta)
    ensures
        meta.meta.name@ == "sounds"@,
        meta.meta.version@ == "0.1.0"@,
        meta.meta.params_schema@ == PARAMS_SCHEMA@,
        meta.meta.rows_schema@ == ROWS_SCHEMA@,
        meta.meta.pixel_formats@.len() == 0,
        texts_of(meta.meta.sample_formats@) == seq!["f32"@],
        meta.meta.sample_rates@ == seq![16_000u32],
        meta.meta.channel_counts@ == seq![1u32],
        meta.meta.rows_language@.len() == 0,
        meta.window == 160_000,
        meta.stride == 80_000,
        !meta.pure,
        meta.one_to_one,
        !meta.reads_rows,
        !meta.forwards_rows,
        meta.inputs == 1,
{
    let mut sample_formats: Vec<String> = Vec::new();
    sample_formats.push(String::from_str("f32"));
    assert(texts_of(sample_formats@) =~= seq!["f32"@]);
    // What the model was trained on, and the host conforms to it.
    let mut sample_rates: Vec<u32> = Vec::new();
    sample_rates.push(16_000);
    let mut channel_counts: Vec<u32> = Vec::new();
    channel_counts.push(1);
    WindowMeta {
        meta: Meta {
            name: String::from_str("sounds"),
            version: String::from_str("0.1.0"),
            params_schema: String::from_str(PARAMS_SCHEMA),
            rows_schema: String::from_str(ROWS_SCHEMA),
            // An audio module, so it names no pixel formats.
            pixel_formats: Vec::new(),
            sample_formats,
            sample_rates,
            channel_counts,
            // The rows say what a window sounds like, not what language is
            // spoken in it, so there is nothing here to tag a track with.
            rows_language: Vec::new(),
        },
        window: WINDOW,
        stride: STRIDE,
        // How far audio was sent makes a call's output depend on the calls
        // before it.
        pure: false,
        // The samples pass through as they arrived, each of them once.
        one_to_one: true,
        reads_rows: false,
        // What leaves is this module's own labels and nothing else.
        forwards_rows: false,
        // One stream in: the audio it listens to.
        inputs: 1,
    }
}

/// What the graph is fed for one window, or nothing where the window does not
/// hold even one frame: there is nothing in it but padding, and the model has
/// nothing worth guessing at.
pub fn ask<
    T: Copy,
    C: Copy,
    W: Copy,
    M: Fn(&[u32]) -> T,
    L: Fn(u32, T) -> T,
    E: Fn(T, Option<T>) -> T,
    H: Fn(usize, T) -> C,
    G: Fn(usize) -> W,
    N: Fn(W, W) -> W,
    B: Fn(C, C, W) -> (C, C),
    P: Fn(C) -> T,
    Q: Fn(T, T, T) -> T,
    F: Fn(T) -> T,
    Z: Fn(T) -> u32,
>(
    samples: &[u32],
    formulas: &Formulas<T, C, W, M, L, E, H, G, N, B, P, Q, F>,
    normalize: &Z,
) -> (feed: Option<Feed>)
    requires
        ready::<u32, T, C, W, M, L, E, H, G, N, B, P, Q, F>(*formulas),
        forall|value: T| call_requires(*normalize, (value,)),
    ensures
        feed is None == (frames_in(samples@.len() as int) == 0),
        feed matches Some(f) ==> {
            &&& f.name@ == "input_values"@
            &&& f.dims@ == seq![1u32, 1024, 128]
            &&& f.ty == TensorType::Fp32
            &&& exists|rows: Seq<Seq<T>>, features: Seq<u32>|
                {
                    &&& #[trigger] reads_rows(samples@, rows, *formulas)
                    &&& #[trigger] lays_out(rows, formulas.zero, features, *normalize)
                    &&& f.data@ == bytes_of(features)
                }
        },
{
    if num_frames(samples.len()) == 0 {
        return None;
    }
    let features = extract(samples, formulas, normalize);
    let mut dims: Vec<u32> = Vec::new();
    dims.push(1);
    dims.push(1024);
    dims.push(128);
    assert(dims@ =~= seq![1u32, 1024, 128]);
    let feed = Feed {
        name: String::from_str(INPUT_NAME),
        dims,
        ty: TensorType::Fp32,
        data: le_bytes(features.as_slice()),
    };
    Some(feed)
}

/// Whether `scores` are the logits' probabilities.
pub open spec fn scores_of<P: Fn(u32) -> Option<u64>>(
    logits: Seq<u32>,
    scores: Seq<Option<u64>>,
    score: P,
) -> bool {
    &&& scores.len() == logits.len()
    &&& forall|i: int|
        0 <= i < logits.len() ==> call_ensures(score, (logits[i],), #[trigger] scores[i])
}

/// The names of classes, in turn.
pub open spec fn called(picked: Seq<(usize, u64)>) -> Seq<&'static str> {
    Seq::new(picked.len(), |k: int| LABELS@[picked[k].0 as int])
}

/// The labels a graph's answer gives: those at or above `threshold`, the
/// highest-scoring `top` of them, ranked score first, or what is wrong with
/// the answer. `score` is the probability of a logit, as a bit pattern, or
/// nothing for one that is no number.
pub fn answer<P: Fn(u32) -> Option<u64>>(
    outputs: &Vec<(String, Vec<u8>)>,
    threshold: u64,
    top: usize,
    score: &P,
) -> (r: Result<Vec<&'static str>, String>)
    requires
        forall|logit: u32| call_requires(*score, (logit,)),
    ensures
        match first_named(names_of(outputs@), OUTPUT_NAME@) {
            None => r is Err && r->Err_0@ == "sounds: the graph returned no tensor named "@
                + OUTPUT_NAME@,
            Some(i) => {
                let logits = words_of(outputs@[i].1@);
                if logits.len() != COUNT {
                    r is Err && r->Err_0@ == "sounds: the graph returned "@ + decimal_of(
                        logits.len(),
                    ) + " logit(s), expected "@ + decimal_of(COUNT as nat)
                } else {
                    r is Ok && exists|scores: Seq<Option<u64>>, picked: Seq<(usize, u64)>|
                        {
                            &&& #[trigger] scores_of(logits, scores, *score)
                            &&& #[trigger] is_top(
                                scores,
                                COUNT as int,
                                threshold,
                                top as int,
                                picked,
                            )
                            &&& r->Ok_0@ == called(picked)
                        }
                }
            },
        },
{
    match find(outputs, OUTPUT_NAME) {
        None => {
            let mut message = String::from_str("sounds: the graph returned no tensor named ");
            message.append(OUTPUT_NAME);
            Err(message)
        },
        Some(i) => {
            let logits = le_f32s(outputs[i].1.as_slice());
            if logits.len() != COUNT {
                let mut message = String::from_str("sounds: the graph returned ");
                message.append(decimal(logits.len() as u64).as_str());
                message.append(" logit(s), expected ");
                message.append(decimal(COUNT as u64).as_str());
                return Err(message);
            }
            let mut scores: Vec<Option<u64>> = Vec::new();
            let mut k: usize = 0;
            while k < logits.len()
                invariant
                    k <= logits@.len(),
                    scores@.len() == k,
                    forall|logit: u32| call_requires(*score, (logit,)),
                    forall|m: int|
                        0 <= m < k ==> call_ensures(*score, (logits@[m],), #[trigger] scores@[m]),
                decreases logits@.len() - k,
            {
                scores.push(score(logits[k]));
                k = k + 1;
            }
            let picked = top_labels(scores.as_slice(), threshold, top);
            let mut names: Vec<&'static str> = Vec::new();
            let mut k: usize = 0;
            while k < picked.len()
                invariant
                    k <= picked@.len(),
                    is_top(scores@, COUNT as int, threshold, top as int, picked@),
                    names@ == called(picked@.take(k as int)),
                decreases picked@.len() - k,
            {
                match label(picked[k].0) {
                    Some(name) => {
                        names.push(name);
                    },
                    None => {},
                }
                k = k + 1;
                assert(names@ =~= called(picked@.take(k as int)));
            }
            assert(picked@.take(k as int) =~= picked@);
            assert(scores_of(logits@, scores@, *score));
            Ok(names)
        },
    }
}

/// Samples come to the whole number of ticks nearest to how long they last,
/// the longer of two as near: `count` samples at 16 kHz are `count * den` ticks
/// over `16_000 * num`. Only where that is more than a timestamp holds is it
/// the most that one holds.
pub proof fn law_ticks_are_the_nearest_to_the_time(count: int, num: int, den: int)
    requires
        0 <= count,
        0 < num,
        0 < den,
    ensures
        ({
            let ticks = ticks_of(count, num, den);
            let tick = 16_000 * num;
            &&& 0 <= ticks <= i64::MAX
            &&& 2 * (tick * ticks - count * den) <= tick
            &&& ticks < i64::MAX ==> -tick < 2 * (tick * ticks - count * den)
        }),
{
    let (over, under) = (count * den, 16_000 * num);
    let exact = nearest(over, under);
    assert(over >= 0) by (nonlinear_arith)
        requires
            over == count * den,
            0 <= count,
            0 < den,
    ;
    assert(0 <= exact && -under < 2 * (under * exact - over) <= under) by (nonlinear_arith)
        requires
            exact == (2 * over + under) / (2 * under),
            under > 0,
            over >= 0,
    ;
    let ticks = ticks_of(count, num, den);
    if count == 0 {
        assert(over == 0 && under * 0 == 0) by (nonlinear_arith)
            requires
                over == count * den,
                count == 0,
        ;
    } else if exact > i64::MAX {
        assert(under * ticks <= under * exact) by (nonlinear_arith)
            requires
                ticks <= exact,
                under > 0,
        ;
    }
}

/// A time base that counts backwards counts as many ticks the other way, one
/// with both its signs turned is the same, and one that counts no time holds
/// no samples' length: nothing where its ticks last no end, and the most there
/// is where they last nothing.
pub proof fn law_ticks_turn_with_the_time_base(count: int, num: int, den: int)
    requires
        0 <= count,
        0 < num,
        0 < den,
    ensures
        ticks_of(count, -num, -den) == ticks_of(count, num, den),
        ticks_of(count, num, den) < i64::MAX ==> ticks_of(count, -num, den) == -ticks_of(
            count,
            num,
            den,
        ),
        ticks_of(count, num, -den) == ticks_of(count, -num, den),
        ticks_of(count, num, 0) == 0,
        count > 0 ==> ticks_of(count, 0, den) == i64::MAX,
        count > 0 ==> ticks_of(count, 0, -den) == i64::MIN,
        ticks_of(0, 0, den) == 0,
{
    law_ticks_are_the_nearest_to_the_time(count, num, den);
}

/// How much of a window's front was sent already, in any time base: where the
/// audio sent ends a time past the window's start, the whole number of samples
/// nearest to that time, and at most the whole window; where it ends no later,
/// none.
pub proof fn law_what_was_sent_is_skipped_in_any_time_base(
    opened: Opened,
    from: i64,
    sent: usize,
    pts: i64,
    count: int,
)
    requires
        opened.time_base.den > 0,
        opened.emitted_through == Some((from, sent)),
        0 <= count,
    ensures
        ({
            let skip = opened.skipped(pts, count);
            let den = opened.time_base.den;
            let past = 16_000 * ((from - pts) * opened.time_base.num) + sent * den;
            &&& 0 <= skip <= count
            &&& past <= 0 ==> skip == 0
            &&& past > 0 ==> 2 * (den * skip - past) <= den
            &&& past > 0 && skip < count ==> -den < 2 * (den * skip - past)
        }),
{
    let den = opened.time_base.den as int;
    let past = opened.ahead(pts);
    let skip = opened.skipped(pts, count);
    if past > 0 {
        let exact = nearest(past, den);
        assert(0 <= exact && -den < 2 * (den * exact - past) <= den) by (nonlinear_arith)
            requires
                exact == (2 * past + den) / (2 * den),
                den > 0,
                past > 0,
        ;
        assert(den * skip <= den * exact) by (nonlinear_arith)
            requires
                skip <= exact,
                den > 0,
        ;
    }
}

/// What is skipped does not depend on how time is counted: in a time base `k`
/// times as fine, with every timestamp `k` times as large, it is as much.
pub proof fn law_what_is_skipped_is_the_same_in_a_finer_time_base(
    coarse: Opened,
    fine: Opened,
    k: int,
    from: i64,
    finer_from: i64,
    sent: usize,
    pts: i64,
    finer_pts: i64,
    count: int,
)
    requires
        coarse.time_base.den > 0,
        k > 0,
        fine.time_base.num == coarse.time_base.num,
        fine.time_base.den == k * coarse.time_base.den,
        finer_from == k * from,
        finer_pts == k * pts,
        coarse.emitted_through == Some((from, sent)),
        fine.emitted_through == Some((finer_from, sent)),
        0 <= count,
    ensures
        fine.skipped(finer_pts, count) == coarse.skipped(pts, count),
{
    let (num, den) = (coarse.time_base.num as int, coarse.time_base.den as int);
    let past = coarse.ahead(pts);
    let finer = fine.ahead(finer_pts);
    let s = sent as int;
    assert(finer == k * past) by (nonlinear_arith)
        requires
            past == (from - pts) * num * 16_000 + s * den,
            finer == (finer_from - finer_pts) * num * 16_000 + s * (k * den),
            finer_from == k * from,
            finer_pts == k * pts,
    ;
    assert((k * past > 0) == (past > 0)) by (nonlinear_arith)
        requires
            k > 0,
    ;
    if past > 0 {
        assert(2 * den > 0 && k * (2 * den) > 0) by (nonlinear_arith)
            requires
                den > 0,
                k > 0,
        ;
        vstd::arithmetic::div_mod::lemma_div_multiples_vanish_quotient(
            k,
            2 * past + den,
            2 * den,
        );
        assert(k * (2 * past + den) == 2 * (k * past) + k * den && k * (2 * den) == 2 * (k * den))
            by (nonlinear_arith);
    }
}

/// A stream's first window is sent whole, at its own timestamp, and beside it
/// a row for each label found, in turn, over the window's own span.
pub proof fn law_the_first_window_is_sent_whole(
    opened: Opened,
    pts: i64,
    samples: Seq<u32>,
    found: Seq<&'static str>,
    out: Option<OutFrame>,
)
    requires
        opened.emitted_through is None,
        opened.previous_labels is None,
        opened.leaves(pts, samples, found, out),
    ensures
        out is Some == (samples.len() > 0),
        out matches Some(o) ==> {
            &&& o.pts == pts
            &&& o.frame matches FramePayload::New(bytes) && bytes@ == bytes_of(samples)
            &&& o.rows@.len() == found.len()
            &&& forall|i: int|
                0 <= i < found.len() ==> {
                    &&& (#[trigger] o.rows@[i]).text == found[i]
                    &&& o.rows@[i].pts == pts
                    &&& o.rows@[i].samples == samples.len() as usize
                }
        },
{
    assert(samples.skip(0) =~= samples);
}

/// Whatever leaves with a window is the end of it: all its samples but the
/// first few. It is stamped as many ticks after the window's start as those
/// first few last, to the nearest, and its rows, if there are any, are the
/// window's labels in turn, each over the whole window.
pub proof fn law_what_leaves_is_the_windows_end(
    opened: Opened,
    pts: i64,
    samples: Seq<u32>,
    found: Seq<&'static str>,
    out: Option<OutFrame>,
)
    requires
        opened.leaves(pts, samples, found, out),
        opened.time_base.num > 0,
        opened.time_base.den > 0,
        samples.len() <= usize::MAX,
    ensures
        out matches Some(o) ==> {
            let skip = samples.len() - audio_of(out).len() as int / 4;
            let tick = 16_000 * opened.time_base.num;
            &&& 0 <= skip <= samples.len()
            &&& o.frame is New
            &&& audio_of(out) == bytes_of(samples.skip(skip))
            &&& o.pts >= pts
            &&& 2 * (tick * (o.pts - pts) - skip * opened.time_base.den) <= tick
            &&& o.pts - pts < i64::MAX ==> -tick < 2 * (tick * (o.pts - pts) - skip
                * opened.time_base.den)
            &&& o.rows@.len() == 0 || o.rows@.len() == found.len()
            &&& forall|i: int|
                0 <= i < o.rows@.len() ==> {
                    &&& (#[trigger] o.rows@[i]).text == found[i]
                    &&& o.rows@[i].pts == pts
                    &&& o.rows@[i].samples == samples.len()
                }
        },
        out is None ==> samples.len() == 0 || opened.emitted_through is Some,
{
    let count = samples.len() as int;
    let skip = opened.skipped(pts, count);
    if let Some((from, sent)) = opened.emitted_through {
        law_what_was_sent_is_skipped_in_any_time_base(opened, from, sent, pts, count);
    }
    law_ticks_are_the_nearest_to_the_time(
        skip,
        opened.time_base.num as int,
        opened.time_base.den as int,
    );
    if let Some(o) = out {
        assert(audio_of(out) == bytes_of(samples.skip(skip)));
        assert(audio_of(out).len() == 4 * (count - skip));
    }
}

/// A window with no samples leaves nothing and changes nothing, and any other
/// is the one that the next is held against: how far it reached, and the
/// labels found in it.
pub proof fn law_a_window_is_what_the_next_is_held_against(
    opened: Opened,
    pts: i64,
    samples: Vec<u32>,
    found: Seq<&'static str>,
    out: Option<OutFrame>,
    after: Opened,
)
    requires
        opened.time_base.den > 0,
        opened.leaves(pts, samples@, found, out),
        opened.moves(pts, samples.len(), found, after),
    ensures
        samples@.len() == 0 ==> out is None && after == opened,
        samples@.len() > 0 ==> {
            &&& after.emitted_through == Some((pts, samples.len()))
            &&& after.previous_labels is Some
            &&& texts_of(after.previous_labels->0@).to_multiset() == views_of(found).to_multiset()
        },
        after.time_base == opened.time_base,
        after.threshold == opened.threshold,
        after.top == opened.top,
{
    if let Some((from, sent)) = opened.emitted_through {
        law_what_was_sent_is_skipped_in_any_time_base(
            opened,
            from,
            sent,
            pts,
            samples@.len() as int,
        );
    }
}

/// What a call sends on are the frames that its windows left, in turn and none
/// of them twice.
pub proof fn law_what_left_is_sent_on_in_turn(outs: Seq<Option<OutFrame>>, frame: OutFrame)
    ensures
        kept(Seq::empty()) == Seq::<OutFrame>::empty(),
        kept(outs.push(None)) == kept(outs),
        kept(outs.push(Some(frame))) == kept(outs).push(frame),
{
    assert(outs.push(None).drop_last() =~= outs);
    assert(outs.push(Some(frame)).drop_last() =~= outs);
}

/// A stream's first window can always be stamped.
pub proof fn law_a_first_window_can_be_stamped(
    opened: Opened,
    pts: i64,
    count: int,
    found: Seq<&'static str>,
)
    requires
        opened.emitted_through is None,
        0 <= count,
    ensures
        opened.fits(pts, count, found),
{
}

/// The parameters that are taken are the ones given: a threshold between zero
/// and one, as the same number, and a count that is whole, as the same count,
/// or the highest there is where it is past that. Nothing else is taken.
pub proof fn law_the_parameters_taken_are_those_given<D: Fn(u64) -> String>(
    raw: RawParams,
    show: D,
    r: Result<Params, String>,
)
    requires
        settles(raw, show, r),
    ensures
        r is Ok <==> {
            &&& is_finite(raw.threshold)
            &&& 0 <= value(raw.threshold) <= value(0x3ff0_0000_0000_0000)
            &&& is_finite(raw.top)
            &&& 0 <= value(raw.top)
            &&& exists|n: int| value(raw.top) == #[trigger] (n * value(0x3ff0_0000_0000_0000))
        },
        r matches Ok(p) ==> {
            &&& value(p.threshold) == value(raw.threshold)
            &&& p.threshold <= 0x3ff0_0000_0000_0000
            &&& value(raw.top) == p.top * value(0x3ff0_0000_0000_0000) || (p.top == usize::MAX
                && value(raw.top) > p.top * value(0x3ff0_0000_0000_0000))
        },
{
    law_one_is_the_unit();
    let u = unit() as int;
    let top = value(raw.top);
    let whole = top / u;
    vstd::arithmetic::div_mod::lemma_fundamental_div_mod(top, u);
    if counted(raw.top) {
        assert(top == whole * u) by (nonlinear_arith)
            requires
                top == u * whole + top % u,
                top % u == 0,
        ;
        assert(whole >= 0) by (nonlinear_arith)
            requires
                top == whole * u,
                top >= 0,
                u > 0,
        ;
        if whole >= usize::MAX {
            let most = usize::MAX as int;
            assert(whole > most ==> whole * u > most * u) by (nonlinear_arith)
                requires
                    u > 0,
            ;
        }
    } else if exists|n: int| top == #[trigger] (n * u) {
        let n = choose|n: int| top == #[trigger] (n * u);
        vstd::arithmetic::div_mod::lemma_mod_multiples_basic(n, u);
    }
    if probable(raw.threshold) {
        law_dropping_a_sign_keeps_the_size(raw.threshold);
    }
}

/// Where no parameters are given, the threshold is 0.3 and three labels are
/// kept.
pub proof fn law_no_parameters_are_the_defaults<
    P: Fn(&str) -> Result<RawParams, String>,
    D: Fn(u64) -> String,
>(params: Seq<char>, parse: P, show: D, r: Result<Params, String>)
    requires
        parses(params, parse, show, r),
        trimmed(params).len() == 0,
    ensures
        r matches Ok(p) && p.threshold == 0x3fd3_3333_3333_3333 && p.top == 3,
{
    reveal_strlit("");
    assert(trimmed(params) =~= ""@);
    law_one_is_the_unit();
    law_three_is_three_units();
    law_patterns_order_as_their_numbers(0x3ff0_0000_0000_0000, 0x3fd3_3333_3333_3333);
    law_patterns_order_as_their_numbers(0x3fd3_3333_3333_3333, 0);
    let u = unit() as int;
    vstd::arithmetic::div_mod::lemma_mod_multiples_basic(3, u);
    vstd::arithmetic::div_mod::lemma_div_by_multiple(3, u);
}

/// Each label that an answer gives is the name of a class whose own logit
/// scores at least the threshold, ranked score first, and no more are given
/// than asked for.
pub proof fn law_each_label_is_its_own_logits<P: Fn(u32) -> Option<u64>>(
    logits: Seq<u32>,
    scores: Seq<Option<u64>>,
    score: P,
    scored: spec_fn(u32) -> Option<u64>,
    threshold: u64,
    top: int,
    picked: Seq<(usize, u64)>,
    k: int,
)
    requires
        logits.len() == 527,
        scores_of(logits, scores, score),
        is_top(scores, COUNT as int, threshold, top, picked),
        forall|logit: u32, to: Option<u64>| #[trigger]
            call_ensures(score, (logit,), to) ==> to == scored(logit),
        0 <= k < called(picked).len(),
    ensures
        called(picked).len() == picked.len() <= top,
        picked[k].0 < 527,
        called(picked)[k] == LABELS@[picked[k].0 as int],
        scored(logits[picked[k].0 as int]) == Some(picked[k].1),
        picked[k].1 >= threshold,
{
    law_the_top_are_the_highest_at_least_the_threshold(scores, threshold, top, picked);
    let i = picked[k].0 as int;
    assert(call_ensures(score, (logits[i],), scores[i]));
}

/// A stream opens for one channel of 32-bit floats at 16 kHz and for nothing
/// else, and nothing has been sent or heard when it does.
pub proof fn law_only_one_channel_at_16_khz_opens<
    P: Fn(&str) -> Result<RawParams, String>,
    D: Fn(u64) -> String,
>(
    format: Format,
    time_base: Rational,
    params: Seq<char>,
    parse: P,
    show: D,
    r: Result<Opened, String>,
)
    requires
        opens(format, time_base, params, parse, show, r),
    ensures
        r matches Ok(opened) ==> {
            &&& format matches Format::Audio(audio) && audio.sample_fmt@ == "f32"@
                && audio.sample_rate == 16_000 && audio.channels == 1
            &&& opened.time_base == time_base
            &&& opened.emitted_through is None
            &&& opened.previous_labels is None
            &&& exists|parsed: Params| #[trigger]
                parses(params, parse, show, Ok::<Params, String>(parsed)) && opened.threshold
                    == parsed.threshold && opened.top == parsed.top
        },
{
    if r is Ok {
        let parsed = choose|parsed: Result<Params, String>|
            {
                &&& #[trigger] parses(params, parse, show, parsed)
                &&& match parsed {
                    Err(message) => r is Err && r->Err_0@ == message@,
                    Ok(p) => {
                        &&& r is Ok
                        &&& r->Ok_0.time_base == time_base
                        &&& r->Ok_0.threshold == p.threshold
                        &&& r->Ok_0.top == p.top
                        &&& r->Ok_0.emitted_through is None
                        &&& r->Ok_0.previous_labels is None
                    },
                }
            };
        assert(parses(params, parse, show, Ok::<Params, String>(parsed->Ok_0)));
    }
}

/// What leaves can be stamped exactly where its timestamp is one that a stream
/// can have, and a window that leaves nothing needs none.
pub proof fn law_what_leaves_needs_a_timestamp(
    opened: Opened,
    pts: i64,
    samples: Vec<u32>,
    found: Seq<&'static str>,
)
    ensures
        opened.fits(pts, samples@.len() as int, found) <==> (opened.sends(
            pts,
            samples@.len() as int,
            found,
        ) ==> -0x8000_0000_0000_0000 <= pts + ticks_of(
            opened.skipped(pts, samples@.len() as int),
            opened.time_base.num as int,
            opened.time_base.den as int,
        ) <= 0x7fff_ffff_ffff_ffff),
        forall|out: Option<OutFrame>|
            #![trigger opened.leaves(pts, samples@, found, out)]
            opened.leaves(pts, samples@, found, out) ==> opened.fits(
                pts,
                samples@.len() as int,
                found,
            ),
{
}

/// No windows are held back that could have left: where each leaves what it
/// does in its turn, all of them can be stamped.
pub proof fn law_windows_are_stamped_in_turn(
    windows: Seq<Heard>,
    outs: Seq<Option<OutFrame>>,
    states: Seq<Opened>,
)
    requires
        ran(windows, outs, states),
    ensures
        states.first().fits_all(windows),
{
    assert forall|i: int, others: Seq<Opened>|
        0 <= i < windows.len() && #[trigger] moved(windows, i, others) && others.first()
            == states.first() implies others.last().fits(
        windows[i].pts,
        windows[i].samples@.len() as int,
        windows[i].found@,
    ) by {
        let w = windows[i];
        let own = states.take(i + 1);
        assert(moved(windows, i, own)) by {
            assert forall|j: int| 0 <= j < i implies own[j].moves(
                (#[trigger] windows[j]).pts,
                windows[j].samples.len(),
                windows[j].found@,
                own[j + 1],
            ) by {
                assert(states[j].moves(
                    windows[j].pts,
                    windows[j].samples.len(),
                    windows[j].found@,
                    states[j + 1],
                ));
            }
        }
        lemma_states_are_alike(windows, i, own, others, i);
        law_what_leaves_needs_a_timestamp(states[i], w.pts, w.samples, w.found@);
        assert(states[i].leaves(w.pts, w.samples@, w.found@, outs[i]));
        lemma_alike_fit(
            own[i],
            others.last(),
            w.pts,
            w.samples@.len() as int,
            w.found@,
        );
    }
}

/// What is read of written parameters is the text without the white space
/// around it: where reading has one answer, an unreadable text is refused with
/// what is wrong with it at the end, and a readable one comes to what the
/// parameters it holds come to.
pub proof fn law_parameters_are_read_without_the_space_around_them<
    P: Fn(&str) -> Result<RawParams, String>,
    D: Fn(u64) -> String,
>(
    params: Seq<char>,
    parse: P,
    show: D,
    r: Result<Params, String>,
    read: spec_fn(Seq<char>) -> Result<RawParams, Seq<char>>,
)
    requires
        parses(params, parse, show, r),
        trimmed(params).len() > 0,
        forall|text: &str, to: Result<RawParams, String>| #[trigger]
            call_ensures(parse, (text,), to) ==> match to {
                Ok(raw) => read(text@) == Ok::<RawParams, Seq<char>>(raw),
                Err(e) => read(text@) == Err::<RawParams, Seq<char>>(e@),
            },
    ensures
        match read(trimmed(params)) {
            Ok(raw) => settles(raw, show, r),
            Err(e) => r is Err && e.len() <= r->Err_0@.len() && r->Err_0@.skip(
                r->Err_0@.len() - e.len(),
            ) == e,
        },
{
    reveal_strlit("");
    let (text, parsed) = choose|text: &str, parsed: Result<RawParams, String>|
        {
            &&& text@ == trimmed(params)
            &&& #[trigger] call_ensures(parse, (text,), parsed)
            &&& match parsed {
                Err(e) => r is Err && r->Err_0@ == "sounds: bad params: "@ + e@,
                Ok(raw) => settles(raw, show, r),
            }
        };
    if let Err(e) = parsed {
        assert(r->Err_0@.skip(r->Err_0@.len() - e@.len()) =~= e@);
    }
}

/// Every stream of one channel of 32-bit floats at 16 kHz opens, if its
/// parameters are taken, and with those parameters.
pub proof fn law_one_channel_at_16_khz_opens<
    P: Fn(&str) -> Result<RawParams, String>,
    D: Fn(u64) -> String,
>(
    audio: AudioFormat,
    time_base: Rational,
    params: Seq<char>,
    parse: P,
    show: D,
    r: Result<Opened, String>,
)
    requires
        opens(Format::Audio(audio), time_base, params, parse, show, r),
        audio.sample_fmt@ == "f32"@,
        audio.sample_rate == 16_000,
        audio.channels == 1,
        forall|parsed: Result<Params, String>| #[trigger]
            parses(params, parse, show, parsed) ==> parsed is Ok,
    ensures
        r is Ok,
{
}

} // verus!
