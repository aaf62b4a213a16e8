//! X-CLIP's video tower, one shot at a time. Every frame passes through
//! untouched; each shot leaves behind one clip for the tower: the stretch it
//! covers and the eight frames that stand for it.
//!
//! Where one shot ends and the next begins is not this module's to decide: a
//! `{"shot": n}` row arriving with a frame closes the shot running when its
//! value changes. A repeated value does not, and a frame with no such row
//! leaves the shot open. With no shot rows at all, the whole input is one
//! shot.
//!
//! A shot is described by eight frames evenly spread over it. The eight are
//! chosen while the shot runs - see `reservoir` - and the tower runs once
//! when the shot ends: at a new shot value, at ten seconds, or when the
//! stream does. A shot longer than ten seconds therefore leaves several
//! clips, each covering its own stretch.

use crate::host::{
    find, first_named, Feed, Format, FramePayload, Meta, Rational, TensorType, WindowMeta,
};
use crate::prep::{
    frame_bytes, prepares, preprocess, PixFmt, LONGEST, SHORT_EDGE, TENSOR,
};
use crate::reservoir::{
    chosen, closing_positions, ends_on_kept, holds_own, keeps_at, laid,
    law_the_eight_are_chosen_by_the_count, law_the_eight_span_the_shot,
    law_the_input_is_eight_tensors, law_the_spacing_follows_the_count, lemma_feeds, lemma_fresh,
    offered, picked, spread_at, stride, stride_of, Reservoir, FRAMES,
};
use crate::text::{
    decimal, decimal_of, listed, listed_of, names_of, quoted, quoted_of, same, texts_of, trim,
    trimmed,
};
use crate::words::{bytes_of, le_bytes, le_f32s, words_of};
use vstd::prelude::*;

verus! {

/// The name the host binds the graph to.
pub const MODEL: &'static str = "clips";

/// What the export calls its input.
pub const INPUT_NAME: &'static str = "pixel_values";

/// What the export calls its output.
pub const OUTPUT_NAME: &'static str = "video_embeds";

/// The width of the space both towers write into.
pub const EMBEDDING: usize = 512;

/// The parameters the module takes: none.
pub const PARAMS_SCHEMA: &'static str =
    r#"{"type":"object","properties":{},"additionalProperties":false}"#;

/// What a row holds. `vector`'s minItems and maxItems fix `EMBEDDING` as the
/// track's width.
pub const ROWS_SCHEMA: &'static str =
    r#"{"type":"object","properties":{"start_t":{"type":"number"},"end_t":{"type":"number"},"vector":{"type":"array","items":{"type":"number"},"minItems":512,"maxItems":512}},"required":["start_t","end_t","vector"],"additionalProperties":false}"#;

/// How long a stretch one row may cover, in seconds. A shot that runs longer
/// is described in pieces: eight frames spread over ten seconds still say
/// something about them, where eight spread over five minutes do not.
pub const CAP: i64 = 10;

/// The last value among `shots`.
pub open spec fn last_shot(shots: Seq<Option<i64>>) -> Option<i64>
    decreases shots.len(),
{
    if shots.len() == 0 {
        None
    } else if shots.last() is Some {
        shots.last()
    } else {
        last_shot(shots.drop_last())
    }
}

/// The shot index a frame's rows name, if any of them does: `shots` holds the
/// index each row names, and nothing for a row shaped any other way. The last
/// one wins.
pub fn shot_of(shots: &[Option<i64>]) -> (shot: Option<i64>)
    ensures
        shot == last_shot(shots@),
{
    let mut at: usize = shots.len();
    assert(shots@.take(at as int) =~= shots@);
    while at > 0
        invariant
            at <= shots@.len(),
            last_shot(shots@.take(at as int)) == last_shot(shots@),
        decreases at,
    {
        assert(shots@.take(at as int).drop_last() =~= shots@.take(at - 1));
        if shots[at - 1].is_some() {
            return shots[at - 1];
        }
        at = at - 1;
    }
    None
}

/// Whether an incoming value differs from the one running.
pub open spec fn new_shot(current: Option<i64>, incoming: Option<i64>) -> bool {
    current is Some && incoming is Some && current->0 != incoming->0
}

/// Whether an incoming shot value ends the shot running: a value different
/// from the one running does, the first value seen sets the baseline
/// instead, and a frame with no shot row changes nothing.
pub fn is_new_shot(current: Option<i64>, incoming: Option<i64>) -> (new: bool)
    ensures
        new == new_shot(current, incoming),
{
    match (current, incoming) {
        (Some(a), Some(b)) => a != b,
        _ => false,
    }
}

/// The stretch being described: where it started, where it has reached, and
/// the frames chosen to stand for it.
pub struct Segment<T> {
    pub start_pts: i64,
    pub last_pts: i64,
    pub frames: Reservoir<T>,
}

impl<T> Segment<T> {
    /// A stretch that begins at `pts`, with no frame yet.
    pub fn new(pts: i64) -> (segment: Segment<T>)
        ensures
            segment.start_pts == pts,
            segment.last_pts == pts,
            segment.frames.wf(),
            segment.frames.is_fresh(),
    {
        Segment { start_pts: pts, last_pts: pts, frames: Reservoir::default() }
    }
}

/// Whether `ticks` of the time base are as long as the cap. A time base of
/// nothing to nothing, or any count of no time, never is.
pub open spec fn reaches_cap(ticks: int, time_base: Rational) -> bool {
    if time_base.den > 0 {
        ticks * time_base.num >= CAP * time_base.den
    } else if time_base.den < 0 {
        ticks * time_base.num <= CAP * time_base.den
    } else {
        ticks * time_base.num > 0
    }
}

/// Whether a stretch that began at `start` is as long as the cap at `pts`.
fn is_capped(start: i64, pts: i64, time_base: Rational) -> (capped: bool)
    ensures
        capped == reaches_cap(pts - start, time_base),
{
    let ticks: i128 = (pts as i128) - (start as i128);
    assert(-0x2_0000_0000_0000_0000_0000_0000 <= ticks * time_base.num
        <= 0x2_0000_0000_0000_0000_0000_0000) by (nonlinear_arith)
        requires
            -0x1_0000_0000_0000_0000 <= ticks <= 0x1_0000_0000_0000_0000,
            -0x8000_0000 <= time_base.num <= 0x7fff_ffff,
    ;
    let left: i128 = ticks * (time_base.num as i128);
    let right: i128 = 10 * (time_base.den as i128);
    if time_base.den > 0 {
        left >= right
    } else if time_base.den < 0 {
        left <= right
    } else {
        left > 0
    }
}

/// Whether the frame at `pts` ends the stretch running: a cut does, and so
/// does the cap, which is what keeps one long shot from being described by
/// eight frames spread across minutes of it. The first frame of a stream ends
/// nothing - there is no stretch yet.
pub fn ends_stretch<T>(
    cut: bool,
    segment: Option<&Segment<T>>,
    pts: i64,
    time_base: Rational,
) -> (ends: bool)
    ensures
        ends == (segment matches Some(s) && (cut || reaches_cap(pts - s.start_pts, time_base))),
{
    match segment {
        None => false,
        Some(segment) => cut || is_capped(segment.start_pts, pts, time_base),
    }
}

/// What `init` settled, plus where the stream has reached.
pub struct Opened<T> {
    pub width: usize,
    pub height: usize,
    pub pix_fmt: PixFmt,
    /// What one timestamp tick is worth, in seconds.
    pub time_base: Rational,
    /// The shot value running, absent until a shot row has arrived.
    pub current_shot: Option<i64>,
    /// The newest frame's pixels, kept so a shot's last frame can join the
    /// eight even when the reservoir's spacing passed over it.
    pub newest: Vec<u8>,
    pub segment: Option<Segment<T>>,
}

/// A finished stretch: the timestamps it covers, and the eight frames the
/// tower reads for it.
pub struct Clip<T> {
    pub start_pts: i64,
    pub last_pts: i64,
    pub input: Vec<T>,
}

/// What frames are made into: whether a frame of a format, a width and a
/// height is made into a tensor.
pub type Making<T> = spec_fn(PixFmt, usize, usize, Seq<u8>, Seq<T>) -> bool;

/// What a preprocessor makes of frames.
pub open spec fn making<T, P: Fn(&[u8], PixFmt, usize, usize) -> Vec<T>>(preprocess: P) -> Making<
    T,
> {
    |pix_fmt: PixFmt, width: usize, height: usize, frame: Seq<u8>, tensor: Seq<T>|
        exists|f: &[u8], t: Vec<T>|
            #![trigger call_ensures(preprocess, (f, pix_fmt, width, height), t)]
            f@ == frame && t@ == tensor && call_ensures(
                preprocess,
                (f, pix_fmt, width, height),
                t,
            )
}

impl<T> Opened<T> {
    /// Whether a frame has all the bytes its size calls for.
    pub open spec fn whole(self, frame: Seq<u8>) -> bool {
        frame_bytes(self.pix_fmt, self.width as int, self.height as int) <= frame.len()
    }

    /// What every operation keeps: a stretch that is running holds a frame.
    pub open spec fn wf(self) -> bool {
        self.segment matches Some(segment) ==> segment.frames.wf() && segment.frames.count() > 0
    }

    /// What `init` settled is the same.
    pub open spec fn same_settings(self, other: Self) -> bool {
        &&& self.width == other.width
        &&& self.height == other.height
        &&& self.pix_fmt == other.pix_fmt
        &&& self.time_base == other.time_base
    }

    /// Whether a frame at `pts` that names `shot` ends the stretch running.
    pub open spec fn ends_at(self, pts: i64, shot: Option<i64>) -> bool {
        self.segment matches Some(segment) && (new_shot(self.current_shot, shot) || reaches_cap(
            pts - segment.start_pts,
            self.time_base,
        ))
    }

    /// Whether a preprocessor takes a frame of this stream.
    pub open spec fn ready<P: Fn(&[u8], PixFmt, usize, usize) -> Vec<T>>(
        self,
        preprocess: P,
        frame: Seq<u8>,
    ) -> bool {
        forall|f: &[u8]|
            f@ == frame ==> call_requires(preprocess, (f, self.pix_fmt, self.width, self.height))
    }

    /// Whether the stretch running cannot be closed without its newest frame,
    /// which the reservoir's spacing passed over.
    pub open spec fn lacks_last(self) -> bool {
        self.segment matches Some(segment) && segment.frames.positions().last()
            != segment.frames.count() - 1
    }

    /// Whether a frame at `pts` that names `shot` is kept: the first of a
    /// stretch is, and after it those that the reservoir's spacing falls on.
    pub open spec fn keeps(self, pts: i64, shot: Option<i64>) -> bool {
        self.segment matches Some(segment) ==> self.ends_at(pts, shot)
            || segment.frames.keeps_next()
    }

    /// Whether a frame of this stream is made into a tensor.
    pub open spec fn makes(self, made: Making<T>, frame: Seq<u8>, tensor: Seq<T>) -> bool {
        made(self.pix_fmt, self.width, self.height, frame, tensor)
    }

    /// Whether `clip` is what the stretch running leaves behind: its bounds,
    /// and its eight frames with the newest among those they are picked from
    /// where the reservoir passed over it.
    pub open spec fn closes_with(self, made: Making<T>, clip: Clip<T>) -> bool {
        &&& self.segment is Some
        &&& clip.start_pts == self.segment->0.start_pts
        &&& clip.last_pts == self.segment->0.last_pts
        &&& ({
            let frames = self.segment->0.frames;
            if frames.positions().last() == frames.count() - 1 {
                clip.input@ == laid(picked(frames.tensors()))
            } else {
                exists|last: Seq<T>|
                    #![trigger self.makes(made, self.newest@, last)]
                    self.makes(made, self.newest@, last) && clip.input@ == laid(
                        picked(frames.tensors().push(last)),
                    )
            }
        })
    }

    /// Whether `after` is this stream once `frame` has arrived at `pts`,
    /// naming `shot`, and `clip` is what that frame ended.
    pub open spec fn stepped(
        self,
        made: Making<T>,
        pts: i64,
        shot: Option<i64>,
        frame: Seq<u8>,
        clip: Option<Clip<T>>,
        after: Self,
    ) -> bool {
        let runs_on = self.segment is Some && !self.ends_at(pts, shot);
        &&& after.same_settings(self)
        &&& after.current_shot == if shot is Some {
            shot
        } else {
            self.current_shot
        }
        &&& after.newest@ == frame
        &&& clip is Some == self.ends_at(pts, shot)
        &&& clip matches Some(c) ==> self.closes_with(made, c)
        &&& after.segment matches Some(now) && {
            &&& now.start_pts == if runs_on {
                self.segment->0.start_pts
            } else {
                pts
            }
            &&& now.last_pts == pts
            &&& exists|before: Reservoir<T>|
                #![trigger before.keeps_next()]
                {
                    &&& if runs_on {
                        before == self.segment->0.frames
                    } else {
                        before.is_fresh()
                    }
                    &&& if before.keeps_next() {
                        exists|tensor: Seq<T>|
                            #![trigger self.makes(made, frame, tensor)]
                            self.makes(made, frame, tensor) && before.took(
                                now.frames,
                                tensor,
                            )
                    } else {
                        before.passed(now.frames)
                    }
                }
        }
    }

    /// Whether `after` is this stream with its stretch taken off it.
    pub open spec fn idled(self, after: Self) -> bool {
        &&& after.same_settings(self)
        &&& after.current_shot == self.current_shot
        &&& after.newest@ == self.newest@
        &&& after.segment is None
    }
}

impl<T: Copy> Opened<T> {
    /// The clip a finished stretch leaves behind.
    pub fn close<P: Fn(&[u8], PixFmt, usize, usize) -> Vec<T>>(
        &mut self,
        preprocess: &P,
    ) -> (clip: Option<Clip<T>>)
        requires
            old(self).wf(),
            old(self).lacks_last() ==> old(self).ready(*preprocess, old(self).newest@),
        ensures
            final(self).wf(),
            old(self).idled(*final(self)),
            clip is Some == old(self).segment is Some,
            clip matches Some(c) ==> old(self).closes_with(making(*preprocess), c),
    {
        match self.segment.take() {
            None => None,
            Some(segment) => {
                let mut segment = segment;
                let ghost frames = segment.frames;
                let last: Option<Vec<T>> = if segment.frames.holds_last() {
                    None
                } else {
                    let tensor = preprocess(
                        self.newest.as_slice(),
                        self.pix_fmt,
                        self.width,
                        self.height,
                    );
                    assert(old(self).makes(making(*preprocess), old(self).newest@, tensor@));
                    Some(tensor)
                };
                proof {
                    if frames.positions().len() == 0 {
                        assert(0 * frames.spacing() == 0);
                    }
                }
                let input = segment.frames.close(last);
                let clip = Clip {
                    start_pts: segment.start_pts,
                    last_pts: segment.last_pts,
                    input,
                };
                Some(clip)
            },
        }
    }

    /// One frame: the shot-row check, the clip a new shot or the cap ends,
    /// and the frame joining whatever stretch it belongs to. `shots` holds
    /// the shot index each of the frame's rows names.
    pub fn step<P: Fn(&[u8], PixFmt, usize, usize) -> Vec<T>>(
        &mut self,
        pts: i64,
        shots: &[Option<i64>],
        frame: &[u8],
        preprocess: &P,
    ) -> (clip: Option<Clip<T>>)
        requires
            old(self).wf(),
            old(self).segment matches Some(segment) ==> segment.frames.count() < usize::MAX,
            old(self).ends_at(pts, last_shot(shots@)) && old(self).lacks_last() ==> old(self).ready(
                *preprocess,
                old(self).newest@,
            ),
            old(self).keeps(pts, last_shot(shots@)) ==> old(self).ready(*preprocess, frame@),
        ensures
            final(self).wf(),
            old(self).stepped(
                making(*preprocess),
                pts,
                last_shot(shots@),
                frame@,
                clip,
                *final(self),
            ),
    {
        let shot = shot_of(shots);
        let ends = ends_stretch(
            is_new_shot(self.current_shot, shot),
            self.segment.as_ref(),
            pts,
            self.time_base,
        );
        let clip = if ends {
            self.close(preprocess)
        } else {
            None
        };
        if shot.is_some() {
            self.current_shot = shot;
        }
        let mut segment: Segment<T> = match self.segment.take() {
            Some(segment) => segment,
            None => Segment::new(pts),
        };
        segment.last_pts = pts;
        let ghost before = segment.frames;
        let (pix_fmt, width, height) = (self.pix_fmt, self.width, self.height);
        let next = || -> (tensor: Vec<T>)
            requires
                call_requires(*preprocess, (frame, pix_fmt, width, height)),
            ensures
                call_ensures(*preprocess, (frame, pix_fmt, width, height), tensor),
            { preprocess(frame, pix_fmt, width, height) };
        segment.frames.offer(next);
        proof {
            if before.keeps_next() {
                let tensor = choose|tensor: Vec<T>|
                    #![trigger call_ensures(next, (), tensor)]
                    call_ensures(next, (), tensor) && before.took(segment.frames, tensor@);
                assert(old(self).makes(making(*preprocess), frame@, tensor@));
            }
        }
        self.segment = Some(segment);
        self.newest = vstd::slice::slice_to_vec(frame);
        clip
    }
}

/// One frame as it arrives: its timestamp, the shot index each of its rows
/// names, and its pixels.
pub struct InFrame {
    pub pts: i64,
    pub shots: Vec<Option<i64>>,
    pub frame: Vec<u8>,
}

/// How far a stream has come, as far as its timestamps and shot values tell:
/// where the stretch running began and how many frames it holds, and the shot
/// value running.
pub struct Pace {
    pub start: Option<i64>,
    pub count: nat,
    pub shot: Option<i64>,
}

impl Pace {
    /// Whether a frame ends the stretch running.
    pub open spec fn ends(self, time_base: Rational, frame: InFrame) -> bool {
        self.start matches Some(start) && (new_shot(self.shot, last_shot(frame.shots@))
            || reaches_cap(frame.pts - start, time_base))
    }

    /// The pace once a frame has arrived.
    pub open spec fn next(self, time_base: Rational, frame: InFrame) -> Pace {
        let shot = if last_shot(frame.shots@) is Some {
            last_shot(frame.shots@)
        } else {
            self.shot
        };
        if self.start is None || self.ends(time_base, frame) {
            Pace { start: Some(frame.pts), count: 1, shot }
        } else {
            Pace { start: self.start, count: self.count + 1, shot }
        }
    }

    /// The pace once the first `i` frames have arrived.
    pub open spec fn after(self, time_base: Rational, frames: Seq<InFrame>, i: int) -> Pace
        decreases i,
    {
        if i <= 0 {
            self
        } else {
            self.after(time_base, frames, i - 1).next(time_base, frames[i - 1])
        }
    }

    /// Whether the stretch running after the first `i` frames closes there: at
    /// the next frame, or where the stream ends.
    pub open spec fn closes(
        self,
        time_base: Rational,
        frames: Seq<InFrame>,
        last: bool,
        i: int,
    ) -> bool {
        let pace = self.after(time_base, frames, i);
        if i < frames.len() {
            pace.ends(time_base, frames[i])
        } else {
            last && pace.start is Some
        }
    }

    /// Whether the newest of the first `i` frames is read to close a stretch:
    /// one that closes after it, and whose last frame is not kept.
    pub open spec fn closes_on_newest(
        self,
        time_base: Rational,
        frames: Seq<InFrame>,
        last: bool,
        i: int,
    ) -> bool {
        self.closes(time_base, frames, last, i) && !ends_on_kept(
            self.after(time_base, frames, i).count,
        )
    }

    /// Whether frame `i` is read: where its stretch keeps it, and where it
    /// closes one. Every other frame passes by unseen.
    pub open spec fn reads(
        self,
        time_base: Rational,
        frames: Seq<InFrame>,
        last: bool,
        i: int,
    ) -> bool {
        keeps_at((self.after(time_base, frames, i + 1).count - 1) as nat) || self.closes_on_newest(
            time_base,
            frames,
            last,
            i + 1,
        )
    }
}

/// One frame as it leaves: the picture that arrived, and the clip it ended.
pub struct OutFrame<T> {
    pub pts: i64,
    pub frame: FramePayload,
    pub clip: Option<Clip<T>>,
}

/// What one call leaves: a frame for every frame that arrived, and the clip
/// that is left when the stream ends.
pub struct Processed<T> {
    pub frames: Vec<OutFrame<T>>,
    pub trailing: Option<Clip<T>>,
}

/// Whether `states` are the states a stream goes through as frames arrive,
/// and each frame leaves what that step gives.
pub open spec fn ran<T>(
    made: Making<T>,
    frames: Seq<InFrame>,
    out: Seq<OutFrame<T>>,
    states: Seq<Opened<T>>,
) -> bool {
    &&& out.len() == frames.len()
    &&& states.len() == frames.len() + 1
    &&& forall|i: int|
        0 <= i < frames.len() ==> {
            &&& (#[trigger] out[i]).pts == frames[i].pts
            &&& out[i].frame is Same
            &&& states[i].stepped(
                made,
                frames[i].pts,
                last_shot(frames[i].shots@),
                frames[i].frame@,
                out[i].clip,
                states[i + 1],
            )
        }
}

impl<T> Opened<T> {
    /// How far this stream has come.
    pub open spec fn pace(self) -> Pace {
        Pace {
            start: match self.segment {
                Some(segment) => Some(segment.start_pts),
                None => None,
            },
            count: match self.segment {
                Some(segment) => segment.frames.count(),
                None => 0,
            },
            shot: self.current_shot,
        }
    }

    /// Whether every frame that one call reads can be taken: the newest one of
    /// the calls before, where it closes a stretch, and of those that arrive
    /// the ones that are read.
    pub open spec fn takes_all(
        self,
        takes: spec_fn(Seq<u8>) -> bool,
        frames: Seq<InFrame>,
        last: bool,
    ) -> bool {
        &&& self.pace().closes_on_newest(self.time_base, frames, last, 0) ==> takes(self.newest@)
        &&& forall|i: int|
            0 <= i < frames.len() && self.pace().reads(self.time_base, frames, last, i) ==> takes(
                (#[trigger] frames[i]).frame@,
            )
    }

    /// Whether `processed` is what one call leaves, and `after` is this stream
    /// once it has been made: every frame steps the stream, and with the last
    /// call the stretch still running closes.
    pub open spec fn processes(
        self,
        made: Making<T>,
        frames: Seq<InFrame>,
        last: bool,
        processed: Processed<T>,
        after: Self,
    ) -> bool {
        exists|states: Seq<Opened<T>>|
            {
                &&& #[trigger] ran(made, frames, processed.frames@, states)
                &&& states.first() == self
                &&& if last {
                    &&& states.last().idled(after)
                    &&& processed.trailing is Some == states.last().segment is Some
                    &&& processed.trailing matches Some(c) ==> states.last().closes_with(made, c)
                } else {
                    after == states.last() && processed.trailing is None
                }
            }
    }
}

/// A stream keeps and closes as its pace tells.
proof fn lemma_pace_is_kept<T>(opened: Opened<T>, frame: InFrame)
    requires
        opened.wf(),
    ensures
        ({
            let shot = last_shot(frame.shots@);
            let pace = opened.pace();
            let next = pace.next(opened.time_base, frame);
            &&& opened.ends_at(frame.pts, shot) == pace.ends(opened.time_base, frame)
            &&& opened.lacks_last() == (pace.start is Some && !ends_on_kept(pace.count))
            &&& opened.keeps(frame.pts, shot) == keeps_at((next.count - 1) as nat)
        }),
{
    lemma_ends_on_newest(opened);
    if let Some(segment) = opened.segment {
        law_the_spacing_follows_the_count(segment.frames);
    }
    assert(keeps_at(0)) by {
        assert(0nat % 1nat == 0);
    }
}

proof fn lemma_ends_on_newest<T>(opened: Opened<T>)
    requires
        opened.wf(),
    ensures
        opened.lacks_last() == (opened.pace().start is Some && !ends_on_kept(opened.pace().count)),
{
    if let Some(segment) = opened.segment {
        law_the_spacing_follows_the_count(segment.frames);
    }
}

/// What is read at frame `i` is among what is taken.
proof fn lemma_reads<T>(opened: Opened<T>, frames: Seq<InFrame>, last: bool, i: int)
    requires
        0 <= i <= frames.len(),
    ensures
        i > 0 && opened.pace().closes_on_newest(opened.time_base, frames, last, i)
            ==> opened.pace().reads(opened.time_base, frames, last, i - 1),
{
}

impl<T: Copy> Opened<T> {
    /// One call: every frame steps the stream and passes through untouched,
    /// and with the last call the stretch still running leaves its clip.
    pub fn process<P: Fn(&[u8], PixFmt, usize, usize) -> Vec<T>>(
        &mut self,
        frames: &[InFrame],
        last: bool,
        preprocess: &P,
    ) -> (processed: Processed<T>)
        requires
            old(self).wf(),
            old(self).segment matches Some(segment) ==> segment.frames.count() + frames@.len()
                <= usize::MAX,
            old(self).takes_all(
                |frame: Seq<u8>| old(self).ready(*preprocess, frame),
                frames@,
                last,
            ),
        ensures
            final(self).wf(),
            old(self).processes(making(*preprocess), frames@, last, processed, *final(self)),
    {
        let mut out: Vec<OutFrame<T>> = Vec::new();
        let ghost mut states: Seq<Opened<T>> = seq![*self];
        let count: usize = frames.len();
        let mut i: usize = 0;
        while i < count
            invariant
                i <= count,
                count == frames@.len(),
                self.wf(),
                self.same_settings(*old(self)),
                self.segment matches Some(segment) ==> segment.frames.count() + (count - i)
                    <= usize::MAX,
                old(self).takes_all(
                    |frame: Seq<u8>| old(self).ready(*preprocess, frame),
                    frames@,
                    last,
                ),
                self.pace() == old(self).pace().after(old(self).time_base, frames@, i as int),
                self.newest@ == if i == 0 {
                    old(self).newest@
                } else {
                    frames@[i - 1].frame@
                },
                ran(making(*preprocess), frames@.take(i as int), out@, states),
                states.first() == *old(self),
                states.last() == *self,
            decreases count - i,
        {
            let input: &InFrame = &frames[i];
            proof {
                lemma_pace_is_kept(*self, *input);
                lemma_reads(*old(self), frames@, last, i as int);
            }
            let clip = self.step(
                input.pts,
                input.shots.as_slice(),
                input.frame.as_slice(),
                preprocess,
            );
            let ghost out_before = out@;
            out.push(OutFrame { pts: input.pts, frame: FramePayload::Same, clip });
            proof {
                states = states.push(*self);
                let taken = frames@.take(i + 1);
                assert forall|j: int| 0 <= j < taken.len() implies {
                    &&& (#[trigger] out@[j]).pts == taken[j].pts
                    &&& out@[j].frame is Same
                    &&& states[j].stepped(
                        making(*preprocess),
                        taken[j].pts,
                        last_shot(taken[j].shots@),
                        taken[j].frame@,
                        out@[j].clip,
                        states[j + 1],
                    )
                } by {
                    if j < i {
                        assert(out@[j] == out_before[j]);
                        assert(taken[j] == frames@.take(i as int)[j]);
                    }
                }
            }
            i = i + 1;
        }
        assert(frames@.take(i as int) =~= frames@);
        assert(states.last() == *self);
        proof {
            lemma_ends_on_newest(*self);
            lemma_reads(*old(self), frames@, last, i as int);
        }
        let trailing = if last {
            self.close(preprocess)
        } else {
            None
        };
        let processed = Processed { frames: out, trailing };
        assert(ran(making(*preprocess), frames@, processed.frames@, states));
        processed
    }
}

/// What the tower's own preprocessing makes of frames.
pub open spec fn preparing<
    T,
    C: Fn(PixFmt, u8, u8, u8) -> (T, T, T),
    M: Fn(&Vec<T>, &Vec<u64>) -> T,
    F: Fn(usize, T) -> T,
>(colour: C, mix: M, finish: F) -> Making<T> {
    |pix_fmt: PixFmt, width: usize, height: usize, frame: Seq<u8>, tensor: Seq<T>|
        prepares(colour, mix, finish, pix_fmt, width, height, frame, tensor)
}

/// Whether whatever is made one way is made the other way too.
spec fn refines<T>(made: Making<T>, other: Making<T>) -> bool {
    forall|pix_fmt: PixFmt, width: usize, height: usize, frame: Seq<u8>, tensor: Seq<T>| #[trigger]
        made(pix_fmt, width, height, frame, tensor) ==> other(
            pix_fmt,
            width,
            height,
            frame,
            tensor,
        )
}

proof fn lemma_closes_as<T>(made: Making<T>, other: Making<T>, opened: Opened<T>, clip: Clip<T>)
    requires
        refines(made, other),
        opened.closes_with(made, clip),
    ensures
        opened.closes_with(other, clip),
{
    let frames = opened.segment->0.frames;
    if frames.positions().last() != frames.count() - 1 {
        let last = choose|last: Seq<T>|
            #![trigger opened.makes(made, opened.newest@, last)]
            opened.makes(made, opened.newest@, last) && clip.input@ == laid(
                picked(frames.tensors().push(last)),
            );
        assert(opened.makes(other, opened.newest@, last));
    }
}

proof fn lemma_steps_as<T>(
    made: Making<T>,
    other: Making<T>,
    opened: Opened<T>,
    pts: i64,
    shot: Option<i64>,
    frame: Seq<u8>,
    clip: Option<Clip<T>>,
    after: Opened<T>,
)
    requires
        refines(made, other),
        opened.stepped(made, pts, shot, frame, clip, after),
    ensures
        opened.stepped(other, pts, shot, frame, clip, after),
{
    if let Some(c) = clip {
        lemma_closes_as(made, other, opened, c);
    }
    let now = after.segment->0.frames;
    let runs_on = opened.segment is Some && !opened.ends_at(pts, shot);
    let was = choose|was: Reservoir<T>|
        #![trigger was.keeps_next()]
        {
            &&& if runs_on {
                was == opened.segment->0.frames
            } else {
                was.is_fresh()
            }
            &&& if was.keeps_next() {
                exists|tensor: Seq<T>|
                    #![trigger opened.makes(made, frame, tensor)]
                    opened.makes(made, frame, tensor) && was.took(now, tensor)
            } else {
                was.passed(now)
            }
        };
    if was.keeps_next() {
        let tensor = choose|tensor: Seq<T>|
            #![trigger opened.makes(made, frame, tensor)]
            opened.makes(made, frame, tensor) && was.took(now, tensor);
        assert(opened.makes(other, frame, tensor));
    }
}

proof fn lemma_processes_as<T>(
    made: Making<T>,
    other: Making<T>,
    opened: Opened<T>,
    frames: Seq<InFrame>,
    last: bool,
    processed: Processed<T>,
    after: Opened<T>,
)
    requires
        refines(made, other),
        opened.processes(made, frames, last, processed, after),
    ensures
        opened.processes(other, frames, last, processed, after),
{
    let out = processed.frames@;
    let states = choose|states: Seq<Opened<T>>|
        {
            &&& #[trigger] ran(made, frames, out, states)
            &&& states.first() == opened
            &&& if last {
                &&& states.last().idled(after)
                &&& processed.trailing is Some == states.last().segment is Some
                &&& processed.trailing matches Some(c) ==> states.last().closes_with(made, c)
            } else {
                after == states.last() && processed.trailing is None
            }
        };
    assert(ran(other, frames, out, states)) by {
        assert forall|i: int| 0 <= i < frames.len() implies {
            &&& (#[trigger] out[i]).pts == frames[i].pts
            &&& out[i].frame is Same
            &&& states[i].stepped(
                other,
                frames[i].pts,
                last_shot(frames[i].shots@),
                frames[i].frame@,
                out[i].clip,
                states[i + 1],
            )
        } by {
            lemma_steps_as(
                made,
                other,
                states[i],
                frames[i].pts,
                last_shot(frames[i].shots@),
                frames[i].frame@,
                out[i].clip,
                states[i + 1],
            );
        }
    }
    if let Some(c) = processed.trailing {
        if last {
            lemma_closes_as(made, other, states.last(), c);
        }
    }
}

impl<T> Opened<T> {
    /// Whether pictures of this stream's size can be resized.
    pub open spec fn resizes(self) -> bool {
        &&& 0 < self.width
        &&& 0 < self.height
        &&& SHORT_EDGE * self.width <= LONGEST
        &&& SHORT_EDGE * self.height <= LONGEST
        &&& SHORT_EDGE * self.width <= usize::MAX
        &&& SHORT_EDGE * self.height <= usize::MAX
    }

    /// Whether a frame can be prepared: it has all its bytes, and its size can
    /// be resized.
    pub open spec fn fits(self, frame: Seq<u8>) -> bool {
        self.whole(frame) && self.resizes()
    }
}

impl<T> Opened<T> {
    /// Whether a frame can be prepared.
    pub fn takes(&self, frame: &[u8]) -> (r: bool)
        ensures
            r == (self.whole(frame@) && self.resizes()),
    {
        let (width, height): (u128, u128) = (self.width as u128, self.height as u128);
        let (longest, most): (u128, u128) = (LONGEST as u128, usize::MAX as u128);
        let edge: u128 = SHORT_EDGE as u128;
        if width == 0 || height == 0 || edge * width > longest || edge * height > longest || edge
            * width > most || edge * height > most {
            return false;
        }
        proof {
            lemma_picture_fits(self.width as int, self.height as int);
        }
        let bytes: u128 = match self.pix_fmt {
            PixFmt::Rgba => 4 * (width * height),
            PixFmt::Yuv420p => width * height + 2 * (((width + 1) / 2) * ((height + 1) / 2)),
        };
        assert(bytes == frame_bytes(self.pix_fmt, self.width as int, self.height as int));
        bytes <= frame.len() as u128
    }

    /// Whether every frame that one call reads can be prepared.
    pub fn can_read(&self, frames: &[InFrame], last: bool) -> (r: bool)
        requires
            self.wf(),
            self.segment matches Some(segment) ==> segment.frames.count() + frames@.len()
                <= usize::MAX,
        ensures
            r == self.takes_all(|frame: Seq<u8>| self.fits(frame), frames@, last),
    {
        let mut start: Option<i64> = None;
        let mut count: usize = 0;
        if let Some(segment) = &self.segment {
            start = Some(segment.start_pts);
            count = segment.frames.seen();
        }
        let mut shot: Option<i64> = self.current_shot;
        let ghost pace = self.pace();
        let ghost base = self.time_base;
        let n: usize = frames.len();
        let mut i: usize = 0;
        while i < n
            invariant
                i <= n,
                n == frames@.len(),
                pace == self.pace(),
                base == self.time_base,
                pace.after(base, frames@, i as int) == (Pace { start, count: count as nat, shot }),
                start is Some == (count > 0),
                count + (n - i) <= usize::MAX,
                forall|j: int|
                    0 <= j < i && keeps_at((pace.after(base, frames@, j + 1).count - 1) as nat)
                        ==> self.fits((#[trigger] frames@[j]).frame@),
                forall|j: int|
                    0 <= j < i && #[trigger] pace.closes_on_newest(base, frames@, last, j)
                        ==> self.fits(self.newest_at(frames@, j)),
            decreases n - i,
        {
            let input: &InFrame = &frames[i];
            let named: Option<i64> = shot_of(input.shots.as_slice());
            let ends: bool = match start {
                Some(from) => is_new_shot(shot, named) || is_capped(from, input.pts, self.time_base),
                None => false,
            };
            if ends && !is_kept_last(count) {
                let newest: &[u8] = if i == 0 {
                    self.newest.as_slice()
                } else {
                    frames[i - 1].frame.as_slice()
                };
                if !self.takes(newest) {
                    proof {
                        self.lemma_unread(frames@, last, i as int);
                    }
                    return false;
                }
            }
            if ends || start.is_none() {
                start = Some(input.pts);
                count = 1;
            } else {
                count = count + 1;
            }
            if named.is_some() {
                shot = named;
            }
            if (count - 1) % stride(count - 1) == 0 && !self.takes(input.frame.as_slice()) {
                assert(pace.reads(base, frames@, last, i as int));
                assert(!self.fits(frames@[i as int].frame@));
                return false;
            }
            i = i + 1;
        }
        if last && start.is_some() && !is_kept_last(count) {
            let newest: &[u8] = if n == 0 {
                self.newest.as_slice()
            } else {
                frames[n - 1].frame.as_slice()
            };
            if !self.takes(newest) {
                proof {
                    self.lemma_unread(frames@, last, n as int);
                }
                return false;
            }
        }
        proof {
            assert forall|j: int| 0 <= j < n && pace.reads(base, frames@, last, j) implies self.fits(
                (#[trigger] frames@[j]).frame@,
            ) by {
                if pace.closes_on_newest(base, frames@, last, j + 1) {
                    assert(self.newest_at(frames@, j + 1) == frames@[j].frame@);
                }
            }
            if pace.closes_on_newest(base, frames@, last, 0) {
                assert(self.newest_at(frames@, 0) == self.newest@);
            }
        }
        true
    }

    /// The newest frame once the first `i` have arrived.
    spec fn newest_at(self, frames: Seq<InFrame>, i: int) -> Seq<u8> {
        if i <= 0 {
            self.newest@
        } else {
            frames[i - 1].frame@
        }
    }

    proof fn lemma_unread(self, frames: Seq<InFrame>, last: bool, i: int)
        requires
            0 <= i <= frames.len(),
            self.pace().closes_on_newest(self.time_base, frames, last, i),
            !self.fits(self.newest_at(frames, i)),
        ensures
            !self.takes_all(|frame: Seq<u8>| self.fits(frame), frames, last),
    {
        if i > 0 {
            assert(self.pace().reads(self.time_base, frames, last, i - 1));
            assert(!self.fits(frames[i - 1].frame@));
        }
    }
}

/// Whether the last of a shot's frames is among those kept of it.
fn is_kept_last(count: usize) -> (r: bool)
    requires
        count > 0,
    ensures
        r == ends_on_kept(count as nat),
{
    (count - 1) % stride(count) == 0
}

/// The bytes of a picture that can be resized can be counted.
proof fn lemma_picture_fits(width: int, height: int)
    by (nonlinear_arith)
    requires
        0 < width <= 0x4000_0000_0000_0000,
        0 < height <= 0x4000_0000_0000_0000,
    ensures
        0 <= width * height <= 0x1000_0000_0000_0000_0000_0000_0000_0000,
        0 <= ((width + 1) / 2) * ((height + 1) / 2)
            <= 0x1000_0000_0000_0000_0000_0000_0000_0000,
{
}

impl<T: Copy> Opened<T> {
    /// One call, every frame prepared as the tower reads it: resized, cropped
    /// and normalized.
    pub fn process_pictures<
        C: Fn(PixFmt, u8, u8, u8) -> (T, T, T),
        M: Fn(&Vec<T>, &Vec<u64>) -> T,
        F: Fn(usize, T) -> T,
    >(&mut self, frames: &[InFrame], last: bool, colour: &C, mix: &M, finish: &F) -> (processed:
        Processed<T>)
        requires
            old(self).wf(),
            old(self).segment matches Some(segment) ==> segment.frames.count() + frames@.len()
                <= usize::MAX,
            old(self).takes_all(|frame: Seq<u8>| old(self).fits(frame), frames@, last),
            forall|pix_fmt: PixFmt, a: u8, b: u8, c: u8|
                call_requires(*colour, (pix_fmt, a, b, c)),
            forall|s: Vec<T>, w: Vec<u64>|
                s@.len() == w@.len() && s@.len() > 0 ==> call_requires(*mix, (&s, &w)),
            forall|channel: usize, mixed: T|
                channel < 3 ==> call_requires(*finish, (channel, mixed)),
        ensures
            final(self).wf(),
            old(self).processes(
                preparing(*colour, *mix, *finish),
                frames@,
                last,
                processed,
                *final(self),
            ),
    {
        let prepare = |frame: &[u8], pix_fmt: PixFmt, width: usize, height: usize| -> (tensor: Vec<
            T,
        >)
            requires
                0 < width,
                0 < height,
                SHORT_EDGE * width <= LONGEST,
                SHORT_EDGE * height <= LONGEST,
                SHORT_EDGE * width <= usize::MAX,
                SHORT_EDGE * height <= usize::MAX,
                frame_bytes(pix_fmt, width as int, height as int) <= frame@.len(),
            ensures
                prepares(*colour, *mix, *finish, pix_fmt, width, height, frame@, tensor@),
            { preprocess(frame, pix_fmt, width, height, colour, mix, finish) };
        proof {
            let taken = |frame: Seq<u8>| self.ready(prepare, frame);
            assert forall|frame: Seq<u8>| self.fits(frame) implies #[trigger] taken(frame) by {}
        }
        let processed = self.process(frames, last, &prepare);
        proof {
            lemma_processes_as(
                making(prepare),
                preparing(*colour, *mix, *finish),
                *old(self),
                frames@,
                last,
                processed,
                *self,
            );
        }
        processed
    }
}

/// A shot value that repeats the one running ends no more than a frame with
/// no shot row does, and neither does the first value of a stream.
pub proof fn law_only_a_new_value_is_a_cut<T>(opened: Opened<T>, pts: i64, shot: Option<i64>)
    requires
        opened.current_shot is None || shot is None || shot == opened.current_shot,
    ensures
        opened.ends_at(pts, shot) == opened.ends_at(pts, None),
{
}

/// The shot value a frame names is that of the last of its rows that names
/// one, and a frame none of whose rows names one names none.
pub proof fn law_the_last_row_that_names_a_shot_wins(shots: Seq<Option<i64>>, at: int)
    ensures
        0 <= at < shots.len() && shots[at] is Some && (forall|j: int|
            at < j < shots.len() ==> shots[j] is None) ==> last_shot(shots) == shots[at],
        (forall|j: int| 0 <= j < shots.len() ==> shots[j] is None) ==> last_shot(shots) is None,
    decreases shots.len(),
{
    if shots.len() > 0 && shots.last() is None {
        let rest = shots.drop_last();
        law_the_last_row_that_names_a_shot_wins(rest, at);
        if 0 <= at < shots.len() && shots[at] is Some && (forall|j: int|
            at < j < shots.len() ==> shots[j] is None) {
            assert(rest[at] == shots[at]);
            assert forall|j: int| at < j < rest.len() implies rest[j] is None by {
                assert(rest[j] == shots[j]);
            }
        }
        if forall|j: int| 0 <= j < shots.len() ==> shots[j] is None {
            assert forall|j: int| 0 <= j < rest.len() implies rest[j] is None by {
                assert(rest[j] == shots[j]);
            }
        }
    }
}

/// Any two shot values that differ are a cut, whatever the two are: while a
/// stretch runs under `a`, a frame that names `b` closes it and begins the
/// next, and one that names `a` again leaves it to the cap alone. Either way
/// the frame's own value is the one that runs from there on.
pub proof fn law_any_two_values_that_differ_are_a_cut<T>(
    made: Making<T>,
    opened: Opened<T>,
    pts: i64,
    a: i64,
    b: i64,
    frame: Seq<u8>,
    clip: Option<Clip<T>>,
    after: Opened<T>,
)
    requires
        opened.segment is Some,
        opened.current_shot == Some(a),
        opened.stepped(made, pts, Some(b), frame, clip, after),
    ensures
        a != b ==> clip is Some && after.segment is Some && after.segment->0.start_pts == pts,
        a == b && opened.time_base.den > 0 && (pts - opened.segment->0.start_pts)
            * opened.time_base.num < 10 * opened.time_base.den ==> clip is None,
        after.current_shot == Some(b),
{
}

/// What runs is compared, and nothing else: a value that differs from the one
/// running is new, one that equals it is not, and where either is missing
/// nothing is.
pub proof fn law_a_value_is_new_where_it_differs(a: i64, b: i64)
    ensures
        a != b ==> new_shot(Some(a), Some(b)),
        !new_shot(Some(a), Some(a)),
        !new_shot(None, Some(b)),
        !new_shot(Some(a), None),
        !new_shot(None, None),
{
}

/// A change of value is a cut however many frames lie between that name none:
/// where frame `i` names `a`, the next frame that names a value is frame `j`,
/// and it names `b`, a clip leaves with frame `j` if the two differ. If they
/// are the same, one leaves only where the stretch is as long as the cap.
pub proof fn law_a_change_of_value_is_a_cut_however_far_apart<T>(
    made: Making<T>,
    frames: Seq<InFrame>,
    out: Seq<OutFrame<T>>,
    states: Seq<Opened<T>>,
    i: int,
    at: int,
    a: i64,
    j: int,
    to: int,
    b: i64,
)
    requires
        ran(made, frames, out, states),
        0 <= i < j < frames.len(),
        0 <= at < frames[i].shots@.len(),
        frames[i].shots@[at] == Some(a),
        forall|k: int| at < k < frames[i].shots@.len() ==> frames[i].shots@[k] is None,
        forall|h: int, k: int|
            i < h < j && 0 <= k < (#[trigger] frames[h]).shots@.len() ==> (
            #[trigger] frames[h].shots@[k]) is None,
        0 <= to < frames[j].shots@.len(),
        frames[j].shots@[to] == Some(b),
        forall|k: int| to < k < frames[j].shots@.len() ==> frames[j].shots@[k] is None,
    ensures
        a != b ==> out[j].clip is Some,
        a == b && states[j].time_base.den > 0 ==> (out[j].clip is Some <==> (frames[j].pts
            - states[j].segment->0.start_pts) * states[j].time_base.num >= 10
            * states[j].time_base.den),
{
    lemma_value_runs_on(made, frames, out, states, i, at, a, j);
    law_the_last_row_that_names_a_shot_wins(frames[j].shots@, to);
    assert(out[j].pts == frames[j].pts);
}

/// A value runs on through frames that name none.
proof fn lemma_value_runs_on<T>(
    made: Making<T>,
    frames: Seq<InFrame>,
    out: Seq<OutFrame<T>>,
    states: Seq<Opened<T>>,
    i: int,
    at: int,
    a: i64,
    j: int,
)
    requires
        ran(made, frames, out, states),
        0 <= i < j <= frames.len(),
        0 <= at < frames[i].shots@.len(),
        frames[i].shots@[at] == Some(a),
        forall|k: int| at < k < frames[i].shots@.len() ==> frames[i].shots@[k] is None,
        forall|h: int, k: int|
            i < h < j && 0 <= k < (#[trigger] frames[h]).shots@.len() ==> (
            #[trigger] frames[h].shots@[k]) is None,
    ensures
        states[j].current_shot == Some(a),
        states[j].segment is Some,
    decreases j,
{
    let h = j - 1;
    assert(out[h].pts == frames[h].pts);
    if h > i {
        lemma_value_runs_on(made, frames, out, states, i, at, a, h);
        law_the_last_row_that_names_a_shot_wins(frames[h].shots@, 0);
    } else {
        law_the_last_row_that_names_a_shot_wins(frames[i].shots@, at);
    }
}

/// A stretch is as long as the cap exactly where its ticks come to ten seconds
/// or more. Where the time base is a fraction of nothing, any length above none
/// does.
pub proof fn law_the_cap_is_ten_seconds(ticks: int, time_base: Rational)
    ensures
        time_base.den > 0 ==> (reaches_cap(ticks, time_base) <==> ticks * time_base.num >= 10
            * time_base.den),
        time_base.den < 0 ==> (reaches_cap(ticks, time_base) <==> ticks * (-time_base.num) >= 10
            * (-time_base.den)),
        time_base.den == 0 ==> (reaches_cap(ticks, time_base) <==> ticks * time_base.num > 0),
{
    assert(ticks * (-time_base.num) == -(ticks * time_base.num)) by (nonlinear_arith);
}

/// How long is long enough does not depend on how a length is written: two
/// counts of ticks that last equally long reach the cap together, and one that
/// lasts longer reaches it wherever the shorter one does.
pub proof fn law_equal_lengths_reach_the_cap_together(a: int, left: Rational, b: int, right: Rational)
    requires
        left.den > 0,
        right.den > 0,
    ensures
        a * left.num * right.den == b * right.num * left.den ==> reaches_cap(a, left)
            == reaches_cap(b, right),
        a * left.num * right.den <= b * right.num * left.den && reaches_cap(a, left)
            ==> reaches_cap(b, right),
{
    let (p, q) = (a * left.num, b * right.num);
    let (d, e) = (left.den as int, right.den as int);
    if p * e <= q * d && reaches_cap(a, left) {
        lemma_cap_carries(p, d, q, e);
    }
    if p * e == q * d && reaches_cap(b, right) {
        lemma_cap_carries(q, e, p, d);
    }
}

proof fn lemma_cap_carries(p: int, d: int, q: int, e: int)
    by (nonlinear_arith)
    requires
        d > 0,
        e > 0,
        p * e <= q * d,
        p >= 10 * d,
    ensures
        q >= 10 * e,
{
    assert(p * e >= 10 * d * e);
    assert(q * d >= (10 * e) * d);
}

/// `k` times the ticks of a time base are as long as the ticks of one `k`
/// times as coarse, and a fraction says as much when both its parts are
/// multiplied.
pub proof fn law_the_cap_is_the_same_in_every_time_base(
    ticks: int,
    k: int,
    fine: Rational,
    coarse: Rational,
    widened: Rational,
)
    requires
        fine.den > 0,
        k > 0,
        coarse.num == k * fine.num,
        coarse.den == fine.den,
        widened.num == k * fine.num,
        widened.den == k * fine.den,
    ensures
        reaches_cap(k * ticks, fine) == reaches_cap(ticks, coarse),
        reaches_cap(ticks, fine) == reaches_cap(ticks, widened),
{
    let (n, d) = (fine.num as int, fine.den as int);
    assert((k * ticks) * n == ticks * (k * n)) by (nonlinear_arith);
    assert(k * d > 0) by (nonlinear_arith)
        requires
            k > 0,
            d > 0,
    ;
    assert((ticks * (k * n) >= 10 * (k * d)) == (ticks * n >= 10 * d)) by (nonlinear_arith)
        requires
            k > 0,
    {
        assert(ticks * (k * n) == k * (ticks * n));
        assert(10 * (k * d) == k * (10 * d));
    }
}

/// What one frame does, in the stream's own numbers. The first frame of a
/// stream closes nothing and begins a stretch. Of a stretch that runs, a frame
/// with no value, the first value and the value that runs already close it
/// exactly where it has lasted ten seconds. A stretch that is not closed runs
/// on from where it began, one that is begins again at the frame, and either
/// way it reaches to the frame and the frame is the newest. A frame that names
/// no value leaves the one that runs.
pub proof fn law_a_frame_closes_begins_or_runs_on<T>(
    made: Making<T>,
    opened: Opened<T>,
    pts: i64,
    shot: Option<i64>,
    frame: Seq<u8>,
    clip: Option<Clip<T>>,
    after: Opened<T>,
)
    requires
        opened.stepped(made, pts, shot, frame, clip, after),
    ensures
        opened.segment is None ==> clip is None,
        opened.segment is Some && opened.time_base.den > 0 && (shot is None || opened.current_shot
            is None || shot == opened.current_shot) ==> (clip is Some <==> (pts
            - opened.segment->0.start_pts) * opened.time_base.num >= 10 * opened.time_base.den),
        clip matches Some(c) ==> c.start_pts == opened.segment->0.start_pts && c.last_pts
            == opened.segment->0.last_pts,
        after.segment is Some,
        after.segment->0.last_pts == pts,
        opened.segment is Some && clip is None ==> after.segment->0.start_pts
            == opened.segment->0.start_pts,
        opened.segment is None || clip is Some ==> after.segment->0.start_pts == pts,
        opened.segment is Some && clip is None ==> after.segment->0.frames.count()
            == opened.segment->0.frames.count() + 1,
        opened.segment is None || clip is Some ==> after.segment->0.frames.count() == 1,
        after.newest@ == frame,
        shot is None ==> after.current_shot == opened.current_shot,
        shot is Some ==> after.current_shot == shot,
        after.width == opened.width,
        after.height == opened.height,
        after.pix_fmt == opened.pix_fmt,
        after.time_base == opened.time_base,
{
}

/// One call hands every frame on in order and untouched, at its own timestamp.
/// With the last call the stretch that runs leaves the clip it closes with,
/// which reaches to the last frame, and none runs on. Before it nothing is
/// left over.
pub proof fn law_a_call_hands_every_frame_on<T>(
    made: Making<T>,
    opened: Opened<T>,
    frames: Seq<InFrame>,
    last: bool,
    processed: Processed<T>,
    after: Opened<T>,
)
    requires
        opened.processes(made, frames, last, processed, after),
    ensures
        processed.frames@.len() == frames.len(),
        forall|i: int|
            0 <= i < frames.len() ==> (#[trigger] processed.frames@[i]).pts == frames[i].pts
                && processed.frames@[i].frame is Same,
        !last ==> processed.trailing is None,
        last ==> after.segment is None,
        last ==> processed.trailing is Some == (frames.len() > 0 || opened.segment is Some),
        last && frames.len() > 0 ==> processed.trailing->0.last_pts == frames.last().pts,
        last && frames.len() == 0 && opened.segment is Some ==> processed.trailing->0.start_pts
            == opened.segment->0.start_pts && processed.trailing->0.last_pts
            == opened.segment->0.last_pts,
        !last && frames.len() > 0 ==> after.segment is Some && after.segment->0.last_pts
            == frames.last().pts,
        frames.len() > 0 ==> after.newest@ == frames.last().frame@,
        frames.len() == 0 ==> after.newest@ == opened.newest@ && after.current_shot
            == opened.current_shot,
        frames.len() == 0 && !last ==> after == opened,
        frames.len() > 0 && frames.last().shots@.len() > 0 && frames.last().shots@.last() is Some
            ==> after.current_shot == frames.last().shots@.last(),
        after.width == opened.width,
        after.height == opened.height,
        after.pix_fmt == opened.pix_fmt,
        after.time_base == opened.time_base,
{
    let states = choose|states: Seq<Opened<T>>|
        {
            &&& #[trigger] ran(made, frames, processed.frames@, states)
            &&& states.first() == opened
            &&& if last {
                &&& states.last().idled(after)
                &&& processed.trailing is Some == states.last().segment is Some
                &&& processed.trailing matches Some(c) ==> states.last().closes_with(made, c)
            } else {
                after == states.last() && processed.trailing is None
            }
        };
    lemma_settings(made, frames, processed.frames@, states, frames.len() as int);
    if frames.len() > 0 {
        let i = frames.len() - 1;
        assert(processed.frames@[i].pts == frames[i].pts);
        assert(states[i + 1] == states.last());
    }
}

/// No clip covers as much as the cap: whatever frames arrive, each clip's
/// last frame lies less than ten seconds after its first.
pub proof fn law_every_clip_is_shorter_than_the_cap<T>(
    made: Making<T>,
    frames: Seq<InFrame>,
    out: Seq<OutFrame<T>>,
    states: Seq<Opened<T>>,
    i: int,
)
    requires
        ran(made, frames, out, states),
        states.first().segment is None,
        0 <= i < frames.len(),
    ensures
        out[i].clip matches Some(c) ==> !reaches_cap(
            c.last_pts - c.start_pts,
            states.first().time_base,
        ),
        states[i + 1].segment matches Some(s) && !reaches_cap(
            s.last_pts - s.start_pts,
            states.first().time_base,
        ),
        states[i + 1].time_base == states.first().time_base,
    decreases i,
{
    assert(out[i].pts == frames[i].pts);
    assert(0 * states.first().time_base.num == 0);
    if i > 0 {
        law_every_clip_is_shorter_than_the_cap(made, frames, out, states, i - 1);
        assert(states[i - 1 + 1] == states[i]);
    } else {
        assert(states[0] == states.first());
    }
}

/// Clips tile the stream: a clip begins with the frame that ended the clip
/// before it, or with the stream's first frame, and ends with the frame just
/// before the one that ended it. Every frame is in exactly one stretch.
pub proof fn law_clips_tile_the_stream<T>(
    made: Making<T>,
    frames: Seq<InFrame>,
    out: Seq<OutFrame<T>>,
    states: Seq<Opened<T>>,
    from: int,
    i: int,
)
    requires
        ran(made, frames, out, states),
        states.first().segment is None,
        0 <= from < i <= frames.len(),
        from == 0 || out[from].clip is Some,
        forall|j: int| from < j < i ==> (#[trigger] out[j]).clip is None,
    ensures
        states[i].segment matches Some(s) && s.start_pts == frames[from].pts && s.last_pts
            == frames[i - 1].pts,
        i < frames.len() ==> (out[i].clip matches Some(c) ==> c.start_pts == frames[from].pts
            && c.last_pts == frames[i - 1].pts),
        from == 0 ==> out[0].clip is None,
    decreases i,
{
    assert(out[i - 1].pts == frames[i - 1].pts);
    assert(out[from].pts == frames[from].pts);
    assert(out[0].pts == frames[0].pts);
    assert(states[0] == states.first());
    if i < frames.len() {
        assert(out[i].pts == frames[i].pts);
    }
    if i - 1 > from {
        law_clips_tile_the_stream(made, frames, out, states, from, i - 1);
        assert(out[i - 1].clip is None);
    }
}

/// Whether every frame a stretch keeps is a tensor of one length.
pub open spec fn even_tensors<T>(opened: Opened<T>, len: nat) -> bool {
    opened.segment matches Some(segment) ==> forall|i: int|
        0 <= i < segment.frames.tensors().len() ==> (
        #[trigger] segment.frames.tensors()[i]).len() == len
}

/// Whether every frame is made into a tensor of one length.
pub open spec fn all_long<T>(made: Making<T>, len: nat) -> bool {
    forall|pix_fmt: PixFmt, width: usize, height: usize, frame: Seq<u8>, tensor: Seq<T>| #[trigger]
        made(pix_fmt, width, height, frame, tensor) ==> tensor.len() == len
}

proof fn lemma_offered_even<T>(kept: Seq<Seq<T>>, next: Seq<T>, len: nat)
    requires
        forall|i: int| 0 <= i < kept.len() ==> (#[trigger] kept[i]).len() == len,
        next.len() == len,
    ensures
        forall|i: int|
            0 <= i < offered(kept, next).len() ==> (#[trigger] offered(kept, next)[i]).len()
                == len,
{
    assert forall|i: int| 0 <= i < kept.push(next).len() implies (
    #[trigger] kept.push(next)[i]).len() == len by {
        if i < kept.len() {
            assert(kept.push(next)[i] == kept[i]);
        }
    }
}

/// Every clip is eight tensors, however long its stretch ran: where each frame
/// makes a tensor of one length, a clip holds eight times that.
pub proof fn law_every_clip_is_eight_tensors<T>(
    made: Making<T>,
    frames: Seq<InFrame>,
    out: Seq<OutFrame<T>>,
    states: Seq<Opened<T>>,
    len: nat,
    i: int,
)
    requires
        ran(made, frames, out, states),
        states.first().segment is None,
        all_long(made, len),
        0 <= i < frames.len(),
    ensures
        out[i].clip matches Some(c) ==> c.input@.len() == FRAMES * len,
        even_tensors(states[i + 1], len),
        states[i + 1].segment matches Some(s) && s.frames.tensors().len() > 0,
    decreases i,
{
    let (before, after) = (states[i], states[i + 1]);
    assert(out[i].pts == frames[i].pts);
    if i > 0 {
        law_every_clip_is_eight_tensors(made, frames, out, states, len, i - 1);
        assert(states[i - 1 + 1] == before);
    } else {
        assert(before == states.first());
    }
    if let Some(clip) = out[i].clip {
        lemma_clip_length(made, before, clip, len);
    }
    lemma_step_keeps_even(
        made,
        before,
        frames[i].pts,
        last_shot(frames[i].shots@),
        frames[i].frame@,
        out[i].clip,
        after,
        len,
    );
}

/// The clip that is left when the stream ends is eight tensors as well.
pub proof fn law_the_last_clip_is_eight_tensors<T>(
    made: Making<T>,
    frames: Seq<InFrame>,
    out: Seq<OutFrame<T>>,
    states: Seq<Opened<T>>,
    len: nat,
    clip: Clip<T>,
)
    requires
        ran(made, frames, out, states),
        states.first().segment is None,
        all_long(made, len),
        states.last().closes_with(made, clip),
    ensures
        clip.input@.len() == FRAMES * len,
{
    let n = frames.len() as int;
    assert(n > 0);
    law_every_clip_is_eight_tensors(made, frames, out, states, len, n - 1);
    assert(states[n - 1 + 1] == states.last());
    lemma_clip_length(made, states.last(), clip, len);
}

/// Every clip of pictures is what the tower's input holds: eight frames of
/// three planes. So is the clip that is left when the stream ends.
pub proof fn law_every_clip_of_pictures_fills_the_input<
    T,
    C: Fn(PixFmt, u8, u8, u8) -> (T, T, T),
    M: Fn(&Vec<T>, &Vec<u64>) -> T,
    F: Fn(usize, T) -> T,
>(
    colour: C,
    mix: M,
    finish: F,
    frames: Seq<InFrame>,
    out: Seq<OutFrame<T>>,
    states: Seq<Opened<T>>,
)
    requires
        ran(preparing(colour, mix, finish), frames, out, states),
        states.first().segment is None,
    ensures
        forall|i: int|
            0 <= i < frames.len() ==> ((#[trigger] out[i]).clip matches Some(c) ==> c.input@.len()
                == FRAMES * TENSOR),
        forall|clip: Clip<T>| #[trigger]
            states.last().closes_with(preparing(colour, mix, finish), clip) ==> clip.input@.len()
                == FRAMES * TENSOR,
{
    let made = preparing(colour, mix, finish);
    assert forall|i: int| 0 <= i < frames.len() implies ((#[trigger] out[i]).clip matches Some(c)
        ==> c.input@.len() == FRAMES * TENSOR) by {
        law_every_clip_is_eight_tensors(made, frames, out, states, TENSOR as nat, i);
    }
    assert forall|clip: Clip<T>| #[trigger]
        states.last().closes_with(made, clip) implies clip.input@.len() == FRAMES * TENSOR by {
        law_the_last_clip_is_eight_tensors(made, frames, out, states, TENSOR as nat, clip);
    }
}

proof fn lemma_clip_length<T>(
    made: Making<T>,
    opened: Opened<T>,
    clip: Clip<T>,
    len: nat,
)
    requires
        opened.closes_with(made, clip),
        even_tensors(opened, len),
        opened.segment matches Some(s) && s.frames.tensors().len() > 0,
        all_long(made, len),
    ensures
        clip.input@.len() == FRAMES * len,
{
    let kept = opened.segment->0.frames.tensors();
    if opened.segment->0.frames.positions().last() == opened.segment->0.frames.count() - 1 {
        law_the_input_is_eight_tensors(kept, len);
    } else {
        let last = choose|last: Seq<T>|
            #![trigger opened.makes(made, opened.newest@, last)]
            opened.makes(made, opened.newest@, last) && clip.input@ == laid(
                picked(kept.push(last)),
            );
        let all = kept.push(last);
        assert forall|k: int| 0 <= k < all.len() implies (#[trigger] all[k]).len() == len by {
            if k < kept.len() {
                assert(all[k] == kept[k]);
            }
        }
        law_the_input_is_eight_tensors(all, len);
    }
}

proof fn lemma_step_keeps_even<T>(
    made: Making<T>,
    opened: Opened<T>,
    pts: i64,
    shot: Option<i64>,
    frame: Seq<u8>,
    clip: Option<Clip<T>>,
    after: Opened<T>,
    len: nat,
)
    requires
        opened.stepped(made, pts, shot, frame, clip, after),
        even_tensors(opened, len),
        opened.segment matches Some(s) ==> s.frames.tensors().len() > 0,
        all_long(made, len),
    ensures
        even_tensors(after, len),
        after.segment matches Some(s) && s.frames.tensors().len() > 0,
{
    let now = after.segment->0.frames;
    let runs_on = opened.segment is Some && !opened.ends_at(pts, shot);
    let was = choose|was: Reservoir<T>|
        #![trigger was.keeps_next()]
        {
            &&& if runs_on {
                was == opened.segment->0.frames
            } else {
                was.is_fresh()
            }
            &&& if was.keeps_next() {
                exists|tensor: Seq<T>|
                    #![trigger opened.makes(made, frame, tensor)]
                    opened.makes(made, frame, tensor) && was.took(now, tensor)
            } else {
                was.passed(now)
            }
        };
    if was.keeps_next() {
        let tensor = choose|tensor: Seq<T>|
            #![trigger opened.makes(made, frame, tensor)]
            opened.makes(made, frame, tensor) && was.took(now, tensor);
        lemma_offered_even(was.tensors(), tensor, len);
    } else if !runs_on {
        assert(0nat % 1nat == 0);
    }
}

/// With no shot rows at all, and no frame as late as the cap, the whole input
/// is one shot: no frame ends anything, and the stretch left at the end runs
/// from the first frame to the last.
pub proof fn law_no_shot_rows_is_one_shot<T>(
    made: Making<T>,
    frames: Seq<InFrame>,
    out: Seq<OutFrame<T>>,
    states: Seq<Opened<T>>,
    i: int,
)
    requires
        ran(made, frames, out, states),
        states.first().segment is None,
        0 <= i < frames.len(),
        forall|j: int| 0 <= j < frames.len() ==> last_shot((#[trigger] frames[j]).shots@) is None,
        forall|j: int|
            0 <= j < frames.len() ==> !reaches_cap(
                (#[trigger] frames[j]).pts - frames[0].pts,
                states.first().time_base,
            ),
    ensures
        out[i].clip is None,
        states[i + 1].time_base == states.first().time_base,
        states[i + 1].segment matches Some(s) && s.start_pts == frames[0].pts && s.last_pts
            == frames[i].pts,
    decreases i,
{
    assert(out[i].pts == frames[i].pts);
    assert(last_shot(frames[i].shots@) is None);
    assert(states[0] == states.first());
    if i > 0 {
        law_no_shot_rows_is_one_shot(made, frames, out, states, i - 1);
        assert(states[i - 1 + 1] == states[i]);
    }
}

/// What the frames of a stretch that begins at frame `from` are made into, by
/// their places in it.
pub open spec fn made_in_stretch<T>(
    made: Making<T>,
    opened: Opened<T>,
    frames: Seq<InFrame>,
    from: int,
) -> spec_fn(int, Seq<T>) -> bool {
    |place: int, tensor: Seq<T>| opened.makes(made, frames[from + place].frame@, tensor)
}

/// Whether `clip` is what the frames from `from` to `to` leave behind: their
/// bounds, and eight tensors, each made of the frame that is chosen of them
/// for its slot.
pub open spec fn is_clip_of<T>(
    made: Making<T>,
    opened: Opened<T>,
    frames: Seq<InFrame>,
    from: int,
    to: int,
    clip: Clip<T>,
) -> bool {
    &&& clip.start_pts == frames[from].pts
    &&& clip.last_pts == frames[to - 1].pts
    &&& exists|eight: Seq<Seq<T>>|
        {
            &&& eight.len() == FRAMES
            &&& clip.input@ == #[trigger] laid(eight)
            &&& forall|slot: int|
                0 <= slot < FRAMES ==> opened.makes(
                    made,
                    frames[from + chosen((to - from) as nat, slot)].frame@,
                    #[trigger] eight[slot],
                )
        }
}

/// A clip's eight are its own stretch's frames: whatever clip a stretch
/// closes with, at the frame that ends it or where the stream ends, its eight
/// tensors are made of the frames of that stretch that are chosen by its
/// length, in order, the first of them its first and the last its last.
pub proof fn law_a_clip_describes_its_own_stretch<T>(
    made: Making<T>,
    frames: Seq<InFrame>,
    out: Seq<OutFrame<T>>,
    states: Seq<Opened<T>>,
    from: int,
    to: int,
    clip: Clip<T>,
)
    requires
        ran(made, frames, out, states),
        states.first().segment is None,
        0 <= from < to <= frames.len(),
        from == 0 || out[from].clip is Some,
        forall|j: int| from < j < to ==> (#[trigger] out[j]).clip is None,
        (to < frames.len() && out[to].clip == Some(clip)) || states[to].closes_with(made, clip),
    ensures
        is_clip_of(made, states.first(), frames, from, to, clip),
        chosen((to - from) as nat, 0) == 0,
        chosen((to - from) as nat, FRAMES - 1) == to - from - 1,
{
    if to < frames.len() {
        assert(out[to].pts == frames[to].pts);
    }
    lemma_stretch(made, frames, out, states, from, to);
    let opened = states[to];
    let r = opened.segment->0.frames;
    let own = made_in_stretch(made, states.first(), frames, from);
    let held = closing_positions(r);
    let tensors = if r.positions().last() == r.count() - 1 {
        r.tensors()
    } else {
        let last = choose|last: Seq<T>|
            #![trigger opened.makes(made, opened.newest@, last)]
            opened.makes(made, opened.newest@, last) && clip.input@ == laid(
                picked(r.tensors().push(last)),
            );
        assert(own(r.count() - 1, last));
        r.tensors().push(last)
    };
    assert(clip.input@ == laid(picked(tensors)));
    assert forall|i: int| 0 <= i < held.len() implies own(#[trigger] held[i], tensors[i]) by {
        if i < r.positions().len() {
            assert(held[i] == r.positions()[i]);
        }
    }
    let eight = picked(tensors);
    assert forall|slot: int| 0 <= slot < FRAMES implies states.first().makes(
        made,
        frames[from + chosen((to - from) as nat, slot)].frame@,
        #[trigger] eight[slot],
    ) by {
        law_the_eight_are_chosen_by_the_count(r, slot);
        let at = spread_at(held.len(), slot);
        assert(own(held[at], tensors[at]));
    }
    law_the_eight_are_chosen_by_the_count(r, 0);
    law_the_eight_are_chosen_by_the_count(r, FRAMES - 1);
    law_the_eight_span_the_shot(r);
}

/// What a stretch holds before its end: as many frames as arrived since it
/// began, and every kept tensor its own frame's.
proof fn lemma_stretch<T>(
    made: Making<T>,
    frames: Seq<InFrame>,
    out: Seq<OutFrame<T>>,
    states: Seq<Opened<T>>,
    from: int,
    to: int,
)
    requires
        ran(made, frames, out, states),
        states.first().segment is None,
        0 <= from < to <= frames.len(),
        from == 0 || out[from].clip is Some,
        forall|j: int| from < j < to ==> (#[trigger] out[j]).clip is None,
    ensures
        states[to].same_settings(states.first()),
        states[to].newest@ == frames[to - 1].frame@,
        states[to].segment matches Some(s) && {
            &&& s.start_pts == frames[from].pts
            &&& s.last_pts == frames[to - 1].pts
            &&& s.frames.wf()
            &&& s.frames.count() == to - from
            &&& holds_own(s.frames, made_in_stretch(made, states.first(), frames, from))
        },
    decreases to,
{
    let i = to - 1;
    let (before, after) = (states[i], states[i + 1]);
    let frame = frames[i];
    let shot = last_shot(frame.shots@);
    let own = made_in_stretch(made, states.first(), frames, from);
    assert(out[i].pts == frame.pts);
    lemma_settings(made, frames, out, states, i);
    if i > from {
        lemma_stretch(made, frames, out, states, from, i);
        assert(out[i].clip is None);
    }
    let runs_on = before.segment is Some && !before.ends_at(frame.pts, shot);
    assert(runs_on == (i > from)) by {
        if i == from && from == 0 {
            assert(states[0] == states.first());
        }
    }
    let now = after.segment->0.frames;
    let was = choose|was: Reservoir<T>|
        #![trigger was.keeps_next()]
        {
            &&& if runs_on {
                was == before.segment->0.frames
            } else {
                was.is_fresh()
            }
            &&& if was.keeps_next() {
                exists|tensor: Seq<T>|
                    #![trigger before.makes(made, frame.frame@, tensor)]
                    before.makes(made, frame.frame@, tensor) && was.took(now, tensor)
            } else {
                was.passed(now)
            }
        };
    if !runs_on {
        lemma_fresh(was, own);
    }
    assert(was.count() == i - from);
    if was.keeps_next() {
        let tensor = choose|tensor: Seq<T>|
            #![trigger before.makes(made, frame.frame@, tensor)]
            before.makes(made, frame.frame@, tensor) && was.took(now, tensor);
        assert(own(was.count() as int, tensor));
    }
    lemma_feeds(was, now, own);
}

proof fn lemma_settings<T>(
    made: Making<T>,
    frames: Seq<InFrame>,
    out: Seq<OutFrame<T>>,
    states: Seq<Opened<T>>,
    i: int,
)
    requires
        ran(made, frames, out, states),
        0 <= i <= frames.len(),
    ensures
        states[i].same_settings(states.first()),
    decreases i,
{
    if i > 0 {
        lemma_settings(made, frames, out, states, i - 1);
        assert(out[i - 1].pts == frames[i - 1].pts);
    }
}

/// Calls join: what two calls leave, one after the other, is what one call
/// leaves of all their frames. So whatever holds of one run holds of a stream,
/// however its frames are handed over.
pub proof fn law_calls_join<T>(
    made: Making<T>,
    opened: Opened<T>,
    first: Seq<InFrame>,
    left: Processed<T>,
    between: Opened<T>,
    second: Seq<InFrame>,
    last: bool,
    right: Processed<T>,
    after: Opened<T>,
    joined: Processed<T>,
)
    requires
        opened.processes(made, first, false, left, between),
        between.processes(made, second, last, right, after),
        joined.frames@ == left.frames@ + right.frames@,
        joined.trailing == right.trailing,
    ensures
        opened.processes(made, first + second, last, joined, after),
{
    let a = choose|a: Seq<Opened<T>>|
        {
            &&& #[trigger] ran(made, first, left.frames@, a)
            &&& a.first() == opened
            &&& between == a.last()
        };
    let b = choose|b: Seq<Opened<T>>|
        {
            &&& #[trigger] ran(made, second, right.frames@, b)
            &&& b.first() == between
            &&& if last {
                &&& b.last().idled(after)
                &&& right.trailing is Some == b.last().segment is Some
                &&& right.trailing matches Some(c) ==> b.last().closes_with(made, c)
            } else {
                after == b.last() && right.trailing is None
            }
        };
    lemma_runs_join(made, first, left.frames@, a, second, right.frames@, b);
    let states = a + b.drop_first();
    assert(states.first() == opened);
    assert(states.last() == b.last());
}

proof fn lemma_runs_join<T>(
    made: Making<T>,
    first: Seq<InFrame>,
    first_out: Seq<OutFrame<T>>,
    a: Seq<Opened<T>>,
    second: Seq<InFrame>,
    second_out: Seq<OutFrame<T>>,
    b: Seq<Opened<T>>,
)
    requires
        ran(made, first, first_out, a),
        ran(made, second, second_out, b),
        a.last() == b.first(),
    ensures
        ran(made, first + second, first_out + second_out, a + b.drop_first()),
{
    let (frames, out, states) = (first + second, first_out + second_out, a + b.drop_first());
    let n = first.len() as int;
    assert forall|i: int| 0 <= i < frames.len() implies {
        &&& (#[trigger] out[i]).pts == frames[i].pts
        &&& out[i].frame is Same
        &&& states[i].stepped(
            made,
            frames[i].pts,
            last_shot(frames[i].shots@),
            frames[i].frame@,
            out[i].clip,
            states[i + 1],
        )
    } by {
        if i < n {
            assert(out[i] == first_out[i]);
            assert(states[i] == a[i]);
            assert(states[i + 1] == a[i + 1]);
        } else {
            let k = i - n;
            assert(out[i] == second_out[k]);
            assert(states[i] == b[k]) by {
                if k > 0 {
                    assert(states[i] == b.drop_first()[k - 1]);
                }
            }
            assert(states[i + 1] == b.drop_first()[k]);
        }
    }
}

/// This module takes no parameters: a shot's bounds are its own and the
/// tower's geometry is fixed.
pub fn validate_params(params: &str) -> (r: Result<(), String>)
    ensures
        trimmed(params@) == ""@ || trimmed(params@) == "{}"@ ==> r is Ok,
        trimmed(params@) != ""@ && trimmed(params@) != "{}"@ ==> r is Err && r->Err_0@
            == "clips takes no params, got: "@ + trimmed(params@),
{
    let given = trim(params);
    if same(given, "") || same(given, "{}") {
        Ok(())
    } else {
        let mut message = String::from_str("clips takes no params, got: ");
        message.append(given);
        Err(message)
    }
}

impl<T> Opened<T> {
    /// The stream a format opens, or the first thing wrong with it: params
    /// where there are none, samples in place of pictures, or a pixel format
    /// that is not read.
    pub fn init(format: &Format, time_base: Rational, params: &str) -> (r: Result<
        Opened<T>,
        String,
    >)
        ensures
            ({
                let given = trimmed(params@);
                if given != ""@ && given != "{}"@ {
                    r is Err && r->Err_0@ == "clips takes no params, got: "@ + given
                } else {
                    match format {
                        Format::Audio(_) => r is Err && r->Err_0@
                            == "clips reads pictures, and this stream is audio"@,
                        Format::Video(video) => match PixFmt::named(video.pix_fmt@) {
                            None => r is Err && r->Err_0@ == "clips does not accept pixel format "@
                                + video.pix_fmt@,
                            Some(pix_fmt) => {
                                &&& r is Ok
                                &&& r->Ok_0.wf()
                                &&& r->Ok_0.width == video.width
                                &&& r->Ok_0.height == video.height
                                &&& r->Ok_0.pix_fmt == pix_fmt
                                &&& r->Ok_0.time_base == time_base
                                &&& r->Ok_0.current_shot is None
                                &&& r->Ok_0.newest@.len() == 0
                                &&& r->Ok_0.segment is None
                            },
                        },
                    }
                }
            }),
    {
        match validate_params(params) {
            Err(message) => {
                return Err(message);
            },
            Ok(_) => {},
        }
        match format {
            Format::Audio(_) => Err(
                String::from_str("clips reads pictures, and this stream is audio"),
            ),
            Format::Video(video) => match PixFmt::parse(video.pix_fmt.as_str()) {
                Err(message) => Err(message),
                Ok(pix_fmt) => Ok(
                    Opened {
                        width: video.width as usize,
                        height: video.height as usize,
                        pix_fmt,
                        time_base,
                        current_shot: None,
                        newest: Vec::new(),
                        segment: None,
                    },
                ),
            },
        }
    }
}

/// What the module says of itself.
pub fn describe() -> (meta: WindowMeta)
    ensures
        meta.meta.name@ == "clips"@,
        meta.meta.version@ == "0.1.0"@,
        meta.meta.params_schema@ == PARAMS_SCHEMA@,
        meta.meta.rows_schema@ == ROWS_SCHEMA@,
        texts_of(meta.meta.pixel_formats@) == seq!["yuv420p"@, "rgba"@],
        meta.meta.sample_formats@.len() == 0,
        meta.meta.sample_rates@.len() == 0,
        meta.meta.channel_counts@.len() == 0,
        meta.meta.rows_language@.len() == 0,
        meta.window == 1,
        meta.stride == 1,
        !meta.pure,
        meta.one_to_one,
        meta.reads_rows,
        !meta.forwards_rows,
        meta.inputs == 1,
{
    let mut pixel_formats: Vec<String> = Vec::new();
    pixel_formats.push(String::from_str("yuv420p"));
    pixel_formats.push(String::from_str("rgba"));
    assert(texts_of(pixel_formats@) =~= seq!["yuv420p"@, "rgba"@]);
    WindowMeta {
        meta: Meta {
            name: String::from_str("clips"),
            version: String::from_str("0.1.0"),
            params_schema: String::from_str(PARAMS_SCHEMA),
            rows_schema: String::from_str(ROWS_SCHEMA),
            pixel_formats,
            // Not an audio module, so it names no sample formats.
            sample_formats: Vec::new(),
            sample_rates: Vec::new(),
            channel_counts: Vec::new(),
            rows_language: Vec::new(),
        },
        window: 1,
        stride: 1,
        // The reservoir and the running shot value carry over between calls.
        pure: false,
        one_to_one: true,
        // The shot bounds come from rows a module upstream produced.
        reads_rows: true,
        // What leaves a frame is this module's vectors and nothing else.
        forwards_rows: false,
        // One stream in, which is every module here.
        inputs: 1,
    }
}

/// What the tower is fed for one clip: eight frames of three planes, as the
/// bit patterns of their floats.
pub fn feed(input: &[u32]) -> (feed: Feed)
    ensures
        feed.name@ == "pixel_values"@,
        feed.dims@ == seq![1u32, 8, 3, 224, 224],
        feed.ty == TensorType::Fp32,
        feed.data@ == bytes_of(input@),
{
    let mut dims: Vec<u32> = Vec::new();
    dims.push(1);
    dims.push(8);
    dims.push(3);
    dims.push(224);
    dims.push(224);
    assert(dims@ =~= seq![1u32, 8, 3, 224, 224]);
    Feed { name: String::from_str(INPUT_NAME), dims, ty: TensorType::Fp32, data: le_bytes(input) }
}

/// The named tensor out of what a compute answered, checked against the
/// length the export's shape fixes: its floats' bit patterns, or an error
/// that names what came instead.
pub fn take(outputs: &Vec<(String, Vec<u8>)>) -> (r: Result<Vec<u32>, String>)
    ensures
        match first_named(names_of(outputs@), OUTPUT_NAME@) {
            None => r is Err && r->Err_0@ == "clips: the graph answered without "@ + quoted_of(
                OUTPUT_NAME@,
            ) + " (unclaimed: "@ + listed_of(names_of(outputs@))
                + "); this module wants X-CLIP's video tower export"@,
            Some(i) => {
                let values = words_of(outputs@[i].1@);
                if values.len() == EMBEDDING {
                    r is Ok && r->Ok_0@ == values
                } else {
                    r is Err && r->Err_0@ == "clips: "@ + OUTPUT_NAME@ + " came back as "@
                        + decimal_of(values.len()) + " floats where the tower's shape fixes "@
                        + decimal_of(EMBEDDING as nat)
                }
            },
        },
{
    match find(outputs, OUTPUT_NAME) {
        None => {
            let mut message = String::from_str("clips: the graph answered without ");
            message.append(quoted(OUTPUT_NAME).as_str());
            message.append(" (unclaimed: ");
            message.append(listed(outputs).as_str());
            message.append("); this module wants X-CLIP's video tower export");
            Err(message)
        },
        Some(i) => {
            let values = le_f32s(outputs[i].1.as_slice());
            if values.len() == EMBEDDING {
                Ok(values)
            } else {
                let mut message = String::from_str("clips: ");
                message.append(OUTPUT_NAME);
                message.append(" came back as ");
                message.append(decimal(values.len() as u64).as_str());
                message.append(" floats where the tower's shape fixes ");
                message.append(decimal(EMBEDDING as u64).as_str());
                Err(message)
            }
        },
    }
}

/// Closing takes the stretch off a stream and nothing else: the value that
/// runs, the newest frame and the settings stay, and the clip has the
/// stretch's own bounds.
pub proof fn law_closing_takes_the_stretch_alone<T>(
    made: Making<T>,
    opened: Opened<T>,
    clip: Clip<T>,
    after: Opened<T>,
)
    requires
        opened.idled(after),
        opened.closes_with(made, clip),
    ensures
        after.segment is None,
        after.current_shot == opened.current_shot,
        after.newest@ == opened.newest@,
        after.width == opened.width,
        after.height == opened.height,
        after.pix_fmt == opened.pix_fmt,
        after.time_base == opened.time_base,
        opened.segment matches Some(s) && clip.start_pts == s.start_pts && clip.last_pts
            == s.last_pts,
{
}

/// A frame is taken where it has its bytes and neither side is missing or too
/// long to be resized, and nowhere else. An rgba pixel has four bytes; of a
/// yuv420p picture each pixel has one and each block of two by two another
/// two.
pub proof fn law_a_frame_is_taken_where_it_has_its_bytes<T>(opened: Opened<T>, frame: Seq<u8>)
    requires
        224 * opened.width <= usize::MAX,
        224 * opened.height <= usize::MAX,
        224 * opened.width <= 0x4000_0000_0000_0000,
        224 * opened.height <= 0x4000_0000_0000_0000,
    ensures
        opened.fits(frame) <==> opened.width > 0 && opened.height > 0 && frame.len() >= if opened.pix_fmt
            is Rgba {
            4 * (opened.width * opened.height)
        } else {
            opened.width * opened.height + 2 * ((opened.width + 1) / 2 * ((opened.height + 1) / 2))
        },
{
}

/// The pace that is foretold of frames is the one they go at: it begins and
/// closes stretches where the stream itself does.
pub proof fn law_the_pace_is_the_streams_own<T>(
    made: Making<T>,
    frames: Seq<InFrame>,
    out: Seq<OutFrame<T>>,
    states: Seq<Opened<T>>,
    i: int,
)
    requires
        ran(made, frames, out, states),
        0 <= i <= frames.len(),
    ensures
        ({
            let pace = states.first().pace().after(states.first().time_base, frames, i);
            &&& pace.shot == states[i].current_shot
            &&& pace.start is Some == states[i].segment is Some
            &&& states[i].segment matches Some(s) ==> pace.start == Some(s.start_pts) && pace.count
                == s.frames.count()
            &&& i < frames.len() ==> pace.ends(states.first().time_base, frames[i])
                == out[i].clip is Some
        }),
        states[i].time_base == states.first().time_base,
    decreases i,
{
    if i > 0 {
        law_the_pace_is_the_streams_own(made, frames, out, states, i - 1);
        assert(out[i - 1].pts == frames[i - 1].pts);
    }
    if i < frames.len() {
        assert(out[i].pts == frames[i].pts);
    }
}

/// What is asked of frames is asked only of those that are read. A frame that
/// its stretch does not keep, that ends no stretch by being its last, may be
/// anything: with other bytes in it, a call takes its frames just as well.
pub proof fn law_a_frame_that_is_not_read_may_be_anything<T>(
    opened: Opened<T>,
    takes: spec_fn(Seq<u8>) -> bool,
    frames: Seq<InFrame>,
    others: Seq<InFrame>,
    last: bool,
    i: int,
)
    requires
        others.len() == frames.len(),
        0 <= i < frames.len(),
        forall|j: int|
            0 <= j < frames.len() ==> (#[trigger] others[j]).pts == frames[j].pts && others[j].shots@
                == frames[j].shots@ && (j != i ==> others[j].frame@ == frames[j].frame@),
        ({
            let count = opened.pace().after(opened.time_base, frames, i + 1).count;
            &&& (count - 1) % (stride_of((count - 1) as nat) as int) != 0
            &&& i + 1 < frames.len() ==> !opened.pace().after(
                opened.time_base,
                frames,
                i + 1,
            ).ends(opened.time_base, frames[i + 1])
            &&& i + 1 == frames.len() ==> !last
        }),
    ensures
        opened.takes_all(takes, others, last) == opened.takes_all(takes, frames, last),
{
    let (pace, base) = (opened.pace(), opened.time_base);
    assert forall|j: int| 0 <= j <= frames.len() implies #[trigger] pace.after(base, others, j)
        == pace.after(base, frames, j) by {
        lemma_pace_of_alike(pace, base, frames, others, j);
    }
    assert forall|j: int| 0 <= j < frames.len() implies pace.reads(base, others, last, j)
        == pace.reads(base, frames, last, j) by {
        lemma_reads_alike(pace, base, frames, others, last, j + 1);
        assert(pace.after(base, others, j + 1) == pace.after(base, frames, j + 1));
    }
    lemma_reads_alike(pace, base, frames, others, last, 0);
    assert(!pace.reads(base, frames, last, i));
    assert forall|j: int| 0 <= j < frames.len() && j != i implies (#[trigger] others[j]).frame@
        == frames[j].frame@ by {}
    if opened.takes_all(takes, frames, last) {
        assert forall|j: int| 0 <= j < others.len() && pace.reads(base, others, last, j) implies takes(
            (#[trigger] others[j]).frame@,
        ) by {
            assert(takes(frames[j].frame@));
        }
    }
    if opened.takes_all(takes, others, last) {
        assert forall|j: int| 0 <= j < frames.len() && pace.reads(base, frames, last, j) implies takes(
            (#[trigger] frames[j]).frame@,
        ) by {
            assert(takes(others[j].frame@));
        }
    }
}

proof fn lemma_pace_of_alike(
    pace: Pace,
    base: Rational,
    frames: Seq<InFrame>,
    others: Seq<InFrame>,
    j: int,
)
    requires
        others.len() == frames.len(),
        0 <= j <= frames.len(),
        forall|j: int|
            0 <= j < frames.len() ==> (#[trigger] others[j]).pts == frames[j].pts && others[j].shots@
                == frames[j].shots@,
    ensures
        pace.after(base, others, j) == pace.after(base, frames, j),
    decreases j,
{
    if j > 0 {
        lemma_pace_of_alike(pace, base, frames, others, j - 1);
        assert(others[j - 1].pts == frames[j - 1].pts);
    }
}

proof fn lemma_reads_alike(
    pace: Pace,
    base: Rational,
    frames: Seq<InFrame>,
    others: Seq<InFrame>,
    last: bool,
    j: int,
)
    requires
        others.len() == frames.len(),
        0 <= j <= frames.len(),
        forall|j: int|
            0 <= j < frames.len() ==> (#[trigger] others[j]).pts == frames[j].pts && others[j].shots@
                == frames[j].shots@,
    ensures
        pace.closes_on_newest(base, others, last, j) == pace.closes_on_newest(
            base,
            frames,
            last,
            j,
        ),
{
    lemma_pace_of_alike(pace, base, frames, others, j);
    if j < frames.len() {
        assert(others[j].pts == frames[j].pts);
    }
}

} // verus!
