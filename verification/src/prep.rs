//! One frame turned into the tensor the video tower takes: the short side
//! resized to 224, a 224x224 centre crop out of that, and the normalization
//! the checkpoint was trained with.
//!
//! The resize is antialiased bilinear: a triangle filter whose support widens
//! with the reduction, so a frame shrunk five-fold averages the pixels it
//! passes over rather than sampling one in five. Which pixels each output
//! sample mixes, and in what proportion, is decided here in whole numbers;
//! the arithmetic on the samples themselves is handed in, so that the
//! element type of a tensor is the caller's.

use crate::text::same;
use vstd::prelude::*;

verus! {

/// The side of the square the tower is exported at.
pub const SIDE: usize = 224;

/// What the short side is resized to before the crop. Equal to `SIDE` here,
/// and the two are different quantities.
pub const SHORT_EDGE: usize = 224;

/// One plane of a frame's tensor: `SIDE`x`SIDE`.
pub const PLANE: usize = 50_176;

/// One frame's tensor: three planes.
pub const TENSOR: usize = 150_528;

/// The pixel format an instance was opened for, fixed for its life.
#[derive(Clone, Copy, PartialEq, Eq, Debug)]
pub enum PixFmt {
    Yuv420p,
    Rgba,
}

impl PixFmt {
    /// The format a name stands for.
    pub open spec fn named(name: Seq<char>) -> Option<PixFmt> {
        if name == "yuv420p"@ {
            Some(PixFmt::Yuv420p)
        } else if name == "rgba"@ {
            Some(PixFmt::Rgba)
        } else {
            None
        }
    }

    /// The format the host named, or an error naming what it was.
    pub fn parse(named: &str) -> (r: Result<PixFmt, String>)
        ensures
            match PixFmt::named(named@) {
                Some(fmt) => r == Ok::<PixFmt, String>(fmt),
                None => r is Err && r->Err_0@ == "clips does not accept pixel format "@ + named@,
            },
    {
        if same(named, "yuv420p") {
            Ok(PixFmt::Yuv420p)
        } else if same(named, "rgba") {
            Ok(PixFmt::Rgba)
        } else {
            let mut message = String::from_str("clips does not accept pixel format ");
            message.append(named);
            Err(message)
        }
    }
}

/// How long the long side of a frame is once its short side is `SHORT_EDGE`:
/// the shape kept, truncated, at least one and at most what a size can hold.
pub open spec fn resized_long(short: nat, long: nat) -> nat {
    if short == 0 {
        if long == 0 {
            1
        } else {
            usize::MAX as nat
        }
    } else {
        let exact = SHORT_EDGE as nat * long / short;
        if exact < 1 {
            1
        } else if exact > usize::MAX {
            usize::MAX as nat
        } else {
            exact
        }
    }
}

/// The size a frame is resized to, as (height, width).
pub open spec fn resized_of(width: nat, height: nat) -> (nat, nat) {
    if width <= height {
        (resized_long(width, height), SHORT_EDGE as nat)
    } else {
        (SHORT_EDGE as nat, resized_long(height, width))
    }
}

/// The size the short-side resize lands on, as (height, width). The short
/// side becomes `SHORT_EDGE` and the long one keeps the shape, truncated.
pub fn resized_size(width: usize, height: usize) -> (r: (usize, usize))
    ensures
        (r.0 as nat, r.1 as nat) == resized_of(width as nat, height as nat),
{
    let (short, long): (usize, usize) = if width <= height {
        (width, height)
    } else {
        (height, width)
    };
    let new_long: usize = if short == 0 {
        if long == 0 {
            1
        } else {
            usize::MAX
        }
    } else {
        let exact: u128 = 224 * (long as u128) / (short as u128);
        if exact < 1 {
            1
        } else if exact > usize::MAX as u128 {
            usize::MAX
        } else {
            exact as usize
        }
    };
    if width <= height {
        (new_long, SHORT_EDGE)
    } else {
        (SHORT_EDGE, new_long)
    }
}

/// The resized picture keeps the frame's shape to within one truncated step,
/// and neither side falls short of the crop.
pub proof fn law_the_resize_keeps_the_shape(width: nat, height: nat)
    requires
        0 < width,
        0 < height,
        SHORT_EDGE * width <= usize::MAX,
        SHORT_EDGE * height <= usize::MAX,
    ensures
        ({
            let (h, w) = resized_of(width, height);
            &&& h >= SIDE && w >= SIDE
            &&& h == SHORT_EDGE || w == SHORT_EDGE
            &&& width <= height ==> h * width <= SHORT_EDGE * height < (h + 1) * width
            &&& width > height ==> w * height <= SHORT_EDGE * width < (w + 1) * height
        }),
{
    let (short, long) = if width <= height {
        (width, height)
    } else {
        (height, width)
    };
    lemma_resized_long(short, long);
}

proof fn lemma_resized_long(short: nat, long: nat)
    requires
        0 < short <= long,
        SHORT_EDGE * long <= usize::MAX,
    ensures
        resized_long(short, long) >= SIDE,
        resized_long(short, long) * short <= SHORT_EDGE * long < (resized_long(short, long) + 1)
            * short,
{
    let q = SHORT_EDGE as nat * long / short;
    let p = SHORT_EDGE as nat * long;
    assert(q >= 224 && q * short <= p < (q + 1) * short && q <= p) by (nonlinear_arith)
        requires
            q == p / short,
            p == 224 * long,
            0 < short <= long,
    ;
}

/// The longest axis the resize is laid out for. No frame in memory has a
/// longer one.
pub const LONGEST: u64 = 0x4000_0000_0000_0000;

/// Twice the filter's reach, in units of one over twice the output size: the
/// reduction when shrinking, one sample when growing.
pub open spec fn reach(out_size: int, in_size: int) -> int {
    if in_size >= out_size {
        2 * in_size
    } else {
        2 * out_size
    }
}

/// How far input sample `j` lies from the centre of output sample `i`, in
/// units of one over twice the output size.
pub open spec fn apart(out_size: int, in_size: int, i: int, j: int) -> int {
    let d = (2 * j + 1) * out_size - (2 * i + 1) * in_size;
    if d < 0 {
        -d
    } else {
        d
    }
}

/// The triangle filter: full weight at the centre, none at the reach, and in
/// between by distance. In units of one over the reach.
pub open spec fn weight(out_size: int, in_size: int, i: int, j: int) -> int {
    if apart(out_size, in_size, i, j) < reach(out_size, in_size) {
        reach(out_size, in_size) - apart(out_size, in_size, i, j)
    } else {
        0
    }
}

/// The first input sample output sample `i` reads.
pub open spec fn tap_start(out_size: int, in_size: int, i: int) -> int {
    let at = ((2 * i + 1) * in_size - reach(out_size, in_size) + out_size) / (2 * out_size);
    if at < 0 {
        0
    } else {
        at
    }
}

/// One past the last input sample output sample `i` reads.
pub open spec fn tap_end(out_size: int, in_size: int, i: int) -> int {
    let at = ((2 * i + 1) * in_size + reach(out_size, in_size) + out_size) / (2 * out_size);
    if at > in_size {
        in_size
    } else {
        at
    }
}

/// The taps and weights one output sample of an antialiased resize reads.
/// `start` is the first input sample, `weights` the run beginning there, each
/// in proportion to the others.
pub struct Tap {
    pub start: usize,
    pub weights: Vec<u64>,
}

/// Whether a tap is the one of output sample `i`.
pub open spec fn is_tap(tap: Tap, out_size: int, in_size: int, i: int) -> bool {
    &&& tap.start == tap_start(out_size, in_size, i)
    &&& tap.weights@.len() == tap_end(out_size, in_size, i) - tap.start
    &&& forall|k: int|
        0 <= k < tap.weights@.len() ==> #[trigger] tap.weights@[k] == weight(
            out_size,
            in_size,
            i,
            tap.start + k,
        )
}

/// Where the run of an output sample lies.
proof fn lemma_tap_run(out_size: int, in_size: int, i: int)
    requires
        0 <= i < out_size,
        0 <= in_size,
    ensures
        0 <= tap_start(out_size, in_size, i) <= tap_end(out_size, in_size, i) <= in_size,
        in_size > 0 ==> tap_start(out_size, in_size, i) < tap_end(out_size, in_size, i),
{
    let r = reach(out_size, in_size);
    let c = (2 * i + 1) * in_size;
    let m = c / (2 * out_size);
    assert(0 <= c < 2 * out_size * in_size || in_size == 0) by (nonlinear_arith)
        requires
            c == (2 * i + 1) * in_size,
            0 <= i < out_size,
            0 <= in_size,
    ;
    assert(0 <= m && (in_size > 0 ==> m < in_size)) by (nonlinear_arith)
        requires
            m == c / (2 * out_size),
            0 < out_size,
            0 <= in_size,
            0 <= c,
            in_size > 0 ==> c < 2 * out_size * in_size,
    ;
    let a = (c - r + out_size) / (2 * out_size);
    let b = (c + r + out_size) / (2 * out_size);
    assert(a <= m && m + 1 <= b) by (nonlinear_arith)
        requires
            m == c / (2 * out_size),
            a == (c - r + out_size) / (2 * out_size),
            b == (c + r + out_size) / (2 * out_size),
            r >= 2 * out_size,
            out_size > 0,
    ;
}

/// One axis of the resize: which input samples each output sample mixes, and
/// in what proportion. The triangle filter's support is the reduction factor
/// when shrinking and one sample when growing, so shrinking averages and
/// growing interpolates.
pub fn taps(out_size: usize, in_size: usize) -> (axis: Vec<Tap>)
    requires
        out_size <= LONGEST,
        in_size <= LONGEST,
    ensures
        axis@.len() == out_size,
        forall|i: int|
            0 <= i < out_size ==> is_tap(
                #[trigger] axis@[i],
                out_size as int,
                in_size as int,
                i,
            ),
{
    let out: i128 = out_size as i128;
    let inn: i128 = in_size as i128;
    let r: i128 = if in_size >= out_size {
        2 * inn
    } else {
        2 * out
    };
    let mut axis: Vec<Tap> = Vec::new();
    let mut i: usize = 0;
    while i < out_size
        invariant
            i <= out_size,
            out_size <= LONGEST,
            in_size <= LONGEST,
            out == out_size,
            inn == in_size,
            r == reach(out_size as int, in_size as int),
            axis@.len() == i,
            forall|k: int|
                0 <= k < i ==> is_tap(#[trigger] axis@[k], out_size as int, in_size as int, k),
        decreases out_size - i,
    {
        proof {
            lemma_tap_run(out_size as int, in_size as int, i as int);
            lemma_product_fits(i as int, out_size as int, in_size as int);
        }
        let centre: i128 = (2 * (i as i128) + 1) * inn;
        let low: i128 = centre - r + out;
        let start: usize = if low < 0 {
            0
        } else {
            (low / (2 * out)) as usize
        };
        let high: i128 = (centre + r + out) / (2 * out);
        let end: usize = if high > inn {
            in_size
        } else {
            high as usize
        };
        proof {
            if low < 0 {
                assert((low as int) / (2 * (out as int)) < 0) by (nonlinear_arith)
                    requires
                        low < 0,
                        out > 0,
                ;
            }
            assert(start == tap_start(out_size as int, in_size as int, i as int));
            assert(end == tap_end(out_size as int, in_size as int, i as int));
        }
        let mut weights: Vec<u64> = Vec::new();
        let mut j: usize = start;
        while j < end
            invariant
                start <= j <= end,
                end <= in_size,
                i < out_size,
                out_size <= LONGEST,
                in_size <= LONGEST,
                out == out_size,
                inn == in_size,
                r == reach(out_size as int, in_size as int),
                centre == (2 * i + 1) * in_size,
                0 <= centre <= 0x2000_0000_0000_0000_0000_0000_0000_0000,
                weights@.len() == j - start,
                forall|k: int|
                    0 <= k < weights@.len() ==> #[trigger] weights@[k] == weight(
                        out_size as int,
                        in_size as int,
                        i as int,
                        start + k,
                    ),
            decreases end - j,
        {
            proof {
                lemma_product_fits(j as int, in_size as int, out_size as int);
            }
            let d: i128 = (2 * (j as i128) + 1) * out - centre;
            let apart: i128 = if d < 0 {
                -d
            } else {
                d
            };
            let w: u64 = if apart < r {
                (r - apart) as u64
            } else {
                0
            };
            weights.push(w);
            j = j + 1;
        }
        axis.push(Tap { start, weights });
        i = i + 1;
    }
    axis
}

proof fn lemma_product_fits(i: int, n: int, m: int)
    by (nonlinear_arith)
    requires
        0 <= i < n,
        n <= 0x4000_0000_0000_0000,
        0 <= m <= 0x4000_0000_0000_0000,
    ensures
        0 <= (2 * i + 1) * m <= 0x2000_0000_0000_0000_0000_0000_0000_0000,
{
    assert((2 * i + 1) * m <= 0x8000_0000_0000_0000 * 0x4000_0000_0000_0000);
}

/// Every input sample an output sample gives weight to lies in its run.
pub proof fn law_the_run_holds_every_weight(out_size: int, in_size: int, i: int, j: int)
    requires
        0 <= i < out_size,
        0 <= j < in_size,
        weight(out_size, in_size, i, j) > 0,
    ensures
        tap_start(out_size, in_size, i) <= j < tap_end(out_size, in_size, i),
{
    let r = reach(out_size, in_size);
    let c = (2 * i + 1) * in_size;
    let p = (2 * j + 1) * out_size;
    assert(-r < p - c < r);
    let a = (c - r + out_size) / (2 * out_size);
    let b = (c + r + out_size) / (2 * out_size);
    assert(a <= j && j < b) by (nonlinear_arith)
        requires
            a == (c - r + out_size) / (2 * out_size),
            b == (c + r + out_size) / (2 * out_size),
            p == (2 * j + 1) * out_size,
            -r < p - c < r,
            out_size > 0,
            j >= 0,
    ;
}

/// Every output sample gives weight to some input sample, so its weights can
/// always be scaled to sum to one.
pub proof fn law_every_output_reads_something(out_size: int, in_size: int, i: int)
    requires
        0 <= i < out_size,
        0 < in_size,
    ensures
        exists|j: int| 0 <= j < in_size && #[trigger] weight(out_size, in_size, i, j) > 0,
{
    let c = (2 * i + 1) * in_size;
    let j = c / (2 * out_size);
    assert(0 <= c < 2 * out_size * in_size) by (nonlinear_arith)
        requires
            c == (2 * i + 1) * in_size,
            0 <= i < out_size,
            0 < in_size,
    ;
    assert(0 <= j < in_size && -out_size <= (2 * j + 1) * out_size - c <= out_size)
        by (nonlinear_arith)
        requires
            j == c / (2 * out_size),
            0 < out_size,
            0 <= c < 2 * out_size * in_size,
    ;
    assert(weight(out_size, in_size, i, j) > 0);
}

/// Every input sample is given weight by some output sample: a resize passes
/// over nothing.
pub proof fn law_every_input_is_read(out_size: int, in_size: int, j: int)
    requires
        0 < out_size,
        0 <= j < in_size,
    ensures
        exists|i: int| 0 <= i < out_size && #[trigger] weight(out_size, in_size, i, j) > 0,
{
    let p = (2 * j + 1) * out_size;
    let i = p / (2 * in_size);
    assert(0 <= p < 2 * in_size * out_size) by (nonlinear_arith)
        requires
            p == (2 * j + 1) * out_size,
            0 <= j < in_size,
            0 < out_size,
    ;
    assert(0 <= i < out_size && -in_size <= p - (2 * i + 1) * in_size <= in_size)
        by (nonlinear_arith)
        requires
            i == p / (2 * in_size),
            0 < in_size,
            0 <= p < 2 * in_size * out_size,
    ;
    assert(weight(out_size, in_size, i, j) > 0);
}

/// An axis that is not resized takes each sample whole: full weight where the
/// two agree and none anywhere else.
pub proof fn law_an_identity_resize_reads_each_sample_whole(size: int, i: int, j: int)
    requires
        0 <= i < size,
        0 <= j < size,
    ensures
        i == j ==> weight(size, size, i, j) == reach(size, size),
        i != j ==> weight(size, size, i, j) == 0,
{
    let d = (2 * j + 1) * size - (2 * i + 1) * size;
    assert(d == 2 * (j - i) * size) by (nonlinear_arith)
        requires
            d == (2 * j + 1) * size - (2 * i + 1) * size,
    ;
    if i < j {
        assert(d >= 2 * size) by (nonlinear_arith)
            requires
                d == 2 * (j - i) * size,
                j - i >= 1,
                size > 0,
        ;
    } else if j < i {
        assert(d <= -2 * size) by (nonlinear_arith)
            requires
                d == 2 * (j - i) * size,
                j - i <= -1,
                size > 0,
        ;
    }
}

/// Half of a side, rounded up: the side of a chroma plane.
pub open spec fn half(side: int) -> int {
    (side + 1) / 2
}

/// How many bytes a frame takes.
pub open spec fn frame_bytes(pix_fmt: PixFmt, width: int, height: int) -> int {
    match pix_fmt {
        PixFmt::Rgba => width * height * 4,
        PixFmt::Yuv420p => width * height + 2 * (half(width) * half(height)),
    }
}

/// The three bytes that colour the pixel at column `x` of row `y`: red, green
/// and blue, or luma and the two chroma samples of the 2x2 block it is in.
pub open spec fn pixel_of(
    frame: Seq<u8>,
    pix_fmt: PixFmt,
    width: int,
    height: int,
    x: int,
    y: int,
) -> (u8, u8, u8) {
    match pix_fmt {
        PixFmt::Rgba => {
            let base = (y * width + x) * 4;
            (frame[base], frame[base + 1], frame[base + 2])
        },
        PixFmt::Yuv420p => {
            let block = y / 2 * half(width) + x / 2;
            (
                frame[y * width + x],
                frame[width * height + block],
                frame[width * height + half(width) * half(height) + block],
            )
        },
    }
}

proof fn lemma_index_in_plane(x: int, y: int, width: int, height: int)
    by (nonlinear_arith)
    requires
        0 <= x < width,
        0 <= y < height,
    ensures
        0 <= y * width,
        0 <= y * width + x < width * height,
{
}

/// The three bytes that colour one pixel.
pub fn pixel(
    frame: &[u8],
    pix_fmt: PixFmt,
    width: usize,
    height: usize,
    x: usize,
    y: usize,
) -> (bytes: (u8, u8, u8))
    requires
        x < width,
        y < height,
        frame_bytes(pix_fmt, width as int, height as int) <= frame@.len(),
    ensures
        bytes == pixel_of(frame@, pix_fmt, width as int, height as int, x as int, y as int),
{
    let len: usize = frame.len();
    proof {
        lemma_index_in_plane(x as int, y as int, width as int, height as int);
    }
    match pix_fmt {
        PixFmt::Rgba => {
            let base: usize = (y * width + x) * 4;
            (frame[base], frame[base + 1], frame[base + 2])
        },
        PixFmt::Yuv420p => {
            let cw: usize = width / 2 + width % 2;
            let ch: usize = height / 2 + height % 2;
            proof {
                assert(cw == half(width as int) && ch == half(height as int));
                lemma_index_in_plane(x as int / 2, y as int / 2, cw as int, ch as int);
            }
            let block: usize = y / 2 * cw + x / 2;
            let pixels: usize = width * height;
            (frame[y * width + x], frame[pixels + block], frame[pixels + cw * ch + block])
        },
    }
}

/// Whether three planes, each a sequence of rows, are a frame's colours.
pub open spec fn coloured<T, C: Fn(PixFmt, u8, u8, u8) -> (T, T, T)>(
    colour: C,
    frame: Seq<u8>,
    pix_fmt: PixFmt,
    width: int,
    height: int,
    rgb: Seq<Seq<Seq<T>>>,
) -> bool {
    &&& rgb.len() == 3
    &&& forall|c: int| 0 <= c < 3 ==> (#[trigger] rgb[c]).len() == height
    &&& forall|y: int|
        0 <= y < height ==> row_coloured(
            colour,
            frame,
            pix_fmt,
            width,
            height,
            y,
            #[trigger] rgb[0][y],
            rgb[1][y],
            rgb[2][y],
        )
}

/// Whether three rows are one frame row's red, green and blue.
pub open spec fn row_coloured<T, C: Fn(PixFmt, u8, u8, u8) -> (T, T, T)>(
    colour: C,
    frame: Seq<u8>,
    pix_fmt: PixFmt,
    width: int,
    height: int,
    y: int,
    red: Seq<T>,
    green: Seq<T>,
    blue: Seq<T>,
) -> bool {
    &&& red.len() == width
    &&& green.len() == width
    &&& blue.len() == width
    &&& forall|x: int|
        0 <= x < width ==> {
            let p = pixel_of(frame, pix_fmt, width, height, x, y);
            call_ensures(
                colour,
                (pix_fmt, p.0, p.1, p.2),
                (#[trigger] red[x], green[x], blue[x]),
            )
        }
}

/// One frame row as red, green and blue, a channel at a time so each is
/// contiguous. `colour` makes the three out of a pixel's bytes.
pub fn row_to_rgb<T, C: Fn(PixFmt, u8, u8, u8) -> (T, T, T)>(
    frame: &[u8],
    pix_fmt: PixFmt,
    width: usize,
    height: usize,
    y: usize,
    colour: &C,
) -> (row: (Vec<T>, Vec<T>, Vec<T>))
    requires
        y < height,
        frame_bytes(pix_fmt, width as int, height as int) <= frame@.len(),
        forall|a: u8, b: u8, c: u8| call_requires(*colour, (pix_fmt, a, b, c)),
    ensures
        row_coloured(
            *colour,
            frame@,
            pix_fmt,
            width as int,
            height as int,
            y as int,
            row.0@,
            row.1@,
            row.2@,
        ),
{
    let mut red: Vec<T> = Vec::new();
    let mut green: Vec<T> = Vec::new();
    let mut blue: Vec<T> = Vec::new();
    let mut x: usize = 0;
    while x < width
        invariant
            x <= width,
            y < height,
            frame_bytes(pix_fmt, width as int, height as int) <= frame@.len(),
            forall|a: u8, b: u8, c: u8| call_requires(*colour, (pix_fmt, a, b, c)),
            red@.len() == x,
            green@.len() == x,
            blue@.len() == x,
            forall|k: int|
                0 <= k < x ==> {
                    let p = pixel_of(frame@, pix_fmt, width as int, height as int, k, y as int);
                    call_ensures(
                        *colour,
                        (pix_fmt, p.0, p.1, p.2),
                        (#[trigger] red@[k], green@[k], blue@[k]),
                    )
                },
        decreases width - x,
    {
        let bytes = pixel(frame, pix_fmt, width, height, x, y);
        let (r, g, b) = colour(pix_fmt, bytes.0, bytes.1, bytes.2);
        red.push(r);
        green.push(g);
        blue.push(b);
        x = x + 1;
    }
    (red, green, blue)
}

/// The weights of one output sample's run.
pub open spec fn tap_weights(out_size: int, in_size: int, i: int) -> Seq<u64> {
    Seq::new(
        (tap_end(out_size, in_size, i) - tap_start(out_size, in_size, i)) as nat,
        |k: int| weight(out_size, in_size, i, tap_start(out_size, in_size, i) + k) as u64,
    )
}

/// Whether `mix` makes `sample` of a run of samples and their weights.
pub open spec fn mixes<T, M: Fn(&Vec<T>, &Vec<u64>) -> T>(
    mix: M,
    run: Seq<T>,
    weights: Seq<u64>,
    sample: T,
) -> bool {
    exists|s: Vec<T>, w: Vec<u64>|
        #![trigger call_ensures(mix, (&s, &w), sample)]
        s@ == run && w@ == weights && call_ensures(mix, (&s, &w), sample)
}

/// Whether `wide` is `row` resized to `out_size` samples.
pub open spec fn row_widened<T, M: Fn(&Vec<T>, &Vec<u64>) -> T>(
    mix: M,
    row: Seq<T>,
    out_size: int,
    wide: Seq<T>,
) -> bool {
    let in_size = row.len() as int;
    &&& wide.len() == out_size
    &&& forall|x: int|
        0 <= x < out_size ==> mixes(
            mix,
            row.subrange(tap_start(out_size, in_size, x), tap_end(out_size, in_size, x)),
            tap_weights(out_size, in_size, x),
            #[trigger] wide[x],
        )
}

/// Whether each row of `wide` is that row of `rgb` resized to `out_w`.
pub open spec fn widened<T, M: Fn(&Vec<T>, &Vec<u64>) -> T>(
    mix: M,
    rgb: Seq<Seq<Seq<T>>>,
    out_w: int,
    wide: Seq<Seq<Seq<T>>>,
) -> bool {
    &&& wide.len() == rgb.len()
    &&& forall|c: int| 0 <= c < rgb.len() ==> (#[trigger] wide[c]).len() == rgb[c].len()
    &&& forall|c: int, y: int|
        0 <= c < rgb.len() && 0 <= y < rgb[c].len() ==> row_widened(
            mix,
            rgb[c][y],
            out_w,
            #[trigger] wide[c][y],
        )
}

/// One column of a plane, from one row to another.
pub open spec fn column_of<T>(plane: Seq<Seq<T>>, from: int, to: int, column: int) -> Seq<T> {
    Seq::new((to - from) as nat, |k: int| plane[from + k][column])
}

/// Whether `finish` makes `sample` of what `mix` makes of one column of a
/// plane, resized to `out_h` rows, at row `row`.
pub open spec fn finished<T, M: Fn(&Vec<T>, &Vec<u64>) -> T, F: Fn(usize, T) -> T>(
    mix: M,
    finish: F,
    plane: Seq<Seq<T>>,
    out_h: int,
    channel: usize,
    row: int,
    column: int,
    sample: T,
) -> bool {
    let in_h = plane.len() as int;
    exists|mixed: T|
        #![trigger call_ensures(finish, (channel, mixed), sample)]
        call_ensures(finish, (channel, mixed), sample) && mixes(
            mix,
            column_of(plane, tap_start(out_h, in_h, row), tap_end(out_h, in_h, row), column),
            tap_weights(out_h, in_h, row),
            mixed,
        )
}

/// Whether a tensor is the middle of the planes `wide`, resized to `out_h`
/// rows and cropped to `SIDE`x`SIDE`: red, green and blue in turn.
pub open spec fn cropped<T, M: Fn(&Vec<T>, &Vec<u64>) -> T, F: Fn(usize, T) -> T>(
    mix: M,
    finish: F,
    wide: Seq<Seq<Seq<T>>>,
    out_h: int,
    out_w: int,
    tensor: Seq<T>,
) -> bool {
    &&& tensor.len() == TENSOR
    &&& forall|c: usize, y: int, x: int|
        0 <= c < 3 && 0 <= y < SIDE && 0 <= x < SIDE ==> finished(
            mix,
            finish,
            wide[c as int],
            out_h,
            c,
            (out_h - SIDE) / 2 + y,
            (out_w - SIDE) / 2 + x,
            #[trigger] tensor[c * PLANE + y * SIDE + x],
        )
}

/// A run of a column, gathered.
fn gather<T: Copy>(plane: &Vec<Vec<T>>, from: usize, count: usize, column: usize) -> (run: Vec<T>)
    requires
        from + count <= plane@.len(),
        forall|y: int| from <= y < from + count ==> column < (#[trigger] plane@[y])@.len(),
    ensures
        run@.len() == count,
        forall|k: int| 0 <= k < count ==> run@[k] == (#[trigger] plane@[from + k])@[column as int],
{
    let height: usize = plane.len();
    let mut run: Vec<T> = Vec::new();
    let mut k: usize = 0;
    while k < count
        invariant
            k <= count,
            from + count <= height,
            height == plane@.len(),
            forall|y: int| from <= y < from + count ==> column < (#[trigger] plane@[y])@.len(),
            run@.len() == k,
            forall|j: int| 0 <= j < k ==> run@[j] == (#[trigger] plane@[from + j])@[column as int],
        decreases count - k,
    {
        assert(column < plane@[from + k]@.len());
        run.push(plane[from + k][column]);
        k = k + 1;
    }
    run
}

/// One row resized.
fn widen<T: Copy, M: Fn(&Vec<T>, &Vec<u64>) -> T>(
    row: &Vec<T>,
    columns: &Vec<Tap>,
    mix: &M,
) -> (wide: Vec<T>)
    requires
        row@.len() > 0,
        forall|i: int|
            0 <= i < columns@.len() ==> is_tap(
                #[trigger] columns@[i],
                columns@.len() as int,
                row@.len() as int,
                i,
            ),
        forall|s: Vec<T>, w: Vec<u64>|
            s@.len() == w@.len() && s@.len() > 0 ==> call_requires(*mix, (&s, &w)),
    ensures
        row_widened(*mix, row@, columns@.len() as int, wide@),
{
    let width: usize = row.len();
    let ghost out_size = columns@.len() as int;
    let ghost in_size = width as int;
    let mut wide: Vec<T> = Vec::new();
    let mut x: usize = 0;
    while x < columns.len()
        invariant
            x <= columns@.len(),
            out_size == columns@.len(),
            in_size == row@.len(),
            in_size == width,
            in_size > 0,
            forall|i: int|
                0 <= i < columns@.len() ==> is_tap(#[trigger] columns@[i], out_size, in_size, i),
            forall|s: Vec<T>, w: Vec<u64>|
                s@.len() == w@.len() && s@.len() > 0 ==> call_requires(*mix, (&s, &w)),
            wide@.len() == x,
            forall|i: int|
                0 <= i < x ==> mixes(
                    *mix,
                    row@.subrange(tap_start(out_size, in_size, i), tap_end(out_size, in_size, i)),
                    tap_weights(out_size, in_size, i),
                    #[trigger] wide@[i],
                ),
        decreases columns@.len() - x,
    {
        let tap: &Tap = &columns[x];
        proof {
            lemma_tap_run(out_size, in_size, x as int);
            assert(is_tap(*tap, out_size, in_size, x as int));
        }
        let mut run: Vec<T> = Vec::new();
        let mut k: usize = 0;
        while k < tap.weights.len()
            invariant
                k <= tap.weights@.len(),
                tap.start + tap.weights@.len() <= width,
                width == row@.len(),
                run@ == row@.subrange(tap.start as int, tap.start + k),
            decreases tap.weights@.len() - k,
        {
            run.push(row[tap.start + k]);
            k = k + 1;
            assert(run@ =~= row@.subrange(tap.start as int, tap.start + k));
        }
        let sample: T = mix(&run, &tap.weights);
        proof {
            lemma_tap_weights(*tap, out_size, in_size, x as int);
            assert(mixes(*mix, run@, tap.weights@, sample));
        }
        wide.push(sample);
        x = x + 1;
    }
    wide
}

proof fn lemma_tap_weights(tap: Tap, out_size: int, in_size: int, i: int)
    requires
        is_tap(tap, out_size, in_size, i),
    ensures
        tap.weights@ == tap_weights(out_size, in_size, i),
{
    assert forall|k: int| 0 <= k < tap.weights@.len() implies tap.weights@[k] == tap_weights(
        out_size,
        in_size,
        i,
    )[k] by {
        assert(tap.weights@[k] == weight(out_size, in_size, i, tap.start + k));
    }
    assert(tap.weights@ =~= tap_weights(out_size, in_size, i));
}

/// One plane resized the other way, cropped, and finished, behind what the
/// tensor already holds.
fn crop<T: Copy, M: Fn(&Vec<T>, &Vec<u64>) -> T, F: Fn(usize, T) -> T>(
    plane: &Vec<Vec<T>>,
    channel: usize,
    rows: &Vec<Tap>,
    out_w: usize,
    mix: &M,
    finish: &F,
    tensor: &mut Vec<T>,
)
    requires
        plane@.len() > 0,
        SIDE <= rows@.len(),
        SIDE <= out_w,
        forall|y: int| 0 <= y < plane@.len() ==> (#[trigger] plane@[y])@.len() == out_w,
        forall|i: int|
            0 <= i < rows@.len() ==> is_tap(
                #[trigger] rows@[i],
                rows@.len() as int,
                plane@.len() as int,
                i,
            ),
        forall|s: Vec<T>, w: Vec<u64>|
            s@.len() == w@.len() && s@.len() > 0 ==> call_requires(*mix, (&s, &w)),
        forall|mixed: T| call_requires(*finish, (channel, mixed)),
    ensures
        final(tensor)@.len() == old(tensor)@.len() + PLANE,
        forall|i: int| 0 <= i < old(tensor)@.len() ==> final(tensor)@[i] == old(tensor)@[i],
        forall|y: int, x: int|
            0 <= y < SIDE && 0 <= x < SIDE ==> finished(
                *mix,
                *finish,
                rows_of(plane@),
                rows@.len() as int,
                channel,
                (rows@.len() - SIDE) / 2 + y,
                (out_w - SIDE) / 2 + x,
                #[trigger] final(tensor)@[old(tensor)@.len() + y * SIDE + x],
            ),
{
    let out_h: usize = rows.len();
    let top: usize = (out_h - SIDE) / 2;
    let left: usize = (out_w - SIDE) / 2;
    let ghost view = rows_of(plane@);
    let ghost base: int = tensor@.len() as int;
    let mut y: usize = 0;
    while y < SIDE
        invariant
            y <= SIDE,
            view == rows_of(plane@),
            base == old(tensor)@.len(),
            plane@.len() > 0,
            out_h == rows@.len(),
            SIDE <= out_h,
            SIDE <= out_w,
            top == (out_h - SIDE) / 2,
            left == (out_w - SIDE) / 2,
            forall|y: int| 0 <= y < plane@.len() ==> (#[trigger] plane@[y])@.len() == out_w,
            forall|i: int|
                0 <= i < rows@.len() ==> is_tap(
                    #[trigger] rows@[i],
                    out_h as int,
                    plane@.len() as int,
                    i,
                ),
            forall|s: Vec<T>, w: Vec<u64>|
                s@.len() == w@.len() && s@.len() > 0 ==> call_requires(*mix, (&s, &w)),
            forall|mixed: T| call_requires(*finish, (channel, mixed)),
            tensor@.len() == base + y * SIDE,
            forall|i: int| 0 <= i < base ==> tensor@[i] == old(tensor)@[i],
            forall|b: int, x: int|
                0 <= b < y && 0 <= x < SIDE ==> finished(
                    *mix,
                    *finish,
                    view,
                    out_h as int,
                    channel,
                    top + b,
                    left + x,
                    #[trigger] tensor@[base + b * SIDE + x],
                ),
        decreases SIDE - y,
    {
        let tap: &Tap = &rows[top + y];
        proof {
            assert(is_tap(*tap, out_h as int, plane@.len() as int, top + y));
            lemma_tap_run(out_h as int, plane@.len() as int, top + y);
            lemma_tap_weights(*tap, out_h as int, plane@.len() as int, top + y);
        }
        let mut x: usize = 0;
        while x < SIDE
            invariant
                x <= SIDE,
                y < SIDE,
                view == rows_of(plane@),
                base == old(tensor)@.len(),
                out_h == rows@.len(),
                SIDE <= out_h,
                SIDE <= out_w,
                top == (out_h - SIDE) / 2,
                left == (out_w - SIDE) / 2,
                tap.start == tap_start(out_h as int, plane@.len() as int, top + y),
                tap.start + tap.weights@.len() == tap_end(
                    out_h as int,
                    plane@.len() as int,
                    top + y,
                ),
                tap.start + tap.weights@.len() <= plane@.len(),
                tap.weights@.len() > 0,
                tap.weights@ == tap_weights(out_h as int, plane@.len() as int, top + y),
                forall|y: int| 0 <= y < plane@.len() ==> (#[trigger] plane@[y])@.len() == out_w,
                forall|s: Vec<T>, w: Vec<u64>|
                    s@.len() == w@.len() && s@.len() > 0 ==> call_requires(*mix, (&s, &w)),
                forall|mixed: T| call_requires(*finish, (channel, mixed)),
                tensor@.len() == base + y * SIDE + x,
                forall|i: int| 0 <= i < base ==> tensor@[i] == old(tensor)@[i],
                forall|b: int, a: int|
                    0 <= b < y && 0 <= a < SIDE ==> finished(
                        *mix,
                        *finish,
                        view,
                        out_h as int,
                        channel,
                        top + b,
                        left + a,
                        #[trigger] tensor@[base + b * SIDE + a],
                    ),
                forall|a: int|
                    0 <= a < x ==> finished(
                        *mix,
                        *finish,
                        view,
                        out_h as int,
                        channel,
                        top + y,
                        left + a,
                        #[trigger] tensor@[base + y * SIDE + a],
                    ),
            decreases SIDE - x,
        {
            let run: Vec<T> = gather(plane, tap.start, tap.weights.len(), left + x);
            proof {
                assert(run@ =~= column_of(
                    view,
                    tap.start as int,
                    tap.start + tap.weights@.len(),
                    left + x,
                ));
            }
            let mixed: T = mix(&run, &tap.weights);
            assert(mixes(*mix, run@, tap.weights@, mixed));
            let sample: T = finish(channel, mixed);
            assert(finished(
                *mix,
                *finish,
                view,
                out_h as int,
                channel,
                top + y,
                left + x,
                sample,
            ));
            tensor.push(sample);
            x = x + 1;
        }
        y = y + 1;
    }
}

/// The rows of a plane, as views.
pub open spec fn rows_of<T>(plane: Seq<Vec<T>>) -> Seq<Seq<T>> {
    Seq::new(plane.len(), |y: int| plane[y]@)
}

/// The frame resized, cropped and normalized: one `[3, SIDE, SIDE]` tensor,
/// red, green and blue in turn.
///
/// `colour` makes red, green and blue out of a pixel's bytes, `mix` one
/// sample out of a run and its weights, and `finish` a tensor's value out of
/// a channel's sample. Every source row is resized horizontally first; the
/// vertical pass mixes whole rows of that.
pub fn preprocess<
    T: Copy,
    C: Fn(PixFmt, u8, u8, u8) -> (T, T, T),
    M: Fn(&Vec<T>, &Vec<u64>) -> T,
    F: Fn(usize, T) -> T,
>(
    frame: &[u8],
    pix_fmt: PixFmt,
    width: usize,
    height: usize,
    colour: &C,
    mix: &M,
    finish: &F,
) -> (tensor: Vec<T>)
    requires
        0 < width,
        0 < height,
        SHORT_EDGE * width <= LONGEST,
        SHORT_EDGE * height <= LONGEST,
        SHORT_EDGE * width <= usize::MAX,
        SHORT_EDGE * height <= usize::MAX,
        frame_bytes(pix_fmt, width as int, height as int) <= frame@.len(),
        forall|a: u8, b: u8, c: u8| call_requires(*colour, (pix_fmt, a, b, c)),
        forall|s: Vec<T>, w: Vec<u64>|
            s@.len() == w@.len() && s@.len() > 0 ==> call_requires(*mix, (&s, &w)),
        forall|channel: usize, mixed: T|
            channel < 3 ==> call_requires(*finish, (channel, mixed)),
    ensures
        prepares(*colour, *mix, *finish, pix_fmt, width, height, frame@, tensor@),
{
    let (out_h, out_w) = resized_size(width, height);
    proof {
        law_the_resize_keeps_the_shape(width as nat, height as nat);
        lemma_resized_fits(width as nat, height as nat);
    }
    let columns: Vec<Tap> = taps(out_w, width);
    let rows: Vec<Tap> = taps(out_h, height);

    let ghost mut rgb0: Seq<Seq<T>> = Seq::empty();
    let ghost mut rgb1: Seq<Seq<T>> = Seq::empty();
    let ghost mut rgb2: Seq<Seq<T>> = Seq::empty();
    let mut red: Vec<Vec<T>> = Vec::new();
    let mut green: Vec<Vec<T>> = Vec::new();
    let mut blue: Vec<Vec<T>> = Vec::new();
    let mut y: usize = 0;
    while y < height
        invariant
            y <= height,
            0 < width,
            frame_bytes(pix_fmt, width as int, height as int) <= frame@.len(),
            forall|a: u8, b: u8, c: u8| call_requires(*colour, (pix_fmt, a, b, c)),
            forall|s: Vec<T>, w: Vec<u64>|
                s@.len() == w@.len() && s@.len() > 0 ==> call_requires(*mix, (&s, &w)),
            columns@.len() == out_w,
            forall|i: int|
                0 <= i < out_w ==> is_tap(#[trigger] columns@[i], out_w as int, width as int, i),
            rgb0.len() == y,
            rgb1.len() == y,
            rgb2.len() == y,
            red@.len() == y,
            green@.len() == y,
            blue@.len() == y,
            forall|b: int|
                0 <= b < y ==> row_coloured(
                    *colour,
                    frame@,
                    pix_fmt,
                    width as int,
                    height as int,
                    b,
                    #[trigger] rgb0[b],
                    rgb1[b],
                    rgb2[b],
                ),
            forall|b: int|
                0 <= b < y ==> row_widened(*mix, rgb0[b], out_w as int, (#[trigger] red@[b])@),
            forall|b: int|
                0 <= b < y ==> row_widened(*mix, rgb1[b], out_w as int, (#[trigger] green@[b])@),
            forall|b: int|
                0 <= b < y ==> row_widened(*mix, rgb2[b], out_w as int, (#[trigger] blue@[b])@),
        decreases height - y,
    {
        let (r, g, b) = row_to_rgb(frame, pix_fmt, width, height, y, colour);
        red.push(widen(&r, &columns, mix));
        green.push(widen(&g, &columns, mix));
        blue.push(widen(&b, &columns, mix));
        proof {
            rgb0 = rgb0.push(r@);
            rgb1 = rgb1.push(g@);
            rgb2 = rgb2.push(b@);
        }
        y = y + 1;
    }

    let mut tensor: Vec<T> = Vec::new();
    crop(&red, 0, &rows, out_w, mix, finish, &mut tensor);
    crop(&green, 1, &rows, out_w, mix, finish, &mut tensor);
    crop(&blue, 2, &rows, out_w, mix, finish, &mut tensor);
    proof {
        let rgb = seq![rgb0, rgb1, rgb2];
        let wide = seq![rows_of(red@), rows_of(green@), rows_of(blue@)];
        assert(widened(*mix, rgb, out_w as int, wide)) by {
            assert forall|c: int, b: int| 0 <= c < rgb.len() && 0 <= b < rgb[c].len() implies
                row_widened(*mix, rgb[c][b], out_w as int, #[trigger] wide[c][b]) by {
                if c == 0 {
                    assert(wide[c][b] == red@[b]@);
                } else if c == 1 {
                    assert(wide[c][b] == green@[b]@);
                } else {
                    assert(wide[c][b] == blue@[b]@);
                }
            }
        }
        assert(coloured(
            *colour,
            frame@,
            pix_fmt,
            width as int,
            height as int,
            rgb,
        ));
        assert(cropped(*mix, *finish, wide, out_h as int, out_w as int, tensor@)) by {
            assert forall|c: usize, y: int, x: int|
                0 <= c < 3 && 0 <= y < SIDE && 0 <= x < SIDE implies finished(
                *mix,
                *finish,
                wide[c as int],
                out_h as int,
                c,
                (out_h - SIDE) / 2 + y,
                (out_w - SIDE) / 2 + x,
                #[trigger] tensor@[c * PLANE + y * SIDE + x],
            ) by {
                assert(0 <= y * SIDE + x < PLANE);
                if c == 0 {
                    assert(wide[c as int] == rows_of(red@));
                } else if c == 1 {
                    assert(wide[c as int] == rows_of(green@));
                } else {
                    assert(wide[c as int] == rows_of(blue@));
                }
            }
        }
        assert(prepared(
            *colour,
            *mix,
            *finish,
            frame@,
            pix_fmt,
            width as int,
            height as int,
            rgb,
            wide,
            tensor@,
        ));
    }
    tensor
}

/// Whether a tensor is a frame preprocessed, by way of its colours `rgb` and
/// its rows resized `wide`.
pub open spec fn prepared<
    T,
    C: Fn(PixFmt, u8, u8, u8) -> (T, T, T),
    M: Fn(&Vec<T>, &Vec<u64>) -> T,
    F: Fn(usize, T) -> T,
>(
    colour: C,
    mix: M,
    finish: F,
    frame: Seq<u8>,
    pix_fmt: PixFmt,
    width: int,
    height: int,
    rgb: Seq<Seq<Seq<T>>>,
    wide: Seq<Seq<Seq<T>>>,
    tensor: Seq<T>,
) -> bool {
    let (out_h, out_w) = resized_of(width as nat, height as nat);
    &&& coloured(colour, frame, pix_fmt, width, height, rgb)
    &&& widened(mix, rgb, out_w as int, wide)
    &&& cropped(mix, finish, wide, out_h as int, out_w as int, tensor)
}

/// Whether a tensor is a frame preprocessed.
pub open spec fn prepares<
    T,
    C: Fn(PixFmt, u8, u8, u8) -> (T, T, T),
    M: Fn(&Vec<T>, &Vec<u64>) -> T,
    F: Fn(usize, T) -> T,
>(
    colour: C,
    mix: M,
    finish: F,
    pix_fmt: PixFmt,
    width: usize,
    height: usize,
    frame: Seq<u8>,
    tensor: Seq<T>,
) -> bool {
    exists|rgb: Seq<Seq<Seq<T>>>, wide: Seq<Seq<Seq<T>>>|
        prepared(
            colour,
            mix,
            finish,
            frame,
            pix_fmt,
            width as int,
            height as int,
            rgb,
            wide,
            tensor,
        )
}

proof fn lemma_resized_fits(width: nat, height: nat)
    requires
        0 < width,
        0 < height,
        SHORT_EDGE * width <= LONGEST,
        SHORT_EDGE * height <= LONGEST,
    ensures
        resized_of(width, height).0 <= LONGEST,
        resized_of(width, height).1 <= LONGEST,
{
    let (short, long) = if width <= height {
        (width, height)
    } else {
        (height, width)
    };
    let p = SHORT_EDGE as nat * long;
    assert(p / short <= p) by (nonlinear_arith)
        requires
            short >= 1,
    ;
}

/// The side that is not the longer becomes 224, and the other is the longest
/// that keeps the frame's shape - or the largest size there is, where that is
/// longer still. Of a frame with no short side, that is so at once.
pub proof fn law_the_short_side_becomes_224(width: nat, height: nat)
    ensures
        ({
            let (h, w) = resized_of(width, height);
            &&& width <= height ==> w == 224
            &&& width > height ==> h == 224
            &&& 0 < width <= height ==> h * width <= 224 * height && (h == usize::MAX || 224 * height
                < (h + 1) * width)
            &&& 0 < height < width ==> w * height <= 224 * width && (w == usize::MAX || 224 * width
                < (w + 1) * height)
            &&& 0 == width < height ==> h == usize::MAX
            &&& 0 == height < width ==> w == usize::MAX
            &&& 0 == width == height ==> h == 1
        }),
{
    let (short, long) = if width <= height {
        (width, height)
    } else {
        (height, width)
    };
    if short > 0 {
        let p = 224 * long;
        let q = p / short;
        assert(q >= 1 && q * short <= p < (q + 1) * short) by (nonlinear_arith)
            requires
                q == p / short,
                p == 224 * long,
                0 < short <= long,
        ;
        if q > usize::MAX {
            let most = usize::MAX as nat;
            assert(most * short <= q * short) by (nonlinear_arith)
                requires
                    most <= q,
            ;
        }
    }
}

/// A tap weighs every input sample by how far it lies from the middle of its
/// own output sample: full weight less the distance, out to the filter's
/// reach, which is one step of whichever of the two is coarser. No sample with
/// weight lies outside the tap.
pub proof fn law_a_tap_weighs_by_distance(tap: Tap, out_size: int, in_size: int, i: int, j: int)
    requires
        0 <= i < out_size,
        0 <= j < in_size,
        is_tap(tap, out_size, in_size, i),
    ensures
        ({
            let full = 2 * if in_size >= out_size {
                in_size
            } else {
                out_size
            };
            let off = (2 * j + 1) * out_size - (2 * i + 1) * in_size;
            &&& -full < off < full ==> tap.start <= j < tap.start + tap.weights@.len()
                && tap.weights@[j - tap.start] == full - if off < 0 {
                -off
            } else {
                off
            }
            &&& (off <= -full || off >= full) && tap.start <= j < tap.start + tap.weights@.len()
                ==> tap.weights@[j - tap.start] == 0
        }),
{
    if weight(out_size, in_size, i, j) > 0 {
        law_the_run_holds_every_weight(out_size, in_size, i, j);
    }
    if tap.start <= j < tap.start + tap.weights@.len() {
        let k = j - tap.start;
        assert(tap.weights@[k] == weight(out_size, in_size, i, tap.start + k));
    }
}

/// The weights a resize mixes by are the tap's own.
pub proof fn law_a_resize_mixes_by_its_taps(tap: Tap, out_size: int, in_size: int, i: int)
    requires
        is_tap(tap, out_size, in_size, i),
    ensures
        tap_weights(out_size, in_size, i) == tap.weights@,
        tap_start(out_size, in_size, i) == tap.start,
        tap_end(out_size, in_size, i) == tap.start + tap.weights@.len(),
{
    lemma_tap_weights(tap, out_size, in_size, i);
}

/// A resize has no preferred end: read backwards, a sample weighs what its
/// mirror image weighs.
pub proof fn law_a_resize_reads_the_same_backwards(out_size: int, in_size: int, i: int, j: int)
    ensures
        weight(out_size, in_size, i, j) == weight(
            out_size,
            in_size,
            out_size - 1 - i,
            in_size - 1 - j,
        ),
{
    let (b, a) = (in_size - 1 - j, out_size - 1 - i);
    assert((2 * b + 1) * out_size - (2 * a + 1) * in_size == -((2 * j + 1) * out_size - (2 * i + 1)
        * in_size)) by (nonlinear_arith)
        requires
            b == in_size - 1 - j,
            a == out_size - 1 - i,
    ;
}

/// What each of a row's three colours is made of. The first, second and third
/// row hold at a column the first, second and third part of what `colour`
/// gives for that pixel's bytes: the first three of its four, or its own luma
/// and the two chroma samples of its block of two by two.
pub proof fn law_each_row_holds_its_own_part<T, C: Fn(PixFmt, u8, u8, u8) -> (T, T, T)>(
    colour: C,
    frame: Seq<u8>,
    pix_fmt: PixFmt,
    width: int,
    height: int,
    y: int,
    red: Seq<T>,
    green: Seq<T>,
    blue: Seq<T>,
    x: int,
)
    requires
        row_coloured(colour, frame, pix_fmt, width, height, y, red, green, blue),
        0 <= x < width,
    ensures
        red.len() == width,
        green.len() == width,
        blue.len() == width,
        pix_fmt is Rgba ==> exists|part: (T, T, T)| #[trigger]
            call_ensures(
                colour,
                (
                    pix_fmt,
                    frame[4 * (y * width + x)],
                    frame[4 * (y * width + x) + 1],
                    frame[4 * (y * width + x) + 2],
                ),
                part,
            ) && red[x] == part.0 && green[x] == part.1 && blue[x] == part.2,
        pix_fmt is Yuv420p ==> exists|part: (T, T, T)| #[trigger]
            call_ensures(
                colour,
                (
                    pix_fmt,
                    frame[y * width + x],
                    frame[width * height + (y / 2 * ((width + 1) / 2) + x / 2)],
                    frame[width * height + (width + 1) / 2 * ((height + 1) / 2) + (y / 2 * ((width
                        + 1) / 2) + x / 2)],
                ),
                part,
            ) && red[x] == part.0 && green[x] == part.1 && blue[x] == part.2,
{
    let part = (red[x], green[x], blue[x]);
    let p = pixel_of(frame, pix_fmt, width, height, x, y);
    assert(call_ensures(colour, (pix_fmt, p.0, p.1, p.2), part));
}

/// Where a pixel's colour is its own first three bytes, the three planes hold
/// the three bytes: plane `c` holds at row `y` and column `x` byte `c` of the
/// pixel that stands there.
pub proof fn law_plane_c_holds_byte_c<C: Fn(PixFmt, u8, u8, u8) -> (u8, u8, u8)>(
    colour: C,
    frame: Seq<u8>,
    width: int,
    height: int,
    rgb: Seq<Seq<Seq<u8>>>,
    c: int,
    y: int,
    x: int,
)
    requires
        coloured(colour, frame, PixFmt::Rgba, width, height, rgb),
        forall|r: u8, g: u8, b: u8, part: (u8, u8, u8)| #[trigger]
            call_ensures(colour, (PixFmt::Rgba, r, g, b), part) ==> part == (r, g, b),
        0 <= c < 3,
        0 <= y < height,
        0 <= x < width,
    ensures
        rgb[c][y][x] == frame[4 * (y * width + x) + c],
{
    assert(row_coloured(
        colour,
        frame,
        PixFmt::Rgba,
        width,
        height,
        y,
        rgb[0][y],
        rgb[1][y],
        rgb[2][y],
    ));
    law_each_row_holds_its_own_part(
        colour,
        frame,
        PixFmt::Rgba,
        width,
        height,
        y,
        rgb[0][y],
        rgb[1][y],
        rgb[2][y],
        x,
    );
}

/// The four pixels of a block share its two chroma samples and no luma: of two
/// pixels of one block, the second and third byte are the same, and the first
/// stand in different places.
pub proof fn law_a_block_shares_its_chroma(
    frame: Seq<u8>,
    width: int,
    height: int,
    x: int,
    y: int,
    a: int,
    b: int,
)
    requires
        0 <= x < width,
        0 <= y < height,
        0 <= a < width,
        0 <= b < height,
        x / 2 == a / 2,
        y / 2 == b / 2,
    ensures
        pixel_of(frame, PixFmt::Yuv420p, width, height, x, y).1 == pixel_of(
            frame,
            PixFmt::Yuv420p,
            width,
            height,
            a,
            b,
        ).1,
        pixel_of(frame, PixFmt::Yuv420p, width, height, x, y).2 == pixel_of(
            frame,
            PixFmt::Yuv420p,
            width,
            height,
            a,
            b,
        ).2,
        pixel_of(frame, PixFmt::Yuv420p, width, height, x, y).0 == frame[y * width + x],
        pixel_of(frame, PixFmt::Yuv420p, width, height, a, b).0 == frame[b * width + a],
{
}

/// A frame is as long as its pixels reach: the last chroma sample of the pixel
/// in the last row and column is a frame's last byte, and of an rgba frame the
/// byte after that pixel's blue is.
pub proof fn law_a_frame_ends_with_its_last_pixel(frame: Seq<u8>, width: int, height: int)
    requires
        0 < width,
        0 < height,
    ensures
        pixel_of(frame, PixFmt::Yuv420p, width, height, width - 1, height - 1).2 == frame[frame_bytes(
            PixFmt::Yuv420p,
            width,
            height,
        ) - 1],
        pixel_of(frame, PixFmt::Rgba, width, height, width - 1, height - 1).2 == frame[frame_bytes(
            PixFmt::Rgba,
            width,
            height,
        ) - 2],
        frame_bytes(PixFmt::Rgba, width, height) == 4 * (width * height),
        width % 2 == 0 && height % 2 == 0 ==> 2 * frame_bytes(PixFmt::Yuv420p, width, height) == 3 * (
        width * height),
{
    assert((height - 1) * width + (width - 1) == width * height - 1) by (nonlinear_arith);
    assert(width * height * 4 == 4 * (width * height)) by (nonlinear_arith);
    let (w, h) = ((width + 1) / 2, (height + 1) / 2);
    assert((width - 1) / 2 == w - 1 && (height - 1) / 2 == h - 1);
    assert((h - 1) * w + (w - 1) == w * h - 1) by (nonlinear_arith);
    if width % 2 == 0 && height % 2 == 0 {
        assert(width * height == 4 * (w * h)) by (nonlinear_arith)
            requires
                width == 2 * w,
                height == 2 * h,
        ;
    }
}

/// A flat picture keeps its colour, plane by plane: where every pixel is the
/// same red, green and blue and a mix of equal samples is that sample, the
/// tensor's first plane holds what channel 0 makes of the red throughout, its
/// second what channel 1 makes of the green, and its third what channel 2
/// makes of the blue.
pub proof fn law_a_flat_picture_keeps_its_colour<
    T,
    C: Fn(PixFmt, u8, u8, u8) -> (T, T, T),
    M: Fn(&Vec<T>, &Vec<u64>) -> T,
    F: Fn(usize, T) -> T,
>(
    colour: C,
    mix: M,
    finish: F,
    pix_fmt: PixFmt,
    width: usize,
    height: usize,
    frame: Seq<u8>,
    tensor: Seq<T>,
    flat: Seq<T>,
    c: usize,
    y: int,
    x: int,
)
    requires
        prepares(colour, mix, finish, pix_fmt, width, height, frame, tensor),
        0 < width,
        0 < height,
        224 * width <= usize::MAX,
        224 * height <= usize::MAX,
        flat.len() == 3,
        forall|r: u8, g: u8, b: u8, part: (T, T, T)| #[trigger]
            call_ensures(colour, (pix_fmt, r, g, b), part) ==> part.0 == flat[0] && part.1
                == flat[1] && part.2 == flat[2],
        forall|s: Vec<T>, w: Vec<u64>, sample: T| #[trigger]
            call_ensures(mix, (&s, &w), sample) && s@.len() > 0 && (forall|k: int|
                0 <= k < s@.len() ==> #[trigger] s@[k] == s@[0]) ==> sample == s@[0],
        0 <= c < 3,
        0 <= y < 224,
        0 <= x < 224,
    ensures
        tensor.len() == 3 * 224 * 224,
        call_ensures(finish, (c, flat[c as int]), tensor[c * 50_176 + y * 224 + x]),
{
    let (out_h, out_w) = resized_of(width as nat, height as nat);
    law_the_resize_keeps_the_shape(width as nat, height as nat);
    let (rgb, wide) = choose|rgb: Seq<Seq<Seq<T>>>, wide: Seq<Seq<Seq<T>>>|
        prepared(
            colour,
            mix,
            finish,
            frame,
            pix_fmt,
            width as int,
            height as int,
            rgb,
            wide,
            tensor,
        );
    let of = flat[c as int];
    let plane = wide[c as int];
    assert forall|row: int, column: int|
        0 <= row < height && 0 <= column < out_w implies (#[trigger] plane[row][column]) == of by {
        let from = rgb[c as int][row];
        assert(row_coloured(
            colour,
            frame,
            pix_fmt,
            width as int,
            height as int,
            row,
            rgb[0][row],
            rgb[1][row],
            rgb[2][row],
        ));
        assert forall|k: int| 0 <= k < width implies from[k] == of by {
            let p = pixel_of(frame, pix_fmt, width as int, height as int, k, row);
            assert(call_ensures(
                colour,
                (pix_fmt, p.0, p.1, p.2),
                (rgb[0][row][k], rgb[1][row][k], rgb[2][row][k]),
            ));
        }
        assert(row_widened(mix, from, out_w as int, wide[c as int][row]));
        lemma_tap_run(out_w as int, width as int, column);
        lemma_mixed_flat(
            mix,
            from.subrange(
                tap_start(out_w as int, width as int, column),
                tap_end(out_w as int, width as int, column),
            ),
            tap_weights(out_w as int, width as int, column),
            plane[row][column],
            of,
        );
    }
    let (row, column) = ((out_h - SIDE) / 2 + y, (out_w - SIDE) / 2 + x);
    let sample = tensor[c * PLANE + y * SIDE + x];
    assert(finished(mix, finish, plane, out_h as int, c, row, column, sample));
    lemma_tap_run(out_h as int, height as int, row);
    let run = column_of(
        plane,
        tap_start(out_h as int, height as int, row),
        tap_end(out_h as int, height as int, row),
        column,
    );
    let mixed = choose|mixed: T|
        #![trigger call_ensures(finish, (c, mixed), sample)]
        call_ensures(finish, (c, mixed), sample) && mixes(
            mix,
            run,
            tap_weights(out_h as int, height as int, row),
            mixed,
        );
    lemma_mixed_flat(mix, run, tap_weights(out_h as int, height as int, row), mixed, of);
}

proof fn lemma_mixed_flat<T, M: Fn(&Vec<T>, &Vec<u64>) -> T>(
    mix: M,
    run: Seq<T>,
    weights: Seq<u64>,
    sample: T,
    of: T,
)
    requires
        mixes(mix, run, weights, sample),
        run.len() > 0,
        forall|k: int| 0 <= k < run.len() ==> run[k] == of,
        forall|s: Vec<T>, w: Vec<u64>, sample: T| #[trigger]
            call_ensures(mix, (&s, &w), sample) && s@.len() > 0 && (forall|k: int|
                0 <= k < s@.len() ==> #[trigger] s@[k] == s@[0]) ==> sample == s@[0],
    ensures
        sample == of,
{
    let (s, w) = choose|s: Vec<T>, w: Vec<u64>|
        #![trigger call_ensures(mix, (&s, &w), sample)]
        s@ == run && w@ == weights && call_ensures(mix, (&s, &w), sample);
    assert(s@[0] == of);
}

/// A frame whose short side is 224 already is only cropped: where a mix in
/// which one sample alone has weight is that sample, the tensor holds in plane
/// `c`, at row `y` and column `x`, what channel `c` makes of the frame's own
/// colour there, counted from the middle square's first row and column.
pub proof fn law_a_frame_of_the_right_size_is_only_cropped<
    T,
    C: Fn(PixFmt, u8, u8, u8) -> (T, T, T),
    M: Fn(&Vec<T>, &Vec<u64>) -> T,
    F: Fn(usize, T) -> T,
>(
    colour: C,
    mix: M,
    finish: F,
    pix_fmt: PixFmt,
    width: usize,
    height: usize,
    frame: Seq<u8>,
    tensor: Seq<T>,
    c: usize,
    y: int,
    x: int,
)
    requires
        prepares(colour, mix, finish, pix_fmt, width, height, frame, tensor),
        width >= 224,
        height >= 224,
        width == 224 || height == 224,
        width <= 0x2000_0000_0000_0000,
        height <= 0x2000_0000_0000_0000,
        forall|s: Vec<T>, w: Vec<u64>, k: int, sample: T|
            #![trigger call_ensures(mix, (&s, &w), sample), s@[k]]
            call_ensures(mix, (&s, &w), sample) && 0 <= k < s@.len() && s@.len() == w@.len()
                && w@[k] > 0 && (forall|j: int| 0 <= j < w@.len() && j != k ==> w@[j] == 0)
                ==> sample == s@[k],
        0 <= c < 3,
        0 <= y < 224,
        0 <= x < 224,
    ensures
        ({
            let (row, column) = ((height - 224) / 2 + y, (width - 224) / 2 + x);
            let p = pixel_of(frame, pix_fmt, width as int, height as int, column, row);
            exists|part: (T, T, T)| #[trigger]
                call_ensures(colour, (pix_fmt, p.0, p.1, p.2), part) && call_ensures(
                    finish,
                    (
                        c,
                        if c == 0 {
                            part.0
                        } else if c == 1 {
                            part.1
                        } else {
                            part.2
                        },
                    ),
                    tensor[c * 50_176 + y * 224 + x],
                )
        }),
{
    let (out_h, out_w) = resized_of(width as nat, height as nat);
    assert(out_h == height && out_w == width);
    let (rgb, wide) = choose|rgb: Seq<Seq<Seq<T>>>, wide: Seq<Seq<Seq<T>>>|
        prepared(
            colour,
            mix,
            finish,
            frame,
            pix_fmt,
            width as int,
            height as int,
            rgb,
            wide,
            tensor,
        );
    let (row, column) = ((height - 224) / 2 + y, (width - 224) / 2 + x);
    let plane = wide[c as int];
    let from = rgb[c as int][row];
    assert(row_coloured(
        colour,
        frame,
        pix_fmt,
        width as int,
        height as int,
        row,
        rgb[0][row],
        rgb[1][row],
        rgb[2][row],
    ));
    let part = (rgb[0][row][column], rgb[1][row][column], rgb[2][row][column]);
    let p = pixel_of(frame, pix_fmt, width as int, height as int, column, row);
    assert(call_ensures(colour, (pix_fmt, p.0, p.1, p.2), part));
    assert(row_widened(mix, from, width as int, wide[c as int][row]));
    lemma_mixed_whole(mix, from, width as int, column, plane[row][column]);
    let sample = tensor[c * PLANE + y * SIDE + x];
    assert(finished(mix, finish, plane, out_h as int, c, row, column, sample));
    let run = column_of(
        plane,
        tap_start(height as int, height as int, row),
        tap_end(height as int, height as int, row),
        column,
    );
    let mixed = choose|mixed: T|
        #![trigger call_ensures(finish, (c, mixed), sample)]
        call_ensures(finish, (c, mixed), sample) && mixes(
            mix,
            run,
            tap_weights(height as int, height as int, row),
            mixed,
        );
    let whole = Seq::new(height as nat, |k: int| plane[k][column]);
    lemma_identity_run(height as int, row);
    assert(run =~= whole.subrange(
        tap_start(height as int, height as int, row),
        tap_end(height as int, height as int, row),
    ));
    lemma_mixed_whole(mix, whole, height as int, row, mixed);
}

proof fn lemma_identity_run(size: int, i: int)
    requires
        0 <= i < size,
    ensures
        tap_start(size, size, i) == i,
        i < tap_end(size, size, i) <= size,
        tap_end(size, size, i) <= i + 2,
{
    let a = ((2 * i + 1) * size - 2 * size + size) / (2 * size);
    let b = ((2 * i + 1) * size + 2 * size + size) / (2 * size);
    assert(a == i && b == i + 2) by (nonlinear_arith)
        requires
            a == ((2 * i + 1) * size - 2 * size + size) / (2 * size),
            b == ((2 * i + 1) * size + 2 * size + size) / (2 * size),
            size > 0,
    {
        assert((2 * i + 1) * size - 2 * size + size == i * (2 * size));
        assert((2 * i + 1) * size + 2 * size + size == (i + 2) * (2 * size));
    }
}

/// Where an axis keeps its size, one sample of it alone has weight.
proof fn lemma_mixed_whole<T, M: Fn(&Vec<T>, &Vec<u64>) -> T>(
    mix: M,
    row: Seq<T>,
    size: int,
    i: int,
    sample: T,
)
    requires
        row.len() == size,
        0 <= i < size <= 0x2000_0000_0000_0000,
        mixes(
            mix,
            row.subrange(tap_start(size, size, i), tap_end(size, size, i)),
            tap_weights(size, size, i),
            sample,
        ),
        forall|s: Vec<T>, w: Vec<u64>, k: int, sample: T|
            #![trigger call_ensures(mix, (&s, &w), sample), s@[k]]
            call_ensures(mix, (&s, &w), sample) && 0 <= k < s@.len() && s@.len() == w@.len()
                && w@[k] > 0 && (forall|j: int| 0 <= j < w@.len() && j != k ==> w@[j] == 0)
                ==> sample == s@[k],
    ensures
        sample == row[i],
{
    lemma_identity_run(size, i);
    let run = row.subrange(tap_start(size, size, i), tap_end(size, size, i));
    let weights = tap_weights(size, size, i);
    let (s, w) = choose|s: Vec<T>, w: Vec<u64>|
        #![trigger call_ensures(mix, (&s, &w), sample)]
        s@ == run && w@ == weights && call_ensures(mix, (&s, &w), sample);
    law_an_identity_resize_reads_each_sample_whole(size, i, i);
    assert(weights[0] == 2 * size);
    assert forall|j: int| 0 <= j < w@.len() && j != 0 implies w@[j] == 0 by {
        law_an_identity_resize_reads_each_sample_whole(size, i, i + j);
    }
    assert(s@[0] == row[i]);
}

/// A name stands for a format where it is that format's own, and for none
/// otherwise.
pub proof fn law_a_format_has_one_name(name: Seq<char>)
    ensures
        PixFmt::named(name) == Some(PixFmt::Yuv420p) <==> name == "yuv420p"@,
        PixFmt::named(name) == Some(PixFmt::Rgba) <==> name == "rgba"@,
{
    reveal_strlit("yuv420p");
    reveal_strlit("rgba");
    assert("yuv420p"@.len() != "rgba"@.len());
}

/// What a resized row is mixed of, at any two sizes. Sample `x` is what `mix`
/// makes of one run of the row, and every sample of the row is weighed by how
/// far its middle lies from the middle of sample `x`: by the filter's reach
/// less that distance, and by nothing from the reach on. Whatever has weight
/// lies in the run.
pub proof fn law_a_sample_mixes_those_near_it<T, M: Fn(&Vec<T>, &Vec<u64>) -> T>(
    mix: M,
    row: Seq<T>,
    out_size: int,
    wide: Seq<T>,
    x: int,
) -> (taken: (Vec<T>, Vec<u64>, int))
    requires
        row_widened(mix, row, out_size, wide),
        0 <= x < out_size <= 0x4000_0000_0000_0000,
        0 < row.len() <= 0x4000_0000_0000_0000,
    ensures
        wide.len() == out_size,
        is_run(row, taken.0@, taken.2),
        call_ensures(mix, (&taken.0, &taken.1), wide[x]),
        taken.1@.len() == taken.0@.len(),
        forall|j: int|
            0 <= j < row.len() ==> #[trigger] weighed_by_distance(
                taken.1@,
                taken.2,
                out_size,
                row.len() as int,
                x,
                j,
            ),
{
    let in_size = row.len() as int;
    let (from, to) = (tap_start(out_size, in_size, x), tap_end(out_size, in_size, x));
    lemma_tap_run(out_size, in_size, x);
    let run = row.subrange(from, to);
    let weights = tap_weights(out_size, in_size, x);
    let sample = wide[x];
    assert(mixes(mix, run, weights, sample));
    let (s, w) = choose|s: Vec<T>, w: Vec<u64>|
        #![trigger call_ensures(mix, (&s, &w), sample)]
        s@ == run && w@ == weights && call_ensures(mix, (&s, &w), sample);
    assert forall|j: int| 0 <= j < row.len() implies #[trigger] weighed_by_distance(
        w@,
        from,
        out_size,
        in_size,
        x,
        j,
    ) by {
        lemma_weighed(out_size, in_size, x, j);
    }
    (s, w, from)
}

/// Whether `run` is a piece of `row`, from sample `from` on.
pub open spec fn is_run<T>(row: Seq<T>, run: Seq<T>, from: int) -> bool {
    &&& 0 <= from
    &&& 0 < run.len()
    &&& from + run.len() <= row.len()
    &&& forall|k: int| 0 <= k < run.len() ==> run[k] == #[trigger] row[from + k]
}

/// Whether the weights of a run that begins at sample `from` weigh sample `j`
/// of `in_size` as sample `x` of `out_size` does: full weight at its middle,
/// less as it lies further off, and none past one step of the coarser.
pub open spec fn weighed_by_distance(
    weights: Seq<u64>,
    from: int,
    out_size: int,
    in_size: int,
    x: int,
    j: int,
) -> bool {
    let full = if in_size < out_size {
        2 * out_size
    } else {
        2 * in_size
    };
    let off = (2 * j + 1) * out_size - (2 * x + 1) * in_size;
    let given = if from <= j < from + weights.len() {
        weights[j - from] as int
    } else {
        0
    };
    &&& 0 <= off < full ==> given == full - off
    &&& -full < off < 0 ==> given == full + off
    &&& off >= full || off <= -full ==> given == 0
}

proof fn lemma_weighed(out_size: int, in_size: int, x: int, j: int)
    requires
        0 <= x < out_size <= 0x4000_0000_0000_0000,
        0 < in_size <= 0x4000_0000_0000_0000,
        0 <= j < in_size,
    ensures
        weighed_by_distance(
            tap_weights(out_size, in_size, x),
            tap_start(out_size, in_size, x),
            out_size,
            in_size,
            x,
            j,
        ),
{
    lemma_tap_run(out_size, in_size, x);
    if weight(out_size, in_size, x, j) > 0 {
        law_the_run_holds_every_weight(out_size, in_size, x, j);
    }
}

/// What a tensor's value is mixed of, at any size: value `(y, x)` of plane `c`
/// is what channel `c` makes of a mix down one column of that plane's resized
/// rows, the column and the row counted from the middle square's first, and
/// each row weighed by its distance from that row.
pub proof fn law_a_value_mixes_its_own_column<
    T,
    M: Fn(&Vec<T>, &Vec<u64>) -> T,
    F: Fn(usize, T) -> T,
>(
    mix: M,
    finish: F,
    wide: Seq<Seq<Seq<T>>>,
    out_h: int,
    out_w: int,
    tensor: Seq<T>,
    c: usize,
    y: int,
    x: int,
) -> (taken: (Vec<T>, Vec<u64>, int, T))
    requires
        cropped(mix, finish, wide, out_h, out_w, tensor),
        0 <= c < 3,
        0 <= y < 224,
        0 <= x < 224,
        224 <= out_h <= 0x4000_0000_0000_0000,
        224 <= out_w,
        0 < wide[c as int].len() <= 0x4000_0000_0000_0000,
    ensures
        tensor.len() == 3 * 50_176,
        call_ensures(finish, (c, taken.3), tensor[c * 50_176 + y * 224 + x]),
        call_ensures(mix, (&taken.0, &taken.1), taken.3),
        taken.1@.len() == taken.0@.len(),
        0 <= taken.2,
        taken.2 + taken.0@.len() <= wide[c as int].len(),
        forall|k: int|
            0 <= k < taken.0@.len() ==> #[trigger] taken.0@[k] == wide[c as int][taken.2 + k][(out_w
                - 224) / 2 + x],
        forall|j: int|
            0 <= j < wide[c as int].len() ==> #[trigger] weighed_by_distance(
                taken.1@,
                taken.2,
                out_h,
                wide[c as int].len() as int,
                (out_h - 224) / 2 + y,
                j,
            ),
{
    let plane = wide[c as int];
    let in_h = plane.len() as int;
    let (row, column) = ((out_h - SIDE) / 2 + y, (out_w - SIDE) / 2 + x);
    let sample = tensor[c * PLANE + y * SIDE + x];
    assert(finished(mix, finish, plane, out_h, c, row, column, sample));
    let (from, to) = (tap_start(out_h, in_h, row), tap_end(out_h, in_h, row));
    lemma_tap_run(out_h, in_h, row);
    let run = column_of(plane, from, to, column);
    let weights = tap_weights(out_h, in_h, row);
    let mixed = choose|mixed: T|
        #![trigger call_ensures(finish, (c, mixed), sample)]
        call_ensures(finish, (c, mixed), sample) && mixes(mix, run, weights, mixed);
    let (s, w) = choose|s: Vec<T>, w: Vec<u64>|
        #![trigger call_ensures(mix, (&s, &w), mixed)]
        s@ == run && w@ == weights && call_ensures(mix, (&s, &w), mixed);
    assert forall|j: int| 0 <= j < in_h implies #[trigger] weighed_by_distance(
        w@,
        from,
        out_h,
        in_h,
        row,
        j,
    ) by {
        lemma_weighed(out_h, in_h, row, j);
    }
    (s, w, from, mixed)
}

} // verus!
