//! What the pictures come to: cuts, the tower's input, the frames a shot
//! keeps, and the clips a stream leaves.

use describe::clips::{
    ends_stretch, feed, is_new_shot, shot_of, take, validate_params, Clip, InFrame, Opened,
    Segment, EMBEDDING, OUTPUT_NAME,
};
use describe::cuts::{downsample, is_cut, row_luma_sum, GRID};
use describe::host::{
    failed, find, AudioFormat, ErrorCode, Format, FramePayload, Rational, TensorType, VideoFormat,
};
use describe::prep::{
    pixel, preprocess, resized_size, row_to_rgb, taps, PixFmt, Tap, PLANE, SIDE, TENSOR,
};
use describe::reservoir::{spread, Reservoir, CAPACITY, FRAMES};
use describe::vector::normalize;
use describe::words::{le_bytes, le_f32s, le_longs};

/// A `width`x`height` rgba frame filled with one grey level.
fn grey_rgba(width: usize, height: usize, level: u8) -> Vec<u8> {
    flat_rgba(width, height, [level, level, level])
}

/// A `width`x`height` rgba frame filled with one colour.
fn flat_rgba(width: usize, height: usize, colour: [u8; 3]) -> Vec<u8> {
    std::iter::repeat_n([colour[0], colour[1], colour[2], 255], width * height)
        .flatten()
        .collect()
}

fn cells_of(frame: &[u8], width: usize, height: usize) -> Vec<u8> {
    let mut cells = Vec::new();
    downsample(frame, PixFmt::Rgba, width, height, &mut cells);
    cells
}

#[test]
fn a_flat_frame_reduces_to_one_level_in_every_cell() {
    let cells = cells_of(&grey_rgba(64, 64, 90), 64, 64);
    assert_eq!(cells.len(), GRID * GRID);
    assert!(
        cells.iter().all(|c| *c == 90),
        "every cell of a flat frame holds the frame's level"
    );
}

#[test]
fn a_frame_smaller_than_the_grid_still_fills_it() {
    assert_eq!(cells_of(&grey_rgba(8, 8, 40), 8, 8).len(), GRID * GRID);
}

#[test]
fn a_new_picture_is_a_cut_and_a_drift_is_not() {
    let dark = cells_of(&grey_rgba(64, 64, 10), 64, 64);
    let light = cells_of(&grey_rgba(64, 64, 210), 64, 64);
    let drifted = cells_of(&grey_rgba(64, 64, 18), 64, 64);
    assert!(is_cut(&dark, &light), "black to white is a cut");
    assert!(!is_cut(&dark, &drifted), "eight luma steps is not");
    assert!(!is_cut(&dark, &dark), "and a still frame never is");
}

#[test]
fn the_threshold_itself_is_no_cut() {
    let dark = cells_of(&grey_rgba(64, 64, 10), 64, 64);
    let twelve = cells_of(&grey_rgba(64, 64, 22), 64, 64);
    let thirteen = cells_of(&grey_rgba(64, 64, 23), 64, 64);
    assert!(!is_cut(&dark, &twelve), "twelve steps is not above twelve");
    assert!(is_cut(&dark, &thirteen));
    assert!(is_cut(&thirteen, &dark), "a cut reads the same backwards");
    assert!(!is_cut(&[], &dark), "nothing before is no cut");
}

#[test]
fn luma_is_weighed_in_rgba_and_read_in_yuv() {
    let frame = flat_rgba(4, 1, [255, 0, 0]);
    assert_eq!(row_luma_sum(&frame, PixFmt::Rgba, 4, 0, 1, 3), 76 + 76);
    let planes = [10u8, 20, 30, 40, 128, 128, 128, 128];
    assert_eq!(row_luma_sum(&planes, PixFmt::Yuv420p, 2, 1, 0, 2), 70);
}

/// The red, green and blue of a pixel's bytes.
fn colour(pix_fmt: PixFmt, a: u8, b: u8, c: u8) -> (f32, f32, f32) {
    match pix_fmt {
        PixFmt::Rgba => (f32::from(a), f32::from(b), f32::from(c)),
        PixFmt::Yuv420p => {
            let (l, u, v) = (f32::from(a), f32::from(b) - 128.0, f32::from(c) - 128.0);
            (l + 1.402 * v, l - 0.344_136 * u - 0.714_136 * v, l + 1.772 * u)
        }
    }
}

/// A tap's weights, summing to one.
fn normalized(weights: &[u64]) -> Vec<f32> {
    let total: f32 = weights.iter().map(|w| *w as f32).sum();
    weights.iter().map(|w| *w as f32 / total).collect()
}

fn mix(samples: &Vec<f32>, weights: &Vec<u64>) -> f32 {
    samples.iter().zip(normalized(weights)).map(|(s, w)| s * w).sum()
}

const MEAN: [f32; 3] = [0.485, 0.456, 0.406];
const STD: [f32; 3] = [0.229, 0.224, 0.225];

fn finish(channel: usize, mixed: f32) -> f32 {
    let eight_bit = mixed.round().clamp(0.0, 255.0);
    (eight_bit / 255.0 - MEAN[channel]) / STD[channel]
}

fn prepared(frame: &[u8], pix_fmt: PixFmt, width: usize, height: usize) -> Vec<f32> {
    preprocess(frame, pix_fmt, width, height, &colour, &mix, &finish)
}

#[test]
fn the_short_side_lands_on_the_edge_and_the_long_one_keeps_its_shape() {
    // 320x240: the short side is 240, and 224 * 320 / 240 is 298.66,
    // truncated to 298.
    assert_eq!(resized_size(320, 240), (224, 298));
    // Portrait is the same the other way up.
    assert_eq!(resized_size(240, 320), (298, 224));
    // A square frame lands square.
    assert_eq!(resized_size(512, 512), (224, 224));
    // 1920x1080: 224 * 1920 / 1080 is 398.22.
    assert_eq!(resized_size(1920, 1080), (224, 398));
}

#[test]
fn one_axis_of_taps_covers_every_input_sample_exactly_once() {
    // Shrinking four to one: each output sample averages its own quarter, and
    // the four quarters together read every sample.
    let axis = taps(1, 4);
    assert_eq!(axis.len(), 1);
    assert_eq!(axis[0].start, 0);
    let total: f32 = normalized(&axis[0].weights).iter().sum();
    assert!((total - 1.0).abs() < 1e-6, "the weights are normalized");
    assert!(
        axis[0].weights.len() >= 4,
        "the support widens with the reduction, so all four samples are read"
    );
}

#[test]
fn an_identity_resize_reads_each_sample_squarely() {
    for tap in taps(4, 4) {
        let biggest = normalized(&tap.weights).iter().cloned().fold(f32::MIN, f32::max);
        assert!(
            (biggest - 1.0).abs() < 1e-6,
            "an unresized axis takes one sample whole"
        );
    }
}

#[test]
fn every_output_reads_something_and_every_input_is_read() {
    for (out, input) in [(1, 1), (7, 3), (3, 7), (224, 32), (224, 1000), (5, 5)] {
        let axis = taps(out, input);
        let mut read = vec![false; input];
        for tap in &axis {
            assert!(tap.weights.iter().any(|w| *w > 0));
            assert!(tap.start + tap.weights.len() <= input);
            for (k, w) in tap.weights.iter().enumerate() {
                read[tap.start + k] |= *w > 0;
            }
        }
        assert!(read.iter().all(|r| *r), "{input} to {out}");
    }
}

#[test]
fn a_doubled_axis_mixes_its_neighbours_three_to_one() {
    let axis: Vec<Tap> = taps(4, 2);
    assert_eq!(axis.len(), 4);
    let second = normalized(&axis[1].weights);
    assert_eq!(axis[1].start, 0);
    assert!((second[0] - 0.75).abs() < 1e-6 && (second[1] - 0.25).abs() < 1e-6);
}

#[test]
fn a_flat_frame_normalizes_to_one_value_per_channel() {
    // 51/255 is exactly 0.2, so each channel lands on (0.2 - mean) / std with
    // nothing to interpolate.
    let frame = flat_rgba(64, 48, [51, 51, 51]);
    let tensor = prepared(&frame, PixFmt::Rgba, 64, 48);
    assert_eq!(tensor.len(), TENSOR);
    for channel in 0..3 {
        let expected = (0.2 - MEAN[channel]) / STD[channel];
        for sample in &tensor[channel * PLANE..(channel + 1) * PLANE] {
            assert!(
                (sample - expected).abs() < 1e-5,
                "channel {channel}: got {sample}, want {expected}"
            );
        }
    }
}

#[test]
fn the_crop_keeps_the_middle_of_a_wide_frame() {
    // The crop takes the middle 224 columns of a 448-wide resize, which is
    // source columns 224..672 of 896: black up to the middle and white after.
    let (width, height) = (896usize, 448usize);
    let mut frame = flat_rgba(width, height, [0, 0, 0]);
    for y in 0..height {
        for x in width / 2..width {
            let base = (y * width + x) * 4;
            frame[base] = 255;
            frame[base + 1] = 255;
            frame[base + 2] = 255;
        }
    }
    let tensor = prepared(&frame, PixFmt::Rgba, width, height);
    let white = (1.0 - MEAN[0]) / STD[0];
    let black = (0.0 - MEAN[0]) / STD[0];
    let row = &tensor[112 * SIDE..][..SIDE];
    assert!(
        (row[SIDE - 1] - white).abs() < 1e-4,
        "got {}",
        row[SIDE - 1]
    );
    assert!((row[0] - black).abs() < 1e-4, "got {}", row[0]);
}

#[test]
fn neutral_chroma_yuv_is_grayscale_rgb() {
    let (width, height) = (4usize, 4usize);
    let mut frame = vec![100u8; width * height];
    frame.extend(vec![128u8; 2 * 2 * 2]);
    let (red, green, blue) = row_to_rgb(&frame, PixFmt::Yuv420p, width, height, 0, &colour);
    assert_eq!((red.len(), green.len(), blue.len()), (width, width, width));
    for x in 0..width {
        assert!((red[x] - 100.0).abs() < 0.01, "red is the luma");
        assert!((green[x] - 100.0).abs() < 0.01);
        assert!((blue[x] - 100.0).abs() < 0.01);
    }
}

#[test]
fn a_pixel_of_yuv_reads_the_chroma_it_shares() {
    // 3x3 luma, then 2x2 of each chroma.
    let frame: Vec<u8> = (0..9).chain(50..54).chain(70..74).collect();
    assert_eq!(pixel(&frame, PixFmt::Yuv420p, 3, 3, 0, 0), (0, 50, 70));
    assert_eq!(pixel(&frame, PixFmt::Yuv420p, 3, 3, 1, 1), (4, 50, 70));
    assert_eq!(pixel(&frame, PixFmt::Yuv420p, 3, 3, 2, 1), (5, 51, 71));
    assert_eq!(pixel(&frame, PixFmt::Yuv420p, 3, 3, 2, 2), (8, 53, 73));
}

/// A 32x32 rgba ramp: red is the column, green the row, blue their sum. Small
/// enough that the reference below is a short list of numbers.
fn ramp_rgba() -> Vec<u8> {
    let mut frame = Vec::with_capacity(32 * 32 * 4);
    for y in 0..32u32 {
        for x in 0..32u32 {
            frame.push((x * 8) as u8);
            frame.push((y * 8) as u8);
            frame.push(((x + y) * 4) as u8);
            frame.push(255);
        }
    }
    frame
}

#[test]
fn the_ramp_matches_the_reference_preprocessing() {
    // Reference values from the checkpoint's own pipeline, computed with
    // torch: bilinear antialiased resize of the 8-bit frame to the short
    // edge, rounded back to 8 bits, centre-cropped, rescaled by 1/255 and
    // normalized. A 32x32 frame is square, so the resize is 32 -> 224 and the
    // crop takes everything.
    let tensor = prepared(&ramp_rgba(), PixFmt::Rgba, 32, 32);
    // Corners and centre of each plane: (channel, y, x, value).
    let expected: [(usize, usize, usize, f32); 9] = [
        (0, 0, 0, -2.117_904),
        (0, 0, 223, 2.129_035),
        (0, 223, 0, -2.117_904),
        (1, 0, 0, -2.035_714),
        (1, 111, 111, 0.117_647),
        (1, 223, 223, 2.306_022),
        (2, 0, 0, -1.804_444),
        (2, 111, 111, 0.339_346),
        (2, 223, 223, 2.517_996),
    ];
    for (channel, y, x, want) in expected {
        let got = tensor[channel * PLANE + y * SIDE + x];
        // One 8-bit step is 1/255 before normalization, and the reference
        // rounds to 8 bits as this does, so the two agree to well inside one
        // step.
        assert!(
            (got - want).abs() < 0.01,
            "channel {channel} at ({y}, {x}): got {got}, want {want}"
        );
    }
}

#[test]
fn a_pixel_format_is_parsed_by_its_name_or_refused_by_it() {
    assert!(matches!(PixFmt::parse("yuv420p"), Ok(PixFmt::Yuv420p)));
    assert!(matches!(PixFmt::parse("rgba"), Ok(PixFmt::Rgba)));
    assert_eq!(
        PixFmt::parse("nv12").err(),
        Some("clips does not accept pixel format nv12".to_string())
    );
}

/// A reservoir fed `count` frames, each tensor one value long standing in for
/// the real one.
fn fed(count: usize) -> Reservoir<f32> {
    let mut reservoir = Reservoir::default();
    for i in 0..count {
        reservoir.offer(|| vec![i as f32]);
    }
    reservoir
}

#[test]
fn a_short_shot_keeps_every_frame_it_saw() {
    assert_eq!(fed(5).indices(), vec![0, 1, 2, 3, 4]);
    assert_eq!(fed(16).indices(), (0..16).collect::<Vec<_>>());
}

#[test]
fn a_longer_shot_thins_to_an_even_spread() {
    // The seventeenth frame is one too many, so every second frame goes and
    // the stride doubles.
    assert_eq!(fed(17).indices(), vec![0, 2, 4, 6, 8, 10, 12, 14, 16]);
    // And again at the thirty-third.
    assert_eq!(fed(33).indices(), vec![0, 4, 8, 12, 16, 20, 24, 28, 32]);
    assert_eq!(
        fed(60).indices(),
        vec![0, 4, 8, 12, 16, 20, 24, 28, 32, 36, 40, 44, 48, 52, 56],
        "sixty frames at a stride of four"
    );
}

#[test]
fn the_spacing_never_leaves_fewer_frames_than_the_tower_takes() {
    for count in 8..200 {
        assert!(
            fed(count).indices().len() >= FRAMES,
            "{count} frames thinned below {FRAMES}"
        );
        assert!(fed(count).indices().len() <= CAPACITY);
    }
}

#[test]
fn the_shots_last_frame_is_known_to_be_missing() {
    assert!(fed(16).holds_last(), "a stride of one holds every frame");
    assert!(
        !fed(60).holds_last(),
        "frame 59 is not a multiple of the stride"
    );
    assert!(fed(57).holds_last(), "frame 56 is");
}

#[test]
fn eight_frames_come_out_evenly_spread_over_what_was_kept() {
    assert_eq!(spread(8), [0, 1, 2, 3, 4, 5, 6, 7]);
    assert_eq!(spread(16), [0, 2, 4, 6, 9, 11, 13, 15]);
    assert_eq!(spread(15), [0, 2, 4, 6, 8, 10, 12, 14]);
    assert_eq!(
        spread(3),
        [0, 0, 1, 1, 1, 1, 2, 2],
        "a shot of three frames repeats them"
    );
    assert_eq!(spread(1), [0; FRAMES]);
}

#[test]
fn closing_a_sixty_frame_shot_reads_the_first_frame_the_last_and_six_between() {
    let mut reservoir = fed(60);
    assert!(!reservoir.holds_last());
    // Frame 59 goes in beside the fifteen kept, and eight of the sixteen are
    // taken.
    let input = reservoir.close(Some(vec![59.0]));
    assert_eq!(
        input,
        vec![0.0, 8.0, 16.0, 24.0, 36.0, 44.0, 52.0, 59.0],
        "the first frame, the last, and six evenly between"
    );
    assert!(reservoir.is_empty(), "the reservoir starts the next shot");
}

#[test]
fn closing_a_one_frame_shot_repeats_it_eight_times() {
    let mut reservoir = fed(1);
    assert!(reservoir.holds_last());
    assert_eq!(reservoir.close(None), vec![0.0; FRAMES]);
}

/// A vector scaled to unit length.
fn unit(vector: Vec<f32>) -> Vec<f32> {
    normalize(
        vector,
        &|v: &Vec<f32>| {
            let length = v.iter().map(|x| x * x).sum::<f32>().sqrt();
            (length > 0.0).then_some(length)
        },
        &|value: f32, by: f32| value / by,
    )
}

#[test]
fn a_vector_comes_out_of_the_tower_at_unit_length() {
    let vector = unit(vec![3.0, 4.0]);
    assert!((vector[0] - 0.6).abs() < 1e-6);
    assert!((vector[1] - 0.8).abs() < 1e-6);
    let length: f32 = unit(vec![1.0; EMBEDDING]).iter().map(|v| v * v).sum();
    assert!((length - 1.0).abs() < 1e-5);
}

#[test]
fn a_vector_with_no_direction_is_left_alone() {
    assert_eq!(unit(vec![0.0; 4]), vec![0.0; 4]);
}

#[test]
fn floats_survive_the_round_trip_through_a_tensors_bytes() {
    let values = vec![0.0f32, -1.5, 1e-8, 3.25];
    let words: Vec<u32> = values.iter().map(|v| v.to_bits()).collect();
    let back: Vec<f32> = le_f32s(&le_bytes(&words)).into_iter().map(f32::from_bits).collect();
    assert_eq!(back, values);
}

#[test]
fn bytes_come_lowest_first_and_a_part_word_is_dropped() {
    assert_eq!(le_bytes(&[0x0403_0201]), vec![1, 2, 3, 4]);
    assert_eq!(le_f32s(&[1, 2, 3, 4, 5, 6]), vec![0x0403_0201]);
    assert_eq!(le_longs(&[-2]), vec![254, 255, 255, 255, 255, 255, 255, 255]);
    assert_eq!(le_longs(&[49_407]), 49_407i64.to_le_bytes().to_vec());
}

#[test]
fn an_answer_without_the_towers_output_is_refused_by_name() {
    let outputs = vec![("last_hidden_state".to_string(), vec![0u8; 16])];
    let error = take(&outputs).expect_err("the tower's output is not there");
    assert!(error.contains("video_embeds"), "{error}");
    assert!(error.contains("last_hidden_state"), "{error}");
}

#[test]
fn the_refusal_lists_the_names_it_got_between_quotes() {
    let outputs = vec![
        ("a".to_string(), Vec::new()),
        ("say \"b\"".to_string(), Vec::new()),
    ];
    assert_eq!(
        take(&outputs).expect_err("neither is the output"),
        "clips: the graph answered without \"video_embeds\" (unclaimed: [\"a\", \"say \\\"b\\\"\"]); \
         this module wants X-CLIP's video tower export"
    );
    assert_eq!(find(&outputs, "a"), Some(0));
    assert_eq!(find(&outputs, "c"), None);
}

#[test]
fn an_embedding_of_the_wrong_width_is_refused() {
    let outputs = vec![(OUTPUT_NAME.to_string(), vec![0u8; 4 * 256])];
    let error = take(&outputs).expect_err("256 is not 512");
    assert!(error.contains("512"), "{error}");
    assert_eq!(
        error,
        "clips: video_embeds came back as 256 floats where the tower's shape fixes 512"
    );
}

#[test]
fn an_embedding_of_the_right_width_is_taken() {
    let outputs = vec![
        ("other".to_string(), vec![9u8; 8]),
        (OUTPUT_NAME.to_string(), 1.5f32.to_le_bytes().repeat(EMBEDDING)),
    ];
    assert_eq!(take(&outputs).expect("512 floats"), vec![1.5f32.to_bits(); EMBEDDING]);
}

/// Thousandths of a second.
const MILLIS: Rational = Rational { num: 1, den: 1000 };

/// A stretch that began at second zero of a stream counted in thousandths,
/// and has reached `at` seconds.
fn running_since_zero(at: f64) -> Segment<f32> {
    let mut segment = Segment::new(0);
    segment.last_pts = (at * 1000.0) as i64;
    segment
}

#[test]
fn a_cut_ends_the_stretch_it_arrives_in() {
    let segment = running_since_zero(2.0);
    assert!(ends_stretch(true, Some(&segment), 2_000, MILLIS));
    assert!(!ends_stretch(false, Some(&segment), 2_000, MILLIS));
}

#[test]
fn the_first_frame_of_a_stream_ends_nothing() {
    assert!(!ends_stretch::<f32>(true, None, 0, MILLIS));
    assert!(!ends_stretch::<f32>(false, None, 0, MILLIS));
}

#[test]
fn ten_seconds_ends_a_stretch_no_cut_has() {
    let segment = running_since_zero(9.9);
    assert!(
        !ends_stretch(false, Some(&segment), 9_999, MILLIS),
        "just under the cap the stretch runs on"
    );
    assert!(
        ends_stretch(false, Some(&segment), 10_000, MILLIS),
        "and at it the stretch ends"
    );
}

#[test]
fn the_cap_is_counted_from_the_stretchs_own_start() {
    // A stretch that began at the twentieth second is capped at the
    // thirtieth, not the tenth.
    let mut segment: Segment<f32> = Segment::new(20_000);
    segment.last_pts = 29_000;
    assert!(!ends_stretch(false, Some(&segment), 29_999, MILLIS));
    assert!(ends_stretch(false, Some(&segment), 30_000, MILLIS));
}

#[test]
fn params_are_refused_because_there_are_none() {
    assert!(validate_params("").is_ok());
    assert!(validate_params("{}").is_ok());
    assert!(validate_params(" {}\n").is_ok());
    let error = validate_params(r#"{"threshold":9}"#).expect_err("no params exist");
    assert!(error.contains("clips takes no params"), "{error}");
}

/// The shot index a row names.
fn shot(row: &str) -> Option<i64> {
    let value: serde_json::Value = serde_json::from_str(row).ok()?;
    value.get("shot")?.as_i64()
}

#[test]
fn a_shot_row_is_read_and_a_row_shaped_any_other_way_is_not() {
    assert_eq!(shot_of(&[shot(r#"{"shot":3}"#)]), Some(3));
    assert_eq!(shot_of(&[shot(r#"{"start_t":0,"end_t":1}"#)]), None);
    assert_eq!(shot_of(&[]), None);
    assert_eq!(
        shot_of(&[shot(r#"{"shot":1}"#), shot(r#"{"shot":2}"#)]),
        Some(2),
        "the last shot row a frame carries is the one that counts"
    );
    assert_eq!(shot_of(&[Some(1), None]), Some(1), "a row of another shape does not count");
}

#[test]
fn a_new_shot_value_ends_the_shot_running_and_a_repeat_does_not() {
    assert!(is_new_shot(Some(0), Some(1)));
    assert!(!is_new_shot(Some(1), Some(1)));
}

#[test]
fn the_first_shot_row_sets_the_baseline_without_ending_anything() {
    assert!(!is_new_shot(None, Some(0)));
}

#[test]
fn a_frame_with_no_shot_row_ends_nothing() {
    assert!(!is_new_shot(Some(0), None));
    assert!(!is_new_shot(None, None));
}

/// A stream of 2x1 rgba pictures counted in thousandths of a second.
fn small_stream() -> Opened<u8> {
    let format = Format::Video(VideoFormat {
        pix_fmt: "rgba".to_string(),
        width: 2,
        height: 1,
    });
    Opened::init(&format, MILLIS, "").expect("a stream of pictures")
}

/// A picture that stands for its own number.
fn numbered(frame: &[u8], _: PixFmt, _: usize, _: usize) -> Vec<u8> {
    vec![frame[0]]
}

fn frame_at(pts: i64, shots: Vec<Option<i64>>, number: u8) -> InFrame {
    InFrame { pts, shots, frame: vec![number; 8] }
}

fn span(clip: &Clip<u8>) -> (i64, i64, Vec<u8>) {
    (clip.start_pts, clip.last_pts, clip.input.clone())
}

#[test]
fn a_new_shot_leaves_the_clip_before_it_and_the_end_leaves_the_last() {
    let mut stream = small_stream();
    let frames = [
        frame_at(0, vec![Some(0)], 10),
        frame_at(40, vec![], 11),
        frame_at(80, vec![Some(0)], 12),
        frame_at(120, vec![Some(1)], 13),
        frame_at(160, vec![], 14),
    ];
    let out = stream.process(&frames, true, &numbered);
    assert_eq!(out.frames.len(), 5);
    assert!(out.frames.iter().all(|f| matches!(f.frame, FramePayload::Same)));
    let clips: Vec<Option<(i64, i64, Vec<u8>)>> =
        out.frames.iter().map(|f| f.clip.as_ref().map(span)).collect();
    assert_eq!(
        clips,
        vec![
            None,
            None,
            None,
            Some((0, 80, vec![10, 10, 11, 11, 11, 11, 12, 12])),
            None
        ]
    );
    assert_eq!(
        out.trailing.as_ref().map(span),
        Some((120, 160, vec![13, 13, 13, 13, 14, 14, 14, 14]))
    );
}

#[test]
fn a_long_shot_leaves_several_clips_each_under_the_cap() {
    let mut stream = small_stream();
    let mut frames = Vec::new();
    for i in 0..50i64 {
        frames.push(frame_at(i * 500, vec![], i as u8));
    }
    let out = stream.process(&frames, false, &numbered);
    assert!(out.trailing.is_none(), "the stream has not ended");
    let clips: Vec<(i64, i64)> = out
        .frames
        .iter()
        .filter_map(|f| f.clip.as_ref().map(|c| (c.start_pts, c.last_pts)))
        .collect();
    assert_eq!(clips, vec![(0, 9_500), (10_000, 19_500)]);
    let rest = stream.process(&[], true, &numbered);
    assert_eq!(
        rest.trailing.as_ref().map(|c| (c.start_pts, c.last_pts)),
        Some((20_000, 24_500))
    );
    assert!(stream.process(&[], true, &numbered).trailing.is_none(), "nothing is left");
}

#[test]
fn a_shots_last_frame_joins_its_eight() {
    let mut stream = small_stream();
    let mut frames = Vec::new();
    for i in 0..60i64 {
        frames.push(frame_at(i, vec![], i as u8));
    }
    let out = stream.process(&frames, true, &numbered);
    assert_eq!(
        out.trailing.as_ref().map(span),
        Some((0, 59, vec![0, 8, 16, 24, 36, 44, 52, 59]))
    );
}

#[test]
fn a_clip_of_pictures_is_its_frames_prepared() {
    let (width, height) = (6, 4);
    let format = Format::Video(VideoFormat {
        pix_fmt: "rgba".to_string(),
        width: width as u32,
        height: height as u32,
    });
    let mut stream = Opened::<f32>::init(&format, MILLIS, "").expect("a stream of pictures");
    let frames: Vec<InFrame> = (0..3u8)
        .map(|i| InFrame {
            pts: i64::from(i),
            shots: vec![],
            frame: (0..width * height * 4).map(|b| b as u8 + 50 * i).collect(),
        })
        .collect();
    let out = stream.process_pictures(&frames, true, &colour, &mix, &finish);
    assert!(out.frames.iter().all(|f| f.clip.is_none()));
    let clip = out.trailing.expect("the stretch that was running");
    let mut want = Vec::new();
    for i in [0, 0, 1, 1, 1, 1, 2, 2] {
        want.extend(prepared(&frames[i].frame, PixFmt::Rgba, width, height));
    }
    assert_eq!(clip.input.len(), FRAMES * 3 * 224 * 224);
    assert!(clip.input == want, "the eight are prepared frames");
    let none = stream.process_pictures(&[], true, &colour, &mix, &finish);
    assert!(none.frames.is_empty() && none.trailing.is_none());
}

#[test]
fn a_frame_that_is_passed_over_is_never_read() {
    let numbers = |count: u8| -> Vec<InFrame> {
        (0..count).map(|i| frame_at(i64::from(i), vec![], i)).collect()
    };
    // The eighteenth frame lies between strides: nothing of it is read.
    let mut frames = numbers(19);
    frames[17].frame.clear();
    let mut stream = small_stream();
    assert!(stream.can_read(&frames, true));
    let out = stream.process(&frames, true, &numbered);
    assert_eq!(out.trailing.as_ref().map(|c| c.input[7]), Some(18));
    // As the last of its stretch it would be read.
    assert!(!small_stream().can_read(&frames[..18], true));
    assert!(small_stream().can_read(&frames[..18], false));
    let mut open = small_stream();
    open.process(&frames[..18], false, &numbered);
    assert!(!open.can_read(&[], true));
    assert!(!open.can_read(&[frame_at(18, vec![], 18), frame_at(20_000, vec![], 19)][1..], false));
    assert!(open.can_read(&frames[18..], true));
    // A frame that is kept is read.
    let mut short = numbers(3);
    short[2].frame.truncate(7);
    assert!(!small_stream().can_read(&short, false));
    assert!(small_stream().can_read(&[], true));
}

#[test]
fn a_frame_is_taken_with_all_its_bytes_and_a_size_to_resize() {
    let stream = |pix_fmt: &str, width: u32, height: u32| {
        let format = Format::Video(VideoFormat { pix_fmt: pix_fmt.to_string(), width, height });
        Opened::<u8>::init(&format, MILLIS, "").expect("a stream of pictures")
    };
    assert!(stream("rgba", 3, 5).takes(&[0; 60]));
    assert!(!stream("rgba", 3, 5).takes(&[0; 59]));
    // Fifteen luma samples and two planes of two by three.
    assert!(stream("yuv420p", 3, 5).takes(&[0; 27]));
    assert!(!stream("yuv420p", 3, 5).takes(&[0; 26]));
    assert!(!stream("rgba", 0, 5).takes(&[0; 60]));
    assert!(!stream("rgba", u32::MAX, u32::MAX).takes(&[0; 60]));
}

#[test]
fn calls_join_however_the_frames_are_handed_over() {
    let frames: Vec<InFrame> = (0..40u8)
        .map(|i| frame_at(i64::from(i) * 400, vec![Some(i64::from(i / 18))], i))
        .collect();
    let mut whole = small_stream();
    let at_once = whole.process(&frames, true, &numbered);
    let mut parts = small_stream();
    let mut clips: Vec<Option<(i64, i64, Vec<u8>)>> = Vec::new();
    for i in 0..frames.len() {
        let out = parts.process(&frames[i..i + 1], false, &numbered);
        assert!(out.trailing.is_none());
        clips.extend(out.frames.iter().map(|f| f.clip.as_ref().map(span)));
    }
    let end = parts.process(&[], true, &numbered);
    assert_eq!(clips, at_once.frames.iter().map(|f| f.clip.as_ref().map(span)).collect::<Vec<_>>());
    assert_eq!(end.trailing.as_ref().map(span), at_once.trailing.as_ref().map(span));
    // A clip's eight come from its own stretch, its first frame to its last.
    let cut = clips[18].as_ref().expect("the new shot ends a stretch");
    assert_eq!((cut.0, cut.1), (0, 17 * 400));
    assert_eq!(cut.2, vec![0, 2, 6, 8, 10, 12, 16, 17]);
}

#[test]
fn a_frame_between_strides_is_not_prepared() {
    let mut reservoir = Reservoir::default();
    for count in 0..300usize {
        let mut stride = 1;
        while count > CAPACITY * stride {
            stride *= 2;
        }
        let mut ran = 0;
        reservoir.offer(|| {
            ran += 1;
            vec![0.0f32]
        });
        assert_eq!(ran, usize::from(count % stride == 0), "after {count} frames");
    }
}

#[test]
fn a_stream_of_samples_or_of_another_format_is_refused() {
    let samples = Format::Audio(AudioFormat {
        sample_fmt: "f32".to_string(),
        sample_rate: 16_000,
        channels: 1,
    });
    let picture = |pix_fmt: &str| {
        Format::Video(VideoFormat {
            pix_fmt: pix_fmt.to_string(),
            width: 4,
            height: 2,
        })
    };
    let refused = |format: &Format, params: &str| Opened::<u8>::init(format, MILLIS, params).err();
    assert_eq!(
        refused(&samples, "").as_deref(),
        Some("clips reads pictures, and this stream is audio")
    );
    assert_eq!(
        refused(&picture("gray"), "").as_deref(),
        Some("clips does not accept pixel format gray")
    );
    assert_eq!(
        refused(&samples, " x ").as_deref(),
        Some("clips takes no params, got: x"),
        "params come first"
    );
    let opened = Opened::<u8>::init(&picture("yuv420p"), MILLIS, "{}").ok();
    assert_eq!(opened.map(|o| (o.width, o.height)), Some((4, 2)));
}

#[test]
fn clips_says_what_it_is() {
    let meta = describe::clips::describe();
    assert_eq!(meta.meta.name, "clips");
    assert_eq!(meta.meta.pixel_formats, vec!["yuv420p", "rgba"]);
    assert_eq!((meta.window, meta.stride), (1, 1));
    assert!(meta.reads_rows && !meta.forwards_rows && meta.one_to_one && !meta.pure);
}

#[test]
fn the_video_tower_is_fed_eight_frames() {
    let feed = feed(&[1.0f32.to_bits(), 2.0f32.to_bits()]);
    assert_eq!(feed.name, "pixel_values");
    assert_eq!(feed.dims, vec![1, 8, 3, 224, 224]);
    assert!(matches!(feed.ty, TensorType::Fp32));
    assert_eq!(feed.data, [1.0f32.to_le_bytes(), 2.0f32.to_le_bytes()].concat());
}

#[test]
fn a_failure_is_told_in_the_codes_own_spelling() {
    let spelled = [
        (ErrorCode::InvalidArgument, "invalid-argument"),
        (ErrorCode::InvalidEncoding, "invalid-encoding"),
        (ErrorCode::Timeout, "timeout"),
        (ErrorCode::RuntimeError, "runtime-error"),
        (ErrorCode::UnsupportedOperation, "unsupported-operation"),
        (ErrorCode::TooLarge, "too-large"),
        (ErrorCode::NotFound, "not-found"),
        (ErrorCode::Security, "security"),
        (ErrorCode::Unknown, "unknown"),
    ];
    for (code, spelling) in spelled {
        assert_eq!(
            failed("clips", "compute", code, "out of memory"),
            format!("clips: compute: {spelling} (out of memory)")
        );
    }
}
