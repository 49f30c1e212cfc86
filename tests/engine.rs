use lightness_curve::{
    gather_series, order_entries, Config, EngineError, FileEntry, ItemFailure, Layout, MetricMode, OrderKey,
    PixelBuffer, Samples, Source, UNIT,
};

const ALL_MODES: [MetricMode; 8] = [
    MetricMode::Mean,
    MetricMode::Luma,
    MetricMode::Red,
    MetricMode::Green,
    MetricMode::Blue,
    MetricMode::Hue,
    MetricMode::Saturation,
    MetricMode::Value,
];

fn config(mode: u8) -> Config {
    Config {
        image_dir: String::from("images"),
        order_by: 0,
        descending: false,
        mode,
        top_left_x: None,
        top_left_y: None,
        width: None,
        height: None,
        output_data_path: None,
        output_plot_path: None,
    }
}

fn with_roi(mode: u8, x: u32, y: u32, w: u32, h: u32) -> Config {
    let mut c = config(mode);
    c.top_left_x = Some(x);
    c.top_left_y = Some(y);
    c.width = Some(w);
    c.height = Some(h);
    c
}

fn entry(name: &str, modified: Option<i128>) -> FileEntry {
    FileEntry {
        path: format!("dir/{name}"),
        name: name.as_bytes().to_vec(),
        created: None,
        modified,
    }
}

fn uniform_rgb8(w: u32, h: u32, rgb: [u8; 3]) -> PixelBuffer {
    let mut s = Vec::new();
    for _ in 0..w * h {
        s.extend_from_slice(&rgb);
    }
    PixelBuffer::new(w, h, Layout::Rgb, Samples::Eight(s)).unwrap()
}

fn mode_index(m: MetricMode) -> u8 {
    ALL_MODES.iter().position(|x| *x == m).unwrap() as u8
}

#[test]
fn hue_saturation_value_of_primaries() {
    let cases = [
        ([255u64, 0, 0], 0u64),
        ([0, 255, 0], 333_333_333),
        ([0, 0, 255], 666_666_666),
    ];
    for ([r, g, b], hue) in cases {
        assert_eq!(MetricMode::Hue.get_target_value(r, g, b, 255), hue);
        assert_eq!(MetricMode::Saturation.get_target_value(r, g, b, 255), UNIT);
        assert_eq!(MetricMode::Value.get_target_value(r, g, b, 255), UNIT);
    }
}

#[test]
fn gray_has_no_hue_or_saturation() {
    assert_eq!(MetricMode::Saturation.get_target_value(128, 128, 128, 255), 0);
    assert_eq!(MetricMode::Hue.get_target_value(128, 128, 128, 255), 0);
    assert_eq!(MetricMode::Value.get_target_value(128, 128, 128, 255), 501_960_784);
    // exactly one half on a scale of two
    assert_eq!(MetricMode::Saturation.get_target_value(1, 1, 1, 2), 0);
    assert_eq!(MetricMode::Hue.get_target_value(1, 1, 1, 2), 0);
    assert_eq!(MetricMode::Value.get_target_value(1, 1, 1, 2), 500_000_000);
}

#[test]
fn hue_wraps_negative_angles() {
    // red is largest and blue exceeds green: 360 - 60 * 255 / 255 = 300 degrees
    assert_eq!(MetricMode::Hue.get_target_value(255, 0, 255, 255), 833_333_333);
    assert_eq!(MetricMode::Hue.get_target_value(255, 0, 51, 255), 966_666_666);
}

#[test]
fn mean_luma_and_channels() {
    assert_eq!(MetricMode::Mean.get_target_value(255, 0, 0, 255), 333_333_333);
    assert_eq!(MetricMode::Mean.get_target_value(255, 255, 255, 255), UNIT);
    assert_eq!(MetricMode::Luma.get_target_value(255, 255, 255, 255), 1_000_000_100);
    assert_eq!(MetricMode::Luma.get_target_value(0, 255, 0, 255), 715_152_200);
    assert_eq!(MetricMode::Red.get_target_value(51, 102, 204, 255), 200_000_000);
    assert_eq!(MetricMode::Green.get_target_value(51, 102, 204, 255), 400_000_000);
    assert_eq!(MetricMode::Blue.get_target_value(51, 102, 204, 255), 800_000_000);
    assert_eq!(MetricMode::Saturation.get_target_value(51, 102, 204, 255), 750_000_000);
}

#[test]
fn mode_numbers() {
    for (i, m) in ALL_MODES.iter().enumerate() {
        assert_eq!(MetricMode::from_index(i as u8), Ok(*m));
    }
    assert_eq!(MetricMode::from_index(8), Err(EngineError::Config));
    assert_eq!(OrderKey::from_index(0), Ok(OrderKey::Name));
    assert_eq!(OrderKey::from_index(1), Ok(OrderKey::Created));
    assert_eq!(OrderKey::from_index(2), Ok(OrderKey::Modified));
    assert_eq!(OrderKey::from_index(3), Err(EngineError::Config));
}

#[test]
fn invalid_mode_is_a_config_error() {
    let img = uniform_rgb8(2, 2, [1, 2, 3]);
    assert_eq!(config(8).get_mean_val(&img), Err(EngineError::Config));
}

#[test]
fn uniform_image_measures_its_color() {
    let rgb = [10u8, 200, 30];
    let img = uniform_rgb8(3, 2, rgb);
    for m in ALL_MODES {
        let once = m.get_target_value(rgb[0] as u64, rgb[1] as u64, rgb[2] as u64, 255);
        assert_eq!(config(mode_index(m)).get_mean_val(&img), Ok(once));
        assert_eq!(with_roi(mode_index(m), 1, 0, 2, 2).get_mean_val(&img), Ok(once));
    }
}

#[test]
fn transparent_pixel_contributes_nothing() {
    // one opaque white pixel and one fully transparent red one
    let s = vec![255u8, 255, 255, 255, 255, 0, 0, 0];
    let img = PixelBuffer::new(2, 1, Layout::Rgba, Samples::Eight(s)).unwrap();
    assert_eq!(config(0).get_mean_val(&img), Ok(500_000_000));
    let only_clear = PixelBuffer::new(1, 1, Layout::Rgba, Samples::Eight(vec![255, 0, 0, 0])).unwrap();
    for m in ALL_MODES {
        assert_eq!(config(mode_index(m)).get_mean_val(&only_clear), Ok(0));
    }
    let gray = PixelBuffer::new(2, 1, Layout::LumaAlpha, Samples::Eight(vec![255, 0, 255, 255])).unwrap();
    assert_eq!(config(5).get_mean_val(&gray), Ok(500_000_000));
}

#[test]
fn half_alpha_premultiplies() {
    let img = PixelBuffer::new(1, 1, Layout::Rgba, Samples::Sixteen(vec![65535, 0, 0, 32768])).unwrap();
    // 65535 * 32768 / 65535^2 = 32768 / 65535
    assert_eq!(config(2).get_mean_val(&img), Ok(500_007_629));
    // hue is unchanged by premultiplication
    assert_eq!(config(5).get_mean_val(&img), Ok(0));
}

#[test]
fn gray_buffers_ignore_the_mode() {
    let img = PixelBuffer::new(2, 1, Layout::Luma, Samples::Sixteen(vec![0, 65535])).unwrap();
    for m in ALL_MODES {
        assert_eq!(config(mode_index(m)).get_mean_val(&img), Ok(500_000_000));
    }
    let img8 = PixelBuffer::new(1, 1, Layout::Luma, Samples::Eight(vec![51])).unwrap();
    assert_eq!(config(5).get_mean_val(&img8), Ok(200_000_000));
}

#[test]
fn mean_rounds_down() {
    let img = PixelBuffer::new(3, 1, Layout::Luma, Samples::Eight(vec![255, 0, 0])).unwrap();
    assert_eq!(config(0).get_mean_val(&img), Ok(333_333_333));
}

#[test]
fn full_roi_equals_no_roi() {
    let s: Vec<u8> = (0..24).map(|i| (i * 10) as u8).collect();
    let img = PixelBuffer::new(4, 2, Layout::Rgb, Samples::Eight(s)).unwrap();
    for m in 0..8u8 {
        assert_eq!(with_roi(m, 0, 0, 4, 2).get_mean_val(&img), config(m).get_mean_val(&img));
    }
}

#[test]
fn roi_selects_a_region() {
    let img = PixelBuffer::new(2, 2, Layout::Luma, Samples::Eight(vec![0, 255, 51, 102])).unwrap();
    assert_eq!(with_roi(0, 1, 0, 1, 1).get_mean_val(&img), Ok(UNIT));
    assert_eq!(with_roi(0, 0, 1, 2, 1).get_mean_val(&img), Ok(300_000_000));
    assert_eq!(with_roi(0, 0, 0, 1, 2).get_mean_val(&img), Ok(100_000_000));
}

#[test]
fn roi_errors() {
    let img = uniform_rgb8(4, 3, [1, 2, 3]);
    assert_eq!(with_roi(0, 3, 0, 2, 1).get_mean_val(&img), Err(EngineError::Roi));
    assert_eq!(with_roi(0, 0, 2, 1, 2).get_mean_val(&img), Err(EngineError::Roi));
    assert_eq!(with_roi(0, 0, 0, 0, 1).get_mean_val(&img), Err(EngineError::Roi));
    let mut partial = config(0);
    partial.top_left_x = Some(0);
    assert_eq!(partial.get_mean_val(&img), Err(EngineError::Config));
    let empty = PixelBuffer::new(0, 0, Layout::Rgb, Samples::Eight(vec![])).unwrap();
    assert_eq!(config(0).get_mean_val(&empty), Err(EngineError::Roi));
    assert_eq!(config(0).get_image_roi(4, 3).map(|r| (r.x, r.y, r.width, r.height)), Ok((0, 0, 4, 3)));
}

#[test]
fn buffer_length_must_match() {
    let r = PixelBuffer::new(2, 2, Layout::Rgb, Samples::Eight(vec![0; 11]));
    assert!(matches!(r, Err(EngineError::UnsupportedFormat)));
    let ok = PixelBuffer::new(2, 2, Layout::LumaAlpha, Samples::Sixteen(vec![0; 8])).unwrap();
    assert_eq!((ok.width(), ok.height()), (2, 2));
}

fn names(paths: Vec<String>) -> Vec<String> {
    paths.into_iter().map(|p| p.trim_start_matches("dir/").to_string()).collect()
}

#[test]
fn ordering_by_name() {
    let entries = || vec![entry("b.png", None), entry("a.png", None), entry("c.png", None)];
    let mut c = config(0);
    let asc = c.get_ordered_image_paths(Source::Directory(entries())).unwrap();
    assert_eq!(names(asc), vec!["a.png", "b.png", "c.png"]);
    c.descending = true;
    let desc = c.get_ordered_image_paths(Source::Directory(entries())).unwrap();
    assert_eq!(names(desc), vec!["c.png", "b.png", "a.png"]);
}

#[test]
fn ordering_names_bytewise() {
    let entries = vec![entry("ab", None), entry("B", None), entry("a", None), entry("b", None)];
    let r = config(0).get_ordered_image_paths(Source::Directory(entries)).unwrap();
    assert_eq!(names(r), vec!["B", "a", "ab", "b"]);
}

#[test]
fn ordering_by_modification_time() {
    let entries = vec![
        entry("a.png", Some(300)),
        entry("b.png", Some(-5)),
        entry("c.png", Some(100)),
    ];
    let mut c = config(0);
    c.order_by = 2;
    let r = c.get_ordered_image_paths(Source::Directory(entries)).unwrap();
    assert_eq!(names(r), vec!["b.png", "c.png", "a.png"]);
}

#[test]
fn ordering_ties_keep_listing_order() {
    let entries = vec![entry("x", Some(1)), entry("y", Some(1)), entry("z", Some(0))];
    let mut c = config(0);
    c.order_by = 2;
    let r = c.get_ordered_image_paths(Source::Directory(entries)).unwrap();
    assert_eq!(names(r), vec!["z", "x", "y"]);
}

#[test]
fn ordering_errors() {
    let mut c = config(0);
    assert_eq!(c.get_ordered_image_paths(Source::Missing), Err(EngineError::Path));
    c.order_by = 1;
    let r = c.get_ordered_image_paths(Source::Directory(vec![entry("a", Some(1))]));
    assert_eq!(r, Err(EngineError::Metadata));
    c.order_by = 3;
    let r = c.get_ordered_image_paths(Source::Directory(vec![entry("a", Some(1))]));
    assert_eq!(r, Err(EngineError::Config));
    let single = c.get_ordered_image_paths(Source::File(String::from("one.png")));
    assert_eq!(single, Ok(vec![String::from("one.png")]));
    c.order_by = 0;
    assert_eq!(c.get_ordered_image_paths(Source::Directory(vec![])), Ok(vec![]));
}

#[test]
fn order_entries_descending_by_name() {
    let entries = vec![entry("b", None), entry("c", None), entry("a", None)];
    let r: Vec<String> = order_entries(entries, OrderKey::Name, true).into_iter().map(|e| e.path).collect();
    assert_eq!(names(r), vec!["c", "b", "a"]);
}

#[test]
fn gather_keeps_order() {
    let r = gather_series(vec![Ok(3), Ok(1), Ok(2)]);
    assert_eq!(r, Ok(vec![3, 1, 2]));
    assert_eq!(gather_series(vec![]), Ok(vec![]));
}

#[test]
fn one_failure_yields_no_values() {
    let r = gather_series(vec![Ok(3), Err(EngineError::Decode), Ok(2), Err(EngineError::Roi)]);
    assert_eq!(r, Err(ItemFailure { index: 1, error: EngineError::Decode }));
}

#[test]
fn runs_are_deterministic() {
    let images: Vec<PixelBuffer> = (0..4u8).map(|i| uniform_rgb8(3, 3, [i * 20, 90, 255 - i])).collect();
    let c = config(5);
    let run = || gather_series(images.iter().map(|img| c.get_mean_val(img)).collect());
    let first = run();
    assert!(first.is_ok());
    assert_eq!(first, run());
}
