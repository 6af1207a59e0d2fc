use event_raster::event::Event;
use event_raster::finalize::finalize_resized;
use event_raster::ingest::ingest;
use event_raster::range::time_range;
use event_raster::raster::Framebuffer;
use event_raster::raster::RasterError;
use event_raster::raster::default_palette;
use event_raster::raster::map_x;
use event_raster::raster::rasterize;
use event_raster::raster::rasterize_normalized;

const BACKGROUND: u32 = 0x000000ff;

fn ev(channel: u8, timestamp: u64, note: u8) -> Event {
    Event { channel, timestamp, note }
}

fn lines(ls: &[&str]) -> Vec<String> {
    ls.iter().map(|l| l.to_string()).collect()
}

fn pixel(fb: &Framebuffer, x: u32, y: u32) -> u32 {
    fb.pixels[(y * fb.width + x) as usize]
}

#[test]
fn ingest_keeps_valid_lines_in_order() {
    let input = lines(&[
        "(1, 10, 60)",
        "garbage",
        "(2, 20, 61)",
        "(300, 30, 62)",
        "(3, 30, 62)",
        "(4, 40)",
    ]);
    let (events, errs) = ingest(&input);
    assert_eq!(events, vec![ev(1, 10, 60), ev(2, 20, 61), ev(3, 30, 62)]);
    assert_eq!(errs.len(), 3);
}

#[test]
fn ingest_of_nothing_is_empty() {
    let (events, errs) = ingest(&Vec::new());
    assert!(events.is_empty());
    assert!(errs.is_empty());
}

#[test]
fn empty_dataset_has_no_range() {
    // zero valid events: the pipeline reports "no data" instead of a range
    assert_eq!(time_range(&Vec::new()), None);
    let (events, _) = ingest(&lines(&["not an event"]));
    assert_eq!(time_range(&events), None);
}

#[test]
fn range_of_events() {
    let events = vec![ev(0, 50, 1), ev(1, 10, 2), ev(2, 99, 3)];
    assert_eq!(time_range(&events), Some((10, 99)));
}

#[test]
fn constant_timestamps_collapse_the_range() {
    let events = vec![ev(0, 10, 1), ev(1, 10, 2), ev(2, 10, 3)];
    assert_eq!(time_range(&events), Some((10, 10)));
    // every event lands at x = 0; no division by zero
    assert_eq!(map_x(10, 10, 10, 512), 0);
    let palette = default_palette();
    let fb = rasterize(&events, 10, 10, 512, 128, &palette, BACKGROUND).unwrap();
    assert_eq!(pixel(&fb, 0, 1), palette[0]);
    assert_eq!(pixel(&fb, 0, 2), palette[1]);
    assert_eq!(pixel(&fb, 0, 3), palette[2]);
    assert_eq!(pixel(&fb, 1, 1), BACKGROUND);
}

#[test]
fn map_x_is_linear_over_the_range() {
    // width 101 over the range [0, 100]: each timestamp is its own column
    assert_eq!(map_x(0, 0, 100, 101), 0);
    assert_eq!(map_x(50, 0, 100, 101), 50);
    assert_eq!(map_x(100, 0, 100, 101), 100);
}

#[test]
fn map_x_rounds_to_the_nearest_column() {
    // width 2 over [0, 100]: the midpoint 50 rounds up to column 1
    assert_eq!(map_x(0, 0, 100, 2), 0);
    assert_eq!(map_x(49, 0, 100, 2), 0);
    assert_eq!(map_x(50, 0, 100, 2), 1);
    assert_eq!(map_x(100, 0, 100, 2), 1);
}

#[test]
fn rasterizes_three_events() {
    let events = vec![ev(0, 0, 10), ev(1, 50, 20), ev(2, 100, 30)];
    let palette = default_palette();
    let fb = rasterize(&events, 0, 100, 101, 128, &palette, BACKGROUND).unwrap();
    assert_eq!(fb.width, 101);
    assert_eq!(fb.height, 128);
    assert_eq!(pixel(&fb, 0, 10), palette[0]);
    assert_eq!(pixel(&fb, 50, 20), palette[1]);
    assert_eq!(pixel(&fb, 100, 30), palette[2]);
    assert_eq!(pixel(&fb, 50, 10), BACKGROUND);
}

#[test]
fn later_event_wins_the_pixel() {
    // two events with identical coordinates and different colors: the
    // framebuffer keeps the color of the later one
    let events = vec![ev(5, 30, 64), ev(9, 30, 64)];
    let palette = default_palette();
    let fb = rasterize(&events, 0, 60, 64, 128, &palette, BACKGROUND).unwrap();
    let x = map_x(30, 0, 60, 64);
    assert_eq!(pixel(&fb, x, 64), palette[9]);
}

#[test]
fn channel_out_of_range_fails_fast() {
    let events = vec![ev(0, 0, 1), ev(16, 1, 1)];
    let palette = default_palette();
    let r = rasterize(&events, 0, 1, 32, 32, &palette, BACKGROUND);
    assert_eq!(r.unwrap_err(), RasterError::ChannelOutOfRange { channel: 16 });
}

#[test]
fn note_out_of_range_fails_fast() {
    let events = vec![ev(0, 0, 1), ev(1, 1, 32)];
    let palette = default_palette();
    let r = rasterize(&events, 0, 1, 32, 32, &palette, BACKGROUND);
    assert_eq!(r.unwrap_err(), RasterError::NoteOutOfRange { note: 32 });
}

#[test]
fn palette_entries_are_fixed() {
    let p = default_palette();
    assert_eq!(p.len(), 16);
    assert_eq!(p[0], 0xaaaaaaff);
    assert_eq!(p[3], 0x00ff00ff);
    assert_eq!(p[8], 0xff0000ff);
    assert_eq!(p[15], 0xffffffff);
    // the alpha byte is opaque throughout
    assert!(p.iter().all(|c| c & 0xff == 0xff));
}

#[test]
fn framebuffer_flattens_to_rgba_bytes() {
    let events = vec![ev(8, 0, 0)];
    let palette = default_palette();
    let fb = rasterize(&events, 0, 0, 2, 1, &palette, BACKGROUND).unwrap();
    // palette[8] is 0xff0000ff: red, opaque; the second pixel is background
    let bytes = fb.to_rgba_bytes();
    assert_eq!(bytes, vec![0xff, 0x00, 0x00, 0xff, 0x00, 0x00, 0x00, 0xff]);
}

#[test]
fn finalize_scales_with_nearest_neighbor() {
    let events = vec![ev(3, 0, 0)];
    let palette = default_palette();
    let fb = rasterize(&events, 0, 0, 1, 1, &palette, BACKGROUND).unwrap();
    let bytes = finalize_resized(&fb, 2, 2).expect("codec should accept the buffer");
    // a 1x1 image scaled to 2x2 repeats its single green pixel
    assert_eq!(bytes.len(), 16);
    for p in bytes.chunks(4) {
        assert_eq!(p, &[0x00, 0xff, 0x00, 0xff]);
    }
}

#[test]
fn normalized_rasterization_reports_no_data_on_empty_input() {
    let palette = default_palette();
    let r = rasterize_normalized(&Vec::new(), 32, 32, &palette, BACKGROUND);
    assert_eq!(r, Ok(None));
}

#[test]
fn normalized_rasterization_matches_the_manual_stages() {
    let events = vec![ev(0, 5, 1), ev(1, 10, 2), ev(2, 15, 3)];
    let palette = default_palette();
    let combined = rasterize_normalized(&events, 3, 8, &palette, BACKGROUND).unwrap().unwrap();
    let (mn, mx) = time_range(&events).unwrap();
    let manual = rasterize(&events, mn, mx, 3, 8, &palette, BACKGROUND).unwrap();
    assert_eq!(combined, manual);
}

#[test]
fn whole_pipeline_on_text_input() {
    let input = lines(&[
        "(0, 5, 1)",
        "bad line",
        "(1, 10, 2)",
        "(2, 15, 3)",
    ]);
    let (events, errs) = ingest(&input);
    assert_eq!(errs.len(), 1);
    let (mn, mx) = time_range(&events).unwrap();
    assert_eq!((mn, mx), (5, 15));
    let palette = default_palette();
    let fb = rasterize(&events, mn, mx, 3, 8, &palette, BACKGROUND).unwrap();
    assert_eq!(pixel(&fb, 0, 1), palette[0]);
    assert_eq!(pixel(&fb, 1, 2), palette[1]);
    assert_eq!(pixel(&fb, 2, 3), palette[2]);
}
