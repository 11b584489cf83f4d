use verse::artwork::cache::{bucket_for, cap, quantise_edge, rank, ArtKey};
use verse::artwork::palette::{average, cover_sample, median_cut, opaque_pixels, widest, Region};

#[test]
fn identical_bytes_share_a_key() {
    assert_eq!(ArtKey::of(&[1, 2, 3]), ArtKey::of(&[1, 2, 3]));
    assert_ne!(ArtKey::of(&[1, 2, 3]), ArtKey::of(&[1, 2, 4]));
}

#[test]
fn a_larger_held_size_is_preferred_to_a_smaller_one() {
    assert!(rank(512, 256) < rank(128, 256));
    assert!(rank(256, 256) < rank(512, 256));
    assert!(rank(1024, 256) > rank(512, 256));
}

#[test]
fn a_request_rounds_up_to_the_ladder() {
    assert_eq!(quantise_edge(1), 64);
    assert_eq!(quantise_edge(64), 64);
    assert_eq!(quantise_edge(65), 128);
    assert_eq!(quantise_edge(99_999), 2048);
}

#[test]
fn nearby_pane_sizes_share_one_bucket() {
    let buckets: Vec<u32> = [257u32, 300, 400, 511, 512].iter().map(|&edge| quantise_edge(edge)).collect();
    assert!(
        buckets.iter().all(|&bucket| bucket == 512),
        "a divider drag crossed buckets at {buckets:?}, so it would resample per pixel"
    );
}

#[test]
fn no_source_is_ever_filed_above_its_own_size() {
    for extent in [50u32, 64, 300, 599, 1280, 2000, 4000] {
        let bucket = bucket_for(4096, Some(extent));
        assert!(
            bucket <= extent.max(64),
            "a {extent}px cover was filed under {bucket}, so the same pixels could be held twice"
        );
    }
}

#[test]
fn a_request_below_the_cap_is_untouched_by_it() {
    assert_eq!(bucket_for(200, Some(1280)), 256);
}

#[test]
fn the_cap_is_the_largest_step_a_source_holds() {
    assert_eq!(cap(50), 64);
    assert_eq!(cap(599), 512);
    assert_eq!(cap(1280), 1024);
    assert_eq!(cap(4000), 2048);
}

#[test]
fn a_cover_with_nothing_to_split_still_answers() {
    let mut pixels = vec![[80u8, 20, 20]; 64];
    let (_, count) = median_cut(&mut pixels);

    assert_eq!(
        count, 1,
        "a flat cover was cut into {count} boxes, so the split ran on a region with no spread to divide"
    );
}

#[test]
fn the_boxes_tile_the_pixels_exactly() {
    let mut pixels: Vec<[u8; 3]> = (0..512u32)
        .map(|index| {
            let value = (index % 256) as u8;
            [value, value.wrapping_mul(3), value.wrapping_mul(7)]
        })
        .collect();
    let total = pixels.len();

    let (mut boxes, count) = median_cut(&mut pixels);
    let boxes = &mut boxes[..count];
    boxes.sort_by_key(|region| region.start);

    assert_eq!(boxes.first().map(|region| region.start), Some(0));
    assert_eq!(boxes.last().map(|region| region.end), Some(total));

    for pair in boxes.windows(2) {
        assert_eq!(
            pair[0].end, pair[1].start,
            "boxes ({}..{}) and ({}..{}) do not meet, so pixels were lost or double counted",
            pair[0].start, pair[0].end, pair[1].start, pair[1].end
        );
    }
}

#[test]
fn a_busy_cover_is_cut_into_every_box() {
    let mut pixels: Vec<[u8; 3]> = (0..512u32).map(|index| [(index % 256) as u8, 0, 0]).collect();
    let (_, count) = median_cut(&mut pixels);
    assert_eq!(count, 16);
}

#[test]
fn the_widest_channel_is_found_and_a_tie_goes_to_the_later_one() {
    let pixels = vec![[10u8, 0, 0], [50, 40, 40]];
    assert_eq!(widest(&pixels, Region { start: 0, end: 2 }), (2, 40));
    let pixels = vec![[0u8, 0, 0], [90, 10, 20]];
    assert_eq!(widest(&pixels, Region { start: 0, end: 2 }), (0, 90));
}

#[test]
fn a_box_averages_to_its_mean_color() {
    let pixels = vec![[10u8, 20, 30], [20, 40, 61], [255, 255, 255]];
    assert_eq!(average(&pixels, Region { start: 0, end: 2 }), [15, 30, 45]);
    assert_eq!(average(&pixels, Region { start: 1, end: 1 }), [0, 0, 0]);
}

#[test]
fn a_transparent_pixel_has_no_color_to_contribute() {
    let rgba = vec![200u8, 60, 60, 0, 10, 20, 30, 128, 1, 2, 3, 127, 4, 5, 6, 255];
    assert_eq!(opaque_pixels(&rgba), vec![[10, 20, 30], [4, 5, 6]]);
}

#[test]
fn a_cover_is_sampled_at_the_reduced_size() {
    let rgba = vec![200u8; 8 * 8 * 4];
    let pixels = cover_sample(8, 8, rgba);
    assert_eq!(pixels.len(), 64 * 64);
    let clear = vec![0u8; 8 * 8 * 4];
    assert!(cover_sample(8, 8, clear).is_empty(), "fully transparent pixels contributed their color anyway");
}
