use std::io::Cursor;

use image::{ImageFormat, Rgba, RgbaImage};
use verse::artwork::cache::ArtKey;
use verse::artwork::decode::{plan_cut, Cut};

fn png(width: u32, height: u32) -> Vec<u8> {
    let image = RgbaImage::from_pixel(width, height, Rgba([10, 20, 30, 255]));
    let mut bytes = Cursor::new(Vec::new());
    image.write_to(&mut bytes, ImageFormat::Png).expect("a picture encodes");
    bytes.into_inner()
}

#[test]
fn a_track_with_no_readable_art_answers_with_nothing() {
    match plan_cut(7, 256, None, None) {
        Cut::Nothing(art) => {
            assert_eq!(art.key, None);
            assert_eq!(art.track, 7);
            assert_eq!(art.bucket, 256);
            assert!(art.pixels.is_empty());
        },
        other => panic!("no bytes came to {other:?}"),
    }
}

#[test]
fn bytes_that_are_no_picture_come_to_nothing() {
    assert!(matches!(plan_cut(7, 256, None, Some(vec![1, 2, 3])), Cut::Nothing(_)));
}

#[test]
fn a_small_picture_is_filed_whole_with_its_own_pixels() {
    let bytes = png(40, 30);
    let key = ArtKey::of(&bytes);
    match plan_cut(1, 64, None, Some(bytes)) {
        Cut::Whole { key: k, width, height, pixels, source_edge } => {
            assert_eq!(k, key);
            assert_eq!((width, height, source_edge), (40, 30, 40));
            let pixels = pixels.expect("freshly decoded");
            assert_eq!(pixels.len(), 40 * 30 * 4);
            assert_eq!(&pixels[..4], &[10, 20, 30, 255]);
        },
        other => panic!("a 40px picture asked at 64 came to {other:?}"),
    }
}

#[test]
fn a_large_picture_is_to_be_shrunk() {
    let bytes = png(30, 100);
    assert!(matches!(
        plan_cut(1, 64, None, Some(bytes)),
        Cut::Shrink { width: 30, height: 100, source_edge: 100, pixels: Some(_), .. }
    ));
}

#[test]
fn a_kept_picture_is_cut_from_again_rather_than_read() {
    let key = ArtKey::of(&[9]);
    assert!(matches!(
        plan_cut(1, 2048, Some((key, 1000, 800)), Some(vec![1, 2, 3])),
        Cut::Whole { width: 1000, height: 800, source_edge: 1000, pixels: None, .. }
    ));
    assert!(matches!(plan_cut(1, 512, Some((key, 1000, 800)), None), Cut::Shrink { pixels: None, .. }));
}
