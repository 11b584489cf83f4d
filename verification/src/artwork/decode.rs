//! What reading a cover for a job comes to: the picture it is cut from,
//! where it comes from, and whether it must be shrunk to the size asked.
//!
//! A picture already decoded and kept is cut from again rather than read;
//! otherwise the encoded bytes the track's file carries are decoded. A track
//! with no bytes, or bytes that do not decode, is answered as having no art,
//! so it is read once rather than once per frame. A picture within the size
//! asked is filed as it is; a larger one is shrunk along its longest edge,
//! which is resampling work done by whoever holds the pixels.

use vstd::prelude::*;

use crate::artwork::cache::{key_of, Art, ArtKey};

verus! {

/// What decoding `bytes` as a picture gives: its width, its height and its
/// pixels, four bytes each, or nothing where they are not a picture.
pub uninterp spec fn decoded(bytes: Seq<u8>) -> Option<(u32, u32, Seq<u8>)>;

/// `image::load_from_memory` then `DynamicImage::into_rgba8`: the picture
/// the bytes hold, by its width, height and raw RGBA pixels, or nothing where
/// the bytes are not a picture of a format it reads. Claimed only as the
/// name `decoded` of the bytes.
#[verifier::external_body]
fn decode_rgba(bytes: &[u8]) -> (img: Option<(u32, u32, Vec<u8>)>)
    ensures
        match img {
            Some((width, height, pixels)) => decoded(bytes@) == Some((width, height, pixels@)),
            None => decoded(bytes@) is None,
        },
{
    match image::load_from_memory(bytes) {
        Ok(image) => {
            let rgba = image.into_rgba8();
            Some((rgba.width(), rgba.height(), rgba.into_raw()))
        },
        Err(_) => None,
    }
}

/// What a job's cover comes to.
#[derive(Debug)]
pub enum Cut {
    /// No picture: the art filed for a track that has none.
    Nothing(Art),
    /// A picture within the size asked, filed at its own size. `pixels`
    /// holds what was freshly decoded, or `None` for the kept picture.
    Whole { key: ArtKey, width: u32, height: u32, pixels: Option<Vec<u8>>, source_edge: u32 },
    /// A picture larger than the size asked, to be shrunk so its longest
    /// edge is the size asked. `pixels` as for `Whole`.
    Shrink { key: ArtKey, width: u32, height: u32, pixels: Option<Vec<u8>>, source_edge: u32 },
}

/// The longer of a picture's two edges.
pub open spec fn longest_edge(width: u32, height: u32) -> u32 {
    if width >= height {
        width
    } else {
        height
    }
}

/// Whether `cut` is the picture `key`, `width` by `height`, with `pixels`
/// (`None` for the kept one), for a job asking for `bucket`: whole where its
/// longest edge fits, to be shrunk where it does not.
pub open spec fn cuts(cut: Cut, key: ArtKey, width: u32, height: u32, pixels: Option<Seq<u8>>, bucket: u32) -> bool {
    let edge = longest_edge(width, height);
    match cut {
        Cut::Whole { key: k, width: w, height: h, pixels: p, source_edge: e } => {
            &&& edge <= bucket
            &&& k == key && w == width && h == height && e == edge
            &&& match p {
                Some(v) => pixels == Some(v@),
                None => pixels is None,
            }
        },
        Cut::Shrink { key: k, width: w, height: h, pixels: p, source_edge: e } => {
            &&& edge > bucket
            &&& k == key && w == width && h == height && e == edge
            &&& match p {
                Some(v) => pixels == Some(v@),
                None => pixels is None,
            }
        },
        Cut::Nothing(_) => false,
    }
}

/// Whether `art` is what a track with no art files at `bucket`.
pub open spec fn no_art(art: Art, track: i64, bucket: u32) -> bool {
    &&& art.track == track
    &&& art.key is None
    &&& art.bucket == bucket
    &&& art.width == 0
    &&& art.height == 0
    &&& art.pixels@.len() == 0
    &&& art.source_edge == 0
}

fn nothing(track: i64, bucket: u32) -> (cut: Cut)
    ensures
        cut matches Cut::Nothing(art) && no_art(art, track, bucket),
{
    Cut::Nothing(Art { track, key: None, bucket, width: 0, height: 0, pixels: Vec::new(), source_edge: 0 })
}

fn shaped(key: ArtKey, width: u32, height: u32, pixels: Option<Vec<u8>>, bucket: u32) -> (cut: Cut)
    ensures
        cuts(
            cut,
            key,
            width,
            height,
            match pixels {
                Some(v) => Some(v@),
                None => None,
            },
            bucket,
        ),
{
    let edge = if width >= height { width } else { height };
    if edge <= bucket {
        Cut::Whole { key, width, height, pixels, source_edge: edge }
    } else {
        Cut::Shrink { key, width, height, pixels, source_edge: edge }
    }
}

/// What the cover for `track` at `bucket` comes to. A kept picture, given by
/// its key and size, is cut from again. Otherwise the encoded `bytes` are
/// filed under their key and decoded; no bytes, or bytes that do not decode,
/// come to no art.
pub fn plan_cut(track: i64, bucket: u32, master: Option<(ArtKey, u32, u32)>, bytes: Option<Vec<u8>>) -> (cut: Cut)
    ensures
        match master {
            Some((key, width, height)) => cuts(cut, key, width, height, None, bucket),
            None => match bytes {
                None => cut matches Cut::Nothing(art) && no_art(art, track, bucket),
                Some(b) => match decoded(b@) {
                    None => cut matches Cut::Nothing(art) && no_art(art, track, bucket),
                    Some((width, height, pixels)) => cuts(cut, key_of(b@), width, height, Some(pixels), bucket),
                },
            },
        },
{
    match master {
        Some((key, width, height)) => shaped(key, width, height, None, bucket),
        None => match bytes {
            None => nothing(track, bucket),
            Some(b) => {
                let key = ArtKey::of(b.as_slice());
                match decode_rgba(b.as_slice()) {
                    Some((width, height, pixels)) => shaped(key, width, height, Some(pixels), bucket),
                    None => nothing(track, bucket),
                }
            },
        },
    }
}

} // verus!
