use islefall::art::{mix, strip, Blast, Picture, Smoke, FIRE_RAMP, SMOKE_RAMP};
use islefall::gif::{GifError, IndexedImage, Picture as RgbaPicture};

#[test]
fn pictures_start_clear_and_take_pixels() {
    let mut p = Picture::new(3, 2);
    assert_eq!(p.rgba.len(), 24);
    assert!(p.rgba.iter().all(|&b| b == 0));
    p.put(2, 1, [1, 2, 3]);
    assert_eq!(&p.rgba[20..24], &[1, 2, 3, 255]);
    assert_eq!(p.alpha(2, 1), 255);
    assert_eq!(p.alpha(0, 0), 0);
    p.put(3, 0, [9, 9, 9]);
    assert_eq!(p.alpha(3, 0), 0, "off the picture nothing happens");
}

#[test]
fn effect_defaults() {
    let s = Smoke::default();
    assert_eq!((s.size, s.frames, s.ramp.len()), (16, 10, SMOKE_RAMP.len()));
    let b = Blast::default();
    assert_eq!(b.fire, FIRE_RAMP.to_vec());
    assert_eq!((b.size, b.frames, b.sparks), (64, 16, 14));
}

#[test]
fn mix_is_fixed() {
    assert_eq!(mix(0, 0), 0);
    assert_ne!(mix(1, 0), mix(0, 1));
    assert_eq!(mix(7, 9), mix(7, 9));
}

#[test]
fn indexed_images_go_through_their_palette() {
    let img = IndexedImage { width: 3, height: 1, indices: vec![0, 1, 5], palette: vec![[10, 20, 30], [1, 2, 3]], transparent: Some(1) };
    assert_eq!(img.to_rgba(), vec![10, 20, 30, 255, 1, 2, 3, 0, 0, 0, 0, 255]);
    let p = RgbaPicture::from_indexed(&img);
    assert_eq!((p.width, p.height, p.rgba.len()), (3, 1, 12));
}

/// Two frames of a flame's size, each with a few pixels set.
fn two_frames() -> Vec<Picture> {
    let mut a = Picture::new(12, 20);
    let mut b = Picture::new(12, 20);
    for x in 0..12 {
        a.put(x, 0, [x as u8, 1, 2]);
        b.put(x, 19, [3, x as u8, 4]);
    }
    b.put(0, 0, [7, 7, 7]);
    vec![a, b]
}

#[test]
fn a_strip_lays_the_frames_side_by_side() {
    let frames = two_frames();
    let sheet = strip(&frames, 0);
    assert_eq!((sheet.width, sheet.height), (frames[0].width * frames.len() as u32, frames[0].height));
    assert_eq!(&sheet.rgba[..(frames[0].width * 4) as usize], &frames[0].rgba[..(frames[0].width * 4) as usize]);
}

#[test]
fn a_strip_leaves_its_gaps_clear() {
    let frames = two_frames();
    let sheet = strip(&frames, 3);
    assert_eq!((sheet.width, sheet.height), (12 * 2 + 3, 20));
    assert_eq!(sheet.rgba.len(), 27 * 20 * 4);
    // The second frame starts after the first and the gap.
    assert_eq!(&sheet.rgba[15 * 4..16 * 4], &[7, 7, 7, 255]);
    for x in 12..15 {
        assert_eq!(sheet.alpha(x, 0), 0, "gap pixel {x} is clear");
    }
    let last_row = 19 * 27 * 4;
    assert_eq!(&sheet.rgba[last_row + (15 + 5) * 4..last_row + (15 + 6) * 4], &[3, 5, 4, 255]);
    assert_eq!(sheet.alpha(11, 19), 0);
}

#[test]
fn an_empty_strip_is_one_clear_pixel() {
    let sheet = strip(&[], 4);
    assert_eq!((sheet.width, sheet.height, sheet.rgba.clone()), (1, 1, vec![0, 0, 0, 0]));
}

/// A 2 x 2 GIF with a four-colour global palette and index 3 transparent.
fn tiny_gif() -> Vec<u8> {
    let mut out = Vec::new();
    {
        let palette = [0, 0, 0, 255, 0, 0, 0, 255, 0, 0, 0, 255];
        let mut enc = gif::Encoder::new(&mut out, 2, 2, &palette).unwrap();
        enc.write_frame(&gif::Frame::from_indexed_pixels(2, 2, vec![0u8, 1, 2, 3], Some(3))).unwrap();
    }
    out
}

#[test]
fn a_gif_decodes_to_its_first_frame_and_palette() {
    let img = IndexedImage::decode(&tiny_gif()).unwrap();
    assert_eq!((img.width, img.height), (2, 2));
    assert_eq!(img.indices, vec![0, 1, 2, 3]);
    assert_eq!(&img.palette[..4], &[[0, 0, 0], [255, 0, 0], [0, 255, 0], [0, 0, 255]]);
    assert_eq!(img.transparent, Some(3));
    assert_eq!(&img.to_rgba()[4..8], &[255, 0, 0, 255]);
    assert_eq!(img.to_rgba()[15], 0, "the transparent index is clear");
}

#[test]
fn broken_gifs_are_refused() {
    assert!(matches!(IndexedImage::decode(b"not a gif"), Err(GifError::Decode(_))));
    let mut header_only = tiny_gif();
    header_only.truncate(13 + 12);
    header_only.push(0x3b);
    assert!(matches!(IndexedImage::decode(&header_only), Err(GifError::Empty) | Err(GifError::Decode(_))));
}
