use paintress::image::{IndexedImage, Rotation};
use paintress::palette::{pack_4bpp, Color};

/// Spectra 6 has no code 0x04. Emitting one puts an undefined value in the
/// 4bpp stream, which the panel is free to render as anything.
#[test]
fn palette_codes_are_valid_spectra6() {
    let codes: Vec<u8> = Color::all().iter().map(|c| c.code()).collect();
    assert_eq!(codes, vec![0, 1, 2, 3, 5, 6]);
    assert!(!codes.contains(&4), "0x04 is not a Spectra 6 color");
}

#[test]
fn pack_4bpp_packs_two_pixels_per_byte() {
    assert_eq!(pack_4bpp(&[0x0, 0x1, 0x6, 0x5]), vec![0x01, 0x65]);
}

#[test]
fn pack_4bpp_pads_odd_pixel_count_and_masks_nibbles() {
    assert_eq!(pack_4bpp(&[0x3, 0x2, 0x6]), vec![0x32, 0x60]);
    assert_eq!(pack_4bpp(&[0x1f, 0xf2]), vec![0xf2]);
    assert_eq!(pack_4bpp(&[]), Vec::<u8>::new());
}

#[test]
fn packed_nibbles_read_back_as_codes() {
    let codes = [5u8, 6, 0, 3, 2];
    let packed = pack_4bpp(&codes);
    for (i, &c) in codes.iter().enumerate() {
        let byte = packed[i / 2];
        let nibble = if i % 2 == 0 { byte >> 4 } else { byte & 0x0f };
        assert_eq!(nibble, c);
    }
    assert_eq!(packed[2] & 0x0f, 0);
}

#[test]
fn from_code_rejects_code_four_and_round_trips() {
    assert!(Color::from_code(4).is_none());
    assert!(Color::from_code(7).is_none());
    for c in Color::all() {
        assert_eq!(Color::from_code(c.code()), Some(c));
    }
}

#[test]
fn rgb_u8_values() {
    assert_eq!(Color::Yellow.rgb_u8(), [255, 230, 0]);
    assert_eq!(Color::Red.rgb_u8(), [200, 0, 0]);
    assert_eq!(Color::Green.rgb_u8(), [0, 128, 0]);
    assert_eq!(Color::Black.rgb_u8(), [0, 0, 0]);
}

#[test]
fn to_rgb_previews_codes_and_whitens_unknown() {
    let img = IndexedImage { width: 2, height: 2, data: vec![0, 4, 5, 9] };
    assert_eq!(
        img.to_rgb(),
        vec![0, 0, 0, 255, 255, 255, 0, 0, 255, 255, 255, 255]
    );
}

#[test]
fn pack_rotated_packs_the_rotated_tile() {
    // 2x1 tile [1, 2]; a clockwise quarter turn makes a 1x2 column [1, 2].
    let img = IndexedImage { width: 2, height: 1, data: vec![1, 2] };
    assert_eq!(img.pack_rotated(Rotation::Cw90), vec![0x12]);
    assert_eq!(img.pack_rotated(Rotation::Flip180), vec![0x21]);
}
