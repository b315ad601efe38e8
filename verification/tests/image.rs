use paintress::error::PaintressError;
use paintress::image::{IndexedImage, Rotation, DISPLAY_HEIGHT, DISPLAY_WIDTH};

// 3 wide, 2 tall:
//   1 2 3
//   4 5 6
const SRC: [u8; 6] = [1, 2, 3, 4, 5, 6];

#[test]
fn reference_panel_size() {
    assert_eq!((DISPLAY_WIDTH, DISPLAY_HEIGHT), (800, 480));
}

#[test]
fn canvas_dims_swap_for_quarter_turns() {
    assert_eq!(Rotation::Identity.canvas_dims(800, 480), (800, 480));
    assert_eq!(Rotation::Flip180.canvas_dims(800, 480), (800, 480));
    assert_eq!(Rotation::Cw90.canvas_dims(800, 480), (480, 800));
    assert_eq!(Rotation::Ccw90.canvas_dims(800, 480), (480, 800));
}

#[test]
fn clockwise_quarter_turn() {
    // Rotated clockwise (2 wide, 3 tall):
    //   4 1
    //   5 2
    //   6 3
    assert_eq!(Rotation::Cw90.apply(&SRC, 3, 2), vec![4, 1, 5, 2, 6, 3]);
}

#[test]
fn counter_clockwise_quarter_turn() {
    //   3 6
    //   2 5
    //   1 4
    assert_eq!(Rotation::Ccw90.apply(&SRC, 3, 2), vec![3, 6, 2, 5, 1, 4]);
}

#[test]
fn half_turn_and_identity() {
    assert_eq!(Rotation::Flip180.apply(&SRC, 3, 2), vec![6, 5, 4, 3, 2, 1]);
    assert_eq!(Rotation::Identity.apply(&SRC, 3, 2), SRC.to_vec());
}

#[test]
fn opposite_quarter_turns_cancel() {
    let cw = Rotation::Cw90.apply(&SRC, 3, 2);
    assert_eq!(Rotation::Ccw90.apply(&cw, 2, 3), SRC.to_vec());
    let ccw = Rotation::Ccw90.apply(&SRC, 3, 2);
    assert_eq!(Rotation::Cw90.apply(&ccw, 2, 3), SRC.to_vec());
}

#[test]
fn two_clockwise_turns_make_a_half_turn() {
    let once = Rotation::Cw90.apply(&SRC, 3, 2);
    assert_eq!(Rotation::Cw90.apply(&once, 2, 3), Rotation::Flip180.apply(&SRC, 3, 2));
}

#[test]
fn rotation_parse_ignores_case_and_accepts_aliases() {
    assert_eq!("CW".parse::<Rotation>().unwrap(), Rotation::Cw90);
    assert_eq!(Rotation::parse("Flip").unwrap(), Rotation::Flip180);
    assert_eq!(Rotation::parse("").unwrap(), Rotation::Identity);
    assert_eq!(Rotation::parse("ccw90").unwrap(), Rotation::Ccw90);
    assert_eq!(Rotation::parse("FLIP180").unwrap(), Rotation::Flip180);
    for r in [Rotation::Identity, Rotation::Cw90, Rotation::Ccw90, Rotation::Flip180] {
        assert_eq!(Rotation::parse(r.name()).unwrap(), r);
        assert_eq!(Rotation::parse(&r.name().to_uppercase()).unwrap(), r);
    }
    match Rotation::parse("Sideways") {
        Err(PaintressError::InvalidRotation(s)) => assert_eq!(s, "sideways"),
        other => panic!("unexpected {other:?}"),
    }
}

#[test]
fn rotation_names_round_trip() {
    for r in [Rotation::Identity, Rotation::Cw90, Rotation::Ccw90, Rotation::Flip180] {
        assert_eq!(Rotation::from_lowercase(r.name()).unwrap(), r);
    }
    assert_eq!(Rotation::Identity.name(), "none");
    assert_eq!(Rotation::Flip180.name(), "flip180");
}

#[test]
fn crop_extracts_a_tile() {
    let img = IndexedImage { width: 3, height: 2, data: SRC.to_vec() };
    let tile = img.crop(1, 0, 2, 2);
    assert_eq!((tile.width, tile.height), (2, 2));
    assert_eq!(tile.data, vec![2, 3, 5, 6]);
    let row = img.crop(0, 1, 3, 1);
    assert_eq!(row.data, vec![4, 5, 6]);
}
