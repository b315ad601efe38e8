use paintress::discovery::DisplayInfo;
use paintress::error::PaintressError;
use paintress::image::Rotation;
use paintress::layout::freeform::FreeformBuilder;
use paintress::layout::grid::GridBuilder;
use paintress::layout::Layout;

fn panel(id: &str, width: u32, height: u32) -> DisplayInfo {
    DisplayInfo {
        id: id.to_owned(),
        ip: "192.0.2.7".to_owned(),
        port: 80,
        hostname: format!("eink-{id}.local"),
        width,
        height,
    }
}

#[test]
fn freeform_columns_take_their_widest_tile() {
    let a = panel("a", 800, 480);
    let b = panel("b", 800, 480);
    let c = panel("c", 800, 480);
    let layout = FreeformBuilder::new()
        .place(&a, 0, 0, Rotation::Identity)
        .place(&b, 1, 0, Rotation::Cw90)
        .place(&c, 0, 1, Rotation::Identity)
        .build()
        .unwrap();
    // Column 0 is 800 wide, column 1 is 480 wide; row 0 is 800 tall (the
    // turned panel), row 1 is 480 tall.
    assert_eq!(layout.canvas_size(), (1280, 1280));
    let ps = layout.placements();
    assert_eq!((ps[0].x, ps[0].y, ps[0].canvas_w, ps[0].canvas_h), (0, 0, 800, 480));
    assert_eq!((ps[1].x, ps[1].y, ps[1].canvas_w, ps[1].canvas_h), (800, 0, 480, 800));
    assert_eq!((ps[2].x, ps[2].y), (0, 800));
    assert_eq!(ps[1].rotation, Rotation::Cw90);
    assert_eq!(ps[2].display.id, "c");
}

#[test]
fn freeform_skips_empty_columns_and_orders_by_index() {
    let a = panel("a", 100, 50);
    let b = panel("b", 200, 60);
    let layout = FreeformBuilder::new()
        .place(&a, 5, 0, Rotation::Identity)
        .place(&b, 2, 0, Rotation::Identity)
        .build()
        .unwrap();
    assert_eq!(Layout::canvas_size(&layout), (300, 60));
    assert_eq!(layout.placements()[0].x, 200);
    assert_eq!(layout.placements()[1].x, 0);
}

#[test]
fn freeform_empty_layout() {
    let builder = FreeformBuilder::new();
    assert!(builder.fits_canvas());
    let layout = builder.build().unwrap();
    assert_eq!(layout.canvas_size(), (0, 0));
    assert!(layout.placements().is_empty());
}

#[test]
fn freeform_detects_canvas_overflow() {
    let big = panel("big", u32::MAX, 10);
    let builder = FreeformBuilder::new()
        .place(&big, 0, 0, Rotation::Identity)
        .place(&big, 1, 0, Rotation::Identity);
    assert!(!builder.fits_canvas());
}

#[test]
fn grid_auto_fills_in_row_major_order() {
    let ds = vec![panel("a", 800, 480), panel("b", 800, 480), panel("c", 800, 480)];
    let layout = GridBuilder::new(2, 1).displays(&ds).build().unwrap();
    assert_eq!(layout.canvas_size(), (1600, 480));
    let ps = layout.placements();
    assert_eq!(ps.len(), 2);
    assert_eq!((ps[0].display.id.as_str(), ps[0].x), ("a", 0));
    assert_eq!((ps[1].display.id.as_str(), ps[1].x), ("b", 800));
}

#[test]
fn grid_overrides_take_priority() {
    let ds = vec![panel("a", 800, 480), panel("b", 800, 480)];
    let special = panel("s", 800, 480);
    let layout = GridBuilder::new(2, 2)
        .cell(1, 0, &special, Rotation::Flip180)
        .displays(&[ds[0].clone(), ds[1].clone(), panel("c", 800, 480), panel("d", 800, 480)])
        .rotation(Rotation::Identity)
        .build()
        .unwrap();
    let ps = layout.placements();
    assert_eq!(ps[1].display.id, "s");
    assert_eq!(ps[1].rotation, Rotation::Flip180);
    assert_eq!(ps[0].display.id, "a");
    assert_eq!(ps[2].display.id, "b");
    assert_eq!((ps[3].display.id.as_str(), ps[3].x, ps[3].y), ("c", 800, 480));
}

#[test]
fn grid_tiles_follow_first_display_rotation() {
    let ds = vec![panel("a", 800, 480), panel("b", 800, 480)];
    let layout = GridBuilder::new(2, 1).displays(&ds).rotation(Rotation::Cw90).build().unwrap();
    assert_eq!(layout.canvas_size(), (960, 800));
    assert_eq!(layout.placements()[1].x, 480);
}

#[test]
fn grid_reports_too_few_displays() {
    let ds = vec![panel("a", 800, 480)];
    match GridBuilder::new(2, 1).displays(&ds).build() {
        Err(PaintressError::NotEnoughDisplays { layout, needed, available }) => {
            assert_eq!(layout, "2x1");
            assert_eq!((needed, available), (2, 1));
        }
        _ => panic!("expected NotEnoughDisplays"),
    }
}

#[test]
fn grid_reports_first_unassigned_cell() {
    let a = panel("a", 800, 480);
    match GridBuilder::new(2, 2).cell(0, 0, &a, Rotation::Identity).build() {
        Err(PaintressError::Generic(msg)) => {
            assert_eq!(msg, "grid cell (1,0) has no display assigned");
        }
        _ => panic!("expected an unassigned cell"),
    }
}

#[test]
fn freeform_layout_ignores_placing_order() {
    let a = panel("a", 800, 480);
    let b = panel("b", 600, 400);
    let c = panel("c", 800, 480);
    let one = FreeformBuilder::new()
        .place(&a, 0, 0, Rotation::Identity)
        .place(&b, 1, 0, Rotation::Cw90)
        .place(&c, 0, 1, Rotation::Identity)
        .build()
        .unwrap();
    let other = FreeformBuilder::new()
        .place(&c, 0, 1, Rotation::Identity)
        .place(&a, 0, 0, Rotation::Identity)
        .place(&b, 1, 0, Rotation::Cw90)
        .build()
        .unwrap();
    assert_eq!(one.canvas_size(), other.canvas_size());
    let key = |p: &paintress::layout::Placement| (p.display.id.clone(), p.x, p.y, p.canvas_w, p.canvas_h);
    assert_eq!(key(&one.placements()[0]), key(&other.placements()[1]));
    assert_eq!(key(&one.placements()[1]), key(&other.placements()[2]));
    assert_eq!(key(&one.placements()[2]), key(&other.placements()[0]));
}

#[test]
fn grid_last_displays_call_wins() {
    let xs = vec![panel("x", 800, 480)];
    let ys = vec![panel("y1", 800, 480), panel("y2", 800, 480)];
    let layout = GridBuilder::new(2, 1).displays(&xs).displays(&ys).build().unwrap();
    assert_eq!(layout.placements()[0].display.id, "y1");
    assert_eq!(layout.placements()[1].display.id, "y2");
}
