use paintress::config::{Config, DisplayConfig, Mounting};
use paintress::discovery::DisplayInfo;
use paintress::error::PaintressError;
use paintress::fleet::{
    build_layout_from_config, config_entry, config_layout_fits, outline_tiles, outlines_fit,
    parse_info, placement_fits, preview_builder, status_error_line, status_line, tile_payload, StatusReport,
};
use paintress::image::{IndexedImage, Rotation};
use paintress::layout::Placement;
use paintress::ota::{ota_report, OtaOutcome};
use paintress::transport::{display_url, info_url, send_report};

fn info(id: &str, width: u32, height: u32) -> DisplayInfo {
    DisplayInfo {
        id: id.to_owned(),
        ip: "192.0.2.1".to_owned(),
        port: 80,
        hostname: format!("eink-{id}.local"),
        width,
        height,
    }
}

fn entry(serial: &str, col: u32, mounted: Mounting) -> DisplayConfig {
    DisplayConfig {
        serial: serial.to_owned(),
        name: format!("{serial}-name"),
        col,
        row: 0,
        mounted,
        width: None,
        height: None,
    }
}

#[test]
fn layout_from_config_places_answering_displays() {
    let cfg = Config {
        display: vec![
            entry("left", 0, Mounting::PortraitLeft),
            entry("right", 2, Mounting::Landscape),
        ],
    };
    let found = [info("right", 800, 480), info("left", 800, 480)];
    assert!(config_layout_fits(&cfg, &found));
    let (layout, infos) = build_layout_from_config(&cfg, &found).unwrap();
    assert_eq!(layout.canvas_size(), (1280, 800));
    let ps = layout.placements();
    assert_eq!(ps.len(), 2);
    assert_eq!((ps[0].display.id.as_str(), ps[0].x, ps[0].rotation), ("left", 0, Rotation::Cw90));
    assert_eq!((ps[1].display.id.as_str(), ps[1].x), ("right", 480));
    assert_eq!(infos[0].1, Mounting::PortraitLeft);
    match build_layout_from_config(&cfg, &[info("left", 800, 480)]) {
        Err(PaintressError::DisplayNotFound(s)) => assert_eq!(s, "right"),
        _ => panic!("expected the missing display to be named"),
    }
}

#[test]
fn preview_uses_reference_panels() {
    let cfg = Config { display: vec![entry("a", 0, Mounting::UpsideDown), entry("b", 1, Mounting::Landscape)] };
    let builder = preview_builder(&cfg);
    assert!(builder.fits_canvas());
    let layout = builder.build().unwrap();
    assert_eq!(layout.canvas_size(), (1600, 480));
    assert_eq!(layout.placements()[0].rotation, Rotation::Flip180);
    assert_eq!(layout.placements()[0].display.id, "a");
}

#[test]
fn preview_uses_each_panels_configured_size() {
    let mut tall = entry("tall", 0, Mounting::Landscape);
    tall.width = Some(1200);
    tall.height = Some(1600);
    let cfg = Config { display: vec![tall, entry("std", 1, Mounting::PortraitLeft)] };
    let layout = preview_builder(&cfg).build().unwrap();
    assert_eq!(layout.canvas_size(), (1680, 1600));
    let ps = layout.placements();
    assert_eq!((ps[0].canvas_w, ps[0].canvas_h), (1200, 1600));
    assert_eq!((ps[1].x, ps[1].canvas_w, ps[1].canvas_h), (1200, 480, 800));
}

#[test]
fn config_entry_finds_first() {
    let cfg = Config { display: vec![entry("a", 0, Mounting::Landscape), entry("a", 5, Mounting::Landscape)] };
    assert_eq!(config_entry(&cfg, "a").unwrap().col, 0);
    assert!(config_entry(&cfg, "z").is_none());
}

fn placement(x: u32, y: u32, w: u32, h: u32, rotation: Rotation) -> Placement {
    Placement { display: info("t", w, h), x, y, canvas_w: w, canvas_h: h, rotation }
}

#[test]
fn tile_payload_crops_rotates_and_packs() {
    // 4x2 canvas:
    //   0 1 2 3
    //   5 6 0 1
    let img = IndexedImage { width: 4, height: 2, data: vec![0, 1, 2, 3, 5, 6, 0, 1] };
    let p = placement(2, 0, 2, 2, Rotation::Flip180);
    assert!(placement_fits(&p, 4, 2));
    // Tile [2 3; 0 1] turned half way is [1 0; 3 2].
    assert_eq!(tile_payload(&img, &p), vec![0x10, 0x32]);
    assert!(!placement_fits(&placement(3, 0, 2, 2, Rotation::Identity), 4, 2));
}

#[test]
fn outlines_are_drawn_inside_the_canvas() {
    let (w, h) = (4u32, 3u32);
    let mut rgb = vec![1u8; (3 * w * h) as usize];
    let ps = [placement(2, 0, 2, 3, Rotation::Identity)];
    assert!(outlines_fit(&ps, w, h));
    outline_tiles(&mut rgb, w, h, &ps);
    let px = |x: u32, y: u32| {
        let i = (3 * (y * w + x)) as usize;
        [rgb[i], rgb[i + 1], rgb[i + 2]]
    };
    // Left edge at x = 2 is drawn; the tile touches the top, bottom and right
    // canvas edges, so those are not.
    assert_eq!(px(2, 1), [255, 0, 255]);
    assert_eq!(px(3, 1), [1, 1, 1]);
    assert_eq!(px(1, 1), [1, 1, 1]);
    assert!(!outlines_fit(&[placement(4, 0, 0, 1, Rotation::Identity)], w, h));

    // A tile from the top row, as tall as the canvas and running past its right
    // edge, only has its left edge drawn, which lies on the canvas.
    let wide = [placement(2, 0, 5, 3, Rotation::Identity)];
    assert!(outlines_fit(&wide, w, h));
    let mut rgb2 = vec![1u8; (3 * w * h) as usize];
    outline_tiles(&mut rgb2, w, h, &wide);
    assert_eq!(&rgb2[3 * 6..3 * 6 + 3], &[255, 0, 255]);
    assert_eq!(&rgb2[3 * 7..3 * 7 + 3], &[1, 1, 1]);
}

#[test]
fn status_lines() {
    let d = info("abc", 800, 480);
    let full = StatusReport {
        id: Some("abc".to_owned()),
        status: Some("idle".to_owned()),
        uptime: Some(42),
        ip: Some("192.0.2.9".to_owned()),
    };
    assert_eq!(status_line(&full, &d), "  abc: idle  uptime=42s  ip=192.0.2.9");
    let empty = StatusReport { id: None, status: None, uptime: None, ip: None };
    assert_eq!(status_line(&empty, &d), "  abc: ?  uptime=?  ip=192.0.2.1");
    assert_eq!(status_error_line(&d, "timed out"), "  abc: error — timed out");
}

#[test]
fn info_answers_become_status_lines() {
    let d = info("abc", 800, 480);
    let r = parse_info(r#"{"id":"f8fab4","status":"idle","uptime":3600,"ip":"192.0.2.7","x":1}"#)
        .unwrap();
    assert_eq!(r.id.as_deref(), Some("f8fab4"));
    assert_eq!(r.status.as_deref(), Some("idle"));
    assert_eq!(r.uptime, Some(3600));
    assert_eq!(r.ip.as_deref(), Some("192.0.2.7"));
    assert_eq!(status_line(&r, &d), "  f8fab4: idle  uptime=3600s  ip=192.0.2.7");
    let odd = parse_info(r#"{"id":7,"uptime":-5,"status":"busy"}"#).unwrap();
    assert_eq!(odd.id, None);
    assert_eq!(odd.uptime, None);
    assert_eq!(odd.ip, None);
    assert_eq!(status_line(&odd, &d), "  abc: busy  uptime=?  ip=192.0.2.1");
    assert!(matches!(parse_info("not json"), Err(PaintressError::Generic(_))));
    assert!(matches!(parse_info(""), Err(PaintressError::Generic(_))));
}

#[test]
fn urls_and_reports() {
    let d = DisplayInfo { port: 8080, ..info("abc", 1, 1) };
    assert_eq!(info_url(&d), "http://192.0.2.1:8080/info");
    assert_eq!(display_url(&d), "http://192.0.2.1:8080/display");
    assert_eq!(send_report(&d, "200 OK", "  done\n"), "abc: 200 OK — done");
    assert_eq!(ota_report("abc", &OtaOutcome::PrimarySucceeded), "abc: OK");
    assert_eq!(ota_report("abc", &OtaOutcome::FallbackSucceeded), "abc: OK");
    let failed = OtaOutcome::FallbackFailed { stderr: " bad port \n".to_owned(), stdout: "x".to_owned() };
    assert_eq!(ota_report("abc", &failed), "abc: FAILED — bad port");
    let quiet = OtaOutcome::FallbackFailed { stderr: String::new(), stdout: " log ".to_owned() };
    assert_eq!(ota_report("abc", &quiet), "abc: FAILED — log");
}
