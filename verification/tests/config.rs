use paintress::config::{Config, DisplayConfig, Mounting};
use paintress::discovery::DisplayInfo;
use paintress::error::PaintressError;
use paintress::image::{Rotation, DISPLAY_HEIGHT, DISPLAY_WIDTH};

/// A config as written by versions before panel size was recorded.
const LEGACY_TOML: &str = r#"
[[display]]
serial = "f8c0a8"
name = "kitchen"
col = 1
row = 0
mounted = "portrait-left"

[[display]]
serial = "f8fab4"
name = "hallway"
col = 0
row = 0
mounted = "portrait-right"
"#;

fn mounting(name: &str) -> Mounting {
    match name {
        "landscape" => Mounting::Landscape,
        "portrait-left" => Mounting::PortraitLeft,
        "portrait-right" => Mounting::PortraitRight,
        "upside-down" => Mounting::UpsideDown,
        other => panic!("bad mounting {other}"),
    }
}

/// Reads a config file's text into the library's config type.
fn parse_config(text: &str) -> Config {
    let table: toml::Table = toml::from_str(text).unwrap();
    let entries = table.get("display").and_then(|v| v.as_array()).unwrap();
    let display = entries
        .iter()
        .map(|e| {
            let t = e.as_table().unwrap();
            let text = |k: &str| t.get(k).and_then(|v| v.as_str()).map(|s| s.to_owned());
            let num = |k: &str| t.get(k).and_then(|v| v.as_integer()).map(|n| n as u32);
            DisplayConfig {
                serial: text("serial").unwrap(),
                name: text("name").unwrap_or_default(),
                col: num("col").unwrap_or(0),
                row: num("row").unwrap_or(0),
                mounted: text("mounted").map(|m| mounting(&m)).unwrap_or(Mounting::Landscape),
                width: num("width"),
                height: num("height"),
            }
        })
        .collect();
    Config { display }
}

fn info(id: &str, width: u32, height: u32) -> DisplayInfo {
    DisplayInfo {
        id: id.to_owned(),
        ip: "192.0.2.1".to_owned(),
        port: 80,
        hostname: format!("eink-{id}.local"),
        width,
        height,
    }
}

#[test]
fn legacy_config_loads_and_falls_back_to_default_size() {
    let cfg = parse_config(LEGACY_TOML);
    assert_eq!(cfg.display.len(), 2);
    for dc in &cfg.display {
        assert_eq!(dc.width, None);
        assert_eq!(dc.height, None);
        assert_eq!(dc.dims(), (DISPLAY_WIDTH, DISPLAY_HEIGHT));
    }
}

#[test]
fn merge_backfills_size_but_preserves_user_fields() {
    let mut cfg = parse_config(LEGACY_TOML);
    cfg.merge_discovered(&[info("f8c0a8", 1200, 1600), info("f8fab4", 800, 480)]);

    let kitchen = cfg.display.iter().find(|d| d.serial == "f8c0a8").unwrap();
    assert_eq!(kitchen.dims(), (1200, 1600));
    // Name, position and mounting are the user's — merge must not touch them.
    assert_eq!(kitchen.name, "kitchen");
    assert_eq!((kitchen.col, kitchen.row), (1, 0));
    assert_eq!(kitchen.mounted, Mounting::PortraitLeft);

    let hallway = cfg.display.iter().find(|d| d.serial == "f8fab4").unwrap();
    assert_eq!(hallway.dims(), (800, 480));
}

#[test]
fn merge_leaves_offline_displays_alone() {
    let mut cfg = parse_config(LEGACY_TOML);
    cfg.display[0].width = Some(1200);
    cfg.display[0].height = Some(1600);

    // Only the second display answers this round.
    cfg.merge_discovered(&[info("f8fab4", 800, 480)]);

    assert_eq!(cfg.display[0].dims(), (1200, 1600));
    assert_eq!(cfg.display.len(), 2, "offline display must not be dropped");
}

#[test]
fn merge_appends_new_display_with_its_size() {
    let mut cfg = parse_config(LEGACY_TOML);
    cfg.merge_discovered(&[info("aabbcc", 1200, 1600)]);

    let added = cfg.display.iter().find(|d| d.serial == "aabbcc").unwrap();
    assert_eq!(added.dims(), (1200, 1600));
    assert_eq!(added.col, 2, "should land right of the existing max col");
}

#[test]
fn from_discovered_records_size() {
    let cfg = Config::from_discovered(&[info("aabbcc", 1200, 1600)]);
    assert_eq!(cfg.display[0].width, Some(1200));
    assert_eq!(cfg.display[0].height, Some(1600));
}

#[test]
fn from_discovered_lays_out_one_row() {
    let cfg = Config::from_discovered(&[info("a", 800, 480), info("b", 800, 480)]);
    assert_eq!(cfg.display.len(), 2);
    assert_eq!((cfg.display[1].col, cfg.display[1].row), (1, 0));
    assert_eq!(cfg.display[1].name, "b");
    assert_eq!(cfg.display[1].mounted, Mounting::Landscape);
}

#[test]
fn merge_takes_last_report_and_appends_unknown_in_order() {
    let mut cfg = parse_config(LEGACY_TOML);
    cfg.merge_discovered(&[
        info("new1", 10, 20),
        info("f8fab4", 1, 2),
        info("new2", 30, 40),
        info("f8fab4", 3, 4),
    ]);
    assert_eq!(cfg.display.len(), 4);
    assert_eq!(cfg.display[1].dims(), (3, 4));
    assert_eq!((cfg.display[2].serial.as_str(), cfg.display[2].col), ("new1", 2));
    assert_eq!((cfg.display[3].serial.as_str(), cfg.display[3].col), ("new2", 3));
}

#[test]
fn mounting_rotations() {
    assert_eq!(Mounting::Landscape.rotation(), Rotation::Identity);
    assert_eq!(Mounting::PortraitLeft.rotation(), Rotation::Cw90);
    assert_eq!(Mounting::PortraitRight.rotation(), Rotation::Ccw90);
    assert_eq!(Mounting::UpsideDown.rotation(), Rotation::Flip180);
    assert_eq!(Mounting::default(), Mounting::Landscape);
}

#[test]
fn resolve_pairs_every_entry_in_config_order() {
    let cfg = parse_config(LEGACY_TOML);
    let found = [info("f8fab4", 800, 480), info("other", 1, 1), info("f8c0a8", 1200, 1600)];
    let pairs = cfg.resolve(&found).unwrap();
    assert_eq!(pairs.len(), 2);
    assert_eq!(pairs[0].0.name, "kitchen");
    assert_eq!(pairs[0].1.width, 1200);
    assert_eq!(pairs[1].0.name, "hallway");
    assert_eq!(pairs[1].1.id, "f8fab4");
}

#[test]
fn resolve_fails_naming_the_first_missing_display() {
    let cfg = parse_config(LEGACY_TOML);
    match cfg.resolve(&[info("f8fab4", 800, 480)]) {
        Err(PaintressError::DisplayNotFound(s)) => assert_eq!(s, "f8c0a8"),
        other => panic!("unexpected {other:?}"),
    }
    let empty = Config { display: Vec::new() };
    assert!(matches!(empty.resolve(&[info("x", 1, 1)]), Err(PaintressError::NoDisplaysFound)));
}

#[test]
fn resolve_reports_no_displays_when_none_answered() {
    let cfg = parse_config(LEGACY_TOML);
    assert!(matches!(cfg.resolve(&[info("x", 1, 1)]), Err(PaintressError::NoDisplaysFound)));
    assert!(matches!(cfg.resolve(&[]), Err(PaintressError::NoDisplaysFound)));
}

#[test]
fn from_discovered_sorts_by_id() {
    let cfg = Config::from_discovered(&[info("c", 1, 1), info("a", 2, 2), info("b", 3, 3)]);
    let ids: Vec<&str> = cfg.display.iter().map(|d| d.serial.as_str()).collect();
    assert_eq!(ids, vec!["a", "b", "c"]);
    assert_eq!(cfg.display[0].dims(), (2, 2));
    assert_eq!(cfg.display[2].col, 2);
}

#[test]
fn merging_twice_changes_nothing() {
    let found = [info("f8fab4", 1, 2), info("new", 3, 4)];
    let mut cfg = parse_config(LEGACY_TOML);
    cfg.merge_discovered(&found);
    let once: Vec<(String, u32, Option<u32>)> =
        cfg.display.iter().map(|d| (d.serial.clone(), d.col, d.width)).collect();
    cfg.merge_discovered(&found);
    let twice: Vec<(String, u32, Option<u32>)> =
        cfg.display.iter().map(|d| (d.serial.clone(), d.col, d.width)).collect();
    assert_eq!(once, twice);
}

#[test]
fn reconciled_merges_or_creates() {
    let created = Config::reconciled(None, &[info("a", 5, 6)]);
    assert_eq!(created.display[0].serial, "a");
    let merged = Config::reconciled(Some(parse_config(LEGACY_TOML)), &[info("a", 5, 6)]);
    assert_eq!(merged.display.len(), 3);
    assert_eq!(merged.display[2].col, 2);
}

#[test]
fn can_merge_detects_column_overflow() {
    let mut cfg = parse_config(LEGACY_TOML);
    assert!(cfg.can_merge(&[info("new", 1, 1)]));
    cfg.display[0].col = u32::MAX - 1;
    assert!(!cfg.can_merge(&[info("new", 1, 1)]));
    assert!(cfg.can_merge(&[info("f8c0a8", 1, 1)]));
}
