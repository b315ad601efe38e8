use paintress::backend::esp32::Esp32Backend;
use paintress::discovery::{
    display_from_service, resolve_target, DisplayInfo, DisplayTable, ServiceAddress, ServiceRecord,
};
use paintress::error::PaintressError;

fn display(id: &str, ip: &str, hostname: &str) -> DisplayInfo {
    DisplayInfo {
        id: id.to_owned(),
        ip: ip.to_owned(),
        port: 80,
        hostname: hostname.to_owned(),
        width: 800,
        height: 480,
    }
}

fn fleet() -> Vec<DisplayInfo> {
    vec![
        display("f8c0a8", "192.0.2.10", "eink-f8c0a8.local"),
        display("f8fab4", "192.0.2.11", "eink-f8fab4.local"),
    ]
}

#[test]
fn all_selects_every_display() {
    let ds = fleet();
    let picked = resolve_target(&ds, "all").unwrap();
    assert_eq!(picked.len(), 2);
    assert!(matches!(resolve_target(&[], "all"), Err(PaintressError::NoDisplaysFound)));
}

#[test]
fn target_matches_id_ip_hostname_or_prefix() {
    let ds = fleet();
    assert_eq!(resolve_target(&ds, "f8fab4").unwrap()[0].id, "f8fab4");
    assert_eq!(resolve_target(&ds, "192.0.2.10").unwrap()[0].id, "f8c0a8");
    assert_eq!(resolve_target(&ds, "eink-f8fab4.local").unwrap()[0].id, "f8fab4");
    // A hostname prefix matches the first display that has it.
    assert_eq!(resolve_target(&ds, "eink-f8").unwrap()[0].id, "f8c0a8");
    match resolve_target(&ds, "nope") {
        Err(PaintressError::DisplayNotFound(t)) => assert_eq!(t, "nope"),
        _ => panic!("expected DisplayNotFound"),
    }
}

#[test]
fn esp32_backend_resolves_like_discovery() {
    let ds = fleet();
    let backend = Esp32Backend::new();
    assert_eq!(backend.resolve_target(&ds, "eink-f8fab4").unwrap()[0].id, "f8fab4");
}

fn record(id: Option<&str>, width: Option<&str>, v4: bool) -> ServiceRecord {
    ServiceRecord {
        fullname: "eink-abc123._eink._tcp.local.".to_owned(),
        hostname: "eink-abc123.local.".to_owned(),
        port: 8080,
        id_property: id.map(|s| s.to_owned()),
        width_property: width.map(|s| s.to_owned()),
        height_property: Some("1600".to_owned()),
        addresses: vec![
            ServiceAddress { text: "fe80::1".to_owned(), is_ipv4: false },
            ServiceAddress { text: "192.0.2.5".to_owned(), is_ipv4: v4 },
        ],
    }
}

#[test]
fn service_record_becomes_display_info() {
    let d = display_from_service(&record(Some("abc123"), Some("1200"), true)).unwrap();
    assert_eq!(d.id, "abc123");
    assert_eq!(d.ip, "192.0.2.5");
    assert_eq!(d.port, 8080);
    assert_eq!(d.hostname, "eink-abc123.local");
    assert_eq!((d.width, d.height), (1200, 1600));
}

#[test]
fn service_record_fallbacks() {
    let d = display_from_service(&record(None, Some("wide"), true)).unwrap();
    assert_eq!(d.id, "eink-abc123");
    assert_eq!(d.width, 800);
    assert!(display_from_service(&record(None, None, false)).is_none());
}

#[test]
fn table_keeps_one_entry_per_id_sorted() {
    let mut table = DisplayTable::new();
    table.record(display("b", "192.0.2.2", "b.local"));
    table.record(display("a", "192.0.2.1", "a.local"));
    table.record(display("c", "192.0.2.3", "c.local"));
    table.record(display("b", "192.0.2.99", "b.local"));
    table.record_service(&record(None, None, false));
    let all = table.into_sorted();
    let ids: Vec<&str> = all.iter().map(|d| d.id.as_str()).collect();
    assert_eq!(ids, vec!["a", "b", "c"]);
    assert_eq!(all[1].ip, "192.0.2.99");
}
