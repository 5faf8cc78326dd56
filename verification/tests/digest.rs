use awesome_ledger::date::Date;
use awesome_ledger::digest::{
    acked, chunks_url, compose, is_json, pending, queue_file_name, Delivery, Flush,
};
use awesome_ledger::model::{Event, Kind};

fn ev(d: u32, kind: Kind, name: &str, list: &str, desc: &str) -> Event {
    Event {
        date: Date::from_ymd(2026, 8, d).unwrap(),
        kind,
        list: list.into(),
        name: name.into(),
        url: format!("https://github.com/x/{name}"),
        description: desc.into(),
        section: Vec::new(),
    }
}

#[test]
fn quiet_day_composes_nothing() {
    let yesterday = [ev(23, Kind::Added, "Old", "a/one", "stale.")];
    let date = Date::from_ymd(2026, 8, 24).unwrap();
    assert!(compose(&yesterday, date, "https://site").is_none());
    assert!(compose(&[], date, "https://site").is_none());
}

#[test]
fn digest_counts_top_additions_and_tags() {
    let mut events: Vec<Event> = (0..12)
        .map(|i| ev(24, Kind::Added, &format!("Tool{i:02}"), "a/one", "does things."))
        .collect();
    events.push(ev(24, Kind::Removed, "Gone", "b/two", ""));
    events.push(ev(23, Kind::Added, "NotToday", "c/three", ""));
    let date = Date::from_ymd(2026, 8, 24).unwrap();
    let chunk = compose(&events, date, "https://site").unwrap();
    assert!(chunk
        .text
        .starts_with("awesome-ledger 2026-08-24: 12 added, 1 removed across 2 lists."));
    assert_eq!(chunk.text.matches("\n- ").count(), 10);
    assert!(chunk.text.contains("Tool00 — does things (a/one)"));
    assert!(chunk.text.contains("… plus 2 more additions."));
    assert!(!chunk.text.contains("NotToday"));
    assert!(chunk.text.ends_with("Full ledger: https://site"));
    assert_eq!(chunk.tags, ["changed", "chg0", "awesome-ledger"]);
    assert_eq!(chunk.reference, "awesome-ledger/digest/2026-08-24");
}

#[test]
fn single_list_and_blank_blurb_lines() {
    let events = [ev(24, Kind::Added, "Solo", "a/one", "  ...  "), ev(24, Kind::Removed, "Gone", "a/one", "")];
    let date = Date::from_ymd(2026, 8, 24).unwrap();
    let chunk = compose(&events, date, "https://site/").unwrap();
    assert_eq!(
        chunk.text,
        "awesome-ledger 2026-08-24: 1 added, 1 removed across 1 list.\n- Solo (a/one)\nFull ledger: https://site/"
    );
}

#[test]
fn queue_file_is_one_per_day() {
    let date = Date::from_ymd(2026, 8, 24).unwrap();
    assert_eq!(queue_file_name(date), "digest-2026-08-24.json");
    assert_eq!(queue_file_name(date), queue_file_name(Date::from_ymd(2026, 8, 24).unwrap()));
}

#[test]
fn pending_is_json_files_oldest_first() {
    let names = vec![
        "digest-2026-08-24.json".to_string(),
        "notes.txt".to_string(),
        "digest-2026-08-02.json".to_string(),
        ".json".to_string(),
        "digest-2026-07-30.json".to_string(),
    ];
    assert_eq!(
        pending(names),
        vec!["digest-2026-07-30.json", "digest-2026-08-02.json", "digest-2026-08-24.json"]
    );
    assert!(is_json("a.json"));
    assert!(!is_json(".json"));
    assert!(!is_json("json"));
    assert!(!is_json("a.json.bak"));
}

#[test]
fn chunk_endpoint_drops_trailing_slashes() {
    assert_eq!(chunks_url("http://memory:8080"), "http://memory:8080/idx/mem0/chunks");
    assert_eq!(chunks_url("http://memory:8080//"), "http://memory:8080/idx/mem0/chunks");
}

#[test]
fn flush_keeps_what_was_not_acked() {
    assert!(acked(200) && acked(204) && !acked(302) && !acked(500));
    let mut f = Flush::new();
    f.record("digest-2026-08-23.json", Delivery::Acked);
    f.record("digest-2026-08-24.json", Delivery::Refused("503 Service Unavailable".into()));
    f.record("digest-2026-08-25.json", Delivery::Failed("connection refused".into()));
    assert_eq!((f.sent, f.left), (1, 2));
    assert_eq!(
        f.text(),
        "digest queue: 1 sent, 2 pending\n  digest-2026-08-24.json: HTTP 503 Service Unavailable — kept in queue\n  digest-2026-08-25.json: connection refused — kept in queue"
    );
    assert_eq!(Flush::new().text(), "digest queue: 0 sent, 0 pending");
}

#[test]
fn each_day_has_its_own_reference() {
    let events = [ev(23, Kind::Added, "A", "a/one", ""), ev(24, Kind::Added, "B", "a/one", "")];
    let c23 = compose(&events, Date::from_ymd(2026, 8, 23).unwrap(), "u").unwrap();
    let c24 = compose(&events, Date::from_ymd(2026, 8, 24).unwrap(), "u").unwrap();
    assert_ne!(c23.reference, c24.reference);
    assert_ne!(
        queue_file_name(Date::from_ymd(2026, 8, 23).unwrap()),
        queue_file_name(Date::from_ymd(2026, 8, 24).unwrap())
    );
}
