use awesome_ledger::date::Date;
use awesome_ledger::model::{Event, Kind, ListInfo, Meta, State};
use awesome_ledger::view::{
    build, build_ready, day_label, distinct_event_days, front_badge, month_label, next_month, prev_month,
    short_date,
};

fn date(s: &str) -> Date {
    let y: i32 = s[0..4].parse().unwrap();
    let m: u32 = s[5..7].parse().unwrap();
    let d: u32 = s[8..10].parse().unwrap();
    Date::from_ymd(y, m, d).unwrap()
}

fn ev(d: &str, kind: Kind, list: &str, name: &str, url: &str) -> Event {
    Event {
        date: date(d),
        kind,
        list: list.into(),
        name: name.into(),
        url: url.into(),
        description: String::new(),
        section: vec![],
    }
}

fn li(owner: &str, repo: &str, entries: u64) -> ListInfo {
    ListInfo {
        owner: owner.into(),
        repo: repo.into(),
        category: String::new(),
        enrolled: None,
        dead: false,
        entries,
    }
}

fn state(lists: Vec<ListInfo>, events: Vec<Event>) -> State {
    State::assemble(lists, events, Meta::empty())
}

#[test]
fn cross_listed_same_day_dedupes_and_badges_on_front() {
    let s = state(
        vec![li("a", "awesome-x", 10), li("b", "awesome-y", 20)],
        vec![
            ev("2026-08-24", Kind::Added, "a/awesome-x", "r/r", "https://github.com/r/r"),
            ev("2026-08-24", Kind::Added, "b/awesome-y", "r/r", "https://github.com/r/r"),
        ],
    );
    let site = build(&s, date("2026-08-24"), "https://example.com");
    assert_eq!(site.index.days.len(), 1);
    let day = &site.index.days[0];
    assert_eq!(day.items.len(), 1);
    assert!(day.items[0].badge.contains("TWICE CHOSEN TODAY"));
    assert!(day.items[0].badge.contains("AWESOME-Y"));
    assert_eq!(site.feed.len(), 1);
}

#[test]
fn front_layouts_hero_then_side_then_text_today_only() {
    let mk = |n: &str| ev("2026-08-24", Kind::Added, "a/awesome-x", n, &format!("https://github.com/o/{n}"));
    let mut evs: Vec<Event> = ["a", "b", "c", "d"].iter().map(|n| mk(n)).collect();
    evs.push(ev("2026-08-23", Kind::Added, "a/awesome-x", "z", "https://github.com/o/z"));
    let s = state(vec![li("a", "awesome-x", 10)], evs);
    let site = build(&s, date("2026-08-24"), "https://example.com");
    let layouts: Vec<&str> = site.index.days[0].items.iter().map(|i| i.layout).collect();
    assert_eq!(layouts, vec!["hero", "side", "side", "text"]);
    assert_eq!(site.index.days[1].items[0].layout, "text");
    assert!(site.index.days[1].quiet, "1-item day is quiet");
}

#[test]
fn archive_marks_quiet_days_and_counts() {
    let s = state(
        vec![li("a", "awesome-x", 10)],
        vec![
            ev("2026-08-01", Kind::Added, "a/awesome-x", "p/q", "https://github.com/p/q"),
            ev("2026-08-03", Kind::Removed, "a/awesome-x", "r/s", "https://github.com/r/s"),
        ],
    );
    let site = build(&s, date("2026-08-04"), "https://example.com");
    assert_eq!(site.archives.len(), 1);
    let (ym, page) = &site.archives[0];
    assert_eq!(ym, "2026-08");
    assert_eq!(page.rows.len(), 4);
    assert!(page.rows[0].quiet);
    assert!(!page.rows[3].quiet);
    assert!(page.stats.contains("1 ADDED · 1 REMOVED"));
}

#[test]
fn list_page_stats_and_removals() {
    let s = state(
        vec![li("rust-unofficial", "awesome-rust", 1204)],
        vec![
            ev(
                "2026-08-24",
                Kind::Added,
                "rust-unofficial/awesome-rust",
                "rerun-io/rerun",
                "https://github.com/rerun-io/rerun",
            ),
            ev(
                "2026-08-11",
                Kind::Removed,
                "rust-unofficial/awesome-rust",
                "old/gone",
                "https://github.com/old/gone",
            ),
        ],
    );
    let site = build(&s, date("2026-08-24"), "https://example.com");
    assert_eq!(site.lists.len(), 1);
    let (slug, page) = &site.lists[0];
    assert_eq!(slug, "rust-unofficial-awesome-rust");
    assert!(page.stats1.contains("1,204 ENTRIES TODAY"));
    assert!(page.stats1.contains("1 ADDED THIS YEAR"));
    assert_eq!(page.spark.len(), 12);
    assert_eq!(page.removals.len(), 1);
    assert_eq!(page.removals[0].date, "11 AUG");
}

#[test]
fn masthead_and_footer_count_live_lists_only() {
    let mut dead = li("d", "awesome-dead", 500);
    dead.dead = true;
    let s = state(
        vec![li("a", "awesome-x", 1204), li("b", "awesome-y", 213105), dead],
        vec![ev("2026-08-24", Kind::Added, "a/awesome-x", "n", "https://github.com/o/n")],
    );
    let site = build(&s, date("2026-08-24"), "https://example.com/repo");
    assert_eq!(site.index.ed_line, "ED. № 1 · MON 24 AUG 2026");
    assert_eq!(site.index.note_lists, "2 lists diffed nightly");
    assert_eq!(site.index.foot_stats, "TRACKED LISTS: 2 · ENTRIES ON RECORD: 214,309");
    assert_eq!(site.index.about_url, "https://example.com/repo");
    assert_eq!(site.index.days[0].heading, "Today");
    assert_eq!(site.index.days[0].count_label, "1 NEW");
}

#[test]
fn edition_comes_from_meta_when_set() {
    let mut s = state(vec![li("a", "awesome-x", 1)], vec![]);
    s.meta.edition = Some(847);
    let site = build(&s, date("2026-08-24"), "https://example.com");
    assert!(site.index.ed_line.starts_with("ED. № 847 · "));
    assert!(site.index.days.is_empty());
    assert!(site.archives.is_empty());
    assert!(site.lists.is_empty());
}

#[test]
fn small_labels() {
    assert_eq!(short_date(date("2026-08-24")), "24 AUG");
    assert_eq!(day_label(date("2026-08-24")), "MON 24");
    assert_eq!(month_label(2026, 8), "August 2026");
    assert_eq!(prev_month(2026, 1), (2025, 12));
    assert_eq!(next_month(2026, 12), (2027, 1));
    assert_eq!(next_month(2026, 3), (2026, 4));
}

#[test]
fn badges_by_number_of_lists() {
    assert_eq!(front_badge("awesome-x", &vec!["awesome-x".to_string()]), "");
    assert_eq!(
        front_badge("awesome-x", &vec!["awesome-x".to_string(), "awesome-y".to_string()]),
        "★ ALSO CURATED IN AWESOME-Y — TWICE CHOSEN TODAY"
    );
    assert_eq!(
        front_badge(
            "awesome-x",
            &vec!["awesome-x".to_string(), "awesome-y".to_string(), "awesome-z".to_string()]
        ),
        "★ CURATED IN 3 LISTS TODAY"
    );
}

#[test]
fn distinct_days_count() {
    let evs = vec![
        ev("2026-08-23", Kind::Added, "a/x", "n", "u"),
        ev("2026-08-23", Kind::Removed, "a/x", "m", "v"),
        ev("2026-08-24", Kind::Added, "a/x", "o", "w"),
    ];
    assert_eq!(distinct_event_days(&evs), 2);
    assert_eq!(distinct_event_days(&[]), 0);
}

#[test]
fn site_feed_is_newest_additions_capped() {
    let mut evs: Vec<Event> = (0..201)
        .map(|i| ev("2026-08-20", Kind::Added, "a/awesome-x", &format!("n{i:03}"), &format!("https://github.com/o/n{i:03}")))
        .collect();
    evs.push(ev("2026-08-21", Kind::Removed, "a/awesome-x", "gone", "https://github.com/o/gone"));
    evs.push(ev("2026-08-22", Kind::Added, "a/awesome-x", "late", "https://github.com/o/late"));
    let s = state(vec![li("a", "awesome-x", 10)], evs);
    let site = build(&s, date("2026-08-24"), "https://example.com");
    assert_eq!(site.feed.len(), 200);
    assert_eq!(site.feed[0].name, "late");
    assert_eq!(site.feed[0].via, "awesome-x");
    assert!(site.feed.iter().all(|f| f.name != "gone"));
    assert_eq!(site.list_feeds.len(), 1);
    assert_eq!(site.list_feeds[0].0, "a-awesome-x");
    assert_eq!(site.list_feeds[0].2.len(), 50);
}

#[test]
fn dates_near_the_calendar_edges() {
    let s = state(vec![li("a", "awesome-x", 1)], vec![]);
    // A front page needs the thirty days before today to exist.
    assert!(!build_ready(&s, Date::from_ymd(-262143, 1, 20).unwrap()));
    let early = Date::from_ymd(-262142, 6, 1).unwrap();
    assert!(build_ready(&s, early));
    let site = build(&s, early, "https://example.com");
    assert!(site.archives.is_empty());
    assert_eq!(next_month(i32::MAX, 5), (i32::MAX, 6));
    assert_eq!(prev_month(i32::MIN, 5), (i32::MIN, 4));
}
