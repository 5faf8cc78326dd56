use awesome_ledger::date::Date;
use awesome_ledger::model::{commafy, github_og, log_records, slug_of, Event, Kind, ListInfo, Meta, State};

fn day(y: i32, m: u32, d: u32) -> Date {
    Date::from_ymd(y, m, d).unwrap()
}

fn ev(date: Date, name: &str) -> Event {
    Event {
        date,
        kind: Kind::Added,
        list: "a/one".into(),
        name: name.into(),
        url: format!("https://github.com/x/{name}"),
        description: String::new(),
        section: Vec::new(),
    }
}

#[test]
fn og_url_for_plain_repo() {
    assert_eq!(
        github_og("https://github.com/rerun-io/rerun").as_deref(),
        Some("https://opengraph.githubassets.com/1/rerun-io/rerun")
    );
}

#[test]
fn og_url_strips_git_suffix_and_deep_paths() {
    assert_eq!(
        github_og("https://github.com/oxc-project/oxc.git").as_deref(),
        Some("https://opengraph.githubassets.com/1/oxc-project/oxc")
    );
    assert_eq!(
        github_og("https://github.com/foo/bar/tree/main/docs").as_deref(),
        Some("https://opengraph.githubassets.com/1/foo/bar")
    );
}

#[test]
fn og_url_rejects_non_repo_links() {
    assert_eq!(github_og("https://example.com/x"), None);
    assert_eq!(github_og("https://github.com/onlyowner"), None);
}

#[test]
fn commafy_groups_thousands() {
    assert_eq!(commafy(7), "7");
    assert_eq!(commafy(1204), "1,204");
    assert_eq!(commafy(214309), "214,309");
}

#[test]
fn commafy_edges() {
    assert_eq!(commafy(0), "0");
    assert_eq!(commafy(999), "999");
    assert_eq!(commafy(1000), "1,000");
    assert_eq!(commafy(18446744073709551615), "18,446,744,073,709,551,615");
}

#[test]
fn og_url_accepts_plain_http_and_drops_query() {
    assert_eq!(
        github_og("http://github.com/a/b?tab=readme").as_deref(),
        Some("https://opengraph.githubassets.com/1/a/b")
    );
    assert_eq!(github_og("https://github.com//b"), None);
}

#[test]
fn slugs_are_lower_case_and_hyphen_joined() {
    assert_eq!(slug_of("Rust-Unofficial", "Awesome-Rust"), "rust-unofficial-awesome-rust");
    let li = ListInfo {
        owner: "Foo".into(),
        repo: "Bar".into(),
        category: String::new(),
        enrolled: None,
        dead: false,
        entries: 0,
    };
    assert_eq!(li.full(), "Foo/Bar");
    assert_eq!(li.slug(), "foo-bar");
}

#[test]
fn list_repo_is_the_repo_half() {
    let mut e = ev(day(2026, 8, 24), "x");
    e.list = "rust-unofficial/awesome-rust".into();
    assert_eq!(e.list_repo(), "awesome-rust");
    e.list = "noslash".into();
    assert_eq!(e.list_repo(), "noslash");
}

#[test]
fn history_is_ordered_by_date_then_name() {
    let events = vec![
        ev(day(2026, 8, 24), "b"),
        ev(day(2026, 8, 23), "z"),
        ev(day(2026, 8, 24), "a"),
        ev(day(2025, 12, 31), "m"),
    ];
    let st = State::assemble(Vec::new(), events, Meta::empty());
    let order: Vec<(String, u32)> = st.events.iter().map(|e| (e.name.clone(), e.date.day)).collect();
    assert_eq!(
        order,
        vec![("m".to_string(), 31), ("z".to_string(), 23), ("a".to_string(), 24), ("b".to_string(), 24)]
    );
    for w in st.events.windows(2) {
        assert!(w[0].date.le(&w[1].date));
    }
}

#[test]
fn log_records_skip_blank_lines_and_number_the_rest() {
    let raw = "{\"a\":1}\n\n  {\"b\":2}  \r\n\n";
    let recs = log_records(raw);
    assert_eq!(recs, vec![(1, "{\"a\":1}".to_string()), (3, "{\"b\":2}".to_string())]);
    assert!(log_records("").is_empty());
}

#[test]
fn og_url_needs_a_repo_after_git_is_cut() {
    assert_eq!(github_og("https://github.com/a/.git"), None);
    assert_eq!(
        github_og("https://github.com/a/b.git.git").as_deref(),
        Some("https://opengraph.githubassets.com/1/a/b")
    );
}
