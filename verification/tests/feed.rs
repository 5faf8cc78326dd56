use awesome_ledger::date::Date;
use awesome_ledger::feed::render;
use awesome_ledger::view::FeedEntry;

#[test]
fn escapes_and_stamps() {
    let entries = vec![FeedEntry {
        name: "a<b>/c&d".into(),
        url: "https://github.com/a/c".into(),
        via: "awesome-x".into(),
        desc: "big & small".into(),
        date: Date::from_ymd(2026, 8, 24).unwrap(),
    }];
    let xml = render("The Awesome Ledger", "https://site/", &entries);
    assert!(xml.contains("a&lt;b&gt;/c&amp;d"));
    assert!(xml.contains("big &amp; small"));
    assert!(xml.contains("<pubDate>Mon, 24 Aug 2026"));
    assert!(!xml.contains("<b>"));
}

#[test]
fn empty_feed_has_no_build_date_and_item_shape() {
    let xml = render("T \"q\"", "https://site/", &[]);
    assert_eq!(
        xml,
        "<?xml version=\"1.0\" encoding=\"UTF-8\"?>\n<rss version=\"2.0\">\n<channel>\n<title>T &quot;q&quot;</title>\n<link>https://site/</link>\n<description>New entries across the GitHub awesome ecosystem, diffed nightly.</description>\n</channel>\n</rss>\n"
    );
    let one = vec![FeedEntry {
        name: "n".into(),
        url: "u".into(),
        via: "v".into(),
        desc: String::new(),
        date: Date::from_ymd(2026, 8, 24).unwrap(),
    }];
    let xml = render("T", "L", &one);
    assert!(xml.contains("<lastBuildDate>Mon, 24 Aug 2026 06:00:00 +0000</lastBuildDate>\n"));
    assert!(xml.contains(
        "<item>\n<title>n — via v</title>\n<link>u</link>\n<guid isPermaLink=\"false\">u#2026-08-24</guid>\n<pubDate>Mon, 24 Aug 2026 06:00:00 +0000</pubDate>\n</item>\n"
    ));
    assert!(!xml.contains("<description>n"));
}
