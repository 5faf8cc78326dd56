//! The site's feed files: the whole-site feed and one per list, with the
//! paths they are written to. The HTML pages go through templates and the
//! files are written outside the library.

use vstd::prelude::*;
use crate::feed::{feed_dates_ok, feed_spec, render};
use crate::text::{chars_of, extend, extend_str, string_of, trim_end_char, trim_end_char_vec};
use crate::view::{FeedEntry, Site};

verus! {

/// The site's base URL, without trailing slashes.
pub open spec fn site_base(url: Seq<char>) -> Seq<char> {
    trim_end_char(url, '/')
}

pub open spec fn list_feed_file(base: Seq<char>, f: (String, String, Vec<FeedEntry>)) -> (Seq<char>, Seq<char>) {
    (
        "list/"@ + f.0@ + "/feed.xml"@,
        feed_spec("The Awesome Ledger \u{2014} "@ + f.1@, base + "/list/"@ + f.0@ + "/"@, f.2@),
    )
}

/// (path under the site, XML) of every feed: the site's first, then one per
/// list page.
pub open spec fn feed_files_spec(
    feed: Seq<FeedEntry>,
    list_feeds: Seq<(String, String, Vec<FeedEntry>)>,
    site_url: Seq<char>,
) -> Seq<(Seq<char>, Seq<char>)> {
    let base = site_base(site_url);
    seq![("feed.xml"@, feed_spec("The Awesome Ledger"@, base + "/"@, feed))] + list_feeds.map_values(
        |f: (String, String, Vec<FeedEntry>)| list_feed_file(base, f),
    )
}

/// Whether every feed date can be written in RFC 2822 (years 0 to 9999).
pub open spec fn feeds_ok(site: Site) -> bool {
    &&& feed_dates_ok(site.feed@)
    &&& forall|i: int| 0 <= i < site.list_feeds@.len() ==> feed_dates_ok(#[trigger] site.list_feeds@[i].2@)
}

fn entries_fit(es: &[FeedEntry]) -> (r: bool)
    ensures
        r == feed_dates_ok(es@),
{
    let mut i: usize = 0;
    while i < es.len()
        invariant
            i <= es.len(),
            forall|j: int| 0 <= j < i ==> valid_date_ok(#[trigger] es@[j]),
        decreases es.len() - i,
    {
        let d = es[i].date;
        if !(crate::date::Date::from_ymd(d.year, d.month, d.day).is_some() && 0 <= d.year && d.year <= 9999) {
            return false;
        }
        i += 1;
    }
    true
}

pub open spec fn valid_date_ok(e: FeedEntry) -> bool {
    crate::date::valid_date(e.date) && 0 <= e.date.year <= 9999
}

/// Checks `feeds_ok`, the condition of `feed_files`.
pub fn feeds_fit(site: &Site) -> (r: bool)
    ensures
        r == feeds_ok(*site),
{
    if !entries_fit(site.feed.as_slice()) {
        return false;
    }
    let mut i: usize = 0;
    while i < site.list_feeds.len()
        invariant
            i <= site.list_feeds.len(),
            feed_dates_ok(site.feed@),
            forall|j: int| 0 <= j < i ==> feed_dates_ok(#[trigger] site.list_feeds@[j].2@),
        decreases site.list_feeds.len() - i,
    {
        if !entries_fit(site.list_feeds[i].2.as_slice()) {
            return false;
        }
        i += 1;
    }
    true
}

/// The feed files of the site.
pub fn feed_files(site: &Site, site_url: &str) -> (r: Vec<(String, String)>)
    requires
        feeds_ok(*site),
    ensures
        r@.map_values(|p: (String, String)| (p.0@, p.1@)) == feed_files_spec(
            site.feed@,
            site.list_feeds@,
            site_url@,
        ),
{
    let url = chars_of(site_url);
    let base = trim_end_char_vec(&url, '/');
    let ghost bv = base@;
    let mut link: Vec<char> = Vec::new();
    extend(&mut link, &base);
    extend_str(&mut link, "/");
    let ls = string_of(&link);
    let main = render("The Awesome Ledger", ls.as_str(), site.feed.as_slice());
    let mut out: Vec<(String, String)> = Vec::new();
    out.push((String::from_str("feed.xml"), main));
    let ghost spec = feed_files_spec(site.feed@, site.list_feeds@, site_url@);
    assert(link@ =~= bv + "/"@);
    assert(spec.take(1) =~= seq![("feed.xml"@, feed_spec("The Awesome Ledger"@, bv + "/"@, site.feed@))]);
    assert(out@.map_values(|p: (String, String)| (p.0@, p.1@)) =~= spec.take(1));
    let mut i: usize = 0;
    while i < site.list_feeds.len()
        invariant
            i <= site.list_feeds.len(),
            feeds_ok(*site),
            bv == site_base(site_url@),
            base@ == bv,
            spec == feed_files_spec(site.feed@, site.list_feeds@, site_url@),
            out@.map_values(|p: (String, String)| (p.0@, p.1@)) == spec.take(i + 1),
        decreases site.list_feeds.len() - i,
    {
        let f = &site.list_feeds[i];
        let mut path = chars_of("list/");
        extend_str(&mut path, f.0.as_str());
        extend_str(&mut path, "/feed.xml");
        let mut title = chars_of("The Awesome Ledger \u{2014} ");
        extend_str(&mut title, f.1.as_str());
        let mut page: Vec<char> = Vec::new();
        extend(&mut page, &base);
        extend_str(&mut page, "/list/");
        extend_str(&mut page, f.0.as_str());
        extend_str(&mut page, "/");
        let ts = string_of(&title);
        let ps = string_of(&page);
        assert(feed_dates_ok(site.list_feeds@[i as int].2@));
        let xml = render(ts.as_str(), ps.as_str(), f.2.as_slice());
        let ghost before = out@.map_values(|p: (String, String)| (p.0@, p.1@));
        let item = (string_of(&path), xml);
        let ghost iv = (item.0@, item.1@);
        out.push(item);
        assert(out@.map_values(|p: (String, String)| (p.0@, p.1@)) =~= before.push(iv));
        assert(spec[i + 1] == list_feed_file(bv, site.list_feeds@[i as int]));
        assert(iv == spec[i + 1]);
        assert(spec.take(i + 2) =~= spec.take(i + 1).push(spec[i + 1]));
        i += 1;
    }
    assert(spec.take(i + 1) =~= spec);
    out
}

} // verus!
