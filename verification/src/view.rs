//! View model: turns loaded state into plain page structs that templates
//! render without logic. All text (dates, stats, badges) is computed here.
//!
//! Layout kinds follow the design: the first item of a day is the "hero"
//! (full-width preview), the next two get side previews, the rest are
//! text-only. Items without a GitHub OpenGraph card degrade to text.

use vstd::prelude::*;
use crate::date::{
    Date, fmt_day_mon, fmt_month_year, fmt_wday_day, has_prev, lemma_date_formats_ascii, lemma_names_ascii,
    month_abbr, valid_date,
};
use crate::model::{Event, EventV, Kind, og_spec, slug_spec, github_og, slug_of, events_view};
use crate::date::{days_back, prev_day, fmt_long, MIN_YEAR};
use crate::model::{ListInfo, ListInfoV, Meta, lists_view, State, commafy};
use crate::text::{group3, zero_pad};
use crate::date::{days_in_month, MAX_YEAR, month_days};
use crate::sort::{KeyV, SortKey, keyed_view, lemma_sort_keyed_contains, lemma_sort_keyed_map, map_payload, sort_by_key, sort_keyed};
use crate::sort::{distinct_by, law_sort_keyed_permutes, lemma_sort_keyed_distinct};
use crate::text::seq_eq;
use crate::text::{
    after_last, after_last_char, before, before_char, chars_of, dec, extend_str, push_dec,
    string_of, to_upper, unicode_upper, all_ascii, ascii_lower, ascii_upper,
};

verus! {

pub const FRONT_WINDOW_DAYS: usize = 30;

pub const QUIET_DAY_MAX: usize = 2;

pub const ARCHIVE_NAMES_SHOWN: usize = 8;

pub const LIST_ADDITIONS_SHOWN: usize = 40;

pub const LIST_REMOVALS_SHOWN: usize = 20;

pub const FEED_ITEMS: usize = 200;

pub const LIST_FEED_ITEMS: usize = 50;

pub struct Item {
    pub name: String,
    pub url: String,
    /// "AWESOME-RUST"
    pub via: String,
    /// "list/<slug>/"; the template prefixes the root.
    pub via_href: String,
    /// "24 AUG", shown on per-list pages.
    pub date: String,
    pub desc: String,
    /// "hero" | "side" | "text"
    pub layout: &'static str,
    /// OpenGraph URL or "".
    pub img: String,
    pub img_alt: String,
    /// "" or "★ ALSO …"
    pub badge: String,
}

pub struct ItemV {
    pub name: Seq<char>,
    pub url: Seq<char>,
    pub via: Seq<char>,
    pub via_href: Seq<char>,
    pub date: Seq<char>,
    pub desc: Seq<char>,
    pub layout: Seq<char>,
    pub img: Seq<char>,
    pub img_alt: Seq<char>,
    pub badge: Seq<char>,
}

impl View for Item {
    type V = ItemV;

    open spec fn view(&self) -> ItemV {
        ItemV {
            name: self.name@,
            url: self.url@,
            via: self.via@,
            via_href: self.via_href@,
            date: self.date@,
            desc: self.desc@,
            layout: self.layout@,
            img: self.img@,
            img_alt: self.img_alt@,
            badge: self.badge@,
        }
    }
}

pub open spec fn items_view(v: Seq<Item>) -> Seq<ItemV> {
    v.map_values(|i: Item| i@)
}

/// One item of a feed.
pub struct FeedEntry {
    pub name: String,
    pub url: String,
    /// "awesome-rust"
    pub via: String,
    pub desc: String,
    pub date: Date,
}

pub struct FeedEntryV {
    pub name: Seq<char>,
    pub url: Seq<char>,
    pub via: Seq<char>,
    pub desc: Seq<char>,
    pub date: Date,
}

impl View for FeedEntry {
    type V = FeedEntryV;

    open spec fn view(&self) -> FeedEntryV {
        FeedEntryV { name: self.name@, url: self.url@, via: self.via@, desc: self.desc@, date: self.date }
    }
}

pub open spec fn feed_view(v: Seq<FeedEntry>) -> Seq<FeedEntryV> {
    v.map_values(|e: FeedEntry| e@)
}

// ---------------------------------------------------------------------------
// Small pieces
// ---------------------------------------------------------------------------

/// "24 AUG"
pub open spec fn short_date_spec(d: Date) -> Seq<char> {
    ascii_upper(fmt_day_mon(d))
}

pub fn short_date(d: Date) -> (r: String)
    requires
        valid_date(d),
    ensures
        r@ == short_date_spec(d),
{
    let s = d.format("%-d %b");
    proof {
        lemma_date_formats_ascii(d);
    }
    to_upper(s.as_str())
}

/// "SUN 24"
pub open spec fn day_label_spec(d: Date) -> Seq<char> {
    ascii_upper(fmt_wday_day(d))
}

pub fn day_label(d: Date) -> (r: String)
    requires
        valid_date(d),
    ensures
        r@ == day_label_spec(d),
{
    let s = d.format("%a %-d");
    proof {
        lemma_date_formats_ascii(d);
    }
    to_upper(s.as_str())
}

/// Display name of an event's source list: the repo half.
pub open spec fn list_repo_spec(e: EventV) -> Seq<char> {
    after_last(e.list, '/')
}

pub open spec fn feed_entry_spec(e: EventV) -> FeedEntryV {
    FeedEntryV { name: e.name, url: e.url, via: list_repo_spec(e), desc: e.description, date: e.date }
}

pub fn feed_entry(ev: &Event) -> (r: FeedEntry)
    ensures
        r@ == feed_entry_spec(ev@),
{
    FeedEntry {
        name: ev.name.clone(),
        url: ev.url.clone(),
        via: ev.list_repo(),
        desc: ev.description.clone(),
        date: ev.date,
    }
}

/// The item of an event at position `idx` of its section.
pub open spec fn make_item_spec(e: EventV, idx: int, with_previews: bool, badge: Seq<char>) -> ItemV {
    let img = if with_previews && idx <= 2 {
        match og_spec(e.url) {
            Some(u) => u,
            None => seq![],
        }
    } else {
        seq![]
    };
    ItemV {
        name: e.name,
        url: e.url,
        via: unicode_upper(list_repo_spec(e)),
        via_href: "list/"@ + slug_spec(before(e.list, '/'), list_repo_spec(e)) + "/"@,
        date: short_date_spec(e.date),
        desc: e.description,
        layout: if img.len() == 0 {
            "text"@
        } else if idx == 0 {
            "hero"@
        } else {
            "side"@
        },
        img,
        img_alt: "Preview of "@ + e.name + " on GitHub"@,
        badge,
    }
}

pub fn make_item(ev: &Event, idx: usize, with_previews: bool, badge: String) -> (r: Item)
    requires
        valid_date(ev.date),
    ensures
        r@ == make_item_spec(ev@, idx as int, with_previews, badge@),
        all_ascii(list_repo_spec(ev@)) ==> r@.via == ascii_upper(list_repo_spec(ev@)),
        all_ascii(before(ev@.list, '/')) && all_ascii(list_repo_spec(ev@)) ==> r@.via_href
            == "list/"@ + ascii_lower(before(ev@.list, '/')) + seq!['-'] + ascii_lower(
            list_repo_spec(ev@),
        ) + "/"@,
{
    let img = if with_previews && idx <= 2 {
        match github_og(ev.url.as_str()) {
            Some(u) => u,
            None => String::new(),
        }
    } else {
        String::new()
    };
    let layout: &'static str = if img.as_str().is_empty() {
        "text"
    } else if idx == 0 {
        "hero"
    } else {
        "side"
    };
    let repo = ev.list_repo();
    let lv = chars_of(ev.list.as_str());
    let owner_part = string_of(&before_char(&lv, '/'));
    let slug = slug_of(owner_part.as_str(), repo.as_str());
    let mut href = chars_of("list/");
    extend_str(&mut href, slug.as_str());
    extend_str(&mut href, "/");
    let mut alt = chars_of("Preview of ");
    extend_str(&mut alt, ev.name.as_str());
    extend_str(&mut alt, " on GitHub");
    let r = Item {
        name: ev.name.clone(),
        url: ev.url.clone(),
        via: to_upper(repo.as_str()),
        via_href: string_of(&href),
        date: short_date(ev.date),
        desc: ev.description.clone(),
        layout,
        img,
        img_alt: string_of(&alt),
        badge,
    };
    assert(r@.via_href =~= make_item_spec(ev@, idx as int, with_previews, badge@).via_href);
    assert(r@.img_alt =~= make_item_spec(ev@, idx as int, with_previews, badge@).img_alt);
    r
}

/// The badge of a front-page item: lists that added it today, when more
/// than one did.
pub open spec fn front_badge_spec(own: Seq<char>, lists_today: Seq<Seq<char>>) -> Seq<char> {
    if lists_today.len() < 2 {
        seq![]
    } else if lists_today.len() == 2 {
        let other = first_other(lists_today, own);
        "\u{2605} ALSO CURATED IN "@ + unicode_upper(other) + " \u{2014} TWICE CHOSEN TODAY"@
    } else {
        "\u{2605} CURATED IN "@ + dec(lists_today.len()) + " LISTS TODAY"@
    }
}

/// The first list other than `own` (`own` when there is none).
pub open spec fn first_other(ls: Seq<Seq<char>>, own: Seq<char>) -> Seq<char>
    decreases ls.len(),
{
    if ls.len() == 0 {
        own
    } else if ls[0] != own {
        ls[0]
    } else {
        first_other(ls.drop_first(), own)
    }
}

pub fn front_badge(own: &str, lists_today: &Vec<String>) -> (r: String)
    ensures
        r@ == front_badge_spec(own@, lists_today@.map_values(|s: String| s@)),
        lists_today@.len() == 2 && all_ascii(
            first_other(lists_today@.map_values(|s: String| s@), own@),
        ) ==> r@ == "\u{2605} ALSO CURATED IN "@ + ascii_upper(
            first_other(lists_today@.map_values(|s: String| s@), own@),
        ) + " \u{2014} TWICE CHOSEN TODAY"@,
{
    let ghost ls = lists_today@.map_values(|s: String| s@);
    if lists_today.len() < 2 {
        return String::new();
    }
    if lists_today.len() == 2 {
        let ov = chars_of(own);
        let mut other = String::from_str(own);
        let mut i: usize = 0;
        assert(ls.skip(0) =~= ls);
        while i < lists_today.len()
            invariant
                i <= lists_today.len(),
                lists_today.len() == 2,
                ls == lists_today@.map_values(|s: String| s@),
                ov@ == own@,
                other@ == own@,
                first_other(ls, own@) == first_other(ls.skip(i as int), own@),
            decreases lists_today.len() - i,
        {
            let lv = chars_of(lists_today[i].as_str());
            assert(ls.skip(i as int)[0] == ls[i as int]);
            if !crate::text::seq_eq(&lv, &ov) {
                assert(ls.skip(i as int).len() > 0);
                assert(first_other(ls.skip(i as int), own@) == ls[i as int]);
                other = lists_today[i].clone();
                let mut out = chars_of("\u{2605} ALSO CURATED IN ");
                let up = to_upper(other.as_str());
                extend_str(&mut out, up.as_str());
                extend_str(&mut out, " \u{2014} TWICE CHOSEN TODAY");
                return string_of(&out);
            }
            assert(ls.skip(i as int).drop_first() =~= ls.skip(i + 1));
            i += 1;
        }
        assert(ls.skip(2).len() == 0);
        let mut out = chars_of("\u{2605} ALSO CURATED IN ");
        let up = to_upper(other.as_str());
        extend_str(&mut out, up.as_str());
        extend_str(&mut out, " \u{2014} TWICE CHOSEN TODAY");
        return string_of(&out);
    }
    let mut out = chars_of("\u{2605} CURATED IN ");
    push_dec(&mut out, lists_today.len() as u64);
    extend_str(&mut out, " LISTS TODAY");
    string_of(&out)
}

pub open spec fn prev_month_spec(y: int, m: int) -> (int, int) {
    if m == 1 {
        (y - 1, 12)
    } else {
        (y, m - 1)
    }
}

pub open spec fn next_month_spec(y: int, m: int) -> (int, int) {
    if m == 12 {
        (y + 1, 1)
    } else {
        (y, m + 1)
    }
}

pub fn prev_month(y: i32, m: u32) -> (r: (i32, u32))
    requires
        1 <= m <= 12,
        m == 1 ==> y > i32::MIN,
    ensures
        (r.0 as int, r.1 as int) == prev_month_spec(y as int, m as int),
{
    if m == 1 {
        (y - 1, 12)
    } else {
        (y, m - 1)
    }
}

pub fn next_month(y: i32, m: u32) -> (r: (i32, u32))
    requires
        1 <= m <= 12,
        m == 12 ==> y < i32::MAX,
    ensures
        (r.0 as int, r.1 as int) == next_month_spec(y as int, m as int),
{
    if m == 12 {
        (y + 1, 1)
    } else {
        (y, m + 1)
    }
}

/// "August 2026"
pub open spec fn month_label_spec(y: i32, m: u32) -> Seq<char> {
    fmt_month_year(Date { year: y, month: m, day: 1 })
}

pub fn month_label(y: i32, m: u32) -> (r: String)
    requires
        valid_date(Date { year: y, month: m, day: 1 }),
    ensures
        r@ == month_label_spec(y, m),
{
    let d = Date { year: y, month: m, day: 1 };
    d.format("%B %Y")
}

/// The number of distinct event dates.
pub open spec fn distinct_dates(es: Seq<EventV>) -> Seq<Date>
    decreases es.len(),
{
    if es.len() == 0 {
        seq![]
    } else {
        let rest = distinct_dates(es.drop_last());
        if rest.contains(es.last().date) {
            rest
        } else {
            rest.push(es.last().date)
        }
    }
}

pub fn distinct_event_days(events: &[Event]) -> (r: u64)
    ensures
        r == distinct_dates(events_view(events@)).len(),
{
    let ghost ev = events_view(events@);
    let mut seen: Vec<Date> = Vec::new();
    let mut i: usize = 0;
    while i < events.len()
        invariant
            i <= events.len(),
            ev == events_view(events@),
            seen@ == distinct_dates(ev.take(i as int)),
            seen@.len() <= i,
        decreases events.len() - i,
    {
        proof {
            assert(ev.take(i + 1).drop_last() =~= ev.take(i as int));
            assert(ev.take(i + 1).last() == events@[i as int]@);
        }
        let d = events[i].date;
        let mut found = false;
        let mut j: usize = 0;
        while j < seen.len()
            invariant
                j <= seen.len(),
                !found ==> forall|k: int| 0 <= k < j ==> seen@[k] != d,
                found ==> seen@.contains(d),
            decreases seen.len() - j,
        {
            if seen[j].same(&d) {
                found = true;
            }
            j += 1;
        }
        if !found {
            seen.push(d);
        }
        i += 1;
    }
    assert(ev.take(events.len() as int) =~= ev);
    seen.len() as u64
}


// ---------------------------------------------------------------------------
// Selections over the event history (by index)
// ---------------------------------------------------------------------------

pub open spec fn at(ev: Seq<EventV>, idx: Seq<usize>) -> Seq<EventV> {
    idx.map_values(|i: usize| ev[i as int])
}

pub open spec fn idx_ok(idx: Seq<usize>, n: int) -> bool {
    forall|j: int| 0 <= j < idx.len() ==> #[trigger] idx[j] < n
}

/// The additions of day `d`, in history order.
pub open spec fn day_adds(es: Seq<EventV>, d: Date) -> Seq<EventV>
    decreases es.len(),
{
    if es.len() == 0 {
        seq![]
    } else if es.last().kind == Kind::Added && es.last().date == d {
        day_adds(es.drop_last(), d).push(es.last())
    } else {
        day_adds(es.drop_last(), d)
    }
}

/// One event per URL: the first.
pub open spec fn dedup_url(es: Seq<EventV>) -> Seq<EventV>
    decreases es.len(),
{
    if es.len() == 0 {
        seq![]
    } else {
        let rest = dedup_url(es.drop_last());
        if rest.map_values(|e: EventV| e.url).contains(es.last().url) {
            rest
        } else {
            rest.push(es.last())
        }
    }
}

/// Source lists (repo halves) of the events for a URL, in order.
pub open spec fn cross_lists(es: Seq<EventV>, url: Seq<char>) -> Seq<Seq<char>>
    decreases es.len(),
{
    if es.len() == 0 {
        seq![]
    } else if es.last().url == url {
        cross_lists(es.drop_last(), url).push(list_repo_spec(es.last()))
    } else {
        cross_lists(es.drop_last(), url)
    }
}

/// Indices of the additions of day `d`.
fn day_add_idx(events: &[Event], d: Date) -> (r: Vec<usize>)
    ensures
        idx_ok(r@, events@.len() as int),
        r@.len() <= events@.len(),
        at(events_view(events@), r@) == day_adds(events_view(events@), d),
{
    let ghost ev = events_view(events@);
    let mut out: Vec<usize> = Vec::new();
    let mut i: usize = 0;
    while i < events.len()
        invariant
            i <= events.len(),
            ev == events_view(events@),
            idx_ok(out@, events@.len() as int),
            out@.len() <= i,
            at(ev, out@) == day_adds(ev.take(i as int), d),
        decreases events.len() - i,
    {
        proof {
            assert(ev.take(i + 1).drop_last() =~= ev.take(i as int));
            assert(ev.take(i + 1).last() == ev[i as int]);
        }
        if events[i].kind == Kind::Added && events[i].date.same(&d) {
            let ghost before = at(ev, out@);
            out.push(i);
            assert(at(ev, out@) =~= before.push(ev[i as int]));
        }
        i += 1;
    }
    assert(ev.take(events.len() as int) =~= ev);
    out
}

fn contains_url(events: &[Event], idx: &Vec<usize>, url: &str) -> (r: bool)
    requires
        idx_ok(idx@, events@.len() as int),
    ensures
        r == at(events_view(events@), idx@).map_values(|e: EventV| e.url).contains(url@),
{
    let ghost us = at(events_view(events@), idx@).map_values(|e: EventV| e.url);
    let uv = chars_of(url);
    let mut j: usize = 0;
    while j < idx.len()
        invariant
            j <= idx.len(),
            idx_ok(idx@, events@.len() as int),
            us == at(events_view(events@), idx@).map_values(|e: EventV| e.url),
            uv@ == url@,
            forall|k: int| 0 <= k < j ==> us[k] != url@,
        decreases idx.len() - j,
    {
        let ev = &events[idx[j]];
        let cv = chars_of(ev.url.as_str());
        if seq_eq(&cv, &uv) {
            assert(us[j as int] == url@);
            return true;
        }
        j += 1;
    }
    false
}

/// `dedup_url` over a selection.
fn dedup_idx(events: &[Event], idx: &Vec<usize>) -> (r: Vec<usize>)
    requires
        idx_ok(idx@, events@.len() as int),
    ensures
        idx_ok(r@, events@.len() as int),
        at(events_view(events@), r@) == dedup_url(at(events_view(events@), idx@)),
{
    let ghost ev = events_view(events@);
    let ghost src = at(ev, idx@);
    let mut out: Vec<usize> = Vec::new();
    let mut i: usize = 0;
    while i < idx.len()
        invariant
            i <= idx.len(),
            ev == events_view(events@),
            idx_ok(idx@, events@.len() as int),
            src == at(ev, idx@),
            idx_ok(out@, events@.len() as int),
            at(ev, out@) == dedup_url(src.take(i as int)),
        decreases idx.len() - i,
    {
        proof {
            assert(src.take(i + 1).drop_last() =~= src.take(i as int));
            assert(src.take(i + 1).last() == ev[idx@[i as int] as int]);
        }
        let k = idx[i];
        if !contains_url(events, &out, events[k].url.as_str()) {
            let ghost before = at(ev, out@);
            out.push(k);
            assert(at(ev, out@) =~= before.push(ev[k as int]));
        }
        i += 1;
    }
    assert(src.take(idx.len() as int) =~= src);
    out
}

/// `cross_lists` over a selection.
fn cross_of(events: &[Event], idx: &Vec<usize>, url: &str) -> (r: Vec<String>)
    requires
        idx_ok(idx@, events@.len() as int),
    ensures
        r@.map_values(|s: String| s@) == cross_lists(at(events_view(events@), idx@), url@),
        r@.len() <= idx@.len(),
{
    let ghost src = at(events_view(events@), idx@);
    let uv = chars_of(url);
    let mut out: Vec<String> = Vec::new();
    let mut i: usize = 0;
    while i < idx.len()
        invariant
            i <= idx.len(),
            idx_ok(idx@, events@.len() as int),
            src == at(events_view(events@), idx@),
            uv@ == url@,
            out@.map_values(|s: String| s@) == cross_lists(src.take(i as int), url@),
            out@.len() <= i,
        decreases idx.len() - i,
    {
        proof {
            assert(src.take(i + 1).drop_last() =~= src.take(i as int));
        }
        let e = &events[idx[i]];
        let cv = chars_of(e.url.as_str());
        if seq_eq(&cv, &uv) {
            let ghost before = out@.map_values(|s: String| s@);
            out.push(e.list_repo());
            assert(out@.map_values(|s: String| s@) =~= before.push(list_repo_spec(src[i as int])));
        }
        i += 1;
    }
    assert(src.take(idx.len() as int) =~= src);
    out
}

// ---------------------------------------------------------------------------
// Front page
// ---------------------------------------------------------------------------

pub struct DaySection {
    /// "Today" / "Sat 23"
    pub heading: String,
    pub count_label: String,
    pub today: bool,
    pub quiet: bool,
    pub items: Vec<Item>,
}

pub struct DaySectionV {
    pub heading: Seq<char>,
    pub count_label: Seq<char>,
    pub today: bool,
    pub quiet: bool,
    pub items: Seq<ItemV>,
}

impl View for DaySection {
    type V = DaySectionV;

    open spec fn view(&self) -> DaySectionV {
        DaySectionV {
            heading: self.heading@,
            count_label: self.count_label@,
            today: self.today,
            quiet: self.quiet,
            items: items_view(self.items@),
        }
    }
}

/// Cross-listed additions lead the day: ordered by how many lists added
/// the URL that day, most first, stable otherwise.
pub open spec fn front_order(adds: Seq<EventV>, evs: Seq<EventV>) -> Seq<EventV> {
    sort_keyed(
        evs.map_values(
            |e: EventV| (KeyV { num: -(cross_lists(adds, e.url).len() as int), first: seq![], second: seq![] }, e),
        ),
    ).map_values(|p: (KeyV, EventV)| p.1)
}

pub open spec fn front_items(adds: Seq<EventV>, evs: Seq<EventV>, is_today: bool) -> Seq<ItemV> {
    Seq::new(
        evs.len(),
        |i: int|
            make_item_spec(
                evs[i],
                i,
                is_today,
                front_badge_spec(list_repo_spec(evs[i]), cross_lists(adds, evs[i].url)),
            ),
    )
}

/// The front-page section of day `d`, if anything was added that day.
pub open spec fn day_section(es: Seq<EventV>, today: Date, d: Date) -> Option<DaySectionV> {
    let adds = day_adds(es, d);
    let evs = dedup_url(adds);
    if evs.len() == 0 {
        None
    } else {
        let is_today = d == today;
        Some(
            DaySectionV {
                heading: if is_today {
                    "Today"@
                } else {
                    fmt_wday_day(d)
                },
                count_label: dec(evs.len()) + " NEW"@,
                today: is_today,
                quiet: evs.len() <= QUIET_DAY_MAX,
                items: front_items(adds, front_order(adds, evs), is_today),
            },
        )
    }
}

/// The sections of the last `n` days, newest first.
pub open spec fn front_days(es: Seq<EventV>, today: Date, n: nat) -> Seq<DaySectionV>
    decreases n,
{
    if n == 0 {
        seq![]
    } else {
        let rest = front_days(es, today, (n - 1) as nat);
        match day_section(es, today, days_back(today, (n - 1) as nat)) {
            Some(s) => rest.push(s),
            None => rest,
        }
    }
}

pub open spec fn sections_view(v: Seq<DaySection>) -> Seq<DaySectionV> {
    v.map_values(|s: DaySection| s@)
}

pub open spec fn dates_valid(es: Seq<EventV>) -> bool {
    forall|i: int| 0 <= i < es.len() ==> valid_date(#[trigger] es[i].date)
}

fn day_section_exec(events: &[Event], today: Date, d: Date) -> (r: Option<DaySection>)
    requires
        events@.len() * 100 <= usize::MAX,
        valid_date(d),
        dates_valid(events_view(events@)),
    ensures
        match r {
            Some(s) => day_section(events_view(events@), today, d) == Some(s@),
            None => day_section(events_view(events@), today, d) is None,
        },
{
    let ghost ev = events_view(events@);
    let adds = day_add_idx(events, d);
    let evs = dedup_idx(events, &adds);
    if evs.len() == 0 {
        return None;
    }
    let is_today = d.same(&today);
    let ghost av = at(ev, adds@);
    // Sort by cross-list count, most first (stable).
    let mut keyed: Vec<(SortKey, usize)> = Vec::new();
    let mut j: usize = 0;
    while j < evs.len()
        invariant
            j <= evs.len(),
            idx_ok(evs@, events@.len() as int),
            idx_ok(adds@, events@.len() as int),
            ev == events_view(events@),
            av == at(ev, adds@),
            adds@.len() <= events@.len(),
            events@.len() * 100 <= usize::MAX,
            forall|k: int| 0 <= k < keyed@.len() ==> #[trigger] keyed@[k].1 < events@.len(),
            map_payload(keyed_view(keyed@), |i: usize| ev[i as int]) == at(ev, evs@).take(j as int).map_values(
                |e: EventV| (KeyV { num: -(cross_lists(av, e.url).len() as int), first: seq![], second: seq![] }, e),
            ),
        decreases evs.len() - j,
    {
        let k = evs[j];
        let cl = cross_of(events, &adds, events[k].url.as_str());
        assert(cl@.len() <= events@.len());
        let n = cl.len() as i64;
        let ghost before = map_payload(keyed_view(keyed@), |i: usize| ev[i as int]);
        keyed.push((SortKey { num: -n, first: Vec::new(), second: Vec::new() }, k));
        proof {
            let kv = KeyV { num: -(cross_lists(av, ev[k as int].url).len() as int), first: seq![], second: seq![] };
            assert(map_payload(keyed_view(keyed@), |i: usize| ev[i as int]) =~= before.push((kv, ev[k as int])));
            assert(at(ev, evs@).take(j + 1).map_values(
                |e: EventV| (KeyV { num: -(cross_lists(av, e.url).len() as int), first: seq![], second: seq![] }, e),
            ) =~= at(ev, evs@).take(j as int).map_values(
                |e: EventV| (KeyV { num: -(cross_lists(av, e.url).len() as int), first: seq![], second: seq![] }, e),
            ).push((kv, ev[k as int])));
        }
        j += 1;
    }
    assert(at(ev, evs@).take(evs.len() as int) =~= at(ev, evs@));
    let ghost kv0 = keyed_view(keyed@);
    let sorted = sort_by_key(keyed);
    proof {
        lemma_sort_keyed_map(kv0, |i: usize| ev[i as int]);
        lemma_sort_keyed_contains(kv0);
        assert forall|k: int| 0 <= k < sorted@.len() implies #[trigger] sorted@[k].1 < events@.len() by {
            assert(keyed_view(sorted@)[k] == sort_keyed(kv0)[k]);
            assert(kv0.contains(sort_keyed(kv0)[k]));
            let m = choose|m: int| 0 <= m < kv0.len() && kv0[m] == sort_keyed(kv0)[k];
            assert(kv0[m].1 == keyed@[m].1);
        }
    }
    let ghost order = front_order(av, dedup_url(av));
    assert(order =~= map_payload(keyed_view(sorted@), |i: usize| ev[i as int]).map_values(|p: (KeyV, EventV)| p.1));
    let mut items: Vec<Item> = Vec::new();
    let mut i: usize = 0;
    while i < sorted.len()
        invariant
            i <= sorted.len(),
            ev == events_view(events@),
            dates_valid(ev),
            idx_ok(adds@, events@.len() as int),
            av == at(ev, adds@),
            order.len() == sorted@.len(),
            forall|k: int| 0 <= k < sorted@.len() ==> #[trigger] order[k] == ev[sorted@[k].1 as int],
            forall|k: int| 0 <= k < sorted@.len() ==> #[trigger] sorted@[k].1 < events@.len(),
            items_view(items@) == front_items(av, order, is_today).take(i as int),
        decreases sorted.len() - i,
    {
        let k = sorted[i].1;
        let e = &events[k];
        let cl = cross_of(events, &adds, e.url.as_str());
        let repo = e.list_repo();
        let badge = front_badge(repo.as_str(), &cl);
        assert(order[i as int] == ev[k as int]);
        assert(valid_date(ev[k as int].date));
        let item = make_item(e, i, is_today, badge);
        let ghost before = items_view(items@);
        assert(item@ == front_items(av, order, is_today)[i as int]);
        let ghost iv = item@;
        items.push(item);
        assert(items_view(items@) =~= before.push(iv));
        assert(front_items(av, order, is_today).take(i + 1) =~= front_items(av, order, is_today).take(
            i as int,
        ).push(iv));
        i += 1;
    }
    assert(front_items(av, order, is_today).take(sorted.len() as int) =~= front_items(av, order, is_today));
    let heading = if is_today {
        String::from_str("Today")
    } else {
        d.format("%a %-d")
    };
    let mut label: Vec<char> = Vec::new();
    push_dec(&mut label, evs.len() as u64);
    extend_str(&mut label, " NEW");
    let sec = DaySection {
        heading,
        count_label: string_of(&label),
        today: is_today,
        quiet: evs.len() <= QUIET_DAY_MAX,
        items,
    };
    assert(sec@.count_label =~= dec(evs@.len() as nat) + " NEW"@);
    Some(sec)
}

proof fn lemma_cross_len(es: Seq<EventV>, url: Seq<char>)
    ensures
        cross_lists(es, url).len() <= es.len(),
    decreases es.len(),
{
    if es.len() > 0 {
        lemma_cross_len(es.drop_last(), url);
    }
}


/// Whether every one of the `n` days before `d` exists: stepping back from
/// `d` `n` times never leaves chrono's range.
pub open spec fn steps_back_ok(d: Date, n: nat) -> bool {
    forall|k: nat| k < n ==> #[trigger] has_prev(days_back(d, k))
}

proof fn lemma_days_back_valid(d: Date, n: nat)
    requires
        valid_date(d),
        steps_back_ok(d, n),
    ensures
        valid_date(days_back(d, n)),
    decreases n,
{
    if n > 0 {
        lemma_days_back_valid(d, (n - 1) as nat);
        assert(has_prev(days_back(d, (n - 1) as nat)));
    }
}

/// The front-page sections, newest day first.
fn front_sections(events: &[Event], today: Date) -> (r: Vec<DaySection>)
    requires
        valid_date(today),
        steps_back_ok(today, FRONT_WINDOW_DAYS as nat),
        events@.len() * 100 <= usize::MAX,
        dates_valid(events_view(events@)),
    ensures
        sections_view(r@) == front_days(events_view(events@), today, FRONT_WINDOW_DAYS as nat),
{
    let ghost ev = events_view(events@);
    let mut days: Vec<DaySection> = Vec::new();
    let mut d = today;
    let mut i: usize = 0;
    while i < FRONT_WINDOW_DAYS
        invariant
            i <= FRONT_WINDOW_DAYS,
            ev == events_view(events@),
            dates_valid(ev),
            events@.len() * 100 <= usize::MAX,
            valid_date(today),
            steps_back_ok(today, FRONT_WINDOW_DAYS as nat),
            d == days_back(today, i as nat),
            sections_view(days@) == front_days(ev, today, i as nat),
        decreases FRONT_WINDOW_DAYS - i,
    {
        proof {
            lemma_days_back_valid(today, i as nat);
            assert(has_prev(days_back(today, i as nat)));
        }
        let ghost before = sections_view(days@);
        match day_section_exec(events, today, d) {
            Some(sec) => {
                let ghost sv = sec@;
                days.push(sec);
                assert(sections_view(days@) =~= before.push(sv));
            },
            None => {},
        }
        assert(front_days(ev, today, (i + 1) as nat) == match day_section(ev, today, days_back(today, i as nat)) {
            Some(s) => front_days(ev, today, i as nat).push(s),
            None => front_days(ev, today, i as nat),
        });
        d = d.pred();
        i += 1;
    }
    days
}

pub struct IndexPage {
    pub root: String,
    pub ed_line: String,
    pub note_lists: String,
    pub foot_made: String,
    pub foot_stats: String,
    pub about_url: String,
    pub days: Vec<DaySection>,
}

/// The lists that are not dead, in order.
pub open spec fn live_lists(ls: Seq<ListInfoV>) -> Seq<ListInfoV>
    decreases ls.len(),
{
    if ls.len() == 0 {
        seq![]
    } else if ls.last().dead {
        live_lists(ls.drop_last())
    } else {
        live_lists(ls.drop_last()).push(ls.last())
    }
}

pub open spec fn entries_sum(ls: Seq<ListInfoV>) -> int
    decreases ls.len(),
{
    if ls.len() == 0 {
        0
    } else {
        entries_sum(ls.drop_last()) + ls.last().entries
    }
}

/// The masthead's edition: the stored counter, else the number of
/// distinct event days.
pub open spec fn edition_spec(meta: Meta, es: Seq<EventV>) -> int {
    match meta.edition {
        Some(e) => e as int,
        None => distinct_dates(es).len() as int,
    }
}

pub open spec fn ed_line_spec(edition: int, today: Date) -> Seq<char> {
    "ED. \u{2116} "@ + dec(edition as nat) + " \u{b7} "@ + ascii_upper(fmt_long(today))
}

pub open spec fn foot_stats_spec(n_live: int, entries: int) -> Seq<char> {
    "TRACKED LISTS: "@ + group3(dec(n_live as nat)) + " \u{b7} ENTRIES ON RECORD: "@ + group3(
        dec(entries as nat),
    )
}


// ---------------------------------------------------------------------------
// Per-list pages
// ---------------------------------------------------------------------------

pub struct Removal {
    pub date: String,
    pub name: String,
    pub note: String,
}

pub struct RemovalV {
    pub date: Seq<char>,
    pub name: Seq<char>,
    pub note: Seq<char>,
}

impl View for Removal {
    type V = RemovalV;

    open spec fn view(&self) -> RemovalV {
        RemovalV { date: self.date@, name: self.name@, note: self.note@ }
    }
}

pub struct ListPage {
    pub root: String,
    pub name: String,
    pub stats1: String,
    pub stats2: String,
    pub spark: Vec<u32>,
    pub additions: Vec<Item>,
    pub removals: Vec<Removal>,
    pub foot_line: String,
}

pub struct ListPageV {
    pub root: Seq<char>,
    pub name: Seq<char>,
    pub stats1: Seq<char>,
    pub stats2: Seq<char>,
    pub spark: Seq<u32>,
    pub additions: Seq<ItemV>,
    pub removals: Seq<RemovalV>,
    pub foot_line: Seq<char>,
}

impl View for ListPage {
    type V = ListPageV;

    open spec fn view(&self) -> ListPageV {
        ListPageV {
            root: self.root@,
            name: self.name@,
            stats1: self.stats1@,
            stats2: self.stats2@,
            spark: self.spark@,
            additions: items_view(self.additions@),
            removals: self.removals@.map_values(|r: Removal| r@),
            foot_line: self.foot_line@,
        }
    }
}

/// Events of a kind from one list, in history order.
pub open spec fn of_list(es: Seq<EventV>, full: Seq<char>, kind: Kind) -> Seq<EventV>
    decreases es.len(),
{
    if es.len() == 0 {
        seq![]
    } else if es.last().kind == kind && es.last().list == full {
        of_list(es.drop_last(), full, kind).push(es.last())
    } else {
        of_list(es.drop_last(), full, kind)
    }
}

/// Events of a kind from one list, newest first.
pub open spec fn list_events(es: Seq<EventV>, full: Seq<char>, kind: Kind) -> Seq<EventV> {
    of_list(es, full, kind).reverse()
}

pub open spec fn count_year(es: Seq<EventV>, y: i32) -> nat
    decreases es.len(),
{
    if es.len() == 0 {
        0
    } else {
        count_year(es.drop_last(), y) + if es.last().date.year == y {
            1nat
        } else {
            0nat
        }
    }
}

pub open spec fn count_month(es: Seq<EventV>, y: int, m: int) -> nat
    decreases es.len(),
{
    if es.len() == 0 {
        0
    } else {
        count_month(es.drop_last(), y, m) + if es.last().date.year == y && es.last().date.month
            == m {
            1nat
        } else {
            0nat
        }
    }
}

/// (year, month) stepped back `k` months.
pub open spec fn month_back(y: int, m: int, k: nat) -> (int, int)
    decreases k,
{
    if k == 0 {
        (y, m)
    } else {
        let (py, pm) = month_back(y, m, (k - 1) as nat);
        prev_month_spec(py, pm)
    }
}

/// Monthly addition counts of the last 12 months, oldest first.
pub open spec fn month_counts(adds: Seq<EventV>, today: Date) -> Seq<nat> {
    Seq::new(
        12,
        |j: int|
            {
                let (y, m) = month_back(today.year as int, today.month as int, (11 - j) as nat);
                count_month(adds, y, m)
            },
    )
}

pub open spec fn seq_max(s: Seq<nat>) -> nat
    decreases s.len(),
{
    if s.len() == 0 {
        0
    } else {
        let r = seq_max(s.drop_last());
        if s.last() > r {
            s.last()
        } else {
            r
        }
    }
}

/// Bar heights in percent of the busiest month, at least 8.
pub open spec fn spark_spec(counts: Seq<nat>) -> Seq<u32> {
    let mx = if seq_max(counts) > 1 {
        seq_max(counts)
    } else {
        1
    };
    Seq::new(
        counts.len(),
        |j: int|
            {
                let h = counts[j] * 100 / mx;
                if h > 8 {
                    h as u32
                } else {
                    8u32
                }
            },
    )
}

pub open spec fn has_other(ls: Seq<Seq<char>>, own: Seq<char>) -> bool {
    exists|i: int| 0 <= i < ls.len() && ls[i] != own
}

/// The badge of a per-list addition that another list added the same day.
pub open spec fn also_badge(es: Seq<EventV>, e: EventV) -> Seq<char> {
    let ls = cross_lists(day_adds(es, e.date), e.url);
    if has_other(ls, list_repo_spec(e)) {
        "\u{2605} ALSO IN "@ + unicode_upper(first_other(ls, list_repo_spec(e)))
    } else {
        seq![]
    }
}

pub open spec fn first_n<T>(s: Seq<T>, n: int) -> Seq<T> {
    if s.len() <= n {
        s
    } else {
        s.take(n)
    }
}

pub open spec fn list_additions(es: Seq<EventV>, adds: Seq<EventV>) -> Seq<ItemV> {
    let shown = first_n(adds, LIST_ADDITIONS_SHOWN as int);
    Seq::new(shown.len(), |i: int| make_item_spec(shown[i], i, true, also_badge(es, shown[i])))
}

pub open spec fn removal_spec(e: EventV) -> RemovalV {
    RemovalV { date: short_date_spec(e.date), name: e.name, note: "// STRUCK FROM THE LEDGER"@ }
}

pub open spec fn tracked_since_spec(li: ListInfoV, adds: Seq<EventV>) -> Seq<char> {
    match li.enrolled {
        Some(d) => ascii_upper(fmt_month_year(d)),
        None => if adds.len() > 0 {
            ascii_upper(fmt_month_year(adds.last().date))
        } else {
            "TODAY"@
        },
    }
}

/// The page of a live list; None until it has an event.
pub open spec fn list_page_spec(es: Seq<EventV>, li: ListInfoV, today: Date, n_live: int) -> Option<ListPageV> {
    let full = crate::model::full_name(li.owner, li.repo);
    let adds = list_events(es, full, Kind::Added);
    let rems = list_events(es, full, Kind::Removed);
    if adds.len() == 0 && rems.len() == 0 {
        None
    } else {
        Some(
            ListPageV {
                root: "../../"@,
                name: li.repo,
                stats1: group3(dec(li.entries as nat)) + " ENTRIES TODAY \u{b7} "@ + dec(
                    count_year(adds, today.year),
                ) + " ADDED THIS YEAR \u{b7} "@ + dec(count_year(rems, today.year)) + " REMOVED"@,
                stats2: "TRACKED SINCE "@ + tracked_since_spec(li, adds) + " \u{b7} MAINTAINED BY "@
                    + unicode_upper(li.owner),
                spark: spark_spec(month_counts(adds, today)),
                additions: list_additions(es, adds),
                removals: first_n(rems, LIST_REMOVALS_SHOWN as int).map_values(
                    |e: EventV| removal_spec(e),
                ),
                foot_line: "ONE OF "@ + group3(dec(n_live as nat)) + " LISTS TRACKED BY THE AWESOME LEDGER"@,
            },
        )
    }
}

/// The feed of a list page: its newest additions.
pub open spec fn list_feed_spec(es: Seq<EventV>, li: ListInfoV) -> Seq<FeedEntryV> {
    first_n(list_events(es, crate::model::full_name(li.owner, li.repo), Kind::Added), LIST_FEED_ITEMS as int).map_values(
        |e: EventV| feed_entry_spec(e),
    )
}


proof fn lemma_seq_max_ge(s: Seq<nat>, i: int)
    requires
        0 <= i < s.len(),
    ensures
        s[i] <= seq_max(s),
    decreases s.len(),
{
    if i < s.len() - 1 {
        lemma_seq_max_ge(s.drop_last(), i);
    }
}

fn list_event_idx(events: &[Event], full: &str, kind: Kind) -> (r: Vec<usize>)
    ensures
        idx_ok(r@, events@.len() as int),
        r@.len() <= events@.len(),
        at(events_view(events@), r@) == list_events(events_view(events@), full@, kind),
{
    let ghost ev = events_view(events@);
    let fv = chars_of(full);
    let mut fwd: Vec<usize> = Vec::new();
    let mut i: usize = 0;
    while i < events.len()
        invariant
            i <= events.len(),
            ev == events_view(events@),
            fv@ == full@,
            idx_ok(fwd@, events@.len() as int),
            fwd@.len() <= i,
            at(ev, fwd@) == of_list(ev.take(i as int), full@, kind),
        decreases events.len() - i,
    {
        proof {
            assert(ev.take(i + 1).drop_last() =~= ev.take(i as int));
            assert(ev.take(i + 1).last() == ev[i as int]);
        }
        let lv = chars_of(events[i].list.as_str());
        if events[i].kind == kind && seq_eq(&lv, &fv) {
            let ghost before = at(ev, fwd@);
            fwd.push(i);
            assert(at(ev, fwd@) =~= before.push(ev[i as int]));
        }
        i += 1;
    }
    assert(ev.take(events.len() as int) =~= ev);
    let ghost f = at(ev, fwd@);
    let mut out: Vec<usize> = Vec::new();
    let mut j = fwd.len();
    while j > 0
        invariant
            j <= fwd.len(),
            f == at(ev, fwd@),
            idx_ok(fwd@, events@.len() as int),
            idx_ok(out@, events@.len() as int),
            out@.len() == fwd@.len() - j,
            forall|k: int| 0 <= k < out@.len() ==> #[trigger] out@[k] == fwd@[fwd@.len() - 1 - k],
        decreases j,
    {
        out.push(fwd[j - 1]);
        j -= 1;
    }
    assert(at(ev, out@) =~= f.reverse());
    out
}

fn count_year_idx(events: &[Event], idx: &Vec<usize>, y: i32) -> (r: usize)
    requires
        idx_ok(idx@, events@.len() as int),
    ensures
        r == count_year(at(events_view(events@), idx@), y),
{
    let ghost src = at(events_view(events@), idx@);
    let mut n: usize = 0;
    let mut i: usize = 0;
    while i < idx.len()
        invariant
            i <= idx.len(),
            idx_ok(idx@, events@.len() as int),
            src == at(events_view(events@), idx@),
            n == count_year(src.take(i as int), y),
            n <= i,
        decreases idx.len() - i,
    {
        proof {
            assert(src.take(i + 1).drop_last() =~= src.take(i as int));
        }
        if events[idx[i]].date.year == y {
            n += 1;
        }
        i += 1;
    }
    assert(src.take(idx.len() as int) =~= src);
    n
}

fn count_month_idx(events: &[Event], idx: &Vec<usize>, y: i32, m: u32) -> (r: usize)
    requires
        idx_ok(idx@, events@.len() as int),
    ensures
        r == count_month(at(events_view(events@), idx@), y as int, m as int),
        r <= idx@.len(),
{
    let ghost src = at(events_view(events@), idx@);
    let mut n: usize = 0;
    let mut i: usize = 0;
    while i < idx.len()
        invariant
            i <= idx.len(),
            idx_ok(idx@, events@.len() as int),
            src == at(events_view(events@), idx@),
            n == count_month(src.take(i as int), y as int, m as int),
            n <= i,
        decreases idx.len() - i,
    {
        proof {
            assert(src.take(i + 1).drop_last() =~= src.take(i as int));
        }
        if events[idx[i]].date.year == y && events[idx[i]].date.month == m {
            n += 1;
        }
        i += 1;
    }
    assert(src.take(idx.len() as int) =~= src);
    n
}

/// The 12 monthly addition counts, oldest first, and the spark bars.
fn spark_exec(events: &[Event], adds: &Vec<usize>, today: Date) -> (r: Vec<u32>)
    requires
        idx_ok(adds@, events@.len() as int),
        adds@.len() * 100 <= usize::MAX,
        valid_date(today),
    ensures
        r@ == spark_spec(month_counts(at(events_view(events@), adds@), today)),
{
    let ghost av = at(events_view(events@), adds@);
    let ghost mc = month_counts(av, today);
    // Counts, newest month first, then reversed.
    let mut rev: Vec<usize> = Vec::new();
    let (mut y, mut m) = (today.year, today.month);
    let mut k: usize = 0;
    while k < 12
        invariant
            k <= 12,
            idx_ok(adds@, events@.len() as int),
            av == at(events_view(events@), adds@),
            mc == month_counts(av, today),
            (y as int, m as int) == month_back(today.year as int, today.month as int, k as nat),
            1 <= m <= 12,
            y >= today.year - k,
            valid_date(today),
            rev@.len() == k,
            forall|j: int| 0 <= j < k ==> #[trigger] rev@[j] as nat == mc[11 - j] && rev@[j] <= adds@.len(),
        decreases 12 - k,
    {
        let c = count_month_idx(events, adds, y, m);
        rev.push(c);
        let (py, pm) = prev_month(y, m);
        y = py;
        m = pm;
        k += 1;
    }
    let mut counts: Vec<usize> = Vec::new();
    let mut j: usize = 0;
    while j < 12
        invariant
            j <= 12,
            rev@.len() == 12,
            mc.len() == 12,
            forall|t: int| 0 <= t < 12 ==> #[trigger] rev@[t] as nat == mc[11 - t] && rev@[t] <= adds@.len(),
            counts@.len() == j,
            forall|t: int| 0 <= t < j ==> #[trigger] counts@[t] as nat == mc[t] && counts@[t] <= adds@.len(),
        decreases 12 - j,
    {
        counts.push(rev[11 - j]);
        j += 1;
    }
    // Busiest month, at least 1.
    let mut mx: usize = 0;
    let mut t: usize = 0;
    while t < 12
        invariant
            t <= 12,
            counts@.len() == 12,
            mc.len() == 12,
            forall|q: int| 0 <= q < 12 ==> #[trigger] counts@[q] as nat == mc[q] && counts@[q] <= adds@.len(),
            mx as nat == seq_max(mc.take(t as int)),
        decreases 12 - t,
    {
        assert(mc.take(t + 1).drop_last() =~= mc.take(t as int));
        if counts[t] > mx {
            mx = counts[t];
        }
        t += 1;
    }
    assert(mc.take(12) =~= mc);
    let mx = if mx > 1 { mx } else { 1 };
    let mut out: Vec<u32> = Vec::new();
    let mut q: usize = 0;
    while q < 12
        invariant
            q <= 12,
            counts@.len() == 12,
            mc.len() == 12,
            forall|z: int| 0 <= z < 12 ==> #[trigger] counts@[z] as nat == mc[z] && counts@[z] <= adds@.len(),
            adds@.len() * 100 <= usize::MAX,
            mx as nat == if seq_max(mc) > 1 { seq_max(mc) } else { 1 },
            mx >= 1,
            out@.len() == q,
            forall|z: int| 0 <= z < q ==> #[trigger] out@[z] == spark_spec(mc)[z],
        decreases 12 - q,
    {
        let c = counts[q];
        assert(c * 100 <= usize::MAX) by (nonlinear_arith)
            requires
                c <= adds@.len(),
                adds@.len() * 100 <= usize::MAX,
        ;
        let h = c * 100 / mx;
        assert(h <= c * 100);
        proof {
            lemma_seq_max_ge(mc, q as int);
        }
        assert(c <= mx);
        let bar: u32 = if h > 8 {
            assert(h <= 100) by (nonlinear_arith)
                requires
                    h as int == (c as int * 100) / (mx as int),
                    c <= mx,
                    mx >= 1,
            ;
            h as u32
        } else {
            8
        };
        out.push(bar);
        q += 1;
    }
    assert(out@ =~= spark_spec(mc));
    out
}


fn also_badge_exec(events: &[Event], e: &Event) -> (r: String)
    ensures
        r@ == also_badge(events_view(events@), e@),
{
    let adds = day_add_idx(events, e.date);
    let ls = cross_of(events, &adds, e.url.as_str());
    let own = e.list_repo();
    let ov = chars_of(own.as_str());
    let ghost lv = ls@.map_values(|s: String| s@);
    let mut i: usize = 0;
    assert(lv.skip(0) =~= lv);
    while i < ls.len()
        invariant
            i <= ls.len(),
            lv == ls@.map_values(|s: String| s@),
            lv == cross_lists(day_adds(events_view(events@), e@.date), e@.url),
            ov@ == own@,
            own@ == list_repo_spec(e@),
            forall|k: int| 0 <= k < i ==> lv[k] == own@,
            first_other(lv, own@) == first_other(lv.skip(i as int), own@),
        decreases ls.len() - i,
    {
        let cv = chars_of(ls[i].as_str());
        assert(lv.skip(i as int)[0] == lv[i as int]);
        if !seq_eq(&cv, &ov) {
            assert(first_other(lv.skip(i as int), own@) == lv[i as int]);
            assert(has_other(lv, own@));
            let mut out = chars_of("\u{2605} ALSO IN ");
            let up = to_upper(ls[i].as_str());
            extend_str(&mut out, up.as_str());
            assert(lv == cross_lists(day_adds(events_view(events@), e@.date), e@.url));
            assert(up@ == unicode_upper(first_other(lv, list_repo_spec(e@))));
            assert(out@ == "\u{2605} ALSO IN "@ + up@);
            return string_of(&out);
        }
        assert(lv.skip(i as int).drop_first() =~= lv.skip(i + 1));
        i += 1;
    }
    assert(!has_other(lv, own@));
    String::new()
}

fn list_page(events: &[Event], li: &ListInfo, today: Date, n_live: usize) -> (r: Option<(ListPage, Vec<FeedEntry>)>)
    requires
        events@.len() * 100 <= usize::MAX,
        valid_date(today),
        dates_valid(events_view(events@)),
        li.enrolled matches Some(d) ==> valid_date(d),
    ensures
        match r {
            Some((page, feed)) => list_page_spec(events_view(events@), li@, today, n_live as int) == Some(page@)
                && feed_view(feed@) == list_feed_spec(events_view(events@), li@),
            None => list_page_spec(events_view(events@), li@, today, n_live as int) is None,
        },
{
    let ghost ev = events_view(events@);
    let full = li.full();
    let adds = list_event_idx(events, full.as_str(), Kind::Added);
    let rems = list_event_idx(events, full.as_str(), Kind::Removed);
    if adds.len() == 0 && rems.len() == 0 {
        return None;
    }
    let ghost av = at(ev, adds@);
    let ghost rv = at(ev, rems@);
    let ay = count_year_idx(events, &adds, today.year);
    let ry = count_year_idx(events, &rems, today.year);
    let since = match li.enrolled {
        Some(d) => {
            let s = d.format("%B %Y");
            proof {
                lemma_date_formats_ascii(d);
            }
            to_upper(s.as_str())
        },
        None => if adds.len() > 0 {
            let oldest = &events[adds[adds.len() - 1]];
            assert(valid_date(ev[adds@[adds@.len() - 1] as int].date));
            let s = oldest.date.format("%B %Y");
            proof {
                lemma_date_formats_ascii(oldest.date);
            }
            to_upper(s.as_str())
        } else {
            String::from_str("TODAY")
        },
    };
    assert(since@ == tracked_since_spec(li@, av));
    assert(adds@.len() * 100 <= usize::MAX) by (nonlinear_arith)
        requires
            adds@.len() <= events@.len(),
            events@.len() * 100 <= usize::MAX,
    ;
    let spark = spark_exec(events, &adds, today);
    // Additions shown, newest first, with cross-list badges.
    let ghost shown = first_n(av, LIST_ADDITIONS_SHOWN as int);
    let mut additions: Vec<Item> = Vec::new();
    let mut i: usize = 0;
    while i < adds.len() && i < LIST_ADDITIONS_SHOWN
        invariant
            i <= adds.len(),
            i <= LIST_ADDITIONS_SHOWN,
            ev == events_view(events@),
            dates_valid(ev),
            idx_ok(adds@, events@.len() as int),
            av == at(ev, adds@),
            shown == first_n(av, LIST_ADDITIONS_SHOWN as int),
            items_view(additions@) == list_additions(ev, av).take(i as int),
        decreases adds.len() - i,
    {
        let e = &events[adds[i]];
        assert(shown[i as int] == ev[adds@[i as int] as int]);
        let badge = also_badge_exec(events, e);
        let item = make_item(e, i, true, badge);
        let ghost iv = item@;
        assert(iv == list_additions(ev, av)[i as int]);
        let ghost before = items_view(additions@);
        additions.push(item);
        assert(items_view(additions@) =~= before.push(iv));
        assert(list_additions(ev, av).take(i + 1) =~= list_additions(ev, av).take(i as int).push(iv));
        i += 1;
    }
    assert(list_additions(ev, av).take(i as int) =~= list_additions(ev, av));
    let mut removals: Vec<Removal> = Vec::new();
    let ghost rshown = first_n(rv, LIST_REMOVALS_SHOWN as int).map_values(|e: EventV| removal_spec(e));
    let mut j: usize = 0;
    while j < rems.len() && j < LIST_REMOVALS_SHOWN
        invariant
            j <= rems.len(),
            j <= LIST_REMOVALS_SHOWN,
            ev == events_view(events@),
            dates_valid(ev),
            idx_ok(rems@, events@.len() as int),
            rv == at(ev, rems@),
            rshown == first_n(rv, LIST_REMOVALS_SHOWN as int).map_values(|e: EventV| removal_spec(e)),
            removals@.map_values(|r: Removal| r@) == rshown.take(j as int),
        decreases rems.len() - j,
    {
        let e = &events[rems[j]];
        assert(valid_date(ev[rems@[j as int] as int].date));
        let r = Removal {
            date: short_date(e.date),
            name: e.name.clone(),
            note: String::from_str("// STRUCK FROM THE LEDGER"),
        };
        let ghost rvv = r@;
        assert(rvv == rshown[j as int]);
        let ghost before = removals@.map_values(|r: Removal| r@);
        removals.push(r);
        assert(removals@.map_values(|r: Removal| r@) =~= before.push(rvv));
        assert(rshown.take(j + 1) =~= rshown.take(j as int).push(rvv));
        j += 1;
    }
    assert(rshown.take(j as int) =~= rshown);
    // Feed of the list.
    let mut feed: Vec<FeedEntry> = Vec::new();
    let ghost fshown = first_n(av, LIST_FEED_ITEMS as int).map_values(|e: EventV| feed_entry_spec(e));
    let mut k: usize = 0;
    while k < adds.len() && k < LIST_FEED_ITEMS
        invariant
            k <= adds.len(),
            k <= LIST_FEED_ITEMS,
            idx_ok(adds@, events@.len() as int),
            av == at(events_view(events@), adds@),
            fshown == first_n(av, LIST_FEED_ITEMS as int).map_values(|e: EventV| feed_entry_spec(e)),
            feed_view(feed@) == fshown.take(k as int),
        decreases adds.len() - k,
    {
        let fe = feed_entry(&events[adds[k]]);
        let ghost fv = fe@;
        let ghost before = feed_view(feed@);
        feed.push(fe);
        assert(feed_view(feed@) =~= before.push(fv));
        assert(fshown.take(k + 1) =~= fshown.take(k as int).push(fv));
        k += 1;
    }
    assert(fshown.take(k as int) =~= fshown);
    // Stats lines.
    let mut s1: Vec<char> = Vec::new();
    let ce = commafy(li.entries);
    extend_str(&mut s1, ce.as_str());
    extend_str(&mut s1, " ENTRIES TODAY \u{b7} ");
    push_dec(&mut s1, ay as u64);
    extend_str(&mut s1, " ADDED THIS YEAR \u{b7} ");
    push_dec(&mut s1, ry as u64);
    extend_str(&mut s1, " REMOVED");
    let mut s2 = chars_of("TRACKED SINCE ");
    extend_str(&mut s2, since.as_str());
    extend_str(&mut s2, " \u{b7} MAINTAINED BY ");
    let up_owner = to_upper(li.owner.as_str());
    extend_str(&mut s2, up_owner.as_str());
    let mut foot = chars_of("ONE OF ");
    let cl = commafy(n_live as u64);
    extend_str(&mut foot, cl.as_str());
    extend_str(&mut foot, " LISTS TRACKED BY THE AWESOME LEDGER");
    let page = ListPage {
        root: String::from_str("../../"),
        name: li.repo.clone(),
        stats1: string_of(&s1),
        stats2: string_of(&s2),
        spark,
        additions,
        removals,
        foot_line: string_of(&foot),
    };
    assert(page@ =~= list_page_spec(ev, li@, today, n_live as int).unwrap());
    Some((page, feed))
}


// ---------------------------------------------------------------------------
// Monthly archives
// ---------------------------------------------------------------------------

pub struct ArcName {
    pub name: String,
    pub url: String,
    /// "" or "★2"
    pub star: String,
}

pub struct ArcNameV {
    pub name: Seq<char>,
    pub url: Seq<char>,
    pub star: Seq<char>,
}

impl View for ArcName {
    type V = ArcNameV;

    open spec fn view(&self) -> ArcNameV {
        ArcNameV { name: self.name@, url: self.url@, star: self.star@ }
    }
}

pub struct ArchiveRow {
    /// "SUN 24"
    pub day: String,
    pub quiet: bool,
    pub names: Vec<ArcName>,
    pub more: usize,
    pub count: String,
}

pub struct ArchiveRowV {
    pub day: Seq<char>,
    pub quiet: bool,
    pub names: Seq<ArcNameV>,
    pub more: usize,
    pub count: Seq<char>,
}

impl View for ArchiveRow {
    type V = ArchiveRowV;

    open spec fn view(&self) -> ArchiveRowV {
        ArchiveRowV {
            day: self.day@,
            quiet: self.quiet,
            names: self.names@.map_values(|n: ArcName| n@),
            more: self.more,
            count: self.count@,
        }
    }
}

pub open spec fn rows_view(v: Seq<ArchiveRow>) -> Seq<ArchiveRowV> {
    v.map_values(|r: ArchiveRow| r@)
}

pub struct ArchivePage {
    pub root: String,
    /// "August 2026"
    pub title: String,
    pub stats: String,
    pub prev_label: String,
    /// "" = disabled
    pub prev_href: String,
    pub next_label: String,
    pub next_href: String,
    pub rows: Vec<ArchiveRow>,
}

pub struct ArchivePageV {
    pub root: Seq<char>,
    pub title: Seq<char>,
    pub stats: Seq<char>,
    pub prev_label: Seq<char>,
    pub prev_href: Seq<char>,
    pub next_label: Seq<char>,
    pub next_href: Seq<char>,
    pub rows: Seq<ArchiveRowV>,
}

impl View for ArchivePage {
    type V = ArchivePageV;

    open spec fn view(&self) -> ArchivePageV {
        ArchivePageV {
            root: self.root@,
            title: self.title@,
            stats: self.stats@,
            prev_label: self.prev_label@,
            prev_href: self.prev_href@,
            next_label: self.next_label@,
            next_href: self.next_href@,
            rows: rows_view(self.rows@),
        }
    }
}

/// Removals dated `d`.
pub open spec fn count_removed(es: Seq<EventV>, d: Date) -> nat
    decreases es.len(),
{
    if es.len() == 0 {
        0
    } else {
        count_removed(es.drop_last(), d) + if es.last().kind == Kind::Removed && es.last().date == d {
            1nat
        } else {
            0nat
        }
    }
}

pub open spec fn arc_name_spec(adds: Seq<EventV>, e: EventV) -> ArcNameV {
    let n = cross_lists(adds, e.url).len();
    ArcNameV {
        name: e.name,
        url: e.url,
        star: if n > 1 {
            "\u{2605}"@ + dec(n)
        } else {
            seq![]
        },
    }
}

/// The names of day `d`: one per URL, starred with the number of lists
/// when several added it.
pub open spec fn day_names(es: Seq<EventV>, d: Date) -> Seq<ArcNameV> {
    let adds = day_adds(es, d);
    dedup_url(adds).map_values(|e: EventV| arc_name_spec(adds, e))
}

pub open spec fn row_spec(es: Seq<EventV>, d: Date) -> ArchiveRowV {
    let names = day_names(es, d);
    ArchiveRowV {
        day: day_label_spec(d),
        quiet: names.len() == 0,
        names: first_n(names, ARCHIVE_NAMES_SHOWN as int),
        more: if names.len() > ARCHIVE_NAMES_SHOWN {
            (names.len() - ARCHIVE_NAMES_SHOWN) as usize
        } else {
            0
        },
        count: dec(names.len()),
    }
}

/// The month's days shown: from its last day (or today, in the current
/// month) back to the 1st.
pub open spec fn start_day(y: i32, m: u32, today: Date) -> int {
    if today.year == y && today.month == m {
        today.day as int
    } else {
        days_in_month(y as int, m as int)
    }
}

/// Archive accumulation over the first `n` days shown (newest first):
/// (added, removed, busiest count, busiest day, rows).
pub open spec fn arch_fold(es: Seq<EventV>, y: i32, m: u32, start: int, n: nat) -> (
    nat,
    nat,
    nat,
    Option<Date>,
    Seq<ArchiveRowV>,
)
    decreases n,
{
    if n == 0 {
        (0, 0, 0, None, seq![])
    } else {
        let (a, r, bc, bd, rows) = arch_fold(es, y, m, start, (n - 1) as nat);
        let d = Date { year: y, month: m, day: (start - (n - 1)) as u32 };
        let c = day_names(es, d).len();
        (
            a + c,
            r + count_removed(es, d),
            if c > bc {
                c
            } else {
                bc
            },
            if c > bc {
                Some(d)
            } else {
                bd
            },
            rows.push(row_spec(es, d)),
        )
    }
}

/// "YYYY-MM" as `{:04}-{:02}` writes it.
pub open spec fn ym_spec(y: int, m: int) -> Seq<char> {
    (if y >= 0 {
        zero_pad(dec(y as nat), 4)
    } else {
        seq!['-'] + zero_pad(dec((-y) as nat), 3)
    }) + "-"@ + zero_pad(dec(m as nat), 2)
}

pub open spec fn month_index(y: int, m: int) -> int {
    y * 12 + m - 1
}

pub open spec fn mon_label(m: int) -> Seq<char> {
    ascii_upper(month_abbr(m))
}

pub open spec fn archive_spec(es: Seq<EventV>, y: i32, m: u32, today: Date, first: (int, int)) -> ArchivePageV {
    let start = start_day(y, m, today);
    let (a, r, bc, bd, rows) = arch_fold(es, y, m, start, start as nat);
    let (py, pm) = prev_month_spec(y as int, m as int);
    let (ny, nm) = next_month_spec(y as int, m as int);
    let has_prev = month_index(py, pm) >= month_index(first.0, first.1);
    let has_next = month_index(ny, nm) <= month_index(today.year as int, today.month as int);
    ArchivePageV {
        root: "../../"@,
        title: month_label_spec(y, m),
        stats: dec(a) + " ADDED \u{b7} "@ + dec(r) + " REMOVED"@ + match bd {
            Some(d) => " \u{b7} BUSIEST DAY: "@ + short_date_spec(d) + " ("@ + dec(bc) + ")"@,
            None => seq![],
        },
        prev_label: mon_label(pm),
        prev_href: if has_prev {
            "../"@ + ym_spec(py, pm) + "/"@
        } else {
            seq![]
        },
        next_label: mon_label(nm),
        next_href: if has_next {
            "../"@ + ym_spec(ny, nm) + "/"@
        } else {
            seq![]
        },
        rows,
    }
}


proof fn lemma_dedup_len(es: Seq<EventV>)
    ensures
        dedup_url(es).len() <= es.len(),
    decreases es.len(),
{
    if es.len() > 0 {
        lemma_dedup_len(es.drop_last());
    }
}

fn row_exec(events: &[Event], d: Date) -> (r: (ArchiveRow, usize, usize))
    requires
        valid_date(d),
    ensures
        r.0@ == row_spec(events_view(events@), d),
        r.1 == day_names(events_view(events@), d).len(),
        r.2 == count_removed(events_view(events@), d),
        r.1 <= events@.len(),
        r.2 <= events@.len(),
{
    let ghost ev = events_view(events@);
    let adds = day_add_idx(events, d);
    let evs = dedup_idx(events, &adds);
    let ghost av = at(ev, adds@);
    proof {
        lemma_dedup_len(av);
    }
    let ghost all = day_names(ev, d);
    let mut names: Vec<ArcName> = Vec::new();
    let mut i: usize = 0;
    while i < evs.len()
        invariant
            i <= evs.len(),
            ev == events_view(events@),
            idx_ok(adds@, events@.len() as int),
            idx_ok(evs@, events@.len() as int),
            av == at(ev, adds@),
            av == day_adds(ev, d),
            at(ev, evs@) == dedup_url(av),
            all == day_names(ev, d),
            all.len() == evs@.len(),
            names@.map_values(|n: ArcName| n@) == first_n(all, ARCHIVE_NAMES_SHOWN as int).take(
                if i < ARCHIVE_NAMES_SHOWN { i as int } else { ARCHIVE_NAMES_SHOWN as int },
            ),
        decreases evs.len() - i,
    {
        if i < ARCHIVE_NAMES_SHOWN {
            let e = &events[evs[i]];
            let cl = cross_of(events, &adds, e.url.as_str());
            let star = if cl.len() > 1 {
                let mut sv = chars_of("\u{2605}");
                push_dec(&mut sv, cl.len() as u64);
                string_of(&sv)
            } else {
                String::new()
            };
            let n = ArcName { name: e.name.clone(), url: e.url.clone(), star };
            let ghost nv = n@;
            assert(at(ev, evs@)[i as int] == ev[evs@[i as int] as int]);
            assert(all[i as int] == arc_name_spec(av, ev[evs@[i as int] as int]));
            assert(nv == all[i as int]);
            let ghost before = names@.map_values(|n: ArcName| n@);
            names.push(n);
            assert(names@.map_values(|n: ArcName| n@) =~= before.push(nv));
            assert(first_n(all, ARCHIVE_NAMES_SHOWN as int).take(i + 1) =~= first_n(
                all,
                ARCHIVE_NAMES_SHOWN as int,
            ).take(i as int).push(nv));
        }
        i += 1;
    }
    assert(first_n(all, ARCHIVE_NAMES_SHOWN as int).take(
        if i < ARCHIVE_NAMES_SHOWN { i as int } else { ARCHIVE_NAMES_SHOWN as int },
    ) =~= first_n(all, ARCHIVE_NAMES_SHOWN as int));
    // Removals that day.
    let mut removed: usize = 0;
    let mut j: usize = 0;
    while j < events.len()
        invariant
            j <= events.len(),
            ev == events_view(events@),
            removed == count_removed(ev.take(j as int), d),
            removed <= j,
        decreases events.len() - j,
    {
        proof {
            assert(ev.take(j + 1).drop_last() =~= ev.take(j as int));
        }
        if events[j].kind == Kind::Removed && events[j].date.same(&d) {
            removed += 1;
        }
        j += 1;
    }
    assert(ev.take(events.len() as int) =~= ev);
    let count = evs.len();
    let mut cs: Vec<char> = Vec::new();
    push_dec(&mut cs, count as u64);
    let row = ArchiveRow {
        day: day_label(d),
        quiet: count == 0,
        names,
        more: if count > ARCHIVE_NAMES_SHOWN { count - ARCHIVE_NAMES_SHOWN } else { 0 },
        count: string_of(&cs),
    };
    (row, count, removed)
}

fn ym_string(y: i32, m: u32) -> (r: String)
    ensures
        r@ == ym_spec(y as int, m as int),
{
    let mut v: Vec<char> = Vec::new();
    if y >= 0 {
        crate::text::push_padded(&mut v, y as u64, 4);
    } else {
        v.push('-');
        let a: u64 = (-(y as i64)) as u64;
        crate::text::push_padded(&mut v, a, 3);
    }
    extend_str(&mut v, "-");
    crate::text::push_padded(&mut v, m as u64, 2);
    assert(v@ =~= ym_spec(y as int, m as int));
    string_of(&v)
}


fn month_index_exec(y: i32, m: u32) -> (r: i64)
    requires
        1 <= m <= 12,
    ensures
        r == month_index(y as int, m as int),
{
    (y as i64) * 12 + (m as i64) - 1
}

fn mon_label_exec(m: u32) -> (r: String)
    requires
        1 <= m <= 12,
    ensures
        r@ == mon_label(m as int),
{
    let d = Date { year: 2000, month: m, day: 1 };
    let s = d.format("%b");
    proof {
        lemma_names_ascii(m as int, 0);
    }
    to_upper(s.as_str())
}

/// The archive page of month (y, m).
#[verifier::rlimit(60)]
fn archive_page(events: &[Event], y: i32, m: u32, today: Date, first_y: i32, first_m: u32) -> (r: (String, ArchivePage))
    requires
        MIN_YEAR <= y <= MAX_YEAR,
        !(y == MIN_YEAR && m == 1),
        !(y == MAX_YEAR && m == 12),
        1 <= m <= 12,
        1 <= first_m <= 12,
        valid_date(today),
        month_index(y as int, m as int) <= month_index(today.year as int, today.month as int),
        events@.len() * 100 <= usize::MAX,
    ensures
        r.0@ == ym_spec(y as int, m as int),
        r.1@ == archive_spec(events_view(events@), y, m, today, (first_y as int, first_m as int)),
{
    let ghost ev = events_view(events@);
    let (ny, nm) = next_month(y, m);
    let last = Date { year: ny, month: nm, day: 1 }.pred();
    let mut d = if last.le(&today) { last } else { today };
    let ghost start = start_day(y, m, today);
    assert(d == Date { year: y, month: m, day: start as u32 });
    assert(1 <= start <= 31);
    let mut added: usize = 0;
    let mut removed: usize = 0;
    let mut bc: usize = 0;
    let mut bd: Option<Date> = None;
    let mut rows: Vec<ArchiveRow> = Vec::new();
    let ghost mut n: nat = 0;
    while d.month == m && d.year == y
        invariant
            ev == events_view(events@),
            MIN_YEAR <= y <= MAX_YEAR,
            !(y == MIN_YEAR && m == 1),
            !(y == MAX_YEAR && m == 12),
            1 <= m <= 12,
            1 <= start <= days_in_month(y as int, m as int),
            start <= 31,
            n <= start,
            n < start ==> d == (Date { year: y, month: m, day: (start - n) as u32 }),
            n == start ==> !(d.month == m && d.year == y),
            valid_date(d),
            events@.len() * 100 <= usize::MAX,
            (added as nat, removed as nat, bc as nat, bd, rows_view(rows@)) == arch_fold(ev, y, m, start, n),
            added <= n * events@.len(),
            removed <= n * events@.len(),
            bc <= events@.len(),
            bd matches Some(b) ==> valid_date(b),
        decreases start - n,
    {
        assert(n < start);
        let (row, c, rc) = row_exec(events, d);
        let ghost rv = row@;
        let ghost before = rows_view(rows@);
        rows.push(row);
        assert(rows_view(rows@) =~= before.push(rv));
        assert(added + c <= (n + 1) * events@.len()) by (nonlinear_arith)
            requires
                added <= n * events@.len(),
                c <= events@.len(),
        ;
        assert(removed + rc <= (n + 1) * events@.len()) by (nonlinear_arith)
            requires
                removed <= n * events@.len(),
                rc <= events@.len(),
        ;
        assert((n + 1) * events@.len() <= 32 * events@.len()) by (nonlinear_arith)
            requires
                n + 1 <= 32,
        ;
        added = added + c;
        removed = removed + rc;
        if c > bc {
            bc = c;
            bd = Some(d);
        }
        proof {
            assert(Date { year: y, month: m, day: (start - ((n + 1) - 1)) as u32 } == d);
        }
        let ghost dd = d;
        d = d.pred();
        proof {
            if dd.day > 1 {
                assert(d == Date { year: y, month: m, day: (dd.day - 1) as u32 });
            } else {
                assert(n + 1 == start);
            }
            n = n + 1;
        }
    }
    assert(n == start);
    let (py, pm) = prev_month(y, m);
    let has_prev = month_index_exec(py, pm) >= month_index_exec(first_y, first_m);
    let has_next = month_index_exec(ny, nm) <= month_index_exec(today.year, today.month);
    let mut stats: Vec<char> = Vec::new();
    push_dec(&mut stats, added as u64);
    extend_str(&mut stats, " ADDED \u{b7} ");
    push_dec(&mut stats, removed as u64);
    extend_str(&mut stats, " REMOVED");
    match bd {
        Some(b) => {
            extend_str(&mut stats, " \u{b7} BUSIEST DAY: ");
            let sd = short_date(b);
            extend_str(&mut stats, sd.as_str());
            extend_str(&mut stats, " (");
            push_dec(&mut stats, bc as u64);
            extend_str(&mut stats, ")");
        },
        None => {},
    }
    let prev_href = if has_prev {
        let mut h = chars_of("../");
        let ym = ym_string(py, pm);
        extend_str(&mut h, ym.as_str());
        extend_str(&mut h, "/");
        string_of(&h)
    } else {
        String::new()
    };
    let next_href = if has_next {
        let mut h = chars_of("../");
        let ym = ym_string(ny, nm);
        extend_str(&mut h, ym.as_str());
        extend_str(&mut h, "/");
        string_of(&h)
    } else {
        String::new()
    };
    let page = ArchivePage {
        root: String::from_str("../../"),
        title: month_label(y, m),
        stats: string_of(&stats),
        prev_label: mon_label_exec(pm),
        prev_href,
        next_label: mon_label_exec(nm),
        next_href,
        rows,
    };
    let ghost spec = archive_spec(ev, y, m, today, (first_y as int, first_m as int));
    assert(page@.title == spec.title);
    assert(page@.stats =~= spec.stats);
    assert(page@.prev_label == spec.prev_label);
    assert(page@.prev_href =~= spec.prev_href);
    assert(page@.next_href =~= spec.next_href);
    assert(page@.rows == spec.rows);
    assert(page@ =~= spec);
    (ym_string(y, m), page)
}


// ---------------------------------------------------------------------------
// Global feed
// ---------------------------------------------------------------------------

/// All additions, in history order.
pub open spec fn all_adds(es: Seq<EventV>) -> Seq<EventV>
    decreases es.len(),
{
    if es.len() == 0 {
        seq![]
    } else if es.last().kind == Kind::Added {
        all_adds(es.drop_last()).push(es.last())
    } else {
        all_adds(es.drop_last())
    }
}

pub open spec fn url_date(e: EventV) -> (Seq<char>, Date) {
    (e.url, e.date)
}

/// One event per (URL, date): the first.
pub open spec fn dedup_ud(es: Seq<EventV>) -> Seq<EventV>
    decreases es.len(),
{
    if es.len() == 0 {
        seq![]
    } else {
        let rest = dedup_ud(es.drop_last());
        if rest.map_values(|e: EventV| url_date(e)).contains(url_date(es.last())) {
            rest
        } else {
            rest.push(es.last())
        }
    }
}

/// The sitewide feed: newest additions first, a URL added by several
/// lists on one day once, at most `FEED_ITEMS`.
pub open spec fn site_feed_spec(es: Seq<EventV>) -> Seq<FeedEntryV> {
    first_n(dedup_ud(all_adds(es).reverse()), FEED_ITEMS as int).map_values(|e: EventV| feed_entry_spec(e))
}

proof fn lemma_dedup_ud_prefix(s: Seq<EventV>, i: int)
    requires
        0 <= i <= s.len(),
    ensures
        dedup_ud(s.take(i)).len() <= dedup_ud(s).len(),
        dedup_ud(s).take(dedup_ud(s.take(i)).len() as int) == dedup_ud(s.take(i)),
    decreases s.len(),
{
    if i == s.len() {
        assert(s.take(i) =~= s);
        assert(dedup_ud(s).take(dedup_ud(s).len() as int) =~= dedup_ud(s));
    } else {
        let t = s.drop_last();
        assert(t.take(i) =~= s.take(i));
        lemma_dedup_ud_prefix(t, i);
        let a = dedup_ud(s.take(i));
        let b = dedup_ud(t);
        if dedup_ud(s) != b {
            assert(dedup_ud(s) == b.push(s.last()));
            assert(dedup_ud(s).take(a.len() as int) =~= b.take(a.len() as int));
        }
    }
}

fn added_rev_idx(events: &[Event]) -> (r: Vec<usize>)
    ensures
        idx_ok(r@, events@.len() as int),
        at(events_view(events@), r@) == all_adds(events_view(events@)).reverse(),
{
    let ghost ev = events_view(events@);
    let mut fwd: Vec<usize> = Vec::new();
    let mut i: usize = 0;
    while i < events.len()
        invariant
            i <= events.len(),
            ev == events_view(events@),
            idx_ok(fwd@, events@.len() as int),
            at(ev, fwd@) == all_adds(ev.take(i as int)),
        decreases events.len() - i,
    {
        proof {
            assert(ev.take(i + 1).drop_last() =~= ev.take(i as int));
            assert(ev.take(i + 1).last() == ev[i as int]);
        }
        if events[i].kind == Kind::Added {
            let ghost before = at(ev, fwd@);
            fwd.push(i);
            assert(at(ev, fwd@) =~= before.push(ev[i as int]));
        }
        i += 1;
    }
    assert(ev.take(events.len() as int) =~= ev);
    let mut out: Vec<usize> = Vec::new();
    let mut j = fwd.len();
    while j > 0
        invariant
            j <= fwd.len(),
            idx_ok(fwd@, events@.len() as int),
            idx_ok(out@, events@.len() as int),
            out@.len() == fwd@.len() - j,
            forall|k: int| 0 <= k < out@.len() ==> #[trigger] out@[k] == fwd@[fwd@.len() - 1 - k],
        decreases j,
    {
        out.push(fwd[j - 1]);
        j -= 1;
    }
    assert(at(ev, out@) =~= at(ev, fwd@).reverse());
    out
}

fn site_feed(events: &[Event]) -> (r: Vec<FeedEntry>)
    ensures
        feed_view(r@) == site_feed_spec(events_view(events@)),
{
    let ghost ev = events_view(events@);
    let idx = added_rev_idx(events);
    let ghost rs = at(ev, idx@);
    let mut kept: Vec<usize> = Vec::new();
    let mut i: usize = 0;
    while i < idx.len() && kept.len() < FEED_ITEMS
        invariant
            i <= idx.len(),
            ev == events_view(events@),
            idx_ok(idx@, events@.len() as int),
            idx_ok(kept@, events@.len() as int),
            rs == at(ev, idx@),
            at(ev, kept@) == dedup_ud(rs.take(i as int)),
            kept@.len() <= FEED_ITEMS,
        decreases idx.len() - i,
    {
        proof {
            assert(rs.take(i + 1).drop_last() =~= rs.take(i as int));
            assert(rs.take(i + 1).last() == ev[idx@[i as int] as int]);
        }
        let e = &events[idx[i]];
        let uv = chars_of(e.url.as_str());
        let mut seen = false;
        let ghost uds = at(ev, kept@).map_values(|x: EventV| url_date(x));
        let mut j: usize = 0;
        while j < kept.len()
            invariant
                j <= kept.len(),
                idx_ok(kept@, events@.len() as int),
                uds == at(ev, kept@).map_values(|x: EventV| url_date(x)),
                ev == events_view(events@),
                uv@ == e.url@,
                !seen ==> forall|k: int| 0 <= k < j ==> uds[k] != url_date(e@),
                seen ==> uds.contains(url_date(e@)),
            decreases kept.len() - j,
        {
            let o = &events[kept[j]];
            let ov = chars_of(o.url.as_str());
            if o.date.same(&e.date) && seq_eq(&ov, &uv) {
                assert(uds[j as int] == url_date(e@));
                seen = true;
            }
            j += 1;
        }
        if !seen {
            let ghost before = at(ev, kept@);
            kept.push(idx[i]);
            assert(at(ev, kept@) =~= before.push(ev[idx@[i as int] as int]));
        }
        i += 1;
    }
    proof {
        lemma_dedup_ud_prefix(rs, i as int);
        if i == idx.len() {
            assert(rs.take(i as int) =~= rs);
        }
    }
    assert(first_n(dedup_ud(rs), FEED_ITEMS as int) =~= at(ev, kept@));
    let mut out: Vec<FeedEntry> = Vec::new();
    let mut k: usize = 0;
    while k < kept.len()
        invariant
            k <= kept.len(),
            ev == events_view(events@),
            idx_ok(kept@, events@.len() as int),
            feed_view(out@) == at(ev, kept@).take(k as int).map_values(|e: EventV| feed_entry_spec(e)),
        decreases kept.len() - k,
    {
        let fe = feed_entry(&events[kept[k]]);
        let ghost fv = fe@;
        let ghost before = feed_view(out@);
        out.push(fe);
        assert(feed_view(out@) =~= before.push(fv));
        assert(at(ev, kept@).take(k + 1).map_values(|e: EventV| feed_entry_spec(e)) =~= at(
            ev,
            kept@,
        ).take(k as int).map_values(|e: EventV| feed_entry_spec(e)).push(fv));
        k += 1;
    }
    assert(at(ev, kept@).take(kept.len() as int) =~= at(ev, kept@));
    out
}


// ---------------------------------------------------------------------------
// The whole site
// ---------------------------------------------------------------------------

pub struct IndexPageV {
    pub root: Seq<char>,
    pub ed_line: Seq<char>,
    pub note_lists: Seq<char>,
    pub foot_made: Seq<char>,
    pub foot_stats: Seq<char>,
    pub about_url: Seq<char>,
    pub days: Seq<DaySectionV>,
}

impl View for IndexPage {
    type V = IndexPageV;

    open spec fn view(&self) -> IndexPageV {
        IndexPageV {
            root: self.root@,
            ed_line: self.ed_line@,
            note_lists: self.note_lists@,
            foot_made: self.foot_made@,
            foot_stats: self.foot_stats@,
            about_url: self.about_url@,
            days: sections_view(self.days@),
        }
    }
}

pub open spec fn index_spec(
    es: Seq<EventV>,
    ls: Seq<ListInfoV>,
    meta: Meta,
    today: Date,
    repo_url: Seq<char>,
) -> IndexPageV {
    let live = live_lists(ls);
    IndexPageV {
        root: seq![],
        ed_line: ed_line_spec(edition_spec(meta, es), today),
        note_lists: dec(live.len()) + " lists diffed nightly"@,
        foot_made: "SET DAILY BY A SMALL RUST PROGRAM ON A HOME SERVER"@,
        foot_stats: foot_stats_spec(live.len() as int, entries_sum(live)),
        about_url: repo_url,
        days: front_days(es, today, FRONT_WINDOW_DAYS as nat),
    }
}

pub struct Site {
    pub index: IndexPage,
    /// (slug, page)
    pub lists: Vec<(String, ListPage)>,
    /// ("2026-08", page)
    pub archives: Vec<(String, ArchivePage)>,
    pub feed: Vec<FeedEntry>,
    /// (slug, list repo name, entries)
    pub list_feeds: Vec<(String, String, Vec<FeedEntry>)>,
}

pub open spec fn list_pages_view(v: Seq<(String, ListPage)>) -> Seq<(Seq<char>, ListPageV)> {
    v.map_values(|p: (String, ListPage)| (p.0@, p.1@))
}

pub open spec fn list_feeds_view(v: Seq<(String, String, Vec<FeedEntry>)>) -> Seq<(Seq<char>, Seq<char>, Seq<FeedEntryV>)> {
    v.map_values(|p: (String, String, Vec<FeedEntry>)| (p.0@, p.1@, feed_view(p.2@)))
}

pub open spec fn archives_view(v: Seq<(String, ArchivePage)>) -> Seq<(Seq<char>, ArchivePageV)> {
    v.map_values(|p: (String, ArchivePage)| (p.0@, p.1@))
}

/// Per-list pages and feeds of the live lists that have events.
pub open spec fn list_pages_fold(es: Seq<EventV>, ls: Seq<ListInfoV>, today: Date, n_live: int) -> (
    Seq<(Seq<char>, ListPageV)>,
    Seq<(Seq<char>, Seq<char>, Seq<FeedEntryV>)>,
)
    decreases ls.len(),
{
    if ls.len() == 0 {
        (seq![], seq![])
    } else {
        let (pages, feeds) = list_pages_fold(es, ls.drop_last(), today, n_live);
        let li = ls.last();
        if li.dead {
            (pages, feeds)
        } else {
            match list_page_spec(es, li, today, n_live) {
                None => (pages, feeds),
                Some(p) => (
                    pages.push((slug_spec(li.owner, li.repo), p)),
                    feeds.push((slug_spec(li.owner, li.repo), li.repo, list_feed_spec(es, li))),
                ),
            }
        }
    }
}

/// (year, month) stepped forward `k` months.
pub open spec fn month_fwd(y: int, m: int, k: nat) -> (int, int)
    decreases k,
{
    if k == 0 {
        (y, m)
    } else {
        let (py, pm) = month_fwd(y, m, (k - 1) as nat);
        next_month_spec(py, pm)
    }
}

/// One archive per month from the first event's month to today's.
pub open spec fn archives_spec(es: Seq<EventV>, today: Date) -> Seq<(Seq<char>, ArchivePageV)> {
    if es.len() == 0 {
        seq![]
    } else {
        let f = es[0].date;
        let n = month_index(today.year as int, today.month as int) - month_index(f.year as int, f.month as int) + 1;
        Seq::new(
            n as nat,
            |k: int|
                {
                    let (y, m) = month_fwd(f.year as int, f.month as int, k as nat);
                    (ym_spec(y, m), archive_spec(es, y as i32, m as u32, today, (f.year as int, f.month as int)))
                },
        )
    }
}

/// What `build` needs of its inputs: valid dates; the front page's days
/// before today inside chrono's range; no event in a month after today's;
/// no archive month whose day before its first or day after its last falls
/// outside chrono's range (the very first and very last months); and
/// counts that fit the machine.
pub open spec fn build_ok(es: Seq<EventV>, ls: Seq<ListInfoV>, today: Date) -> bool {
    &&& valid_date(today)
    &&& steps_back_ok(today, FRONT_WINDOW_DAYS as nat)
    &&& dates_valid(es)
    &&& es.len() * 100 <= usize::MAX
    &&& es.len() > 0 ==> month_index(es[0].date.year as int, es[0].date.month as int) <= month_index(
        today.year as int,
        today.month as int,
    ) && !(es[0].date.year == MIN_YEAR && es[0].date.month == 1) && !(today.year == MAX_YEAR
        && today.month == 12)
    &&& forall|i: int| 0 <= i < ls.len() ==> ((#[trigger] ls[i]).enrolled matches Some(d) ==> valid_date(d))
    &&& entries_sum(live_lists(ls)) <= u64::MAX
}

/// Checks `build_ok`, the condition of `build`.
pub fn build_ready(state: &State, today: Date) -> (r: bool)
    ensures
        r == build_ok(events_view(state.events@), lists_view(state.lists@), today),
{
    let ghost ev = events_view(state.events@);
    let ghost lv = lists_view(state.lists@);
    if Date::from_ymd(today.year, today.month, today.day).is_none() {
        return false;
    }
    let mut d = today;
    let mut b: usize = 0;
    while b < FRONT_WINDOW_DAYS
        invariant
            b <= FRONT_WINDOW_DAYS,
            valid_date(today),
            d == days_back(today, b as nat),
            steps_back_ok(today, b as nat),
        decreases FRONT_WINDOW_DAYS - b,
    {
        proof {
            lemma_days_back_valid(today, b as nat);
        }
        if d.year == MIN_YEAR && d.month == 1 && d.day == 1 {
            assert(!has_prev(days_back(today, b as nat)));
            assert(!steps_back_ok(today, FRONT_WINDOW_DAYS as nat));
            return false;
        }
        assert(has_prev(days_back(today, b as nat)));
        assert forall|k: nat| k < b + 1 implies #[trigger] has_prev(days_back(today, k)) by {
            if k < b {
                assert(has_prev(days_back(today, k)));
            }
        }
        d = d.pred();
        b += 1;
    }
    let n = state.events.len();
    if n > usize::MAX / 100 {
        return false;
    }
    let mut i: usize = 0;
    while i < n
        invariant
            i <= n,
            n == state.events.len(),
            ev == events_view(state.events@),
            forall|j: int| 0 <= j < i ==> valid_date(#[trigger] ev[j].date),
        decreases n - i,
    {
        let d = state.events[i].date;
        assert(ev[i as int].date == d);
        if Date::from_ymd(d.year, d.month, d.day).is_none() {
            return false;
        }
        i += 1;
    }
    assert(dates_valid(ev));
    if n > 0 {
        let f = state.events[0].date;
        assert(ev[0].date == f);
        if month_index_exec(f.year, f.month) > month_index_exec(today.year, today.month) || (f.year
            == MIN_YEAR && f.month == 1) || (today.year == MAX_YEAR && today.month == 12) {
            return false;
        }
    }
    let mut total: u64 = 0;
    let mut k: usize = 0;
    while k < state.lists.len()
        invariant
            k <= state.lists.len(),
            lv == lists_view(state.lists@),
            forall|j: int| 0 <= j < k ==> ((#[trigger] lv[j]).enrolled matches Some(d) ==> valid_date(d)),
            total as int == entries_sum(live_lists(lv.take(k as int))),
        decreases state.lists.len() - k,
    {
        let li = &state.lists[k];
        assert(lv[k as int] == li@);
        match li.enrolled {
            Some(d) => {
                if Date::from_ymd(d.year, d.month, d.day).is_none() {
                    return false;
                }
            },
            None => {},
        }
        proof {
            assert(lv.take(k + 1).drop_last() =~= lv.take(k as int));
            assert(lv.take(k + 1).last() == lv[k as int]);
        }
        if !li.dead {
            assert(live_lists(lv.take(k + 1)).drop_last() =~= live_lists(lv.take(k as int)));
            if total > u64::MAX - li.entries {
                proof {
                    lemma_live_sum_mono(lv, k + 1);
                }
                return false;
            }
            total = total + li.entries;
        }
        k += 1;
    }
    assert(lv.take(k as int) =~= lv);
    true
}

proof fn lemma_month_fwd(y: int, m: int, k: nat)
    requires
        1 <= m <= 12,
    ensures
        month_index(month_fwd(y, m, k).0, month_fwd(y, m, k).1) == month_index(y, m) + k,
        1 <= month_fwd(y, m, k).1 <= 12,
        month_fwd(y, m, k).0 >= y,
    decreases k,
{
    if k > 0 {
        lemma_month_fwd(y, m, (k - 1) as nat);
    }
}

/// Builds every page of the site from the state.
#[verifier::rlimit(60)]
pub fn build(state: &State, today: Date, repo_url: &str) -> (r: Site)
    requires
        build_ok(events_view(state.events@), lists_view(state.lists@), today),
    ensures
        r.index@ == index_spec(events_view(state.events@), lists_view(state.lists@), state.meta, today, repo_url@),
        list_pages_view(r.lists@) == list_pages_fold(
            events_view(state.events@),
            lists_view(state.lists@),
            today,
            live_lists(lists_view(state.lists@)).len() as int,
        ).0,
        list_feeds_view(r.list_feeds@) == list_pages_fold(
            events_view(state.events@),
            lists_view(state.lists@),
            today,
            live_lists(lists_view(state.lists@)).len() as int,
        ).1,
        archives_view(r.archives@) == archives_spec(events_view(state.events@), today),
        feed_view(r.feed@) == site_feed_spec(events_view(state.events@)),
{
    let events = state.events.as_slice();
    let ghost ev = events_view(events@);
    let ghost lv = lists_view(state.lists@);
    // Live lists and their entries.
    let mut n_live: usize = 0;
    let mut total: u64 = 0;
    let mut i: usize = 0;
    while i < state.lists.len()
        invariant
            i <= state.lists.len(),
            lv == lists_view(state.lists@),
            build_ok(ev, lv, today),
            n_live as int == live_lists(lv.take(i as int)).len(),
            total as int == entries_sum(live_lists(lv.take(i as int))),
            n_live <= i,
        decreases state.lists.len() - i,
    {
        proof {
            assert(lv.take(i + 1).drop_last() =~= lv.take(i as int));
            assert(lv.take(i + 1).last() == lv[i as int]);
            lemma_live_prefix_sum(lv, i as int);
        }
        if !state.lists[i].dead {
            let ghost l0 = live_lists(lv.take(i as int));
            assert(live_lists(lv.take(i + 1)).drop_last() =~= l0);
            total = total + state.lists[i].entries;
            n_live += 1;
        }
        i += 1;
    }
    assert(lv.take(state.lists.len() as int) =~= lv);
    // Front page.
    let days = front_sections(events, today);
    let edition = match state.meta.edition {
        Some(e) => e,
        None => distinct_event_days(events),
    };
    let mut ed = chars_of("ED. \u{2116} ");
    push_dec(&mut ed, edition);
    extend_str(&mut ed, " \u{b7} ");
    let long = today.format("%a %-d %b %Y");
    proof {
        lemma_date_formats_ascii(today);
    }
    let long_up = to_upper(long.as_str());
    extend_str(&mut ed, long_up.as_str());
    let mut note: Vec<char> = Vec::new();
    push_dec(&mut note, n_live as u64);
    extend_str(&mut note, " lists diffed nightly");
    let mut foot = chars_of("TRACKED LISTS: ");
    let c1 = commafy(n_live as u64);
    extend_str(&mut foot, c1.as_str());
    extend_str(&mut foot, " \u{b7} ENTRIES ON RECORD: ");
    let c2 = commafy(total);
    extend_str(&mut foot, c2.as_str());
    let index = IndexPage {
        root: String::new(),
        ed_line: string_of(&ed),
        note_lists: string_of(&note),
        foot_made: String::from_str("SET DAILY BY A SMALL RUST PROGRAM ON A HOME SERVER"),
        foot_stats: string_of(&foot),
        about_url: String::from_str(repo_url),
        days,
    };
    assert(index@.ed_line =~= ed_line_spec(edition_spec(state.meta, ev), today));
    assert(index@ =~= index_spec(ev, lv, state.meta, today, repo_url@));
    // Per-list pages.
    let mut lists: Vec<(String, ListPage)> = Vec::new();
    let mut list_feeds: Vec<(String, String, Vec<FeedEntry>)> = Vec::new();
    let mut j: usize = 0;
    while j < state.lists.len()
        invariant
            j <= state.lists.len(),
            lv == lists_view(state.lists@),
            ev == events_view(events@),
            build_ok(ev, lv, today),
            n_live as int == live_lists(lv).len(),
            (list_pages_view(lists@), list_feeds_view(list_feeds@)) == list_pages_fold(ev, lv.take(j as int), today, n_live as int),
        decreases state.lists.len() - j,
    {
        proof {
            assert(lv.take(j + 1).drop_last() =~= lv.take(j as int));
            assert(lv.take(j + 1).last() == lv[j as int]);
        }
        let li = &state.lists[j];
        if !li.dead {
            assert(li@ == lv[j as int]);
            match list_page(events, li, today, n_live) {
                None => {},
                Some((page, feed)) => {
                    let slug = li.slug();
                    let ghost pv = page@;
                    let ghost fv = feed_view(feed@);
                    let ghost b1 = list_pages_view(lists@);
                    let ghost b2 = list_feeds_view(list_feeds@);
                    lists.push((slug.clone(), page));
                    list_feeds.push((slug, li.repo.clone(), feed));
                    assert(list_pages_view(lists@) =~= b1.push((slug_spec(li@.owner, li@.repo), pv)));
                    assert(list_feeds_view(list_feeds@) =~= b2.push((slug_spec(li@.owner, li@.repo), li@.repo, fv)));
                },
            }
        }
        j += 1;
    }
    assert(lv.take(state.lists.len() as int) =~= lv);
    // Archives.
    let mut archives: Vec<(String, ArchivePage)> = Vec::new();
    if events.len() > 0 {
        let first = events[0].date;
        let ghost n = month_index(today.year as int, today.month as int) - month_index(first.year as int, first.month as int) + 1;
        let (mut y, mut m) = (first.year, first.month);
        let ghost mut k: nat = 0;
        loop
            invariant_except_break
                archives_view(archives@) == archives_spec(ev, today).take(k as int),
            invariant
                ev == events_view(events@),
                build_ok(ev, lv, today),
                ev.len() > 0,
                first == ev[0].date,
                valid_date(first),
                n == month_index(today.year as int, today.month as int) - month_index(first.year as int, first.month as int) + 1,
                (y as int, m as int) == month_fwd(first.year as int, first.month as int, k),
                1 <= m <= 12,
                k < n,
            ensures
                archives_view(archives@) == archives_spec(ev, today),
            decreases n - k,
        {
            proof {
                lemma_month_fwd(first.year as int, first.month as int, k);
            }
            assert(y <= today.year);
            let (ym, page) = archive_page(events, y, m, today, first.year, first.month);
            let ghost item = (ym@, page@);
            let ghost before = archives_view(archives@);
            archives.push((ym, page));
            assert(archives_view(archives@) =~= before.push(item));
            assert(archives_spec(ev, today)[k as int] == item);
            assert(archives_spec(ev, today).take(k as int + 1) =~= archives_spec(ev, today).take(k as int).push(item));
            if y == today.year && m == today.month {
                proof {
                    assert(k + 1 == n);
                    assert(archives_spec(ev, today).take(k as int + 1) =~= archives_spec(ev, today));
                }
                break;
            }
            let (ny, nm) = next_month(y, m);
            y = ny;
            m = nm;
            proof {
                k = k + 1;
                lemma_month_fwd(first.year as int, first.month as int, k);
            }
        }
    }
    proof {
        if ev.len() == 0 {
            assert(archives_view(archives@) =~= archives_spec(ev, today));
        }
    }
    let feed = site_feed(events);
    Site { index, lists, archives, feed, list_feeds }
}

proof fn lemma_live_prefix_sum(ls: Seq<ListInfoV>, i: int)
    requires
        0 <= i < ls.len(),
        entries_sum(live_lists(ls)) <= u64::MAX,
    ensures
        entries_sum(live_lists(ls.take(i + 1))) <= u64::MAX,
{
    lemma_live_sum_mono(ls, i + 1);
}

proof fn lemma_live_sum_mono(ls: Seq<ListInfoV>, i: int)
    requires
        0 <= i <= ls.len(),
    ensures
        entries_sum(live_lists(ls.take(i))) <= entries_sum(live_lists(ls)),
        entries_sum(live_lists(ls.take(i))) >= 0,
    decreases ls.len() - i,
{
    if i < ls.len() {
        lemma_live_sum_mono(ls, i + 1);
        let t = ls.take(i + 1);
        assert(t.drop_last() =~= ls.take(i));
        lemma_sum_nonneg(live_lists(ls.take(i)));
        if !t.last().dead {
            assert(live_lists(t).drop_last() =~= live_lists(ls.take(i)));
        }
    } else {
        assert(ls.take(i) =~= ls);
        lemma_sum_nonneg(live_lists(ls));
    }
}

proof fn lemma_sum_nonneg(ls: Seq<ListInfoV>)
    ensures
        entries_sum(ls) >= 0,
    decreases ls.len(),
{
    if ls.len() > 0 {
        lemma_sum_nonneg(ls.drop_last());
    }
}

pub open spec fn urls_of(es: Seq<EventV>) -> Seq<Seq<char>> {
    es.map_values(|e: EventV| e.url)
}

/// One item per URL: no two events kept for a day share a URL, every URL
/// added that day is kept, and each kept event is one of the day's.
pub proof fn law_one_event_per_url(es: Seq<EventV>)
    ensures
        forall|i: int, j: int|
            0 <= i < j < dedup_url(es).len() ==> (#[trigger] dedup_url(es)[i]).url != (
            #[trigger] dedup_url(es)[j]).url,
        forall|i: int| 0 <= i < es.len() ==> urls_of(dedup_url(es)).contains(#[trigger] es[i].url),
        forall|i: int| 0 <= i < dedup_url(es).len() ==> es.contains(#[trigger] dedup_url(es)[i]),
    decreases es.len(),
{
    if es.len() > 0 {
        let t = es.drop_last();
        let x = es.last();
        law_one_event_per_url(t);
        let rest = dedup_url(t);
        assert(urls_of(rest) =~= rest.map_values(|e: EventV| e.url));
        let d = dedup_url(es);
        if urls_of(rest).contains(x.url) {
            assert(d == rest);
            assert forall|i: int| 0 <= i < es.len() implies urls_of(d).contains(#[trigger] es[i].url) by {
                if i < t.len() {
                    assert(t[i] == es[i]);
                }
            }
            assert forall|i: int| 0 <= i < d.len() implies es.contains(#[trigger] d[i]) by {
                let m = choose|m: int| 0 <= m < t.len() && t[m] == d[i];
                assert(es[m] == t[m]);
            }
        } else {
            assert(d == rest.push(x));
            assert(urls_of(d) =~= urls_of(rest).push(x.url));
            assert forall|i: int, j: int| 0 <= i < j < d.len() implies (#[trigger] d[i]).url != (
            #[trigger] d[j]).url by {
                if j == rest.len() {
                    assert(urls_of(rest)[i] == rest[i].url);
                    assert(d[i] == rest[i]);
                } else {
                    assert(d[i] == rest[i] && d[j] == rest[j]);
                }
            }
            assert forall|i: int| 0 <= i < es.len() implies urls_of(d).contains(#[trigger] es[i].url) by {
                if i < t.len() {
                    assert(t[i] == es[i]);
                    let m = choose|m: int| 0 <= m < urls_of(rest).len() && urls_of(rest)[m] == es[i].url;
                    assert(urls_of(d)[m] == es[i].url);
                } else {
                    assert(urls_of(d)[rest.len() as int] == x.url);
                }
            }
            assert forall|i: int| 0 <= i < d.len() implies es.contains(#[trigger] d[i]) by {
                if i < rest.len() {
                    assert(d[i] == rest[i]);
                    let m = choose|m: int| 0 <= m < t.len() && t[m] == rest[i];
                    assert(es[m] == t[m]);
                } else {
                    assert(es[es.len() - 1] == x);
                }
            }
        }
    }
}

proof fn lemma_all_adds(es: Seq<EventV>)
    ensures
        forall|i: int| 0 <= i < all_adds(es).len() ==> es.contains(#[trigger] all_adds(es)[i]) && all_adds(
            es,
        )[i].kind == Kind::Added,
    decreases es.len(),
{
    if es.len() > 0 {
        let t = es.drop_last();
        lemma_all_adds(t);
        let a = all_adds(es);
        assert forall|i: int| 0 <= i < a.len() implies es.contains(#[trigger] a[i]) && a[i].kind == Kind::Added by {
            if i < all_adds(t).len() {
                assert(a[i] == all_adds(t)[i]);
                let m = choose|m: int| 0 <= m < t.len() && t[m] == a[i];
                assert(es[m] == t[m]);
            } else {
                assert(es[es.len() - 1] == es.last());
            }
        }
    }
}

proof fn lemma_dedup_ud(es: Seq<EventV>)
    ensures
        forall|i: int| 0 <= i < dedup_ud(es).len() ==> es.contains(#[trigger] dedup_ud(es)[i]),
        forall|i: int, j: int|
            0 <= i < j < dedup_ud(es).len() ==> url_date(#[trigger] dedup_ud(es)[i]) != url_date(
                #[trigger] dedup_ud(es)[j],
            ),
    decreases es.len(),
{
    if es.len() > 0 {
        let t = es.drop_last();
        lemma_dedup_ud(t);
        let rest = dedup_ud(t);
        let d = dedup_ud(es);
        let uds = rest.map_values(|e: EventV| url_date(e));
        if uds.contains(url_date(es.last())) {
            assert(d == rest);
            assert forall|i: int| 0 <= i < d.len() implies es.contains(#[trigger] d[i]) by {
                let m = choose|m: int| 0 <= m < t.len() && t[m] == d[i];
                assert(es[m] == t[m]);
            }
        } else {
            assert(d == rest.push(es.last()));
            assert forall|i: int| 0 <= i < d.len() implies es.contains(#[trigger] d[i]) by {
                if i < rest.len() {
                    assert(d[i] == rest[i]);
                    let m = choose|m: int| 0 <= m < t.len() && t[m] == rest[i];
                    assert(es[m] == t[m]);
                } else {
                    assert(es[es.len() - 1] == es.last());
                }
            }
            assert forall|i: int, j: int| 0 <= i < j < d.len() implies url_date(#[trigger] d[i]) != url_date(
                #[trigger] d[j],
            ) by {
                if j == rest.len() {
                    assert(d[i] == rest[i]);
                    assert(uds[i] == url_date(rest[i]));
                } else {
                    assert(d[i] == rest[i] && d[j] == rest[j]);
                }
            }
        }
    }
}

/// The site feed carries additions only, at most `FEED_ITEMS` of them, and
/// never the same URL twice for one day.
pub proof fn law_site_feed_additions_only(es: Seq<EventV>)
    ensures
        site_feed_spec(es).len() <= FEED_ITEMS,
        forall|i: int|
            0 <= i < site_feed_spec(es).len() ==> exists|j: int|
                0 <= j < es.len() && es[j].kind == Kind::Added && #[trigger] site_feed_spec(es)[i]
                    == feed_entry_spec(es[j]),
        forall|i: int, k: int|
            0 <= i < k < site_feed_spec(es).len() ==> ((#[trigger] site_feed_spec(es)[i]).url, site_feed_spec(
                es,
            )[i].date) != ((#[trigger] site_feed_spec(es)[k]).url, site_feed_spec(es)[k].date),
{
    let a = all_adds(es);
    let r = a.reverse();
    let d = dedup_ud(r);
    let f = first_n(d, FEED_ITEMS as int);
    lemma_all_adds(es);
    lemma_dedup_ud(r);
    let out = site_feed_spec(es);
    assert(out == f.map_values(|e: EventV| feed_entry_spec(e)));
    assert forall|i: int| 0 <= i < out.len() implies exists|j: int|
        0 <= j < es.len() && es[j].kind == Kind::Added && #[trigger] out[i] == feed_entry_spec(es[j]) by {
        assert(f[i] == d[i]);
        assert(r.contains(d[i]));
        let m = choose|m: int| 0 <= m < r.len() && r[m] == d[i];
        assert(r[m] == a[a.len() - 1 - m]);
        assert(es.contains(a[a.len() - 1 - m]));
        let j = choose|j: int| 0 <= j < es.len() && es[j] == a[a.len() - 1 - m];
        assert(out[i] == feed_entry_spec(es[j]));
    }
    assert forall|i: int, k: int| 0 <= i < k < out.len() implies ((#[trigger] out[i]).url, out[i].date) != (
    (#[trigger] out[k]).url, out[k].date) by {
        assert(f[i] == d[i] && f[k] == d[k]);
        assert(url_date(d[i]) != url_date(d[k]));
    }
}

// ---------------------------------------------------------------------------
// Laws of the pages
// ---------------------------------------------------------------------------

/// The additions of the list "owner/repo" named `full`.
pub open spec fn added_to(full: Seq<char>) -> spec_fn(EventV) -> bool {
    |e: EventV| e.kind == Kind::Added && e.list == full
}

/// The events dated in month number `t` (year * 12 + month).
pub open spec fn in_month(t: int) -> spec_fn(EventV) -> bool {
    |e: EventV| e.date.year * 12 + e.date.month == t
}

/// How many of `es` are dated in month number `t`.
pub open spec fn adds_in_month(es: Seq<EventV>, t: int) -> nat {
    es.filter(in_month(t)).len()
}

/// The month number of bar `i` of a sparkline drawn on `today`: the twelve
/// months ending with today's month, oldest first.
pub open spec fn spark_month(today: Date, i: int) -> int {
    today.year * 12 + today.month - (11 - i)
}

proof fn lemma_of_list_filter(es: Seq<EventV>, full: Seq<char>)
    ensures
        of_list(es, full, Kind::Added) == es.filter(added_to(full)),
    decreases es.len(),
{
    reveal(Seq::filter);
    if es.len() > 0 {
        lemma_of_list_filter(es.drop_last(), full);
    }
}

proof fn lemma_list_month_count(es: Seq<EventV>, full: Seq<char>, y: int, m: int)
    requires
        dates_valid(es),
        1 <= m <= 12,
    ensures
        count_month(of_list(es, full, Kind::Added), y, m) == adds_in_month(
            es.filter(added_to(full)),
            y * 12 + m,
        ),
    decreases es.len(),
{
    reveal(Seq::filter);
    if es.len() > 0 {
        let t = es.drop_last();
        assert(dates_valid(t)) by {
            assert forall|i: int| 0 <= i < t.len() implies valid_date(#[trigger] t[i].date) by {
                assert(t[i] == es[i]);
            }
        }
        lemma_list_month_count(t, full, y, m);
        lemma_of_list_filter(es, full);
        lemma_of_list_filter(t, full);
        let x = es.last();
        assert(valid_date(es[es.len() - 1].date));
        let f0 = t.filter(added_to(full));
        if added_to(full)(x) {
            assert(es.filter(added_to(full)) == f0.push(x));
            assert(f0.push(x).drop_last() =~= f0);
            assert(of_list(es, full, Kind::Added) == of_list(t, full, Kind::Added).push(x));
            assert(of_list(t, full, Kind::Added).push(x).drop_last() =~= of_list(t, full, Kind::Added));
            assert((x.date.year == y && x.date.month == m) <==> x.date.year * 12 + x.date.month == y * 12 + m);
        }
    }
}

proof fn lemma_count_month_add(a: Seq<EventV>, b: Seq<EventV>, y: int, m: int)
    ensures
        count_month(a + b, y, m) == count_month(a, y, m) + count_month(b, y, m),
    decreases b.len(),
{
    if b.len() == 0 {
        assert(a + b =~= a);
    } else {
        assert((a + b).drop_last() =~= a + b.drop_last());
        lemma_count_month_add(a, b.drop_last(), y, m);
    }
}

proof fn lemma_count_month_reverse(s: Seq<EventV>, y: int, m: int)
    ensures
        count_month(s.reverse(), y, m) == count_month(s, y, m),
    decreases s.len(),
{
    if s.len() > 0 {
        let t = s.drop_last();
        assert(s.reverse() =~= seq![s.last()] + t.reverse());
        lemma_count_month_add(seq![s.last()], t.reverse(), y, m);
        lemma_count_month_reverse(t, y, m);
        assert(seq![s.last()].drop_last() =~= Seq::<EventV>::empty());
        assert(count_month(seq![s.last()].drop_last(), y, m) == 0);
        assert(seq![s.last()].last() == s.last());
    } else {
        assert(s.reverse().len() == 0);
    }
}

proof fn lemma_month_back_number(y: int, m: int, k: nat)
    requires
        1 <= m <= 12,
    ensures
        1 <= month_back(y, m, k).1 <= 12,
        month_back(y, m, k).0 * 12 + month_back(y, m, k).1 == y * 12 + m - k,
    decreases k,
{
    if k > 0 {
        lemma_month_back_number(y, m, (k - 1) as nat);
    }
}

proof fn lemma_seq_max_le(s: Seq<nat>, b: nat)
    requires
        forall|i: int| 0 <= i < s.len() ==> s[i] <= b,
    ensures
        seq_max(s) <= b,
    decreases s.len(),
{
    if s.len() > 0 {
        lemma_seq_max_le(s.drop_last(), b);
    }
}

/// The sparkline of a list page has one bar for each of the twelve months
/// ending with today's month, oldest first: a month without additions of
/// the list gets the floor height, and the busiest month, if it has any,
/// the full height.
#[verifier::spinoff_prover]
#[verifier::rlimit(50)]
pub proof fn law_spark_months(es: Seq<EventV>, li: ListInfoV, today: Date, n_live: int, j: int)
    requires
        dates_valid(es),
        valid_date(today),
        0 <= j < 12,
        list_page_spec(es, li, today, n_live) is Some,
    ensures
        ({
            let p = list_page_spec(es, li, today, n_live).unwrap();
            let adds = es.filter(added_to(crate::model::full_name(li.owner, li.repo)));
            let c = adds_in_month(adds, spark_month(today, j));
            &&& p.spark.len() == 12
            &&& c == 0 ==> p.spark[j] == 8
            &&& c > 0 && (forall|i: int| 0 <= i < 12 ==> #[trigger] adds_in_month(adds, spark_month(today, i)) <= c)
                ==> p.spark[j] == 100
        }),
{
    let full = crate::model::full_name(li.owner, li.repo);
    let adds = es.filter(added_to(full));
    let la = list_events(es, full, Kind::Added);
    let counts = month_counts(la, today);
    assert forall|i: int| 0 <= i < 12 implies #[trigger] counts[i] == adds_in_month(adds, spark_month(today, i)) by {
        let (y, mm) = month_back(today.year as int, today.month as int, (11 - i) as nat);
        lemma_month_back_number(today.year as int, today.month as int, (11 - i) as nat);
        lemma_count_month_reverse(of_list(es, full, Kind::Added), y, mm);
        lemma_list_month_count(es, full, y, mm);
    }
    let c = adds_in_month(adds, spark_month(today, j));
    assert(counts[j] == c);
    if c > 0 && (forall|i: int| 0 <= i < 12 ==> #[trigger] adds_in_month(adds, spark_month(today, i)) <= c) {
        assert forall|i: int| 0 <= i < counts.len() implies counts[i] <= c by {
            assert(counts[i] == adds_in_month(adds, spark_month(today, i)));
        }
        lemma_seq_max_le(counts, c);
        lemma_seq_max_ge(counts, j);
        let mx: nat = if seq_max(counts) > 1 { seq_max(counts) } else { 1 };
        assert(mx == c);
        assert((c * 100) / c == 100) by (nonlinear_arith)
            requires
                c > 0,
        ;
    }
}

/// A list's feed holds its newest additions, newest first: entry `i` is the
/// list's `i`-th addition counting back from the latest, for as many as the
/// feed holds.
pub proof fn law_list_feed_newest_first(es: Seq<EventV>, li: ListInfoV)
    ensures
        ({
            let adds = es.filter(added_to(crate::model::full_name(li.owner, li.repo)));
            let f = list_feed_spec(es, li);
            &&& f.len() == if adds.len() < LIST_FEED_ITEMS { adds.len() } else { LIST_FEED_ITEMS as nat }
            &&& forall|i: int| 0 <= i < f.len() ==> #[trigger] f[i] == feed_entry_spec(adds[adds.len() - 1 - i])
        }),
{
    let full = crate::model::full_name(li.owner, li.repo);
    lemma_of_list_filter(es, full);
}

/// A front-page day section says how many items it shows.
pub proof fn law_day_count_label(es: Seq<EventV>, today: Date, d: Date)
    ensures
        day_section(es, today, d) matches Some(s) ==> s.count_label == dec(s.items.len()) + " NEW"@,
{
    let adds = day_adds(es, d);
    let evs = dedup_url(adds);
    let k = evs.map_values(
        |e: EventV| (KeyV { num: -(cross_lists(adds, e.url).len() as int), first: seq![], second: seq![] }, e),
    );
    lemma_sort_keyed_contains(k);
}

#[verifier::spinoff_prover]
#[verifier::rlimit(50)]
proof fn lemma_dedup_props(es: Seq<EventV>)
    ensures
        forall|i: int, j: int|
            0 <= i < j < dedup_url(es).len() ==> (#[trigger] dedup_url(es)[i]).url != (#[trigger] dedup_url(
                es,
            )[j]).url,
        forall|i: int| 0 <= i < dedup_url(es).len() ==> es.contains(#[trigger] dedup_url(es)[i]),
        forall|i: int|
            0 <= i < es.len() ==> exists|j: int| 0 <= j < dedup_url(es).len() && #[trigger] dedup_url(es)[j].url == (
            #[trigger] es[i]).url,
    decreases es.len(),
{
    if es.len() > 0 {
        let t = es.drop_last();
        lemma_dedup_props(t);
        let rest = dedup_url(t);
        let x = es.last();
        let d = dedup_url(es);
        let urls = rest.map_values(|e: EventV| e.url);
        assert forall|i: int| 0 <= i < d.len() implies es.contains(#[trigger] d[i]) by {
            if i < rest.len() {
                assert(d[i] == rest[i]);
                assert(t.contains(rest[i]));
                let m = choose|m: int| 0 <= m < t.len() && t[m] == rest[i];
                assert(es[m] == t[m]);
            } else {
                assert(d[i] == x);
                assert(es[es.len() - 1] == x);
            }
        }
        if urls.contains(x.url) {
            assert(d == rest);
        } else {
            assert(d == rest.push(x));
            assert forall|i: int, j: int| 0 <= i < j < d.len() implies (#[trigger] d[i]).url != (#[trigger] d[j]).url by {
                if j == d.len() - 1 {
                    assert(d[i] == rest[i]);
                    assert(urls[i] == rest[i].url);
                } else {
                    assert(d[i] == rest[i] && d[j] == rest[j]);
                }
            }
        }
        assert forall|i: int| 0 <= i < es.len() implies exists|j: int| 0 <= j < d.len() && #[trigger] d[j].url == (
        #[trigger] es[i]).url by {
            if i < es.len() - 1 {
                assert(es[i] == t[i]);
                let j = choose|j: int| 0 <= j < rest.len() && #[trigger] rest[j].url == t[i].url;
                assert(d[j] == rest[j]);
            } else if urls.contains(x.url) {
                let j = choose|j: int| 0 <= j < urls.len() && urls[j] == x.url;
                assert(d[j] == rest[j]);
            } else {
                assert(d[d.len() - 1] == x);
            }
        }
    }
}

#[verifier::spinoff_prover]
#[verifier::rlimit(50)]
proof fn lemma_day_adds_props(es: Seq<EventV>, d: Date)
    ensures
        forall|i: int|
            0 <= i < day_adds(es, d).len() ==> es.contains(#[trigger] day_adds(es, d)[i]) && day_adds(es, d)[i].kind
                == Kind::Added && day_adds(es, d)[i].date == d,
        forall|i: int|
            0 <= i < es.len() && (#[trigger] es[i]).kind == Kind::Added && es[i].date == d ==> day_adds(es, d).contains(
                es[i],
            ),
    decreases es.len(),
{
    if es.len() > 0 {
        let t = es.drop_last();
        lemma_day_adds_props(t, d);
        let a = day_adds(es, d);
        let r = day_adds(t, d);
        assert forall|i: int| 0 <= i < a.len() implies es.contains(#[trigger] a[i]) && a[i].kind == Kind::Added
            && a[i].date == d by {
            if i < r.len() {
                assert(a[i] == r[i]);
                let m = choose|m: int| 0 <= m < t.len() && t[m] == r[i];
                assert(es[m] == t[m]);
            } else {
                assert(es[es.len() - 1] == a[i]);
            }
        }
        assert forall|i: int| 0 <= i < es.len() && (#[trigger] es[i]).kind == Kind::Added && es[i].date == d implies a.contains(
            es[i],
        ) by {
            if i < es.len() - 1 {
                assert(es[i] == t[i]);
                let m = choose|m: int| 0 <= m < r.len() && r[m] == t[i];
                assert(a[m] == r[m]);
            } else {
                assert(a[a.len() - 1] == es[i]);
            }
        }
    }
}

#[verifier::spinoff_prover]
#[verifier::rlimit(50)]
proof fn lemma_front_order_members(adds: Seq<EventV>, evs: Seq<EventV>)
    requires
        forall|i: int, j: int| 0 <= i < j < evs.len() ==> (#[trigger] evs[i]).url != (#[trigger] evs[j]).url,
    ensures
        front_order(adds, evs).len() == evs.len(),
        forall|i: int, j: int|
            0 <= i < j < evs.len() ==> (#[trigger] front_order(adds, evs)[i]).url != (#[trigger] front_order(
                adds,
                evs,
            )[j]).url,
        forall|i: int| 0 <= i < evs.len() ==> evs.contains(#[trigger] front_order(adds, evs)[i]),
        forall|b: int| 0 <= b < evs.len() ==> front_order(adds, evs).contains(#[trigger] evs[b]),
{
    let f = |e: EventV| (KeyV { num: -(cross_lists(adds, e.url).len() as int), first: seq![], second: seq![] }, e);
    let k = evs.map_values(f);
    let u = |e: EventV| e.url;
    lemma_sort_keyed_contains(k);
    law_sort_keyed_permutes(k);
    assert forall|i: int, j: int| 0 <= i < j < k.len() implies u(#[trigger] k[i].1) != u(#[trigger] k[j].1) by {
        assert(k[i].1 == evs[i] && k[j].1 == evs[j]);
    }
    lemma_sort_keyed_distinct(k, u);
    let st = sort_keyed(k);
    let fo = front_order(adds, evs);
    assert(fo == st.map_values(|p: (KeyV, EventV)| p.1));
    assert forall|i: int, j: int| 0 <= i < j < evs.len() implies (#[trigger] fo[i]).url != (#[trigger] fo[j]).url by {
        assert(u(st[i].1) != u(st[j].1));
    }
    assert forall|i: int| 0 <= i < evs.len() implies evs.contains(#[trigger] fo[i]) by {
        assert(k.contains(st[i]));
        let b = choose|b: int| 0 <= b < k.len() && k[b] == st[i];
        assert(evs[b] == k[b].1);
    }
    assert forall|b: int| 0 <= b < evs.len() implies fo.contains(#[trigger] evs[b]) by {
        k.to_multiset_ensures();
        st.to_multiset_ensures();
        assert(k[b] == f(evs[b]));
        assert(k.contains(k[b]));
        assert(k.to_multiset().count(k[b]) > 0);
        assert(st.to_multiset().count(k[b]) > 0);
        assert(st.contains(k[b]));
        let j = choose|j: int| 0 <= j < st.len() && st[j] == k[b];
        assert(fo[j] == evs[b]);
    }
}

/// A front-page day section shows one item per distinct URL added that
/// day: no URL twice, every URL added that day, nothing else; and its count
/// label gives that number.
#[verifier::spinoff_prover]
#[verifier::rlimit(50)]
pub proof fn law_day_items_one_per_url(es: Seq<EventV>, today: Date, d: Date)
    ensures
        day_section(es, today, d) matches Some(s) ==> {
            &&& forall|i: int, j: int| 0 <= i < j < s.items.len() ==> (#[trigger] s.items[i]).url != (
            #[trigger] s.items[j]).url
            &&& forall|i: int|
                0 <= i < es.len() && (#[trigger] es[i]).kind == Kind::Added && es[i].date == d ==> exists|j: int|
                    0 <= j < s.items.len() && #[trigger] s.items[j].url == es[i].url
            &&& forall|j: int|
                0 <= j < s.items.len() ==> exists|i: int|
                    0 <= i < es.len() && es[i].kind == Kind::Added && es[i].date == d && #[trigger] s.items[j].url
                        == #[trigger] es[i].url
            &&& s.count_label == dec(s.items.len()) + " NEW"@
        },
{
    let adds = day_adds(es, d);
    let evs = dedup_url(adds);
    if evs.len() > 0 {
        lemma_dedup_props(adds);
        lemma_day_adds_props(es, d);
        lemma_front_order_members(adds, evs);
        let s = day_section(es, today, d).unwrap();
        let fo = front_order(adds, evs);
        assert forall|i: int| 0 <= i < s.items.len() implies (#[trigger] s.items[i]).url == fo[i].url by {
            assert(s.items[i] == make_item_spec(
                fo[i],
                i,
                d == today,
                front_badge_spec(list_repo_spec(fo[i]), cross_lists(adds, fo[i].url)),
            ));
        }
        assert forall|i: int, j: int| 0 <= i < j < s.items.len() implies (#[trigger] s.items[i]).url != (
        #[trigger] s.items[j]).url by {
            assert(s.items[i].url == fo[i].url && s.items[j].url == fo[j].url);
        }
        assert forall|i: int|
            0 <= i < es.len() && (#[trigger] es[i]).kind == Kind::Added && es[i].date == d implies exists|j: int|
                0 <= j < s.items.len() && #[trigger] s.items[j].url == es[i].url by {
            assert(adds.contains(es[i]));
            let a = choose|a: int| 0 <= a < adds.len() && adds[a] == es[i];
            let b = choose|b: int| 0 <= b < evs.len() && #[trigger] evs[b].url == adds[a].url;
            assert(fo.contains(evs[b]));
            let j = choose|j: int| 0 <= j < fo.len() && fo[j] == evs[b];
            assert(s.items[j].url == fo[j].url);
        }
        assert forall|j: int| 0 <= j < s.items.len() implies exists|i: int|
            0 <= i < es.len() && es[i].kind == Kind::Added && es[i].date == d && #[trigger] s.items[j].url
                == #[trigger] es[i].url by {
            assert(evs.contains(fo[j]));
            let b = choose|b: int| 0 <= b < evs.len() && evs[b] == fo[j];
            assert(adds.contains(evs[b]));
            let a = choose|a: int| 0 <= a < adds.len() && adds[a] == evs[b];
            assert(es.contains(adds[a]));
            let i = choose|i: int| 0 <= i < es.len() && es[i] == adds[a];
            assert(s.items[j].url == fo[j].url);
            assert(s.items[j].url == es[i].url);
        }
    }
}

/// An archive page links forward exactly when the following month is no
/// later than today's month (so that month has an archive page too), and
/// the link names that month's directory.
pub proof fn law_archive_next_link(es: Seq<EventV>, y: i32, m: u32, today: Date, first: (int, int))
    requires
        1 <= m <= 12,
        valid_date(today),
    ensures
        ({
            let p = archive_spec(es, y, m, today, first);
            let ny: int = if m == 12 { y + 1 } else { y as int };
            let nm: int = if m == 12 { 1 } else { m + 1 };
            let no_later = ny < today.year || (ny == today.year && nm <= today.month);
            &&& (p.next_href.len() > 0 <==> no_later)
            &&& no_later ==> p.next_href == "../"@ + ym_spec(ny, nm) + "/"@
        }),
{
}

/// An archive page links back exactly when the previous month is no
/// earlier than the first month of the history, and the link names that
/// month's directory.
pub proof fn law_archive_prev_link(es: Seq<EventV>, y: i32, m: u32, today: Date, first: (int, int))
    requires
        1 <= m <= 12,
        1 <= first.1 <= 12,
    ensures
        ({
            let p = archive_spec(es, y, m, today, first);
            let py: int = if m == 1 { y - 1 } else { y as int };
            let pm: int = if m == 1 { 12 } else { m - 1 };
            let no_earlier = py > first.0 || (py == first.0 && pm >= first.1);
            &&& (p.prev_href.len() > 0 <==> no_earlier)
            &&& no_earlier ==> p.prev_href == "../"@ + ym_spec(py, pm) + "/"@
        }),
{
}

/// Bars of a list page's sparkline keep the order of their months'
/// addition counts: a month with no more additions than another never
/// gets a taller bar.
#[verifier::spinoff_prover]
#[verifier::rlimit(50)]
pub proof fn law_spark_order(es: Seq<EventV>, li: ListInfoV, today: Date, n_live: int, i: int, j: int)
    requires
        dates_valid(es),
        valid_date(today),
        0 <= i < 12,
        0 <= j < 12,
        list_page_spec(es, li, today, n_live) is Some,
    ensures
        ({
            let p = list_page_spec(es, li, today, n_live).unwrap();
            let adds = es.filter(added_to(crate::model::full_name(li.owner, li.repo)));
            adds_in_month(adds, spark_month(today, i)) <= adds_in_month(adds, spark_month(today, j)) ==> p.spark[i]
                <= p.spark[j]
        }),
{
    let full = crate::model::full_name(li.owner, li.repo);
    let adds = es.filter(added_to(full));
    let counts = month_counts(list_events(es, full, Kind::Added), today);
    assert forall|x: int| 0 <= x < 12 implies #[trigger] counts[x] == adds_in_month(adds, spark_month(today, x)) by {
        let (y, mm) = month_back(today.year as int, today.month as int, (11 - x) as nat);
        lemma_month_back_number(today.year as int, today.month as int, (11 - x) as nat);
        lemma_count_month_reverse(of_list(es, full, Kind::Added), y, mm);
        lemma_list_month_count(es, full, y, mm);
    }
    assert(counts[i] == adds_in_month(adds, spark_month(today, i)));
    assert(counts[j] == adds_in_month(adds, spark_month(today, j)));
    let mx: nat = if seq_max(counts) > 1 { seq_max(counts) } else { 1 };
    let p = list_page_spec(es, li, today, n_live).unwrap();
    assert(p.spark == spark_spec(counts));
    lemma_seq_max_ge(counts, i);
    lemma_seq_max_ge(counts, j);
    let hi = counts[i] * 100 / mx;
    let hj = counts[j] * 100 / mx;
    assert(hi <= 100 && hj <= 100) by (nonlinear_arith)
        requires
            counts[i] <= mx,
            counts[j] <= mx,
            mx > 0,
            hi == counts[i] * 100 / mx,
            hj == counts[j] * 100 / mx,
    ;
    if counts[i] <= counts[j] {
        vstd::arithmetic::div_mod::lemma_div_is_ordered((counts[i] * 100) as int, (counts[j] * 100) as int, mx as int);
        assert(hi <= hj);
    }
}

} // verus!
