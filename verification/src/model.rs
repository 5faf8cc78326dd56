//! The state the update job writes and the renderer reads: enrolled lists,
//! the append-only event history, and run metadata.

use vstd::prelude::*;
use crate::date::{Date, date_le, valid_date};
use crate::sort::{KeyV, SortKey, keyed_view, keys_sorted, law_sort_keyed_sorted, lemma_sort_keyed_map, map_payload, sort_by_key, sort_keyed};
use crate::view::dates_valid;
use crate::text::{
    after_last, after_last_char, before_any_vec, chars_of, dec, extend, extend_str, find_in,
    find_in_from, group3, push_dec, push_group3, slice_vec, starts_with, string_of,
    strip_prefix, strip_prefix_vec, to_lower, trim_end_str, trim_end_str_vec, unicode_lower,
    all_ascii, ascii_lower,
    trim, trim_vec, ends_with, lemma_find_in, lemma_find_in_at,
};

verus! {

/// An enrolled awesome list.
#[derive(Debug)]
pub struct ListInfo {
    pub owner: String,
    pub repo: String,
    /// Index section from the awesome index.
    pub category: String,
    /// First seen by the ledger (seed date).
    pub enrolled: Option<Date>,
    pub dead: bool,
    /// Current entry count from the last successful parse.
    pub entries: u64,
}

/// The model of a list's record.
pub struct ListInfoV {
    pub owner: Seq<char>,
    pub repo: Seq<char>,
    pub category: Seq<char>,
    pub enrolled: Option<Date>,
    pub dead: bool,
    pub entries: u64,
}

impl View for ListInfo {
    type V = ListInfoV;

    open spec fn view(&self) -> ListInfoV {
        ListInfoV {
            owner: self.owner@,
            repo: self.repo@,
            category: self.category@,
            enrolled: self.enrolled,
            dead: self.dead,
            entries: self.entries,
        }
    }
}

pub open spec fn lists_view(v: Seq<ListInfo>) -> Seq<ListInfoV> {
    v.map_values(|l: ListInfo| l@)
}

/// "owner/repo".
pub open spec fn full_name(owner: Seq<char>, repo: Seq<char>) -> Seq<char> {
    owner + seq!['/'] + repo
}

/// URL slug of a list: "owner-repo", lower-cased.
pub open spec fn slug_spec(owner: Seq<char>, repo: Seq<char>) -> Seq<char> {
    unicode_lower(owner + seq!['-'] + repo)
}

impl ListInfo {
    /// "owner/repo".
    pub fn full(&self) -> (r: String)
        ensures
            r@ == full_name(self.owner@, self.repo@),
    {
        let mut v = chars_of(self.owner.as_str());
        v.push('/');
        extend_str(&mut v, self.repo.as_str());
        string_of(&v)
    }

    /// A field-by-field copy.
    pub fn copy(&self) -> (r: ListInfo)
        ensures
            r@ == self@,
    {
        ListInfo {
            owner: self.owner.clone(),
            repo: self.repo.clone(),
            category: self.category.clone(),
            enrolled: self.enrolled,
            dead: self.dead,
            entries: self.entries,
        }
    }

    /// URL slug: /list/<owner>-<repo>/
    pub fn slug(&self) -> (r: String)
        ensures
            r@ == slug_spec(self.owner@, self.repo@),
            all_ascii(self.owner@) && all_ascii(self.repo@) ==> r@ == ascii_lower(self.owner@)
                + seq!['-'] + ascii_lower(self.repo@),
    {
        slug_of(self.owner.as_str(), self.repo.as_str())
    }
}

/// "owner-repo", lower-cased.
pub fn slug_of(owner: &str, repo: &str) -> (r: String)
    ensures
        r@ == slug_spec(owner@, repo@),
        all_ascii(owner@) && all_ascii(repo@) ==> r@ == ascii_lower(owner@) + seq!['-']
            + ascii_lower(repo@),
{
    let mut v = chars_of(owner);
    v.push('-');
    extend_str(&mut v, repo);
    assert(v@ =~= owner@ + seq!['-'] + repo@);
    let joined = string_of(&v);
    let r = to_lower(joined.as_str());
    proof {
        let j = owner@ + seq!['-'] + repo@;
        if all_ascii(owner@) && all_ascii(repo@) {
            assert forall|i: int| 0 <= i < j.len() implies (j[i] as u32) < 128 by {
                if i < owner@.len() {
                    assert(j[i] == owner@[i]);
                } else if i > owner@.len() {
                    assert(j[i] == repo@[i - owner@.len() - 1]);
                }
            }
            assert(ascii_lower(j) =~= ascii_lower(owner@) + seq!['-'] + ascii_lower(repo@));
        }
    }
    r
}

#[derive(Debug, Clone, Copy, PartialEq, Eq, Structural)]
pub enum Kind {
    Added,
    Removed,
}

/// An entry added to or removed from a list on a date.
#[derive(Debug)]
pub struct Event {
    pub date: Date,
    pub kind: Kind,
    /// Source list as "owner/repo".
    pub list: String,
    pub name: String,
    pub url: String,
    pub description: String,
    /// Heading trail inside the source list.
    pub section: Vec<String>,
}

/// The model of an event.
pub struct EventV {
    pub date: Date,
    pub kind: Kind,
    pub list: Seq<char>,
    pub name: Seq<char>,
    pub url: Seq<char>,
    pub description: Seq<char>,
    pub section: Seq<Seq<char>>,
}

impl View for Event {
    type V = EventV;

    open spec fn view(&self) -> EventV {
        EventV {
            date: self.date,
            kind: self.kind,
            list: self.list@,
            name: self.name@,
            url: self.url@,
            description: self.description@,
            section: self.section@.map_values(|s: String| s@),
        }
    }
}

pub open spec fn events_view(v: Seq<Event>) -> Seq<EventV> {
    v.map_values(|e: Event| e@)
}

impl Event {
    /// Display name of the source list: the repo half, e.g. "awesome-rust".
    pub fn list_repo(&self) -> (r: String)
        ensures
            r@ == after_last(self.list@, '/'),
    {
        let v = chars_of(self.list.as_str());
        let t = after_last_char(&v, '/');
        string_of(&t)
    }
}

#[derive(Debug, Clone, Copy)]
pub struct Meta {
    /// Daily run counter shown in the masthead.
    pub edition: Option<u64>,
    pub first_run: Option<Date>,
    /// Date of the last scan of the awesome index.
    pub index_scanned: Option<Date>,
}

impl Meta {
    pub fn empty() -> (r: Meta)
        ensures
            r.edition is None && r.first_run is None && r.index_scanned is None,
    {
        Meta { edition: None, first_run: None, index_scanned: None }
    }
}

pub struct State {
    pub lists: Vec<ListInfo>,
    /// Sorted by date ascending, stable on name.
    pub events: Vec<Event>,
    pub meta: Meta,
}

/// The non-blank lines among `segs`, trimmed, each with its 1-based
/// line number.
pub open spec fn records_of(segs: Seq<Seq<char>>) -> Seq<(int, Seq<char>)>
    decreases segs.len(),
{
    if segs.len() == 0 {
        seq![]
    } else {
        let rest = records_of(segs.drop_last());
        let t = trim(segs.last());
        if t.len() > 0 {
            rest.push((segs.len() as int, t))
        } else {
            rest
        }
    }
}

/// The lines of `s`: the pieces between newlines, empty ones included
/// (always at least one).
pub open spec fn lines_of(s: Seq<char>) -> Seq<Seq<char>>
    decreases s.len(),
{
    if s.len() == 0 {
        seq![seq![]]
    } else {
        let p = lines_of(s.drop_last());
        if s.last() == '\n' {
            p.push(seq![])
        } else {
            p.update(p.len() - 1, p.last().push(s.last()))
        }
    }
}

/// The records of the event log (one JSON event per line): each
/// non-blank line, trimmed, with its line number for error reports.
pub fn log_records(raw: &str) -> (r: Vec<(usize, String)>)
    requires
        raw@.len() < usize::MAX,
    ensures
        r@.map_values(|p: (usize, String)| (p.0 as int, p.1@)) == records_of(lines_of(raw@)),
{
    let v = chars_of(raw);
    let mut out: Vec<(usize, String)> = Vec::new();
    let mut cur: Vec<char> = Vec::new();
    let mut n: usize = 0;
    let mut i: usize = 0;
    proof {
        assert(v@.take(0) =~= Seq::<char>::empty());
    }
    while i < v.len()
        invariant
            i <= v.len(),
            v@ == raw@,
            n <= i,
            lines_of(v@.take(i as int)).len() == n + 1,
            lines_of(v@.take(i as int)).last() == cur@,
            out@.map_values(|p: (usize, String)| (p.0 as int, p.1@)) == records_of(
                lines_of(v@.take(i as int)).drop_last(),
            ),
        decreases v.len() - i,
    {
        let ghost p = lines_of(v@.take(i as int));
        proof {
            assert(v@.take(i + 1).drop_last() =~= v@.take(i as int));
            assert(v@.take(i + 1).last() == v@[i as int]);
        }
        let c = v[i];
        if c == '\n' {
            let ghost q = p.push(seq![]);
            assert(q.drop_last() =~= p);
            let t = trim_vec(&cur);
            if t.len() > 0 {
                let ghost before = out@.map_values(|p: (usize, String)| (p.0 as int, p.1@));
                out.push((n + 1, string_of(&t)));
                assert(out@.map_values(|p: (usize, String)| (p.0 as int, p.1@)) =~= before.push(
                    ((n + 1) as int, t@),
                ));
            }
            cur = Vec::new();
            n += 1;
            assert(q.last() == cur@);
        } else {
            let ghost q = p.update(p.len() - 1, p.last().push(c));
            assert(q.drop_last() =~= p.drop_last());
            cur.push(c);
        }
        i += 1;
    }
    assert(v@.take(i as int) =~= v@);
    let t = trim_vec(&cur);
    if t.len() > 0 {
        let ghost before = out@.map_values(|p: (usize, String)| (p.0 as int, p.1@));
        out.push((n + 1, string_of(&t)));
        assert(out@.map_values(|p: (usize, String)| (p.0 as int, p.1@)) =~= before.push(
            ((n + 1) as int, t@),
        ));
    }
    out
}

/// A date as one integer that orders as the date does.
pub open spec fn date_num(d: Date) -> int {
    d.year * 512 + d.month * 32 + d.day
}

pub open spec fn by_date_name(es: Seq<EventV>) -> Seq<(KeyV, EventV)> {
    es.map_values(|e: EventV| (KeyV { num: date_num(e.date), first: e.name, second: seq![] }, e))
}

/// The history's order: by date, then by name; equal pairs keep their
/// order in the file.
pub open spec fn history_order(es: Seq<EventV>) -> Seq<EventV> {
    sort_keyed(by_date_name(es)).map_values(|p: (KeyV, EventV)| p.1)
}

fn date_key(d: Date) -> (r: i64)
    requires
        valid_date(d),
    ensures
        r == date_num(d),
{
    assert(-262143 * 512 <= d.year * 512 <= 262142 * 512) by (nonlinear_arith)
        requires
            -262143 <= d.year <= 262142,
    ;
    (d.year as i64) * 512 + (d.month as i64) * 32 + (d.day as i64)
}

impl State {
    /// The loaded state: the event history put in its order (by date,
    /// then name, stable).
    pub fn assemble(lists: Vec<ListInfo>, events: Vec<Event>, meta: Meta) -> (r: State)
        requires
            dates_valid(events_view(events@)),
        ensures
            r.lists@ == lists@,
            events_view(r.events@) == history_order(events_view(events@)),
            r.meta == meta,
    {
        let ghost ev = events_view(events@);
        let mut items: Vec<(SortKey, Event)> = Vec::new();
        let ghost mut n: int = 0;
        for e in it: events
            invariant
                ev == events_view(it.seq()),
                n == it.index(),
                dates_valid(ev),
                keyed_view(items@).map_values(|p: (KeyV, Event)| (p.0, p.1@)) == by_date_name(ev.take(n)),
        {
            assert(ev[n] == e@);
            let k = SortKey { num: date_key(e.date), first: chars_of(e.name.as_str()), second: Vec::new() };
            let ghost before = keyed_view(items@).map_values(|p: (KeyV, Event)| (p.0, p.1@));
            items.push((k, e));
            proof {
                assert(ev.take(n + 1).drop_last() =~= ev.take(n));
                assert(keyed_view(items@).map_values(|p: (KeyV, Event)| (p.0, p.1@)) =~= before.push(
                    (KeyV { num: date_num(e@.date), first: e@.name, second: seq![] }, e@),
                ));
                assert(by_date_name(ev.take(n + 1)) =~= by_date_name(ev.take(n)).push(
                    (KeyV { num: date_num(e@.date), first: e@.name, second: seq![] }, e@),
                ));
                n = n + 1;
            }
        }
        assert(ev.take(n) =~= ev);
        let sorted = sort_by_key(items);
        proof {
            let f = |e: Event| e@;
            lemma_sort_keyed_map(keyed_view(items@), f);
            assert(map_payload(keyed_view(items@), f) =~= keyed_view(items@).map_values(
                |p: (KeyV, Event)| (p.0, p.1@),
            ));
            assert(history_order(ev) =~= map_payload(sort_keyed(keyed_view(items@)), f).map_values(
                |p: (KeyV, EventV)| p.1,
            ));
        }
        let mut out: Vec<Event> = Vec::new();
        let ghost sv = keyed_view(sorted@);
        let ghost mut m: int = 0;
        for p in it: sorted
            invariant
                sv == keyed_view(it.seq()),
                m == it.index(),
                events_view(out@) == sv.take(m).map_values(|p: (KeyV, Event)| p.1@),
                history_order(ev) == sv.map_values(|p: (KeyV, Event)| p.1@),
        {
            let ghost before = events_view(out@);
            out.push(p.1);
            assert(sv.take(m + 1).map_values(|p: (KeyV, Event)| p.1@) =~= sv.take(m).map_values(
                |p: (KeyV, Event)| p.1@,
            ).push(p.1@));
            proof {
                m = m + 1;
            }
        }
        assert(sv.take(m) =~= sv);
        State { lists, events: out, meta }
    }
}

proof fn lemma_date_num_order(a: Date, b: Date)
    requires
        valid_date(a),
        valid_date(b),
        date_num(a) <= date_num(b),
    ensures
        date_le(a, b),
{
    assert(date_num(a) <= date_num(b) ==> a.year <= b.year) by (nonlinear_arith)
        requires
            1 <= a.month <= 12,
            1 <= b.month <= 12,
            1 <= a.day <= 31,
            1 <= b.day <= 31,
    ;
    if a.year == b.year {
        assert(a.month <= b.month);
        if a.month == b.month {
            assert(a.day <= b.day);
        }
    }
}

/// The loaded history is in date order: no event comes before an event of
/// an earlier day.
pub proof fn law_history_in_date_order(es: Seq<EventV>)
    requires
        dates_valid(es),
    ensures
        forall|i: int, j: int|
            0 <= i < j < history_order(es).len() ==> date_le(
                #[trigger] history_order(es)[i].date,
                #[trigger] history_order(es)[j].date,
            ),
{
    let k = by_date_name(es);
    law_sort_keyed_sorted(k);
    crate::sort::lemma_sort_keyed_contains(k);
    let s = sort_keyed(k);
    let h = history_order(es);
    assert forall|i: int| 0 <= i < s.len() implies #[trigger] s[i].0.num == date_num(s[i].1.date) && valid_date(s[i].1.date) by {
        assert(k.contains(s[i]));
        let m = choose|m: int| 0 <= m < k.len() && k[m] == s[i];
        assert(k[m] == (KeyV { num: date_num(es[m].date), first: es[m].name, second: seq![] }, es[m]));
    }
    assert forall|i: int, j: int| 0 <= i < j < h.len() implies date_le(#[trigger] h[i].date, #[trigger] h[j].date) by {
        assert(h[i] == s[i].1 && h[j] == s[j].1);
        assert(crate::sort::key_le(s[i].0, s[j].0));
        assert(s[i].0.num == date_num(s[i].1.date) && s[j].0.num == date_num(s[j].1.date));
        lemma_date_num_order(s[i].1.date, s[j].1.date);
    }
}

pub open spec fn github_https() -> Seq<char> {
    "https://github.com/"@
}

pub open spec fn github_http() -> Seq<char> {
    "http://github.com/"@
}

pub open spec fn og_base() -> Seq<char> {
    "https://opengraph.githubassets.com/1/"@
}

pub open spec fn dot_git() -> Seq<char> {
    ".git"@
}

pub open spec fn og_delims() -> Seq<char> {
    seq!['/', '?', '#']
}

/// What follows "https://github.com/" or else "http://github.com/".
pub open spec fn github_rest_og(url: Seq<char>) -> Option<Seq<char>> {
    match strip_prefix(url, github_https()) {
        Some(r) => Some(r),
        None => strip_prefix(url, github_http()),
    }
}

/// The OpenGraph preview card URL for a plain github.com/{owner}/{repo} link.
pub open spec fn og_spec(url: Seq<char>) -> Option<Seq<char>> {
    match github_rest_og(url) {
        None => None,
        Some(rest) => {
            let i = find_in(rest, og_delims());
            if i < 0 {
                None
            } else {
                let owner = rest.take(i);
                let tail = rest.skip(i + 1);
                let j = find_in(tail, og_delims());
                let repo = trim_end_str(
                    if j < 0 {
                        tail
                    } else {
                        tail.take(j)
                    },
                    dot_git(),
                );
                if owner.len() == 0 || repo.len() == 0 {
                    None
                } else {
                    Some(og_base() + owner + seq!['/'] + repo)
                }
            }
        },
    }
}

/// GitHub OpenGraph preview card for a repo URL (public, no API key).
/// None for anything that is not a plain github.com/{owner}/{repo} link.
pub fn github_og(url: &str) -> (r: Option<String>)
    ensures
        match r {
            Some(s) => og_spec(url@) == Some(s@),
            None => og_spec(url@) is None,
        },
{
    let u = chars_of(url);
    let p1 = chars_of("https://github.com/");
    let p2 = chars_of("http://github.com/");
    let rest = match strip_prefix_vec(&u, &p1) {
        Some(r) => r,
        None => match strip_prefix_vec(&u, &p2) {
            Some(r) => r,
            None => {
                return None;
            },
        },
    };
    let ds: Vec<char> = vec!['/', '?', '#'];
    assert(ds@ == og_delims());
    assert(rest@.skip(0) == rest@);
    let i = match find_in_from(&rest, &ds, 0) {
        Some(i) => i,
        None => {
            return None;
        },
    };
    let owner = slice_vec(&rest, 0, i);
    let tail = slice_vec(&rest, i + 1, rest.len());
    assert(tail@ == rest@.skip(i + 1));
    let repo = before_any_vec(&tail, &ds);
    let git = chars_of(".git");
    let repo = trim_end_str_vec(&repo, &git);
    if owner.len() == 0 || repo.len() == 0 {
        return None;
    }
    let mut out = chars_of("https://opengraph.githubassets.com/1/");
    extend(&mut out, &owner);
    out.push('/');
    extend(&mut out, &repo);
    Some(string_of(&out))
}

/// Thousands grouping of the decimal digits of `n`: 214309 -> "214,309".
pub fn commafy(n: u64) -> (r: String)
    ensures
        r@ == group3(dec(n as nat)),
{
    let mut digits: Vec<char> = Vec::new();
    push_dec(&mut digits, n);
    let mut out: Vec<char> = Vec::new();
    push_group3(&mut out, &digits, digits.len());
    assert(digits@.take(digits.len() as int) == digits@);
    string_of(&out)
}

/// No character of `s` is one of `ds`.
pub open spec fn free_of(s: Seq<char>, ds: Seq<char>) -> bool {
    forall|i: int| 0 <= i < s.len() ==> !ds.contains(#[trigger] s[i])
}

/// Nothing is found in a sequence free of the characters sought.
pub proof fn lemma_no_delim_found(s: Seq<char>, ds: Seq<char>)
    requires
        free_of(s, ds),
    ensures
        find_in(s, ds) < 0,
{
    lemma_find_in(s, ds);
    if find_in(s, ds) >= 0 {
        assert(!ds.contains(s[find_in(s, ds)]));
    }
}

/// The card of a plain repo link: for any owner and repo name free of
/// '/', '?' and '#' (the repo not ending in ".git"), behind "https://" or
/// "http://github.com/", and followed by nothing, ".git", or anything that
/// starts with '/', '?' or '#', the card names exactly that owner and repo.
pub proof fn law_og_round_trip(p: Seq<char>, o: Seq<char>, r: Seq<char>, t: Seq<char>)
    requires
        p == github_https() || p == github_http(),
        o.len() > 0,
        r.len() > 0,
        free_of(o, og_delims()),
        free_of(r, og_delims()),
        !ends_with(r, dot_git()),
        t.len() == 0 || t == dot_git() || og_delims().contains(t[0]),
    ensures
        og_spec(p + o + seq!['/'] + r + t) == Some(og_base() + o + seq!['/'] + r),
{
    reveal_strlit("https://github.com/");
    reveal_strlit("http://github.com/");
    reveal_strlit(".git");
    let url = p + o + seq!['/'] + r + t;
    let rest = o + seq!['/'] + r + t;
    assert(url =~= p + rest);
    assert(url.take(p.len() as int) =~= p);
    assert(url.skip(p.len() as int) =~= rest);
    if p == github_http() {
        assert(url[4] == ':');
        assert(github_https()[4] == 's');
        assert(!starts_with(url, github_https()));
    }
    assert(github_rest_og(url) == Some(rest));
    let ds = og_delims();
    assert(ds[0] == '/');
    assert(rest[o.len() as int] == '/');
    assert forall|j: int| 0 <= j < o.len() implies !ds.contains(#[trigger] rest[j]) by {
        assert(rest[j] == o[j]);
    }
    lemma_find_in_at(rest, ds, o.len() as int);
    assert(rest.take(o.len() as int) =~= o);
    let tail = rest.skip(o.len() as int + 1);
    assert(tail =~= r + t);
    let g = dot_git();
    if t.len() == 0 {
        assert(tail =~= r);
        lemma_no_delim_found(tail, ds);
        assert(trim_end_str(r, g) == r);
    } else if t == g {
        assert(free_of(tail, ds)) by {
            assert forall|i: int| 0 <= i < tail.len() implies !ds.contains(#[trigger] tail[i]) by {
                if i < r.len() {
                    assert(tail[i] == r[i]);
                } else {
                    assert(tail[i] == g[i - r.len()]);
                    assert(!ds.contains('.') && !ds.contains('g') && !ds.contains('i') && !ds.contains('t'));
                }
            }
        }
        lemma_no_delim_found(tail, ds);
        assert(ends_with(tail, g)) by {
            assert(tail.skip(tail.len() - g.len()) =~= g);
        }
        assert(tail.take(tail.len() - g.len()) =~= r);
        assert(trim_end_str(r, g) == r);
    } else {
        assert(tail[r.len() as int] == t[0]);
        assert forall|j: int| 0 <= j < r.len() implies !ds.contains(#[trigger] tail[j]) by {
            assert(tail[j] == r[j]);
        }
        lemma_find_in_at(tail, ds, r.len() as int);
        assert(tail.take(r.len() as int) =~= r);
        assert(trim_end_str(r, g) == r);
    }
}

/// Only github.com links have a card.
pub proof fn law_og_needs_github(url: Seq<char>)
    requires
        !starts_with(url, github_https()),
        !starts_with(url, github_http()),
    ensures
        og_spec(url) is None,
{
}

} // verus!
