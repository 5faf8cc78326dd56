//! The daily update: enrollment, per-list outcome of a README fetch,
//! entry-level set-diff into events, and the end-of-run bookkeeping. The
//! fetching and the state files are I/O; the decisions are here.

use vstd::prelude::*;
use crate::date::{Date, valid_date};
use crate::model::{Event, EventV, Kind, events_view};
use crate::norm::{canonical, canonical_spec};
use crate::parse::{EntryV, ParsedEntry, entries, entries_spec, entries_view, cmark_events};
use crate::store::{StoredEntry, StoredV, stored_view};
use crate::text::{
    chars_of, clone_strings, contains_seq, dec, extend_str, join, push_dec, push_join, string_of,
    to_lower, vecs_view,
};
use crate::date::days_from_civil;
use crate::fetch::Doc;
use crate::model::{ListInfo, ListInfoV, Meta, full_name, lists_view};
use crate::parse::{IndexList, IndexListV, index_lists_view};
use crate::registry::{ExtraList, ExtraV, Registry, blocked_spec, extras_view};
use crate::roster::{
    Roster, keyed, lemma_lists_map_keyed, lemma_roster_round_trip, lemma_upsert_map_keyed, list_key, lists_map,
    live_of, retire_map, rmap, unblocked_map, up_to, upsert_map,
};
use crate::sort::{
    KeyV, SortKey, key_le, keyed_view, law_sort_keyed_sorted, lemma_sort_keyed_contains, lemma_sort_keyed_map,
    map_payload, seq_le, seq_lt, sort_by_key, sort_keyed,
};
use crate::store::Snapshot;

verus! {

pub open spec fn keys_of(s: Seq<StoredV>) -> Seq<Seq<char>> {
    s.map_values(|e: StoredV| e.key)
}

/// Parsed entries as a stored entry set: keyed by canonical URL, links
/// without one dropped, the first occurrence of a key winning.
pub open spec fn to_entries_spec(es: Seq<EntryV>) -> Seq<StoredV>
    decreases es.len(),
{
    if es.len() == 0 {
        seq![]
    } else {
        let rest = to_entries_spec(es.drop_last());
        let e = es.last();
        match canonical_spec(e.url) {
            None => rest,
            Some(k) => if keys_of(rest).contains(k) {
                rest
            } else {
                rest.push(
                    StoredV {
                        key: k,
                        name: e.name,
                        url: e.url,
                        description: e.description,
                        section: e.section,
                    },
                )
            },
        }
    }
}

/// The stored entry set of parsed entries (see `to_entries_spec`).
pub fn to_entries(parsed: Vec<ParsedEntry>) -> (r: Vec<StoredEntry>)
    ensures
        stored_view(r@) == to_entries_spec(entries_view(parsed@)),
{
    let ghost pv = entries_view(parsed@);
    let mut seen: Vec<Vec<char>> = Vec::new();
    let mut out: Vec<StoredEntry> = Vec::new();
    let ghost mut n: int = 0;
    for e in it: parsed
        invariant
            pv == entries_view(it.seq()),
            n == it.index(),
            stored_view(out@) == to_entries_spec(pv.take(n)),
            vecs_view(seen@) == keys_of(stored_view(out@)),
    {
        proof {
            assert(pv.take(n + 1).drop_last() =~= pv.take(n));
            assert(pv.take(n + 1).last() == e@);
        }
        match canonical(e.url.as_str()) {
            None => {},
            Some(key) => {
                let kv = chars_of(key.as_str());
                if !contains_seq(&seen, &kv) {
                    let ghost ov = stored_view(out@);
                    let ghost sv = vecs_view(seen@);
                    seen.push(kv);
                    out.push(
                        StoredEntry {
                            key,
                            name: e.name,
                            url: e.url,
                            description: e.description,
                            section: e.section,
                        },
                    );
                    assert(stored_view(out@) =~= ov.push(out@.last()@));
                    assert(vecs_view(seen@) =~= sv.push(key@));
                    assert(keys_of(stored_view(out@)) =~= keys_of(ov).push(key@));
                }
            },
        }
        proof {
            n = n + 1;
        }
    }
    assert(pv.take(n) =~= pv);
    out
}

/// The stored entry set of a README body.
pub fn readme_entries(body: &str) -> (r: Vec<StoredEntry>)
    ensures
        stored_view(r@) == to_entries_spec(entries_spec(cmark_events(body@))),
{
    to_entries(entries(body))
}

/// The event an entry makes.
pub open spec fn event_of(e: StoredV, kind: Kind, list: Seq<char>, date: Date) -> EventV {
    EventV {
        date,
        kind,
        list,
        name: e.name,
        url: e.url,
        description: e.description,
        section: e.section,
    }
}

/// Events for the entries of `from` whose key `against` lacks, in order.
pub open spec fn new_events(
    from: Seq<StoredV>,
    against: Seq<StoredV>,
    kind: Kind,
    list: Seq<char>,
    date: Date,
) -> Seq<EventV>
    decreases from.len(),
{
    if from.len() == 0 {
        seq![]
    } else {
        let rest = new_events(from.drop_last(), against, kind, list, date);
        if keys_of(against).contains(from.last().key) {
            rest
        } else {
            rest.push(event_of(from.last(), kind, list, date))
        }
    }
}

fn keys_vec(s: &[StoredEntry]) -> (r: Vec<Vec<char>>)
    ensures
        vecs_view(r@) == keys_of(stored_view(s@)),
{
    let mut out: Vec<Vec<char>> = Vec::new();
    let mut i: usize = 0;
    while i < s.len()
        invariant
            i <= s.len(),
            vecs_view(out@) == keys_of(stored_view(s@.take(i as int))),
        decreases s.len() - i,
    {
        let ghost before = vecs_view(out@);
        out.push(chars_of(s[i].key.as_str()));
        assert(vecs_view(out@) =~= before.push(s@[i as int].key@));
        assert(keys_of(stored_view(s@.take(i + 1))) =~= keys_of(stored_view(s@.take(i as int))).push(
            s@[i as int].key@,
        ));
        i += 1;
    }
    assert(s@.take(s.len() as int) =~= s@);
    out
}

fn events_for(from: &[StoredEntry], against: &[StoredEntry], kind: Kind, list: &str, date: Date) -> (r: Vec<Event>)
    ensures
        events_view(r@) == new_events(stored_view(from@), stored_view(against@), kind, list@, date),
{
    let keys = keys_vec(against);
    let ghost fv = stored_view(from@);
    let mut out: Vec<Event> = Vec::new();
    let mut i: usize = 0;
    while i < from.len()
        invariant
            i <= from.len(),
            fv == stored_view(from@),
            vecs_view(keys@) == keys_of(stored_view(against@)),
            events_view(out@) == new_events(fv.take(i as int), stored_view(against@), kind, list@, date),
        decreases from.len() - i,
    {
        proof {
            assert(fv.take(i + 1).drop_last() =~= fv.take(i as int));
            assert(fv.take(i + 1).last() == from@[i as int]@);
        }
        let e = &from[i];
        let kv = chars_of(e.key.as_str());
        if !contains_seq(&keys, &kv) {
            let ghost ov = events_view(out@);
            let ev = Event {
                date,
                kind,
                list: String::from_str(list),
                name: e.name.clone(),
                url: e.url.clone(),
                description: e.description.clone(),
                section: clone_strings(&e.section),
            };
            out.push(ev);
            assert(events_view(out@) =~= ov.push(event_of(from@[i as int]@, kind, list@, date)));
        }
        i += 1;
    }
    assert(fv.take(from.len() as int) =~= fv);
    out
}

/// Set-diff by canonical key: (additions, removals). Moves within a list
/// are not events.
pub fn diff(old: &[StoredEntry], new: &[StoredEntry], list: &str, date: Date) -> (r: (
    Vec<Event>,
    Vec<Event>,
))
    ensures
        events_view(r.0@) == new_events(stored_view(new@), stored_view(old@), Kind::Added, list@, date),
        events_view(r.1@) == new_events(stored_view(old@), stored_view(new@), Kind::Removed, list@, date),
{
    let added = events_for(new, old, Kind::Added, list, date);
    let removed = events_for(old, new, Kind::Removed, list, date);
    (added, removed)
}

proof fn lemma_no_new_events(from: Seq<StoredV>, against: Seq<StoredV>, kind: Kind, list: Seq<char>, date: Date)
    requires
        forall|i: int| 0 <= i < from.len() ==> keys_of(against).contains(#[trigger] from[i].key),
    ensures
        new_events(from, against, kind, list, date).len() == 0,
    decreases from.len(),
{
    if from.len() > 0 {
        let t = from.drop_last();
        assert forall|i: int| 0 <= i < t.len() implies keys_of(against).contains(#[trigger] t[i].key) by {
            assert(t[i] == from[i]);
        }
        lemma_no_new_events(t, against, kind, list, date);
        assert(keys_of(against).contains(from[from.len() - 1].key));
    }
}

/// Reordering, renaming or re-describing the entries of a list makes no
/// events: when the old and new entry sets hold the same canonical keys,
/// the diff is empty both ways.
pub proof fn law_same_keys_no_events(old: Seq<StoredV>, new: Seq<StoredV>, list: Seq<char>, date: Date)
    requires
        forall|k: Seq<char>| keys_of(old).contains(k) <==> keys_of(new).contains(k),
    ensures
        new_events(new, old, Kind::Added, list, date).len() == 0,
        new_events(old, new, Kind::Removed, list, date).len() == 0,
{
    assert forall|i: int| 0 <= i < new.len() implies keys_of(old).contains(#[trigger] new[i].key) by {
        assert(keys_of(new)[i] == new[i].key);
    }
    assert forall|i: int| 0 <= i < old.len() implies keys_of(new).contains(#[trigger] old[i].key) by {
        assert(keys_of(old)[i] == old[i].key);
    }
    lemma_no_new_events(new, old, Kind::Added, list, date);
    lemma_no_new_events(old, new, Kind::Removed, list, date);
}


// ---------------------------------------------------------------------------
// Enrollment
// ---------------------------------------------------------------------------

/// Days between index scans.
pub const INDEX_RESCAN_DAYS: i64 = 7;

/// Consecutive 404s that retire a list.
pub const DEAD_AFTER_MISSES: u32 = 2;

/// Whether the awesome index is due for a scan: forced, a first run, never
/// scanned, or last scanned a week or more ago.
pub open spec fn scan_due_spec(force: bool, roster_empty: bool, scanned: Option<Date>, date: Date) -> bool {
    force || roster_empty || match scanned {
        None => true,
        Some(d) => days_from_civil(date.year as int, date.month as int, date.day as int)
            - days_from_civil(d.year as int, d.month as int, d.day as int) >= INDEX_RESCAN_DAYS,
    }
}

pub fn scan_due(force: bool, roster_empty: bool, scanned: Option<Date>, date: Date) -> (r: bool)
    requires
        valid_date(date),
        scanned matches Some(d) ==> valid_date(d),
    ensures
        r == scan_due_spec(force, roster_empty, scanned, date),
{
    if force || roster_empty {
        return true;
    }
    match scanned {
        None => true,
        Some(d) => date.days_since(&d) >= INDEX_RESCAN_DAYS,
    }
}

/// Every index list upserted, in order.
pub open spec fn upsert_all(m: Map<Seq<char>, ListInfoV>, idx: Seq<IndexListV>, date: Date) -> Map<
    Seq<char>,
    ListInfoV,
>
    decreases idx.len(),
{
    if idx.len() == 0 {
        m
    } else {
        let l = idx.last();
        upsert_map(upsert_all(m, idx.drop_last(), date), l.owner, l.repo, l.category, date)
    }
}

/// Every pinned extra upserted, in order; "Uncategorized" when it names
/// no category.
pub open spec fn upsert_extras(m: Map<Seq<char>, ListInfoV>, xs: Seq<ExtraV>, date: Date) -> Map<
    Seq<char>,
    ListInfoV,
>
    decreases xs.len(),
{
    if xs.len() == 0 {
        m
    } else {
        let x = xs.last();
        upsert_map(
            upsert_extras(m, xs.drop_last(), date),
            x.owner,
            x.repo,
            match x.category {
                Some(c) => c,
                None => "Uncategorized"@,
            },
            date,
        )
    }
}

pub open spec fn index_keys(idx: Seq<IndexListV>) -> Seq<Seq<char>> {
    idx.map_values(|l: IndexListV| list_key(l.owner, l.repo))
}

pub open spec fn extra_keys(xs: Seq<ExtraV>) -> Seq<Seq<char>> {
    xs.map_values(|x: ExtraV| list_key(x.owner, x.repo))
}

fn key_chars(owner: &str, repo: &str) -> (r: Vec<char>)
    ensures
        r@ == list_key(owner@, repo@),
{
    let mut full = chars_of(owner);
    full.push('/');
    extend_str(&mut full, repo);
    assert(full@ =~= full_name(owner@, repo@));
    let fs = string_of(&full);
    let k = to_lower(fs.as_str());
    chars_of(k.as_str())
}

/// Index enrollment: every list of the index enrolled or revived with its
/// category; enrolled lists the index dropped retire unless pinned.
pub fn enroll_index(roster: &mut Roster, index: &Vec<IndexList>, registry: &Registry, date: Date, meta: &mut Meta)
    requires
        old(roster).wf(),
    ensures
        final(roster).wf(),
        rmap(final(roster)@) == retire_map(
            upsert_all(rmap(old(roster)@), index_lists_view(index@), date),
            index_keys(index_lists_view(index@)),
            extra_keys(extras_view(registry.extra@)),
        ),
        final(meta).index_scanned == Some(date),
        final(meta).edition == old(meta).edition,
        final(meta).first_run == old(meta).first_run,
{
    let ghost iv = index_lists_view(index@);
    let ghost m0 = rmap(roster@);
    let mut in_index: Vec<Vec<char>> = Vec::new();
    let mut i: usize = 0;
    while i < index.len()
        invariant
            i <= index.len(),
            iv == index_lists_view(index@),
            roster.wf(),
            rmap(roster@) == upsert_all(m0, iv.take(i as int), date),
            vecs_view(in_index@) == index_keys(iv.take(i as int)),
        decreases index.len() - i,
    {
        let l = &index[i];
        proof {
            assert(iv.take(i + 1).drop_last() =~= iv.take(i as int));
            assert(iv.take(i + 1).last() == l@);
        }
        roster.upsert(l.owner.as_str(), l.repo.as_str(), l.category.as_str(), date);
        let ghost before = vecs_view(in_index@);
        let kc = key_chars(l.owner.as_str(), l.repo.as_str());
        in_index.push(kc);
        assert(vecs_view(in_index@) =~= before.push(list_key(l.owner@, l.repo@)));
        assert(index_keys(iv.take(i + 1)) =~= index_keys(iv.take(i as int)).push(
            list_key(l.owner@, l.repo@),
        ));
        i += 1;
    }
    assert(iv.take(index.len() as int) =~= iv);
    let ghost xv = extras_view(registry.extra@);
    let mut pinned: Vec<Vec<char>> = Vec::new();
    let mut j: usize = 0;
    while j < registry.extra.len()
        invariant
            j <= registry.extra.len(),
            xv == extras_view(registry.extra@),
            vecs_view(pinned@) == extra_keys(xv.take(j as int)),
        decreases registry.extra.len() - j,
    {
        let x = &registry.extra[j];
        let ghost before = vecs_view(pinned@);
        let kc = key_chars(x.owner.as_str(), x.repo.as_str());
        pinned.push(kc);
        assert(vecs_view(pinned@) =~= before.push(list_key(x.owner@, x.repo@)));
        assert(xv.take(j + 1).last() == x@);
        assert(extra_keys(xv.take(j + 1)) =~= extra_keys(xv.take(j as int)).push(
            list_key(x.owner@, x.repo@),
        ));
        j += 1;
    }
    assert(xv.take(registry.extra.len() as int) =~= xv);
    roster.retire(&in_index, &pinned);
    meta.index_scanned = Some(date);
}

/// The pinned extras enrolled or revived, then the blocklist applied.
pub fn enroll_extras(roster: &mut Roster, registry: &Registry, date: Date)
    requires
        old(roster).wf(),
    ensures
        final(roster).wf(),
        rmap(final(roster)@) == unblocked_map(
            upsert_extras(rmap(old(roster)@), extras_view(registry.extra@), date),
            registry.blocklist@.map_values(|s: String| s@),
        ),
{
    let ghost xv = extras_view(registry.extra@);
    let ghost m0 = rmap(roster@);
    let mut j: usize = 0;
    while j < registry.extra.len()
        invariant
            j <= registry.extra.len(),
            xv == extras_view(registry.extra@),
            roster.wf(),
            rmap(roster@) == upsert_extras(m0, xv.take(j as int), date),
        decreases registry.extra.len() - j,
    {
        let x = &registry.extra[j];
        proof {
            assert(xv.take(j + 1).drop_last() =~= xv.take(j as int));
            assert(xv.take(j + 1).last() == x@);
        }
        match &x.category {
            Some(c) => roster.upsert(x.owner.as_str(), x.repo.as_str(), c.as_str(), date),
            None => roster.upsert(x.owner.as_str(), x.repo.as_str(), "Uncategorized", date),
        }
        j += 1;
    }
    assert(xv.take(registry.extra.len() as int) =~= xv);
    roster.retain_unblocked(registry);
}

// ---------------------------------------------------------------------------
// One list's fetch outcome
// ---------------------------------------------------------------------------

/// Counters and notes of a run.
#[derive(Debug)]
pub struct Summary {
    pub lists: usize,
    pub fetched: usize,
    pub unchanged: usize,
    pub seeded: usize,
    pub added: usize,
    pub removed: usize,
    /// READMEs that 404'd this run.
    pub missing: usize,
    pub died: Vec<String>,
    pub skipped: Vec<(String, String)>,
    pub edition: u64,
}

impl Summary {
    pub fn new(lists: usize) -> (r: Summary)
        ensures
            r.lists == lists,
            r.fetched == 0 && r.unchanged == 0 && r.seeded == 0 && r.added == 0 && r.removed == 0,
            r.missing == 0 && r.died@.len() == 0 && r.skipped@.len() == 0 && r.edition == 0,
    {
        Summary {
            lists,
            fetched: 0,
            unchanged: 0,
            seeded: 0,
            added: 0,
            removed: 0,
            missing: 0,
            died: Vec::new(),
            skipped: Vec::new(),
            edition: 0,
        }
    }
}

/// The skipped notes, one line each: "\nskipped {list}: {why}".
pub open spec fn skipped_lines(sk: Seq<(Seq<char>, Seq<char>)>) -> Seq<char>
    decreases sk.len(),
{
    if sk.len() == 0 {
        seq![]
    } else {
        skipped_lines(sk.drop_last()) + "\nskipped "@ + sk.last().0 + ": "@ + sk.last().1
    }
}

/// The one-paragraph report of a run.
pub open spec fn summary_text(s: Summary) -> Seq<char> {
    "edition "@ + dec(s.edition as nat) + " \u{2014} "@ + dec(s.lists as nat) + " lists: "@ + dec(
        s.fetched as nat,
    ) + " fetched, "@ + dec(s.unchanged as nat) + " unchanged, "@ + dec(s.seeded as nat)
        + " seeded; +"@ + dec(s.added as nat) + " / -"@ + dec(s.removed as nat) + " events"@ + (
    if s.missing > 0 {
        "; "@ + dec(s.missing as nat) + " missing (404)"@
    } else {
        seq![]
    }) + (if s.died@.len() > 0 {
        "; dead: "@ + join(names_view(s.died@), ", "@)
    } else {
        seq![]
    }) + skipped_lines(skipped_view(s.skipped@))
}

impl Summary {
    /// The report of the run, as printed at its end.
    pub fn text(&self) -> (r: String)
        ensures
            r@ == summary_text(*self),
    {
        let mut v = chars_of("edition ");
        push_dec(&mut v, self.edition);
        extend_str(&mut v, " \u{2014} ");
        push_dec(&mut v, self.lists as u64);
        extend_str(&mut v, " lists: ");
        push_dec(&mut v, self.fetched as u64);
        extend_str(&mut v, " fetched, ");
        push_dec(&mut v, self.unchanged as u64);
        extend_str(&mut v, " unchanged, ");
        push_dec(&mut v, self.seeded as u64);
        extend_str(&mut v, " seeded; +");
        push_dec(&mut v, self.added as u64);
        extend_str(&mut v, " / -");
        push_dec(&mut v, self.removed as u64);
        extend_str(&mut v, " events");
        let ghost head = v@;
        if self.missing > 0 {
            extend_str(&mut v, "; ");
            push_dec(&mut v, self.missing as u64);
            extend_str(&mut v, " missing (404)");
        }
        let ghost mid = v@;
        if self.died.len() > 0 {
            extend_str(&mut v, "; dead: ");
            let mut parts: Vec<Vec<char>> = Vec::new();
            let mut i: usize = 0;
            while i < self.died.len()
                invariant
                    i <= self.died.len(),
                    parts@.map_values(|p: Vec<char>| p@) == names_view(self.died@).take(i as int),
                decreases self.died.len() - i,
            {
                let ghost before = parts@.map_values(|p: Vec<char>| p@);
                parts.push(chars_of(self.died[i].as_str()));
                assert(parts@.map_values(|p: Vec<char>| p@) =~= before.push(self.died@[i as int]@));
                assert(names_view(self.died@).take(i + 1) =~= names_view(self.died@).take(i as int).push(
                    self.died@[i as int]@,
                ));
                i += 1;
            }
            assert(names_view(self.died@).take(i as int) =~= names_view(self.died@));
            let sep = chars_of(", ");
            push_join(&mut v, &parts, &sep);
        }
        let ghost mid2 = v@;
        let ghost sk = skipped_view(self.skipped@);
        let mut j: usize = 0;
        while j < self.skipped.len()
            invariant
                j <= self.skipped.len(),
                sk == skipped_view(self.skipped@),
                v@ == mid2 + skipped_lines(sk.take(j as int)),
            decreases self.skipped.len() - j,
        {
            extend_str(&mut v, "\nskipped ");
            extend_str(&mut v, self.skipped[j].0.as_str());
            extend_str(&mut v, ": ");
            extend_str(&mut v, self.skipped[j].1.as_str());
            assert(sk.take(j + 1).drop_last() =~= sk.take(j as int));
            assert(sk.take(j + 1).last() == sk[j as int]);
            j += 1;
        }
        assert(sk.take(j as int) =~= sk);
        string_of(&v)
    }
}

/// Room left in the run's counters (they count lists, so they stay far
/// below the machine limit).
pub open spec fn summary_room(s: Summary) -> bool {
    s.fetched < usize::MAX && s.unchanged < usize::MAX && s.seeded < usize::MAX && s.missing
        < usize::MAX
}

pub open spec fn skipped_view(v: Seq<(String, String)>) -> Seq<(Seq<char>, Seq<char>)> {
    v.map_values(|p: (String, String)| (p.0@, p.1@))
}

pub open spec fn names_view(v: Seq<String>) -> Seq<Seq<char>> {
    v.map_values(|s: String| s@)
}

/// The model of a fetch outcome: Err(text), or a `Doc`.
pub enum OutcomeV {
    Failed(Seq<char>),
    Unchanged,
    New { body: Seq<char>, etag: Option<Seq<char>>, path: Seq<char> },
    Gone,
}

pub open spec fn opt_view(o: Option<String>) -> Option<Seq<char>> {
    match o {
        Some(s) => Some(s@),
        None => None,
    }
}

pub open spec fn outcome_view(o: Result<Doc, String>) -> OutcomeV {
    match o {
        Err(e) => OutcomeV::Failed(e@),
        Ok(Doc::Unchanged) => OutcomeV::Unchanged,
        Ok(Doc::New { body, etag, path }) => OutcomeV::New { body: body@, etag: opt_view(etag), path: path@ },
        Ok(Doc::Gone) => OutcomeV::Gone,
    }
}

pub struct SnapV {
    pub etag: Option<Seq<char>>,
    pub readme_path: Option<Seq<char>>,
    pub misses: u32,
    pub entries: Seq<StoredV>,
}

pub open spec fn snap_view(s: Snapshot) -> SnapV {
    SnapV {
        etag: opt_view(s.etag),
        readme_path: opt_view(s.readme_path),
        misses: s.misses,
        entries: stored_view(s.entries@),
    }
}

pub open spec fn snap_opt_view(s: Option<Snapshot>) -> Option<SnapV> {
    match s {
        Some(x) => Some(snap_view(x)),
        None => None,
    }
}

/// The entry set a README body parses to.
pub open spec fn body_entries(body: Seq<char>) -> Seq<StoredV> {
    to_entries_spec(entries_spec(cmark_events(body)))
}

/// The note for a README that parsed to nothing though the list had
/// entries.
pub open spec fn zero_parse_note(had: nat) -> Seq<char> {
    "parsed 0 entries (had "@ + dec(had) + ")"@
}

/// What one fetch outcome does to a list: (record after, snapshot to
/// save, events). The summary counters move as `step_summary` says.
/// The miss count after one more 404.
pub open spec fn next_misses(snap: Option<SnapV>) -> int {
    match snap {
        Some(s) => s.misses + 1,
        None => 1,
    }
}

pub open spec fn step_info(info: ListInfoV, snap: Option<SnapV>, o: OutcomeV) -> ListInfoV {
    match o {
        OutcomeV::Gone => {
            if next_misses(snap) >= DEAD_AFTER_MISSES {
                ListInfoV { dead: true, ..info }
            } else {
                info
            }
        },
        OutcomeV::New { body, etag, path } => {
            let es = body_entries(body);
            let had = match snap {
                Some(s) => s.entries.len(),
                None => 0,
            };
            if es.len() == 0 && had > 0 {
                info
            } else {
                ListInfoV { entries: es.len() as u64, ..info }
            }
        },
        _ => info,
    }
}

pub open spec fn step_save(snap: Option<SnapV>, o: OutcomeV) -> Option<SnapV> {
    match o {
        OutcomeV::Failed(_) => None,
        OutcomeV::Unchanged => match snap {
            Some(s) => if s.misses != 0 {
                Some(SnapV { misses: 0, ..s })
            } else {
                None
            },
            None => None,
        },
        OutcomeV::Gone => match snap {
            Some(s) => Some(SnapV { misses: (s.misses + 1) as u32, etag: None, ..s }),
            None => Some(SnapV { etag: None, readme_path: None, misses: 1, entries: seq![] }),
        },
        OutcomeV::New { body, etag, path } => {
            let es = body_entries(body);
            let had = match snap {
                Some(s) => s.entries.len(),
                None => 0,
            };
            if es.len() == 0 && had > 0 {
                None
            } else {
                Some(SnapV { etag, readme_path: Some(path), misses: 0, entries: es })
            }
        },
    }
}

/// The events of one kind that an outcome makes: on a fresh README of a
/// list already seen (and not a parser casualty), the entries whose key
/// is new (additions) or gone (removals). Nothing on first sight.
pub open spec fn step_kind(snap: Option<SnapV>, o: OutcomeV, kind: Kind, full: Seq<char>, date: Date) -> Seq<
    EventV,
> {
    match o {
        OutcomeV::New { body, etag, path } => {
            let es = body_entries(body);
            match snap {
                None => seq![],
                Some(s) => if es.len() == 0 && s.entries.len() > 0 {
                    seq![]
                } else if kind == Kind::Added {
                    new_events(es, s.entries, Kind::Added, full, date)
                } else {
                    new_events(s.entries, es, Kind::Removed, full, date)
                },
            }
        },
        _ => seq![],
    }
}

/// Additions then removals.
pub open spec fn step_events(snap: Option<SnapV>, o: OutcomeV, full: Seq<char>, date: Date) -> Seq<EventV> {
    step_kind(snap, o, Kind::Added, full, date) + step_kind(snap, o, Kind::Removed, full, date)
}

/// The note added to `skipped`, if any.
pub open spec fn step_skip(snap: Option<SnapV>, o: OutcomeV, full: Seq<char>) -> Option<(Seq<char>, Seq<char>)> {
    match o {
        OutcomeV::Failed(e) => Some((full, "fetch: "@ + e)),
        OutcomeV::New { body, etag, path } => {
            let had = match snap {
                Some(s) => s.entries.len(),
                None => 0,
            };
            if body_entries(body).len() == 0 && had > 0 {
                Some((full, zero_parse_note(had)))
            } else {
                None
            }
        },
        _ => None,
    }
}

/// The list reported dead, if this outcome kills it.
pub open spec fn step_died(snap: Option<SnapV>, o: OutcomeV, full: Seq<char>) -> Option<Seq<char>> {
    if o is Gone && next_misses(snap) >= DEAD_AFTER_MISSES {
        Some(full)
    } else {
        None
    }
}

pub open spec fn opt_push<T>(s: Seq<T>, x: Option<T>) -> Seq<T> {
    match x {
        Some(v) => s.push(v),
        None => s,
    }
}

/// First sight of a list: a README and no snapshot yet.
pub open spec fn seeds(snap: Option<SnapV>, o: OutcomeV) -> bool {
    match o {
        OutcomeV::New { body, etag, path } => snap is None,
        _ => false,
    }
}

/// Applies one list's fetch outcome: updates the record, the counters and
/// the run's events, and returns the snapshot to save (None: leave it).
#[verifier::rlimit(60)]
pub fn apply_fetch(
    info: &mut ListInfo,
    snap: Option<Snapshot>,
    outcome: Result<Doc, String>,
    date: Date,
    summary: &mut Summary,
    events: &mut Vec<Event>,
) -> (r: Option<Snapshot>)
    requires
        summary_room(*old(summary)),
        old(summary).added + old(summary).removed <= old(events)@.len(),
        snap matches Some(s) ==> s.misses < u32::MAX,
    ensures
        ({
            let full = full_name(old(info)@.owner, old(info)@.repo);
            let sv = snap_opt_view(snap);
            let o = outcome_view(outcome);
            let evs = step_events(sv, o, full, date);
            &&& final(info)@ == step_info(old(info)@, sv, o)
            &&& snap_opt_view(r) == step_save(sv, o)
            &&& events_view(final(events)@) == events_view(old(events)@) + evs
            &&& final(summary).added == old(summary).added + step_kind(sv, o, Kind::Added, full, date).len()
            &&& final(summary).removed == old(summary).removed + step_kind(sv, o, Kind::Removed, full, date).len()
            &&& skipped_view(final(summary).skipped@) == opt_push(skipped_view(old(summary).skipped@), step_skip(sv, o, full))
            &&& names_view(final(summary).died@) == opt_push(names_view(old(summary).died@), step_died(sv, o, full))
            &&& final(summary).fetched == old(summary).fetched + if o is New { 1int } else { 0 }
            &&& final(summary).unchanged == old(summary).unchanged + if o is Unchanged { 1int } else { 0 }
            &&& final(summary).missing == old(summary).missing + if o is Gone { 1int } else { 0 }
            &&& final(summary).seeded == old(summary).seeded + if seeds(sv, o) { 1int } else { 0 }
            &&& final(summary).lists == old(summary).lists
            &&& final(summary).edition == old(summary).edition
        }),
        // The death of a list, spelled out: a second miss in a row marks the
        // record dead and reports the list; any other outcome reports none.
        outcome_view(outcome) is Gone && next_misses(snap_opt_view(snap)) >= DEAD_AFTER_MISSES ==> {
            &&& final(info).dead
            &&& names_view(final(summary).died@) == names_view(old(summary).died@).push(
                full_name(old(info)@.owner, old(info)@.repo),
            )
        },
        !(outcome_view(outcome) is Gone && next_misses(snap_opt_view(snap)) >= DEAD_AFTER_MISSES) ==> {
            &&& final(info).dead == old(info).dead
            &&& names_view(final(summary).died@) == names_view(old(summary).died@)
        },
{
    let full = info.full();
    let ghost sv = snap_opt_view(snap);
    let ghost o = outcome_view(outcome);
    match outcome {
        Err(e) => {
            let mut note = chars_of("fetch: ");
            extend_str(&mut note, e.as_str());
            let ghost before = skipped_view(summary.skipped@);
            summary.skipped.push((full, string_of(&note)));
            assert(skipped_view(summary.skipped@) =~= before.push((full@, "fetch: "@ + e@)));
            None
        },
        Ok(Doc::Unchanged) => {
            summary.unchanged = summary.unchanged + 1;
            match snap {
                Some(mut s) => {
                    if s.misses != 0 {
                        s.misses = 0;
                        Some(s)
                    } else {
                        None
                    }
                },
                None => None,
            }
        },
        Ok(Doc::Gone) => {
            summary.missing = summary.missing + 1;
            let mut s = match snap {
                Some(s) => s,
                None => Snapshot::empty(),
            };
            s.misses = s.misses + 1;
            s.etag = None;
            if s.misses >= DEAD_AFTER_MISSES {
                info.dead = true;
                let ghost before = names_view(summary.died@);
                summary.died.push(full);
                assert(names_view(summary.died@) =~= before.push(full@));
            }
            assert(snap_view(s).entries == match sv {
                Some(x) => x.entries,
                None => Seq::<StoredV>::empty(),
            });
            Some(s)
        },
        Ok(Doc::New { body, etag, path }) => {
            summary.fetched = summary.fetched + 1;
            let entries = readme_entries(body.as_str());
            let had: usize = match &snap {
                Some(s) => s.entries.len(),
                None => 0,
            };
            if entries.len() == 0 && had > 0 {
                let mut note = chars_of("parsed 0 entries (had ");
                push_dec(&mut note, had as u64);
                extend_str(&mut note, ")");
                let ghost before = skipped_view(summary.skipped@);
                summary.skipped.push((full, string_of(&note)));
                assert(skipped_view(summary.skipped@) =~= before.push((full@, zero_parse_note(had as nat))));
                return None;
            }
            match &snap {
                None => {
                    summary.seeded = summary.seeded + 1;
                    assert(events_view(events@) =~= events_view(events@) + Seq::<EventV>::empty());
                },
                Some(prev) => {
                    let (add, rem) = diff(&prev.entries, &entries, full.as_str(), date);
                    let n_add = add.len();
                    let n_rem = rem.len();
                    let ghost ev0 = events_view(events@);
                    let ghost av = events_view(add@);
                    let ghost rv = events_view(rem@);
                    let mut add = add;
                    let mut rem = rem;
                    events.append(&mut add);
                    events.append(&mut rem);
                    assert(events_view(events@) =~= ev0 + (av + rv));
                    let total = events.len();
                    assert(total == ev0.len() + n_add + n_rem);
                    summary.added = summary.added + n_add;
                    summary.removed = summary.removed + n_rem;
                },
            }
            info.entries = entries.len() as u64;
            Some(Snapshot { etag, readme_path: Some(path), misses: 0, entries })
        },
    }
}

// ---------------------------------------------------------------------------
// End of run
// ---------------------------------------------------------------------------

/// Sort items of events by (list, name).
pub open spec fn by_list_name(es: Seq<EventV>) -> Seq<(KeyV, EventV)> {
    es.map_values(|e: EventV| (KeyV { num: 0, first: e.list, second: e.name }, e))
}

/// The run's events ordered by list then name (stable).
pub open spec fn run_order(es: Seq<EventV>) -> Seq<EventV> {
    sort_keyed(by_list_name(es)).map_values(|p: (KeyV, EventV)| p.1)
}

/// A run's events come ordered by list, then by name within a list, and
/// none is lost or added by the ordering.
pub proof fn law_run_events_ordered(es: Seq<EventV>)
    ensures
        run_order(es).len() == es.len(),
        forall|i: int, j: int|
            0 <= i < j < run_order(es).len() ==> seq_lt((#[trigger] run_order(es)[i]).list, (
            #[trigger] run_order(es)[j]).list) || (run_order(es)[i].list == run_order(es)[j].list
                && seq_le(run_order(es)[i].name, run_order(es)[j].name)),
        forall|i: int| 0 <= i < run_order(es).len() ==> es.contains(#[trigger] run_order(es)[i]),
{
    let k = by_list_name(es);
    law_sort_keyed_sorted(k);
    lemma_sort_keyed_contains(k);
    let s = sort_keyed(k);
    let r = run_order(es);
    assert forall|i: int| 0 <= i < s.len() implies #[trigger] s[i].0 == (KeyV {
        num: 0,
        first: s[i].1.list,
        second: s[i].1.name,
    }) && es.contains(s[i].1) by {
        assert(k.contains(s[i]));
        let m = choose|m: int| 0 <= m < k.len() && k[m] == s[i];
        assert(k[m] == (KeyV { num: 0, first: es[m].list, second: es[m].name }, es[m]));
    }
    assert forall|i: int, j: int| 0 <= i < j < r.len() implies seq_lt((#[trigger] r[i]).list, (
    #[trigger] r[j]).list) || (r[i].list == r[j].list && seq_le(r[i].name, r[j].name)) by {
        assert(r[i] == s[i].1 && r[j] == s[j].1);
        assert(key_le(s[i].0, s[j].0));
    }
    assert forall|i: int| 0 <= i < r.len() implies es.contains(#[trigger] r[i]) by {
        assert(r[i] == s[i].1);
    }
}

/// The edition after a run: one more than before (the first run is 1).
pub open spec fn edition_after(e: Option<u64>) -> int {
    match e {
        Some(x) => x + 1,
        None => 1,
    }
}

/// Closes a run: orders its events by list then name and bumps the
/// edition (the first run's date is kept). Returns the ordered events and
/// the new edition.
pub fn finish_run(events: Vec<Event>, meta: &mut Meta, date: Date) -> (r: (Vec<Event>, u64))
    requires
        old(meta).edition matches Some(e) ==> e < u64::MAX,
    ensures
        events_view(r.0@) == run_order(events_view(events@)),
        r.1 == edition_after(old(meta).edition),
        final(meta).edition == Some(r.1),
        final(meta).first_run == match old(meta).first_run {
            Some(d) => Some(d),
            None => Some(date),
        },
        final(meta).index_scanned == old(meta).index_scanned,
{
    let ghost ev = events_view(events@);
    let mut items: Vec<(SortKey, Event)> = Vec::new();
    let ghost mut n: int = 0;
    for e in it: events
        invariant
            ev == events_view(it.seq()),
            n == it.index(),
            keyed_view(items@).map_values(|p: (KeyV, Event)| (p.0, p.1@)) == by_list_name(ev.take(n)),
    {
        let k = SortKey { num: 0, first: chars_of(e.list.as_str()), second: chars_of(e.name.as_str()) };
        let ghost before = keyed_view(items@).map_values(|p: (KeyV, Event)| (p.0, p.1@));
        items.push((k, e));
        proof {
            assert(ev.take(n + 1).drop_last() =~= ev.take(n));
            assert(keyed_view(items@).map_values(|p: (KeyV, Event)| (p.0, p.1@)) =~= before.push(
                (KeyV { num: 0, first: e@.list, second: e@.name }, e@),
            ));
            assert(by_list_name(ev.take(n + 1)) =~= by_list_name(ev.take(n)).push(
                (KeyV { num: 0, first: e@.list, second: e@.name }, e@),
            ));
            n = n + 1;
        }
    }
    assert(ev.take(n) =~= ev);
    let sorted = sort_by_key(items);
    proof {
        let f = |e: Event| e@;
        lemma_sort_keyed_map(keyed_view(items@), f);
        assert(map_payload(keyed_view(items@), f) =~= keyed_view(items@).map_values(
            |p: (KeyV, Event)| (p.0, p.1@),
        ));
        assert(run_order(ev) =~= map_payload(sort_keyed(keyed_view(items@)), f).map_values(
            |p: (KeyV, EventV)| p.1,
        ));
    }
    let mut out: Vec<Event> = Vec::new();
    let ghost sv = keyed_view(sorted@);
    let ghost mut m: int = 0;
    for p in it: sorted
        invariant
            sv == keyed_view(it.seq()),
            m == it.index(),
            events_view(out@) == sv.take(m).map_values(|p: (KeyV, Event)| p.1@),
            run_order(ev) == sv.map_values(|p: (KeyV, Event)| p.1@),
    {
        let ghost before = events_view(out@);
        out.push(p.1);
        assert(sv.take(m + 1).map_values(|p: (KeyV, Event)| p.1@) =~= sv.take(m).map_values(
            |p: (KeyV, Event)| p.1@,
        ).push(p.1@));
        proof {
            m = m + 1;
        }
    }
    assert(sv.take(m) =~= sv);
    let edition = match meta.edition {
        Some(e) => e + 1,
        None => 1,
    };
    meta.edition = Some(edition);
    if meta.first_run.is_none() {
        meta.first_run = Some(date);
    }
    (out, edition)
}

// ---------------------------------------------------------------------------
// Laws of a run
// ---------------------------------------------------------------------------

/// A README that is fetched and saved (not a parser casualty) sets the
/// list's entry count to the number of entries saved in its snapshot; and
/// an outcome that saves no fresh README leaves the count alone.
pub proof fn law_entry_count_follows_snapshot(info: ListInfoV, snap: Option<SnapV>, o: OutcomeV)
    requires
        step_save(snap, o) matches Some(sv) ==> sv.entries.len() <= u64::MAX,
    ensures
        o is New && step_save(snap, o) is Some ==> step_info(info, snap, o).entries == step_save(
            snap,
            o,
        ).unwrap().entries.len(),
        !(o is New && step_save(snap, o) is Some) ==> step_info(info, snap, o).entries == info.entries,
{
}

/// A list seen for the first time seeds silently: whatever its first
/// README holds, no event comes of it.
pub proof fn law_first_sight_is_silent(o: OutcomeV, full: Seq<char>, date: Date)
    ensures
        step_events(None, o, full, date) == Seq::<EventV>::empty(),
{
}

/// A README that parses to nothing while the list had entries is a parser
/// casualty, not a mass removal: the record, the snapshot and the event log
/// stay as they were, and the list is noted as skipped.
pub proof fn law_empty_parse_keeps_state(
    info: ListInfoV,
    s: SnapV,
    body: Seq<char>,
    etag: Option<Seq<char>>,
    path: Seq<char>,
    full: Seq<char>,
    date: Date,
)
    requires
        body_entries(body).len() == 0,
        s.entries.len() > 0,
    ensures
        step_info(info, Some(s), OutcomeV::New { body, etag, path }) == info,
        step_save(Some(s), OutcomeV::New { body, etag, path }) is None,
        step_events(Some(s), OutcomeV::New { body, etag, path }, full, date) == Seq::<EventV>::empty(),
        step_skip(Some(s), OutcomeV::New { body, etag, path }, full) == Some(
            (full, zero_parse_note(s.entries.len())),
        ),
{
}

/// Death takes two misses in a row: a first 404 leaves a live list live and
/// counts the miss; the next 404 retires it. A 304 clears the count.
pub proof fn law_two_misses_retire(info: ListInfoV, snap: Option<SnapV>)
    requires
        !info.dead,
        snap matches Some(s) ==> s.misses == 0,
    ensures
        !step_info(info, snap, OutcomeV::Gone).dead,
        step_save(snap, OutcomeV::Gone) matches Some(s1) && s1.misses == 1
            && step_info(step_info(info, snap, OutcomeV::Gone), Some(s1), OutcomeV::Gone).dead,
        step_save(snap, OutcomeV::Gone) matches Some(s1)
            && step_save(Some(s1), OutcomeV::Unchanged) == Some(SnapV { misses: 0, ..s1 }),
{
}

/// What a run saves is what the next run diffs against: when the same
/// README comes back, the next run makes no events.
pub proof fn law_same_readme_twice_no_events(
    snap: Option<SnapV>,
    body: Seq<char>,
    etag: Option<Seq<char>>,
    path: Seq<char>,
    etag2: Option<Seq<char>>,
    path2: Seq<char>,
    full: Seq<char>,
    date: Date,
)
    requires
        step_save(snap, OutcomeV::New { body, etag, path }) is Some,
    ensures
        step_events(
            step_save(snap, OutcomeV::New { body, etag, path }),
            OutcomeV::New { body, etag: etag2, path: path2 },
            full,
            date,
        ) == Seq::<EventV>::empty(),
{
    let es = body_entries(body);
    let s1 = step_save(snap, OutcomeV::New { body, etag, path }).unwrap();
    assert(s1.entries == es);
    law_same_keys_no_events(es, es, full, date);
    assert(new_events(es, es, Kind::Added, full, date) =~= Seq::<EventV>::empty());
    assert(new_events(es, es, Kind::Removed, full, date) =~= Seq::<EventV>::empty());
}

/// Every list of the index, in order, upserted into `m`: the keys are
/// those of `m` and of the index, each index list is live, and a list the
/// index does not name keeps its record.
proof fn lemma_upsert_all(m: Map<Seq<char>, ListInfoV>, idx: Seq<IndexListV>, date: Date)
    ensures
        forall|k: Seq<char>| #[trigger] upsert_all(m, idx, date).dom().contains(k) <==> (m.dom().contains(k)
            || index_keys(idx).contains(k)),
        forall|k: Seq<char>| index_keys(idx).contains(k) ==> !(#[trigger] upsert_all(m, idx, date)[k]).dead,
        forall|k: Seq<char>| m.dom().contains(k) && !index_keys(idx).contains(k) ==> #[trigger] upsert_all(
            m,
            idx,
            date,
        )[k] == m[k],
    decreases idx.len(),
{
    if idx.len() > 0 {
        let t = idx.drop_last();
        let l = idx.last();
        lemma_upsert_all(m, t, date);
        let kl = list_key(l.owner, l.repo);
        assert(index_keys(idx) =~= index_keys(t).push(kl));
        assert forall|k: Seq<char>| #[trigger] index_keys(idx).contains(k) implies (index_keys(t).contains(k)
            || k == kl) by {
            let i = choose|i: int| 0 <= i < index_keys(idx).len() && index_keys(idx)[i] == k;
            if i < t.len() {
                assert(index_keys(t)[i] == k);
            }
        }
        assert forall|k: Seq<char>| index_keys(t).contains(k) || k == kl implies #[trigger] index_keys(
            idx,
        ).contains(k) by {
            if k == kl {
                assert(index_keys(idx)[idx.len() - 1] == kl);
            } else {
                let i = choose|i: int| 0 <= i < index_keys(t).len() && index_keys(t)[i] == k;
                assert(index_keys(idx)[i] == k);
            }
        }
    }
}

/// Index enrollment: every list of the index is enrolled and live; no
/// enrolled list is dropped; a list that left the index retires (kept,
/// marked dead) unless it is pinned, and a pinned one keeps its record.
pub proof fn law_index_enrollment(
    m: Map<Seq<char>, ListInfoV>,
    idx: Seq<IndexListV>,
    xs: Seq<ExtraV>,
    date: Date,
)
    ensures
        ({
            let r = retire_map(upsert_all(m, idx, date), index_keys(idx), extra_keys(xs));
            &&& forall|k: Seq<char>| m.dom().contains(k) ==> #[trigger] r.dom().contains(k)
            &&& forall|k: Seq<char>| index_keys(idx).contains(k) ==> #[trigger] r.dom().contains(k)
                && !r[k].dead
            &&& forall|k: Seq<char>| #[trigger] r.dom().contains(k) && !index_keys(idx).contains(k)
                && !extra_keys(xs).contains(k) ==> r[k].dead
            &&& forall|k: Seq<char>| m.dom().contains(k) && !index_keys(idx).contains(k)
                && extra_keys(xs).contains(k) ==> #[trigger] r[k] == m[k]
        }),
{
    lemma_upsert_all(m, idx, date);
}

proof fn lemma_upsert_extras(m: Map<Seq<char>, ListInfoV>, xs: Seq<ExtraV>, date: Date)
    ensures
        forall|k: Seq<char>| #[trigger] upsert_extras(m, xs, date).dom().contains(k) <==> (m.dom().contains(k)
            || extra_keys(xs).contains(k)),
        forall|k: Seq<char>| extra_keys(xs).contains(k) ==> !(#[trigger] upsert_extras(m, xs, date)[k]).dead,
    decreases xs.len(),
{
    if xs.len() > 0 {
        let t = xs.drop_last();
        let x = xs.last();
        lemma_upsert_extras(m, t, date);
        let kx = list_key(x.owner, x.repo);
        assert(extra_keys(xs) =~= extra_keys(t).push(kx));
        assert forall|k: Seq<char>| #[trigger] extra_keys(xs).contains(k) implies (extra_keys(t).contains(k)
            || k == kx) by {
            let i = choose|i: int| 0 <= i < extra_keys(xs).len() && extra_keys(xs)[i] == k;
            if i < t.len() {
                assert(extra_keys(t)[i] == k);
            }
        }
        assert forall|k: Seq<char>| extra_keys(t).contains(k) || k == kx implies #[trigger] extra_keys(
            xs,
        ).contains(k) by {
            if k == kx {
                assert(extra_keys(xs)[xs.len() - 1] == kx);
            } else {
                let i = choose|i: int| 0 <= i < extra_keys(t).len() && extra_keys(t)[i] == k;
                assert(extra_keys(xs)[i] == k);
            }
        }
    }
}

/// Pinned extras and the blocklist: no blocked list survives enrollment,
/// every pinned list is enrolled and live unless blocked, and no other
/// record is dropped unless blocked.
pub proof fn law_extras_enrollment(
    m: Map<Seq<char>, ListInfoV>,
    xs: Seq<ExtraV>,
    bl: Seq<Seq<char>>,
    date: Date,
)
    ensures
        ({
            let u = upsert_extras(m, xs, date);
            let r = unblocked_map(u, bl);
            &&& forall|k: Seq<char>| #[trigger] r.dom().contains(k) ==> !blocked_spec(bl, r[k].owner, r[k].repo)
            &&& forall|k: Seq<char>| extra_keys(xs).contains(k) ==> (#[trigger] r.dom().contains(k)
                && !r[k].dead) || blocked_spec(bl, u[k].owner, u[k].repo)
            &&& forall|k: Seq<char>| m.dom().contains(k) ==> #[trigger] r.dom().contains(k) || blocked_spec(
                bl,
                u[k].owner,
                u[k].repo,
            )
        }),
{
    lemma_upsert_extras(m, xs, date);
}

proof fn lemma_upsert_extras_keeps(m: Map<Seq<char>, ListInfoV>, xs: Seq<ExtraV>, date: Date)
    ensures
        forall|k: Seq<char>|
            #[trigger] m.dom().contains(k) ==> upsert_extras(m, xs, date).dom().contains(k)
                && upsert_extras(m, xs, date)[k].owner == m[k].owner && upsert_extras(m, xs, date)[k].repo
                == m[k].repo && (upsert_extras(m, xs, date)[k].dead ==> m[k].dead),
    decreases xs.len(),
{
    if xs.len() > 0 {
        lemma_upsert_extras_keeps(m, xs.drop_last(), date);
    }
}

/// One list's fetch in a run, on the enrolled records: the record after
/// the outcome is put back under its key.
pub open spec fn fetched(m: Map<Seq<char>, ListInfoV>, k: Seq<char>, snap: Option<SnapV>, o: OutcomeV) -> Map<
    Seq<char>,
    ListInfoV,
> {
    m.insert(k, step_info(m[k], snap, o))
}

/// The enrollment of pinned extras and the blocklist, on the records.
pub open spec fn enrolled(m: Map<Seq<char>, ListInfoV>, xs: Seq<ExtraV>, bl: Seq<Seq<char>>, date: Date) -> Map<
    Seq<char>,
    ListInfoV,
> {
    unblocked_map(upsert_extras(m, xs, date), bl)
}

/// The fetches of a run, one list after the other: the records after them,
/// the events they make, and the additions and removals counted.
pub open spec fn fetch_fold(
    m: Map<Seq<char>, ListInfoV>,
    ks: Seq<Seq<char>>,
    snaps: Seq<Option<SnapV>>,
    os: Seq<OutcomeV>,
    date: Date,
) -> (Map<Seq<char>, ListInfoV>, Seq<EventV>, int, int)
    decreases ks.len(),
{
    if ks.len() == 0 || snaps.len() == 0 || os.len() == 0 {
        (m, seq![], 0, 0)
    } else {
        let (m1, evs, a, r) = fetch_fold(m, ks.drop_last(), snaps.drop_last(), os.drop_last(), date);
        let k = ks.last();
        let full = full_name(m1[k].owner, m1[k].repo);
        let (sn, o) = (snaps.last(), os.last());
        (
            fetched(m1, k, sn, o),
            evs + step_events(sn, o, full, date),
            a + step_kind(sn, o, Kind::Added, full, date).len(),
            r + step_kind(sn, o, Kind::Removed, full, date).len(),
        )
    }
}

/// A whole run on the records: the index enrollment when the index was
/// read, the pinned extras and the blocklist, then the fetch of each list
/// `ks[i]` with its snapshot `snaps[i]` and outcome `os[i]`.
pub open spec fn run_spec(
    m: Map<Seq<char>, ListInfoV>,
    index: Option<Seq<IndexListV>>,
    xs: Seq<ExtraV>,
    bl: Seq<Seq<char>>,
    ks: Seq<Seq<char>>,
    snaps: Seq<Option<SnapV>>,
    os: Seq<OutcomeV>,
    date: Date,
) -> (Map<Seq<char>, ListInfoV>, Seq<EventV>, int, int) {
    fetch_fold(run_enrolled(m, index, xs, bl, date), ks, snaps, os, date)
}

/// The records a run fetches from: the index enrollment when the index
/// was read, then the pinned extras and the blocklist.
pub open spec fn run_enrolled(
    m: Map<Seq<char>, ListInfoV>,
    index: Option<Seq<IndexListV>>,
    xs: Seq<ExtraV>,
    bl: Seq<Seq<char>>,
    date: Date,
) -> Map<Seq<char>, ListInfoV> {
    let m0 = match index {
        Some(ix) => retire_map(upsert_all(m, ix, date), index_keys(ix), extra_keys(xs)),
        None => m,
    };
    enrolled(m0, xs, bl, date)
}

proof fn lemma_upsert_all_keeps(m: Map<Seq<char>, ListInfoV>, idx: Seq<IndexListV>, date: Date)
    ensures
        forall|k: Seq<char>|
            #[trigger] m.dom().contains(k) ==> upsert_all(m, idx, date).dom().contains(k) && upsert_all(
                m,
                idx,
                date,
            )[k].owner == m[k].owner && upsert_all(m, idx, date)[k].repo == m[k].repo,
    decreases idx.len(),
{
    if idx.len() > 0 {
        lemma_upsert_all_keeps(m, idx.drop_last(), date);
    }
}

proof fn lemma_fetch_fold(
    m: Map<Seq<char>, ListInfoV>,
    ks: Seq<Seq<char>>,
    snaps: Seq<Option<SnapV>>,
    os: Seq<OutcomeV>,
    date: Date,
)
    requires
        forall|i: int| 0 <= i < ks.len() ==> m.dom().contains(#[trigger] ks[i]),
    ensures
        fetch_fold(m, ks, snaps, os, date).0.dom() == m.dom(),
        forall|k: Seq<char>|
            #[trigger] m.dom().contains(k) ==> fetch_fold(m, ks, snaps, os, date).0[k].owner == m[k].owner
                && fetch_fold(m, ks, snaps, os, date).0[k].repo == m[k].repo,
        fetch_fold(m, ks, snaps, os, date).1.len() == fetch_fold(m, ks, snaps, os, date).2 + fetch_fold(
            m,
            ks,
            snaps,
            os,
            date,
        ).3,
    decreases ks.len(),
{
    if ks.len() > 0 && snaps.len() > 0 && os.len() > 0 {
        let t = ks.drop_last();
        assert forall|i: int| 0 <= i < t.len() implies m.dom().contains(#[trigger] t[i]) by {
            assert(t[i] == ks[i]);
        }
        lemma_fetch_fold(m, t, snaps.drop_last(), os.drop_last(), date);
        let m1 = fetch_fold(m, t, snaps.drop_last(), os.drop_last(), date).0;
        let k = ks.last();
        assert(m.dom().contains(ks[ks.len() - 1]));
        assert(m1.dom().contains(k));
        assert(fetched(m1, k, snaps.last(), os.last()).dom() =~= m1.dom());
    }
}

/// A whole run: it counts as many events as it appends (additions plus
/// removals), leaves no list the blocklist names, and drops no list the
/// blocklist does not name (lists are retired, never dropped).
pub proof fn law_whole_run(
    m: Map<Seq<char>, ListInfoV>,
    index: Option<Seq<IndexListV>>,
    xs: Seq<ExtraV>,
    bl: Seq<Seq<char>>,
    ks: Seq<Seq<char>>,
    snaps: Seq<Option<SnapV>>,
    os: Seq<OutcomeV>,
    date: Date,
)
    requires
        forall|i: int| 0 <= i < ks.len() ==> run_enrolled(m, index, xs, bl, date).dom().contains(#[trigger] ks[i]),
    ensures
        ({
            let (f, evs, added, removed) = run_spec(m, index, xs, bl, ks, snaps, os, date);
            &&& evs.len() == added + removed
            &&& forall|k: Seq<char>| #[trigger] f.dom().contains(k) ==> !blocked_spec(bl, f[k].owner, f[k].repo)
            &&& forall|k: Seq<char>|
                #[trigger] m.dom().contains(k) && !blocked_spec(bl, m[k].owner, m[k].repo) ==> f.dom().contains(k)
        }),
{
    let m0 = match index {
        Some(ix) => retire_map(upsert_all(m, ix, date), index_keys(ix), extra_keys(xs)),
        None => m,
    };
    match index {
        Some(ix) => {
            lemma_upsert_all_keeps(m, ix, date);
        },
        None => {},
    }
    assert forall|k: Seq<char>| #[trigger] m.dom().contains(k) implies m0.dom().contains(k) && m0[k].owner
        == m[k].owner && m0[k].repo == m[k].repo by {
        match index {
            Some(ix) => {
                assert(upsert_all(m, ix, date).dom().contains(k));
            },
            None => {},
        }
    }
    lemma_upsert_extras_keeps(m0, xs, date);
    let e = enrolled(m0, xs, bl, date);
    lemma_fetch_fold(e, ks, snaps, os, date);
    let f = fetch_fold(e, ks, snaps, os, date).0;
    assert forall|k: Seq<char>| #[trigger] f.dom().contains(k) implies !blocked_spec(bl, f[k].owner, f[k].repo) by {
        assert(e.dom().contains(k));
        assert(f[k].owner == e[k].owner && f[k].repo == e[k].repo);
    }
    assert forall|k: Seq<char>| #[trigger] m.dom().contains(k) && !blocked_spec(bl, m[k].owner, m[k].repo)
        implies f.dom().contains(k) by {
        assert(m0.dom().contains(k));
        assert(upsert_extras(m0, xs, date)[k].owner == m0[k].owner);
        assert(e.dom().contains(k));
    }
}

proof fn lemma_fold_absent(
    m: Map<Seq<char>, ListInfoV>,
    ks: Seq<Seq<char>>,
    ss: Seq<Option<SnapV>>,
    os: Seq<OutcomeV>,
    date: Date,
    k: Seq<char>,
)
    requires
        forall|x: int| 0 <= x < ks.len() ==> m.dom().contains(#[trigger] ks[x]),
        forall|x: int| 0 <= x < ks.len() ==> #[trigger] ks[x] != k,
    ensures
        m.dom().contains(k) ==> fetch_fold(m, ks, ss, os, date).0[k] == m[k],
    decreases ks.len(),
{
    if ks.len() > 0 && ss.len() > 0 && os.len() > 0 {
        let t = ks.drop_last();
        assert forall|x: int| 0 <= x < t.len() implies m.dom().contains(#[trigger] t[x]) && t[x] != k by {
            assert(t[x] == ks[x]);
        }
        lemma_fold_absent(m, t, ss.drop_last(), os.drop_last(), date, k);
        assert(ks[ks.len() - 1] != k);
    }
}

proof fn lemma_fold_once(
    m: Map<Seq<char>, ListInfoV>,
    ks: Seq<Seq<char>>,
    ss: Seq<Option<SnapV>>,
    os: Seq<OutcomeV>,
    date: Date,
    k: Seq<char>,
    i: int,
)
    requires
        ks.len() == ss.len(),
        ss.len() == os.len(),
        forall|x: int| 0 <= x < ks.len() ==> m.dom().contains(#[trigger] ks[x]),
        0 <= i < ks.len(),
        ks[i] == k,
        forall|x: int| 0 <= x < ks.len() && x != i ==> #[trigger] ks[x] != k,
    ensures
        fetch_fold(m, ks, ss, os, date).0[k] == step_info(m[k], ss[i], os[i]),
    decreases ks.len(),
{
    let t = ks.drop_last();
    assert forall|x: int| 0 <= x < t.len() implies m.dom().contains(#[trigger] t[x]) by {
        assert(t[x] == ks[x]);
    }
    if i == ks.len() - 1 {
        assert forall|x: int| 0 <= x < t.len() implies #[trigger] t[x] != k by {
            assert(t[x] == ks[x]);
        }
        lemma_fold_absent(m, t, ss.drop_last(), os.drop_last(), date, k);
    } else {
        assert forall|x: int| 0 <= x < t.len() && x != i implies #[trigger] t[x] != k by {
            assert(t[x] == ks[x]);
        }
        assert(t[i] == k);
        lemma_fold_once(m, t, ss.drop_last(), os.drop_last(), date, k, i);
        assert(ks[ks.len() - 1] != k);
        assert(ss.drop_last()[i] == ss[i] && os.drop_last()[i] == os[i]);
    }
}

/// Across two runs without an index scan: a live list the blocklist does
/// not name, fetched once in each run and gone both times (the second fetch
/// starting from the snapshot the first saved), is still live after the
/// first run and retired after the second; and neither run drops it or any
/// other list the blocklist does not name. The runs may fetch any other
/// lists alongside.
pub proof fn law_two_runs_gone_retires_and_keeps(
    m: Map<Seq<char>, ListInfoV>,
    xs: Seq<ExtraV>,
    bl: Seq<Seq<char>>,
    ks1: Seq<Seq<char>>,
    ss1: Seq<Option<SnapV>>,
    os1: Seq<OutcomeV>,
    d1: Date,
    ks2: Seq<Seq<char>>,
    ss2: Seq<Option<SnapV>>,
    os2: Seq<OutcomeV>,
    d2: Date,
    k: Seq<char>,
    i: int,
    j: int,
)
    requires
        m.dom().contains(k),
        !m[k].dead,
        !blocked_spec(bl, m[k].owner, m[k].repo),
        ks1.len() == ss1.len() && ss1.len() == os1.len(),
        ks2.len() == ss2.len() && ss2.len() == os2.len(),
        forall|x: int| 0 <= x < ks1.len() ==> run_enrolled(m, None, xs, bl, d1).dom().contains(#[trigger] ks1[x]),
        forall|x: int|
            0 <= x < ks2.len() ==> run_enrolled(run_spec(m, None, xs, bl, ks1, ss1, os1, d1).0, None, xs, bl, d2).dom().contains(
                #[trigger] ks2[x],
            ),
        0 <= i < ks1.len() && ks1[i] == k && os1[i] == OutcomeV::Gone,
        forall|x: int| 0 <= x < ks1.len() && x != i ==> #[trigger] ks1[x] != k,
        ss1[i] matches Some(sn) ==> sn.misses == 0,
        0 <= j < ks2.len() && ks2[j] == k && os2[j] == OutcomeV::Gone,
        forall|x: int| 0 <= x < ks2.len() && x != j ==> #[trigger] ks2[x] != k,
        ss2[j] == step_save(ss1[i], OutcomeV::Gone),
    ensures
        ({
            let r1 = run_spec(m, None, xs, bl, ks1, ss1, os1, d1).0;
            let r2 = run_spec(r1, None, xs, bl, ks2, ss2, os2, d2).0;
            &&& r1.dom().contains(k) && !r1[k].dead
            &&& r2.dom().contains(k) && r2[k].dead
            &&& forall|k2: Seq<char>| #[trigger] m.dom().contains(k2) && !blocked_spec(bl, m[k2].owner, m[k2].repo)
                ==> r1.dom().contains(k2) && r2.dom().contains(k2)
        }),
{
    let e1 = run_enrolled(m, None, xs, bl, d1);
    let r1 = run_spec(m, None, xs, bl, ks1, ss1, os1, d1).0;
    let e2 = run_enrolled(r1, None, xs, bl, d2);
    lemma_upsert_extras_keeps(m, xs, d1);
    lemma_fetch_fold(e1, ks1, ss1, os1, d1);
    lemma_fold_once(e1, ks1, ss1, os1, d1, k, i);
    assert(e1.dom().contains(k) && !e1[k].dead);
    assert(r1.dom().contains(k) && !r1[k].dead);
    lemma_upsert_extras_keeps(r1, xs, d2);
    assert(e2.dom().contains(k));
    lemma_fetch_fold(e2, ks2, ss2, os2, d2);
    lemma_fold_once(e2, ks2, ss2, os2, d2, k, j);
    law_whole_run(m, None, xs, bl, ks1, ss1, os1, d1);
    law_whole_run(r1, None, xs, bl, ks2, ss2, os2, d2);
    assert forall|k2: Seq<char>| #[trigger] m.dom().contains(k2) && !blocked_spec(bl, m[k2].owner, m[k2].repo)
        implies r1.dom().contains(k2) && run_spec(r1, None, xs, bl, ks2, ss2, os2, d2).0.dom().contains(k2) by {
        assert(e1.dom().contains(k2));
        assert(r1[k2].owner == m[k2].owner && r1[k2].repo == m[k2].repo);
        assert(r1.dom().contains(k2));
    }
}

// ---------------------------------------------------------------------------
// A run, step by step
// ---------------------------------------------------------------------------

proof fn lemma_upsert_all_keyed(m: Map<Seq<char>, ListInfoV>, idx: Seq<IndexListV>, date: Date)
    requires
        keyed(m),
    ensures
        keyed(upsert_all(m, idx, date)),
    decreases idx.len(),
{
    if idx.len() > 0 {
        lemma_upsert_all_keyed(m, idx.drop_last(), date);
        let l = idx.last();
        lemma_upsert_map_keyed(upsert_all(m, idx.drop_last(), date), l.owner, l.repo, l.category, date);
    }
}

proof fn lemma_upsert_extras_keyed(m: Map<Seq<char>, ListInfoV>, xs: Seq<ExtraV>, date: Date)
    requires
        keyed(m),
    ensures
        keyed(upsert_extras(m, xs, date)),
    decreases xs.len(),
{
    if xs.len() > 0 {
        lemma_upsert_extras_keyed(m, xs.drop_last(), date);
        let x = xs.last();
        lemma_upsert_map_keyed(
            upsert_extras(m, xs.drop_last(), date),
            x.owner,
            x.repo,
            match x.category {
                Some(c) => c,
                None => "Uncategorized"@,
            },
            date,
        );
    }
}

/// Enrollment keeps every record under its own key.
proof fn lemma_run_enrolled_keyed(
    m: Map<Seq<char>, ListInfoV>,
    index: Option<Seq<IndexListV>>,
    xs: Seq<ExtraV>,
    bl: Seq<Seq<char>>,
    date: Date,
)
    requires
        keyed(m),
    ensures
        keyed(run_enrolled(m, index, xs, bl, date)),
{
    let m0 = match index {
        Some(ix) => retire_map(upsert_all(m, ix, date), index_keys(ix), extra_keys(xs)),
        None => m,
    };
    match index {
        Some(ix) => {
            lemma_upsert_all_keyed(m, ix, date);
            let u = upsert_all(m, ix, date);
            assert forall|k: Seq<char>| #[trigger] m0.dom().contains(k) implies k == list_key(m0[k].owner, m0[k].repo) by {
                assert(u.dom().contains(k));
            }
        },
        None => {},
    }
    lemma_upsert_extras_keyed(m0, xs, date);
    let u2 = upsert_extras(m0, xs, date);
    let e = run_enrolled(m, index, xs, bl, date);
    assert forall|k: Seq<char>| #[trigger] e.dom().contains(k) implies k == list_key(e[k].owner, e[k].repo) by {
        assert(u2.dom().contains(k));
    }
}

/// How one fetch outcome moves a run's counters and notes.
pub open spec fn counts_step(s0: Summary, s1: Summary, sv: Option<SnapV>, o: OutcomeV, full: Seq<char>, date: Date) -> bool {
    &&& s1.added == s0.added + step_kind(sv, o, Kind::Added, full, date).len()
    &&& s1.removed == s0.removed + step_kind(sv, o, Kind::Removed, full, date).len()
    &&& skipped_view(s1.skipped@) == opt_push(skipped_view(s0.skipped@), step_skip(sv, o, full))
    &&& names_view(s1.died@) == opt_push(names_view(s0.died@), step_died(sv, o, full))
    &&& s1.fetched == s0.fetched + if o is New { 1int } else { 0 }
    &&& s1.unchanged == s0.unchanged + if o is Unchanged { 1int } else { 0 }
    &&& s1.missing == s0.missing + if o is Gone { 1int } else { 0 }
    &&& s1.seeded == s0.seeded + if seeds(sv, o) { 1int } else { 0 }
    &&& s1.lists == s0.lists
    &&& s1.edition == s0.edition
}

pub open spec fn index_opt_view(o: Option<Vec<IndexList>>) -> Option<Seq<IndexListV>> {
    match o {
        Some(v) => Some(index_lists_view(v@)),
        None => None,
    }
}

/// Why a run step was refused.
#[derive(Debug, Clone, Copy, PartialEq, Eq, Structural)]
pub enum RunError {
    /// The key names no enrolled list.
    Unknown,
    /// A counter (the run's, a list's misses, or the edition) is at its limit.
    Overflow,
}

/// What a finished run leaves: the records to store, the run's events in
/// order, the metadata and the summary.
pub struct RunEnd {
    pub lists: Vec<ListInfo>,
    pub events: Vec<Event>,
    pub meta: Meta,
    pub summary: Summary,
}

/// A daily run in progress. Fetching a README is I/O and happens outside;
/// each outcome is handed to `apply`. Besides the records, the counters and
/// the events, a run keeps as ghost state what went into it, and its
/// records and events are at every step those `run_spec` gives of that.
pub struct Run {
    roster: Roster,
    meta: Meta,
    summary: Summary,
    events: Vec<Event>,
    date: Date,
    start: Ghost<Map<Seq<char>, ListInfoV>>,
    index: Ghost<Option<Seq<IndexListV>>>,
    extras: Ghost<Seq<ExtraV>>,
    blocks: Ghost<Seq<Seq<char>>>,
    keys: Ghost<Seq<Seq<char>>>,
    snaps: Ghost<Seq<Option<SnapV>>>,
    outcomes: Ghost<Seq<OutcomeV>>,
}

impl Run {
    /// The records the run started from (the stored lists).
    pub closed spec fn start_records(&self) -> Map<Seq<char>, ListInfoV> {
        self.start@
    }

    /// The index lists, when the index was read this run.
    pub closed spec fn index_read(&self) -> Option<Seq<IndexListV>> {
        self.index@
    }

    pub closed spec fn extras(&self) -> Seq<ExtraV> {
        self.extras@
    }

    pub closed spec fn blocklist(&self) -> Seq<Seq<char>> {
        self.blocks@
    }

    /// The keys fetched so far, with their snapshots and outcomes.
    pub closed spec fn fetched_keys(&self) -> Seq<Seq<char>> {
        self.keys@
    }

    pub closed spec fn fetched_snaps(&self) -> Seq<Option<SnapV>> {
        self.snaps@
    }

    pub closed spec fn fetched_outcomes(&self) -> Seq<OutcomeV> {
        self.outcomes@
    }

    pub closed spec fn day(&self) -> Date {
        self.date
    }

    pub closed spec fn meta_now(&self) -> Meta {
        self.meta
    }

    pub closed spec fn counts(&self) -> Summary {
        self.summary
    }

    /// The records now, in key order.
    pub closed spec fn roster_seq(&self) -> Seq<(Seq<char>, ListInfoV)> {
        self.roster@
    }

    pub open spec fn records(&self) -> Map<Seq<char>, ListInfoV> {
        rmap(self.roster_seq())
    }

    /// The records the run fetches from.
    pub open spec fn entered(&self) -> Map<Seq<char>, ListInfoV> {
        run_enrolled(self.start_records(), self.index_read(), self.extras(), self.blocklist(), self.day())
    }

    /// The run so far, on the records.
    pub open spec fn model(&self) -> (Map<Seq<char>, ListInfoV>, Seq<EventV>, int, int) {
        run_spec(
            self.start_records(),
            self.index_read(),
            self.extras(),
            self.blocklist(),
            self.fetched_keys(),
            self.fetched_snaps(),
            self.fetched_outcomes(),
            self.day(),
        )
    }

    pub closed spec fn wf(&self) -> bool {
        &&& self.roster.wf()
        &&& keyed(self.start@)
        &&& keyed(rmap(self.roster@))
        &&& rmap(self.roster@) == self.model().0
        &&& events_view(self.events@) == self.model().1
        &&& self.summary.added == self.model().2
        &&& self.summary.removed == self.model().3
        &&& self.keys@.len() == self.snaps@.len()
        &&& self.snaps@.len() == self.outcomes@.len()
        &&& forall|i: int| 0 <= i < self.keys@.len() ==> self.entered().dom().contains(#[trigger] self.keys@[i])
    }

    /// Opens a run on the stored lists: the index enrollment when the
    /// index was read (`index`), then the pinned extras and the blocklist.
    pub fn start(lists: Vec<ListInfo>, meta: Meta, registry: &Registry, index: Option<Vec<IndexList>>, date: Date) -> (r:
        Run)
        ensures
            r.wf(),
            r.start_records() == lists_map(lists_view(lists@)),
            r.index_read() == index_opt_view(index),
            r.extras() == extras_view(registry.extra@),
            r.blocklist() == registry.blocklist@.map_values(|s: String| s@),
            r.fetched_keys().len() == 0,
            r.day() == date,
            r.records() == r.entered(),
            r.meta_now().edition == meta.edition,
            r.meta_now().first_run == meta.first_run,
            r.meta_now().index_scanned == if index is Some {
                Some(date)
            } else {
                meta.index_scanned
            },
            r.counts().lists == r.roster_seq().len(),
            r.counts().fetched == 0 && r.counts().unchanged == 0 && r.counts().seeded == 0,
            r.counts().missing == 0 && r.counts().died@.len() == 0 && r.counts().skipped@.len() == 0,
            r.counts().edition == 0,
    {
        let ghost lv = lists_view(lists@);
        let mut roster = Roster::from_lists(lists);
        proof {
            assert(rmap(roster@) =~= lists_map(lv));
            lemma_lists_map_keyed(lv);
        }
        let ghost iv = index_opt_view(index);
        let mut meta = meta;
        match &index {
            Some(ix) => enroll_index(&mut roster, ix, registry, date, &mut meta),
            None => {},
        }
        enroll_extras(&mut roster, registry, date);
        let ghost xv = extras_view(registry.extra@);
        let ghost bl = registry.blocklist@.map_values(|s: String| s@);
        proof {
            lemma_run_enrolled_keyed(lists_map(lv), iv, xv, bl, date);
            assert(rmap(roster@) == run_enrolled(lists_map(lv), iv, xv, bl, date));
        }
        let summary = Summary::new(roster.len());
        let r = Run {
            roster,
            meta,
            summary,
            events: Vec::new(),
            date,
            start: Ghost(lists_map(lv)),
            index: Ghost(iv),
            extras: Ghost(xv),
            blocks: Ghost(bl),
            keys: Ghost(Seq::empty()),
            snaps: Ghost(Seq::empty()),
            outcomes: Ghost(Seq::empty()),
        };
        proof {
            let e = run_enrolled(lists_map(lv), iv, xv, bl, date);
            assert(r.model() == fetch_fold(e, Seq::empty(), Seq::empty(), Seq::empty(), date));
            assert(r.model() == (e, Seq::<EventV>::empty(), 0int, 0int));
            assert(events_view(r.events@) =~= Seq::<EventV>::empty());
        }
        r
    }

    /// Applies one list's fetch outcome (as `apply_fetch` does) and puts the
    /// record back under its key. Returns the snapshot to save (None: leave
    /// it). Refused, with nothing changed, for a key that names no enrolled
    /// list or when a counter is at its limit.
    pub fn apply(&mut self, key: &str, snap: Option<Snapshot>, outcome: Result<Doc, String>) -> (r: Result<
        Option<Snapshot>,
        RunError,
    >)
        requires
            old(self).wf(),
        ensures
            final(self).wf(),
            final(self).start_records() == old(self).start_records(),
            final(self).index_read() == old(self).index_read(),
            final(self).extras() == old(self).extras(),
            final(self).blocklist() == old(self).blocklist(),
            final(self).day() == old(self).day(),
            final(self).meta_now() == old(self).meta_now(),
            r is Err <==> !old(self).records().dom().contains(key@) || !summary_room(old(self).counts()) || (
            snap matches Some(sn) && sn.misses == u32::MAX),
            r matches Err(e) ==> {
                &&& (e == RunError::Unknown <==> !old(self).records().dom().contains(key@))
                &&& final(self).fetched_keys() == old(self).fetched_keys()
                &&& final(self).fetched_snaps() == old(self).fetched_snaps()
                &&& final(self).fetched_outcomes() == old(self).fetched_outcomes()
                &&& final(self).records() == old(self).records()
                &&& final(self).counts() == old(self).counts()
            },
            r matches Ok(save) ==> {
                let sv = snap_opt_view(snap);
                let o = outcome_view(outcome);
                let info = old(self).records()[key@];
                &&& final(self).fetched_keys() == old(self).fetched_keys().push(key@)
                &&& final(self).fetched_snaps() == old(self).fetched_snaps().push(sv)
                &&& final(self).fetched_outcomes() == old(self).fetched_outcomes().push(o)
                &&& final(self).records() == fetched(old(self).records(), key@, sv, o)
                &&& snap_opt_view(save) == step_save(sv, o)
                &&& counts_step(
                    old(self).counts(),
                    final(self).counts(),
                    sv,
                    o,
                    full_name(info.owner, info.repo),
                    old(self).day(),
                )
            },
    {
        let mut info = match self.roster.get(key) {
            Some(l) => l.copy(),
            None => return Err(RunError::Unknown),
        };
        let over = match &snap {
            Some(sn) => sn.misses == u32::MAX,
            None => false,
        };
        if !(self.summary.fetched < usize::MAX && self.summary.unchanged < usize::MAX && self.summary.seeded
            < usize::MAX && self.summary.missing < usize::MAX) || over {
            return Err(RunError::Overflow);
        }
        let ghost m1 = rmap(self.roster@);
        let ghost ks = self.keys@;
        let ghost ss = self.snaps@;
        let ghost os = self.outcomes@;
        let ghost e0 = self.entered();
        let ghost sv = snap_opt_view(snap);
        let ghost o = outcome_view(outcome);
        proof {
            lemma_fetch_fold(e0, ks, ss, os, self.date);
            assert(events_view(self.events@).len() == self.events@.len());
        }
        let save = apply_fetch(&mut info, snap, outcome, self.date, &mut self.summary, &mut self.events);
        let k = String::from_str(key);
        self.roster.put(k, info);
        self.keys = Ghost(ks.push(key@));
        self.snaps = Ghost(ss.push(sv));
        self.outcomes = Ghost(os.push(o));
        proof {
            let m2 = fetched(m1, key@, sv, o);
            assert(rmap(self.roster@) =~= m2);
            assert forall|k2: Seq<char>| #[trigger] m2.dom().contains(k2) implies k2 == list_key(
                m2[k2].owner,
                m2[k2].repo,
            ) by {
                assert(m1.dom().contains(k2));
            }
            assert(self.keys@.drop_last() =~= ks);
            assert(self.snaps@.drop_last() =~= ss);
            assert(self.outcomes@.drop_last() =~= os);
            assert forall|i: int| 0 <= i < self.keys@.len() implies self.entered().dom().contains(
                #[trigger] self.keys@[i],
            ) by {
                if i < ks.len() {
                    assert(self.keys@[i] == ks[i]);
                }
            }
        }
        Ok(save)
    }

    /// Closes the run: orders its events by list then name, bumps the
    /// edition, and hands out the records, the events, the metadata and the
    /// summary. Refused when the edition counter is at its limit.
    pub fn finish(self) -> (r: Result<RunEnd, RunError>)
        requires
            self.wf(),
        ensures
            r is Err <==> self.meta_now().edition == Some(u64::MAX),
            r matches Err(e) ==> e == RunError::Overflow,
            r matches Ok(end) ==> {
                let (f, evs, a, rm) = self.model();
                let m = self.start_records();
                let bl = self.blocklist();
                &&& lists_map(lists_view(end.lists@)) == f
                &&& events_view(end.events@) == run_order(evs)
                &&& end.events@.len() == end.summary.added + end.summary.removed
                &&& end.summary.added == a && end.summary.removed == rm
                &&& end.summary.edition == edition_after(self.meta_now().edition)
                &&& end.meta.edition == Some(end.summary.edition)
                &&& end.meta.first_run == match self.meta_now().first_run {
                    Some(d) => Some(d),
                    None => Some(self.day()),
                }
                &&& end.meta.index_scanned == self.meta_now().index_scanned
                &&& end.summary == (Summary { edition: end.summary.edition, ..self.counts() })
                &&& forall|k: Seq<char>| #[trigger] f.dom().contains(k) ==> !blocked_spec(bl, f[k].owner, f[k].repo)
                &&& forall|k: Seq<char>|
                    #[trigger] m.dom().contains(k) && !blocked_spec(bl, m[k].owner, m[k].repo) ==> f.dom().contains(k)
            },
    {
        match self.meta.edition {
            Some(e) => if e == u64::MAX {
                return Err(RunError::Overflow);
            },
            None => {},
        }
        let ghost model = self.model();
        proof {
            lemma_roster_round_trip(&self.roster);
            law_whole_run(
                self.start@,
                self.index@,
                self.extras@,
                self.blocks@,
                self.keys@,
                self.snaps@,
                self.outcomes@,
                self.date,
            );
            lemma_fetch_fold(self.entered(), self.keys@, self.snaps@, self.outcomes@, self.date);
            law_run_events_ordered(model.1);
        }
        let Run { roster, meta, summary, events, date, .. } = self;
        let mut meta = meta;
        let mut summary = summary;
        let (ordered, edition) = finish_run(events, &mut meta, date);
        summary.edition = edition;
        let lists = roster.into_lists();
        proof {
            assert(events_view(ordered@).len() == ordered@.len());
        }
        Ok(RunEnd { lists, events: ordered, meta, summary })
    }

    /// Keys of the lists to fetch: the live ones, at most `limit`.
    pub fn live_keys(&self, limit: Option<usize>) -> (r: Vec<String>)
        ensures
            r@.map_values(|k: String| k@) == up_to(live_of(self.roster_seq()), limit),
    {
        self.roster.live_keys(limit)
    }

    /// The record under a key.
    pub fn list(&self, key: &str) -> (r: Option<&ListInfo>)
        requires
            self.wf(),
        ensures
            match r {
                Some(l) => self.records().dom().contains(key@) && l@ == self.records()[key@],
                None => !self.records().dom().contains(key@),
            },
    {
        self.roster.get(key)
    }
}

} // verus!
