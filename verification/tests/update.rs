use std::collections::HashMap;

use awesome_ledger::date::Date;
use awesome_ledger::fetch::{Doc, Source};
use awesome_ledger::model::{Event, Kind, ListInfo, Meta, State};
use awesome_ledger::parse::index_lists;
use awesome_ledger::registry::{ExtraList, Registry};
use awesome_ledger::store::{snapshot_file_name, Snapshot, StoredEntry};
use awesome_ledger::update::{
    apply_fetch, diff, finish_run, readme_entries, scan_due, Run, RunError, Summary,
};

/// Offline source: bodies by "owner/repo"; None = Gone.
struct Fake(HashMap<String, Option<String>>);

impl Fake {
    fn set(&mut self, full: &str, body: &str) {
        self.0.insert(full.into(), Some(body.into()));
    }
}

impl Source for Fake {
    fn readme(
        &mut self,
        owner: &str,
        repo: &str,
        _hint: Option<&str>,
        _etag: Option<&str>,
    ) -> Result<Doc, String> {
        match self.0.get(&format!("{owner}/{repo}")) {
            Some(Some(body)) => Ok(Doc::New { body: body.clone(), etag: None, path: "README.md".into() }),
            _ => Ok(Doc::Gone),
        }
    }
}

/// The state directory, held in memory.
#[derive(Default)]
struct Disk {
    lists: Vec<ListInfo>,
    events: Vec<Event>,
    meta: Option<Meta>,
    snaps: HashMap<String, Snapshot>,
}

fn copy_entry(e: &StoredEntry) -> StoredEntry {
    StoredEntry {
        key: e.key.clone(),
        name: e.name.clone(),
        url: e.url.clone(),
        description: e.description.clone(),
        section: e.section.clone(),
    }
}

fn copy_snap(s: &Snapshot) -> Snapshot {
    Snapshot {
        etag: s.etag.clone(),
        readme_path: s.readme_path.clone(),
        misses: s.misses,
        entries: s.entries.iter().map(copy_entry).collect(),
    }
}

/// One update run, in the order the job runs it.
fn run(src: &mut Fake, disk: &mut Disk, registry: &Registry, use_index: bool, force: bool, date: Date) -> Summary {
    let meta = disk.meta.take().unwrap_or(Meta::empty());
    let lists = std::mem::take(&mut disk.lists);
    let mut index = None;
    if use_index && scan_due(force, lists.is_empty(), meta.index_scanned, date) {
        if let Ok(Doc::New { body, .. }) = src.readme("sindresorhus", "awesome", Some("readme.md"), None) {
            index = Some(index_lists(&body));
        }
    }
    let mut run = Run::start(lists, meta, registry, index, date);
    for key in run.live_keys(None) {
        let (owner, repo) = {
            let info = run.list(&key).unwrap();
            (info.owner.clone(), info.repo.clone())
        };
        let file = snapshot_file_name(&owner, &repo);
        let snap = disk.snaps.get(&file).map(copy_snap);
        let hint = snap.as_ref().and_then(|s| s.readme_path.clone());
        let etag = snap.as_ref().and_then(|s| s.etag.clone());
        let outcome = src.readme(&owner, &repo, hint.as_deref(), etag.as_deref());
        if let Some(save) = run.apply(&key, snap, outcome).unwrap() {
            disk.snaps.insert(file, save);
        }
    }
    let end = run.finish().unwrap();
    disk.events.extend(end.events);
    disk.meta = Some(end.meta);
    disk.lists = end.lists;
    end.summary
}

fn body(entries: &[(&str, &str)]) -> String {
    let mut md = String::from("# List\n\n## Stuff\n\n");
    for (name, url) in entries {
        md.push_str(&format!("- [{name}]({url}) - blurb.\n"));
    }
    md
}

fn day(d: u32) -> Date {
    Date::from_ymd(2026, 8, d).unwrap()
}

fn registry_of(lists: &[&str]) -> Registry {
    let mut reg = Registry::empty();
    for full in lists {
        let (o, r) = full.split_once('/').unwrap();
        reg.extra.push(ExtraList { owner: o.into(), repo: r.into(), category: None });
    }
    reg
}

#[test]
fn seed_then_diff_then_die() {
    let mut disk = Disk::default();
    let reg = registry_of(&["a/one", "b/two", "c/three"]);
    let mut src = Fake(HashMap::new());
    src.set("a/one", &body(&[("Alpha", "https://github.com/x/alpha")]));
    src.set(
        "b/two",
        &body(&[("Beta", "https://github.com/x/beta"), ("Gamma", "https://github.com/x/gamma")]),
    );
    src.set("c/three", &body(&[("Delta", "https://github.com/x/delta")]));

    // Day 1: everything seeds silently.
    let s1 = run(&mut src, &mut disk, &reg, false, false, day(1));
    assert_eq!((s1.seeded, s1.added, s1.removed, s1.edition), (3, 0, 0, 1));
    assert!(disk.events.is_empty());

    // Day 2: b/two gains Epsilon and loses Gamma; the reorder and the
    // cosmetic slash make no events.
    src.set(
        "b/two",
        &body(&[("Epsilon", "https://github.com/x/epsilon"), ("Beta", "https://github.com/x/beta/")]),
    );
    let s2 = run(&mut src, &mut disk, &reg, false, false, day(2));
    assert_eq!((s2.added, s2.removed, s2.seeded), (1, 1, 0));
    assert_eq!(disk.events.len(), 2);
    assert!(disk.events.iter().any(|e| e.kind == Kind::Added && e.name == "Epsilon"));
    assert!(disk.events.iter().any(|e| e.kind == Kind::Removed && e.name == "Gamma"));
    // The renderer's view of the same state.
    let loaded = State::assemble(
        disk.lists.iter().map(|l| l.copy()).collect(),
        disk.events.iter().map(|e| Event {
            date: e.date,
            kind: e.kind,
            list: e.list.clone(),
            name: e.name.clone(),
            url: e.url.clone(),
            description: e.description.clone(),
            section: e.section.clone(),
        }).collect(),
        disk.meta.unwrap(),
    );
    assert_eq!(loaded.events.len(), 2);
    assert_eq!(loaded.meta.edition, Some(2));

    // Hand-edit the state (drop Alpha from a/one's snapshot): the next run
    // re-reports it as added.
    disk.snaps.get_mut("a--one.json").unwrap().entries.clear();
    let s3 = run(&mut src, &mut disk, &reg, false, false, day(3));
    assert_eq!((s3.added, s3.removed), (1, 0));

    // Death: c/three vanishes; the first run is a miss, the second marks it dead.
    src.0.insert("c/three".into(), None);
    let s4 = run(&mut src, &mut disk, &reg, false, false, day(4));
    assert!(s4.died.is_empty());
    let s5 = run(&mut src, &mut disk, &reg, false, false, day(5));
    assert_eq!(s5.died, ["c/three"]);
    assert!(disk.lists.iter().find(|l| l.repo == "three").unwrap().dead);
    assert_eq!(disk.lists.len(), 3, "dead lists are kept, not dropped");
}

#[test]
fn empty_parse_of_populated_list_skips_not_wipes() {
    let mut disk = Disk::default();
    let reg = registry_of(&["a/one"]);
    let mut src = Fake(HashMap::new());
    src.set("a/one", &body(&[("Alpha", "https://github.com/x/alpha")]));
    run(&mut src, &mut disk, &reg, false, false, day(1));
    src.set("a/one", "nothing that parses to a list\n");
    let s = run(&mut src, &mut disk, &reg, false, false, day(2));
    assert_eq!(s.removed, 0);
    assert_eq!(s.skipped.len(), 1);
    let snap = disk.snaps.get("a--one.json").unwrap();
    assert_eq!(snap.entries.len(), 1, "old entry set survives the bad parse");
}

#[test]
fn index_enrollment_retires_dropped_lists_but_not_pinned() {
    let mut disk = Disk::default();
    let reg = registry_of(&["b/two"]);
    let index_v1 = "# Awesome\n\n## Cat\n\n- [One](https://github.com/a/one#readme) - x.\n- [Two](https://github.com/b/two#readme) - y.\n";
    let index_v2 = "# Awesome\n\n## Cat\n\n- [Two](https://github.com/b/two#readme) - y.\n";
    let mut src = Fake(HashMap::new());
    src.set("sindresorhus/awesome", index_v1);
    src.set("a/one", &body(&[("Alpha", "https://github.com/x/alpha")]));
    src.set("b/two", &body(&[("Beta", "https://github.com/x/beta")]));
    let s1 = run(&mut src, &mut disk, &reg, true, false, day(1));
    assert_eq!(s1.lists, 2);
    src.set("sindresorhus/awesome", index_v2);
    run(&mut src, &mut disk, &reg, true, true, day(2));
    assert!(disk.lists.iter().find(|l| l.repo == "one").unwrap().dead);
    assert!(!disk.lists.iter().find(|l| l.repo == "two").unwrap().dead);
}

#[test]
fn summary_report_lines() {
    let mut s = Summary::new(3);
    s.fetched = 2;
    s.unchanged = 1;
    s.added = 4;
    s.removed = 1;
    s.edition = 12;
    assert_eq!(
        s.text(),
        "edition 12 — 3 lists: 2 fetched, 1 unchanged, 0 seeded; +4 / -1 events"
    );
    s.missing = 1;
    s.died.push("c/three".into());
    s.died.push("d/four".into());
    s.skipped.push(("a/one".into(), "parsed 0 entries (had 1)".into()));
    assert_eq!(
        s.text(),
        "edition 12 — 3 lists: 2 fetched, 1 unchanged, 0 seeded; +4 / -1 events; 1 missing (404); dead: c/three, d/four\nskipped a/one: parsed 0 entries (had 1)"
    );
}

#[test]
fn diff_by_key_reports_additions_then_removals() {
    let old = readme_entries(&body(&[("A", "https://github.com/x/a"), ("B", "https://github.com/x/b")]));
    let new = readme_entries(&body(&[("B2", "https://github.com/x/b.git"), ("C", "https://github.com/x/c")]));
    assert_eq!(old.len(), 2);
    assert_eq!(new[0].key, "https://github.com/x/b");
    let (add, rem) = diff(&old, &new, "o/l", day(9));
    assert_eq!(add.iter().map(|e| e.name.as_str()).collect::<Vec<_>>(), ["C"]);
    assert_eq!(rem.iter().map(|e| e.name.as_str()).collect::<Vec<_>>(), ["A"]);
    assert_eq!(add[0].list, "o/l");
    assert_eq!(add[0].date, day(9));
    let (a2, r2) = diff(&old, &old, "o/l", day(9));
    assert!(a2.is_empty() && r2.is_empty());
}

#[test]
fn first_entry_of_a_key_wins() {
    let es = readme_entries(&body(&[
        ("First", "https://github.com/x/a"),
        ("Second", "https://github.com/x/a/"),
        ("Anchor", "#top"),
    ]));
    assert_eq!(es.len(), 1);
    assert_eq!(es[0].name, "First");
}

#[test]
fn index_rescan_is_weekly() {
    let d = day(10);
    assert!(scan_due(true, false, Some(d), d));
    assert!(scan_due(false, true, Some(d), d));
    assert!(scan_due(false, false, None, d));
    assert!(!scan_due(false, false, Some(day(4)), d));
    assert!(scan_due(false, false, Some(day(3)), d));
}

#[test]
fn run_end_orders_events_and_bumps_edition() {
    let mk = |list: &str, name: &str| Event {
        date: day(1),
        kind: Kind::Added,
        list: list.into(),
        name: name.into(),
        url: String::new(),
        description: String::new(),
        section: Vec::new(),
    };
    let mut meta = Meta::empty();
    let (evs, ed) = finish_run(vec![mk("b/x", "a"), mk("a/y", "z"), mk("a/y", "b")], &mut meta, day(1));
    let order: Vec<(&str, &str)> = evs.iter().map(|e| (e.list.as_str(), e.name.as_str())).collect();
    assert_eq!(order, [("a/y", "b"), ("a/y", "z"), ("b/x", "a")]);
    assert_eq!(ed, 1);
    assert_eq!(meta.first_run, Some(day(1)));
    let (_, ed2) = finish_run(Vec::new(), &mut meta, day(2));
    assert_eq!(ed2, 2);
    assert_eq!(meta.first_run, Some(day(1)));
}

#[test]
fn blocked_lists_leave_and_dead_lists_are_not_fetched() {
    let mut disk = Disk::default();
    let mut reg = registry_of(&["a/one", "b/two"]);
    let mut src = Fake(HashMap::new());
    src.set("a/one", &body(&[("Alpha", "https://github.com/x/alpha")]));
    src.set("b/two", &body(&[("Beta", "https://github.com/x/beta")]));
    let s1 = run(&mut src, &mut disk, &reg, false, false, day(1));
    assert_eq!((s1.lists, s1.fetched), (2, 2));
    // b/two dies after two misses, then is no longer fetched.
    src.0.insert("b/two".into(), None);
    run(&mut src, &mut disk, &reg, false, false, day(2));
    run(&mut src, &mut disk, &reg, false, false, day(3));
    let reg_no_b = registry_of(&["a/one"]);
    let s4 = run(&mut src, &mut disk, &reg_no_b, false, false, day(4));
    assert_eq!((s4.lists, s4.fetched, s4.missing), (2, 1, 0));
    // Blocking a/one drops it from the roster.
    reg.blocklist.push("A/ONE".into());
    let s5 = run(&mut src, &mut disk, &reg, false, false, day(5));
    assert_eq!(s5.lists, 1);
    assert!(disk.lists.iter().all(|l| l.repo != "one"));
}

#[test]
fn an_entry_new_to_a_second_list_is_an_event() {
    let mut disk = Disk::default();
    let reg = registry_of(&["a/one", "b/two"]);
    let mut src = Fake(HashMap::new());
    src.set("a/one", &body(&[("Alpha", "https://github.com/x/alpha")]));
    src.set("b/two", &body(&[("Beta", "https://github.com/x/beta")]));
    run(&mut src, &mut disk, &reg, false, false, day(1));
    src.set("b/two", &body(&[("Beta", "https://github.com/x/beta"), ("Alpha", "https://github.com/x/alpha")]));
    let s = run(&mut src, &mut disk, &reg, false, false, day(2));
    assert_eq!((s.added, s.removed), (1, 0));
    assert_eq!(disk.events[0].list, "b/two");
    assert_eq!(disk.events[0].name, "Alpha");
}

#[test]
fn fetch_outcomes_one_by_one() {
    let mut info = ListInfo {
        owner: "a".into(),
        repo: "one".into(),
        category: String::new(),
        enrolled: None,
        dead: false,
        entries: 1,
    };
    let mut summary = Summary::new(1);
    let mut events: Vec<Event> = Vec::new();
    let mut missed = Snapshot::empty();
    missed.misses = 1;
    // A 304 clears a pending miss.
    let saved = apply_fetch(&mut info, Some(missed), Ok(Doc::Unchanged), day(1), &mut summary, &mut events);
    assert_eq!(saved.map(|s| s.misses), Some(0));
    // A 304 with nothing to clear saves nothing.
    let saved = apply_fetch(&mut info, Some(Snapshot::empty()), Ok(Doc::Unchanged), day(1), &mut summary, &mut events);
    assert!(saved.is_none());
    // A fetch error is noted and changes nothing else.
    let saved = apply_fetch(&mut info, None, Err("timeout".into()), day(1), &mut summary, &mut events);
    assert!(saved.is_none());
    assert_eq!(summary.skipped, [("a/one".to_string(), "fetch: timeout".to_string())]);
    // A first 404 is a miss, not a death.
    let saved = apply_fetch(&mut info, None, Ok(Doc::Gone), day(1), &mut summary, &mut events);
    let s = saved.unwrap();
    assert_eq!((s.misses, s.etag.is_none()), (1, true));
    assert!(!info.dead);
    assert_eq!((summary.unchanged, summary.missing, summary.fetched), (2, 1, 0));
    assert!(events.is_empty());
}

#[test]
fn whole_run_counts_what_it_appends_and_keeps_unblocked_lists() {
    let mut disk = Disk::default();
    let mut reg = registry_of(&["a/one", "b/two", "c/three"]);
    let mut src = Fake(HashMap::new());
    src.set("a/one", &body(&[("Alpha", "https://github.com/x/alpha")]));
    src.set("b/two", &body(&[("Beta", "https://github.com/x/beta")]));
    src.set("c/three", &body(&[("Gamma", "https://github.com/x/gamma")]));
    run(&mut src, &mut disk, &reg, false, false, day(1));

    src.set(
        "a/one",
        &body(&[("Alpha2", "https://github.com/x/alpha2"), ("Omega", "https://github.com/x/omega")]),
    );
    src.set("b/two", &body(&[]));
    reg.blocklist.push("C/Three".into());
    let events_before = disk.events.len();
    let edition_before = disk.meta.as_ref().and_then(|m| m.edition).unwrap_or(0);
    let s = run(&mut src, &mut disk, &reg, false, false, day(2));
    // Two added and one removed on a/one; b/two's empty parse is skipped.
    assert_eq!((s.added, s.removed), (2, 1));
    assert_eq!(disk.events.len(), events_before + s.added + s.removed);
    assert_eq!(s.edition, edition_before + 1);
    assert_eq!(disk.meta.as_ref().unwrap().edition, Some(edition_before + 1));
    assert!(disk.lists.iter().all(|l| l.repo != "three"));
    assert!(disk.lists.iter().any(|l| l.repo == "one"));
    assert!(disk.lists.iter().any(|l| l.repo == "two"));
}

#[test]
fn run_refuses_unknown_keys_and_edition_overflow() {
    let reg = registry_of(&["a/one"]);
    let mut run = Run::start(Vec::new(), Meta::empty(), &reg, None, day(1));
    assert_eq!(run.live_keys(None), vec!["a/one".to_string()]);
    assert!(matches!(run.apply("z/zero", None, Ok(Doc::Gone)), Err(RunError::Unknown)));
    let end = run.finish().unwrap();
    assert_eq!(end.summary.missing, 0);
    assert_eq!(end.meta.edition, Some(1));
    assert_eq!(end.lists.len(), 1);

    let mut meta = Meta::empty();
    meta.edition = Some(u64::MAX);
    let run = Run::start(end.lists, meta, &reg, None, day(2));
    assert!(matches!(run.finish(), Err(RunError::Overflow)));
}
