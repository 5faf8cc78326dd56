//! Daily digest for the memory service: one chunk per non-quiet day, "N
//! added, M removed across K lists" plus the top additions. Queueing and
//! delivery are I/O and live outside the library.

use vstd::prelude::*;
use crate::date::{Date, iso_date, lemma_iso_date_injective, valid_date};
use crate::model::{Event, EventV, Kind, events_view};
use crate::sort::{KeyV, SortKey, keyed_view, lemma_sort_keyed_map, map_payload, sort_by_key, sort_keyed};
use crate::text::{
    after_last, after_last_char, chars_of, contains_seq, dec, extend, extend_str, push_dec, rfind,
    rfind_char, seq_eq, string_of, trim, trim_end_char, trim_end_char_vec, trim_vec, vecs_view,
};

verus! {

/// Additions named in a digest.
pub const TOP_ADDITIONS: usize = 10;

pub struct Chunk {
    pub text: String,
    /// Provenance ref, unique per day.
    pub reference: String,
    pub tags: Vec<String>,
}

/// The events of one day.
pub open spec fn on_day(es: Seq<EventV>, d: Date) -> Seq<EventV>
    decreases es.len(),
{
    if es.len() == 0 {
        seq![]
    } else if es.last().date == d {
        on_day(es.drop_last(), d).push(es.last())
    } else {
        on_day(es.drop_last(), d)
    }
}

/// The additions among events.
pub open spec fn additions(es: Seq<EventV>) -> Seq<EventV>
    decreases es.len(),
{
    if es.len() == 0 {
        seq![]
    } else if es.last().kind == Kind::Added {
        additions(es.drop_last()).push(es.last())
    } else {
        additions(es.drop_last())
    }
}

/// Each distinct source list, in first-seen order.
pub open spec fn distinct_lists(es: Seq<EventV>) -> Seq<Seq<char>>
    decreases es.len(),
{
    if es.len() == 0 {
        seq![]
    } else {
        let rest = distinct_lists(es.drop_last());
        if rest.contains(es.last().list) {
            rest
        } else {
            rest.push(es.last().list)
        }
    }
}

/// The first `n` elements (all of them when there are fewer).
pub open spec fn first_n<T>(s: Seq<T>, n: int) -> Seq<T> {
    if s.len() <= n {
        s
    } else {
        s.take(n)
    }
}

/// The blurb of an addition: trimmed, without trailing periods.
pub open spec fn blurb(e: EventV) -> Seq<char> {
    trim_end_char(trim(e.description), '.')
}

/// "\n- Name — blurb (owner/repo)", the blurb part dropped when empty.
pub open spec fn digest_line(e: EventV) -> Seq<char> {
    let b = blurb(e);
    if b.len() == 0 {
        "\n- "@ + e.name + " ("@ + e.list + ")"@
    } else {
        "\n- "@ + e.name + " \u{2014} "@ + b + " ("@ + e.list + ")"@
    }
}

pub open spec fn digest_lines(es: Seq<EventV>) -> Seq<char>
    decreases es.len(),
{
    if es.len() == 0 {
        seq![]
    } else {
        digest_lines(es.drop_last()) + digest_line(es.last())
    }
}

/// The digest text of a non-quiet day.
pub open spec fn digest_text(today: Seq<EventV>, d: Date, site_url: Seq<char>) -> Seq<char> {
    let added = additions(today);
    let removed = today.len() - added.len();
    let nl = distinct_lists(today).len();
    "awesome-ledger "@ + iso_date(d) + ": "@ + dec(added.len()) + " added, "@ + dec(
        removed as nat,
    ) + " removed across "@ + dec(nl) + " list"@ + (if nl == 1 {
        seq![]
    } else {
        "s"@
    }) + "."@ + digest_lines(first_n(added, TOP_ADDITIONS as int)) + (if added.len()
        > TOP_ADDITIONS {
        "\n\u{2026} plus "@ + dec((added.len() - TOP_ADDITIONS) as nat) + " more additions."@
    } else {
        seq![]
    }) + "\nFull ledger: "@ + site_url
}

pub open spec fn digest_tags() -> Seq<Seq<char>> {
    seq!["changed"@, "chg0"@, "awesome-ledger"@]
}

/// The day's digest from the day's events; None on a quiet day.
pub open spec fn compose_spec(es: Seq<EventV>, d: Date, site_url: Seq<char>) -> Option<(
    Seq<char>,
    Seq<char>,
    Seq<Seq<char>>,
)> {
    let today = on_day(es, d);
    if today.len() == 0 {
        None
    } else {
        Some(
            (
                digest_text(today, d, site_url),
                "awesome-ledger/digest/"@ + iso_date(d),
                digest_tags(),
            ),
        )
    }
}

pub open spec fn chunk_view(c: Chunk) -> (Seq<char>, Seq<char>, Seq<Seq<char>>) {
    (c.text@, c.reference@, c.tags@.map_values(|s: String| s@))
}

fn push_line(out: &mut Vec<char>, e: &Event)
    ensures
        final(out)@ == old(out)@ + digest_line(e@),
{
    let d = chars_of(e.description.as_str());
    let t = trim_vec(&d);
    let b = trim_end_char_vec(&t, '.');
    extend_str(out, "\n- ");
    extend_str(out, e.name.as_str());
    if b.len() > 0 {
        extend_str(out, " \u{2014} ");
        extend(out, &b);
    }
    extend_str(out, " (");
    extend_str(out, e.list.as_str());
    extend_str(out, ")");
    assert(out@ =~= old(out)@ + digest_line(e@));
}

/// The day's digest; None on a quiet day (no chunk when nothing happened).
pub fn compose(events: &[Event], date: Date, site_url: &str) -> (r: Option<Chunk>)
    requires
        valid_date(date),
    ensures
        match r {
            Some(c) => compose_spec(events_view(events@), date, site_url@) == Some(chunk_view(c)),
            None => compose_spec(events_view(events@), date, site_url@) is None,
        },
{
    let ghost ev = events_view(events@);
    // Pass over the day's events: counts, distinct lists, top additions.
    let mut n_today: usize = 0;
    let mut n_added: usize = 0;
    let mut lists: Vec<Vec<char>> = Vec::new();
    let mut lines: Vec<char> = Vec::new();
    let mut i: usize = 0;
    while i < events.len()
        invariant
            i <= events.len(),
            ev == events_view(events@),
            n_today as int == on_day(ev.take(i as int), date).len(),
            n_added as int == additions(on_day(ev.take(i as int), date)).len(),
            vecs_view(lists@) == distinct_lists(on_day(ev.take(i as int), date)),
            lines@ == digest_lines(
                first_n(additions(on_day(ev.take(i as int), date)), TOP_ADDITIONS as int),
            ),
            n_today <= i,
            n_added <= n_today,
        decreases events.len() - i,
    {
        proof {
            assert(ev.take(i + 1).drop_last() =~= ev.take(i as int));
            assert(ev.take(i + 1).last() == events@[i as int]@);
        }
        let e = &events[i];
        let ghost od = on_day(ev.take(i as int), date);
        proof {
            assert(od.push(e@).drop_last() =~= od);
            assert(od.push(e@).last() == e@);
        }
        if e.date.same(&date) {
            assert(on_day(ev.take(i + 1), date) == od.push(e@));
            let ghost added_before = additions(on_day(ev.take(i as int), date));
            n_today += 1;
            if e.kind == Kind::Added {
                if n_added < TOP_ADDITIONS {
                    push_line(&mut lines, e);
                    let ghost fb = first_n(added_before, TOP_ADDITIONS as int);
                    assert(fb.push(e@).drop_last() =~= fb);
                    assert(first_n(added_before.push(e@), TOP_ADDITIONS as int) =~= first_n(
                        added_before,
                        TOP_ADDITIONS as int,
                    ).push(e@));
                } else {
                    assert(first_n(added_before.push(e@), TOP_ADDITIONS as int) =~= first_n(
                        added_before,
                        TOP_ADDITIONS as int,
                    ));
                }
                n_added += 1;
            }
            let lv = chars_of(e.list.as_str());
            if !contains_seq(&lists, &lv) {
                let ghost lb = vecs_view(lists@);
                lists.push(lv);
                assert(vecs_view(lists@) =~= lb.push(e.list@));
            }
        }
        i += 1;
    }
    assert(ev.take(events.len() as int) =~= ev);
    if n_today == 0 {
        return None;
    }
    let ghost today = on_day(ev, date);
    proof {
        lemma_additions_len(today);
    }
    let n_removed = n_today - n_added;
    let mut text: Vec<char> = Vec::new();
    extend_str(&mut text, "awesome-ledger ");
    let iso = date.iso();
    extend_str(&mut text, iso.as_str());
    extend_str(&mut text, ": ");
    push_dec(&mut text, n_added as u64);
    extend_str(&mut text, " added, ");
    push_dec(&mut text, n_removed as u64);
    extend_str(&mut text, " removed across ");
    push_dec(&mut text, lists.len() as u64);
    extend_str(&mut text, " list");
    if lists.len() != 1 {
        extend_str(&mut text, "s");
    }
    extend_str(&mut text, ".");
    extend(&mut text, &lines);
    if n_added > TOP_ADDITIONS {
        extend_str(&mut text, "\n\u{2026} plus ");
        push_dec(&mut text, (n_added - TOP_ADDITIONS) as u64);
        extend_str(&mut text, " more additions.");
    }
    extend_str(&mut text, "\nFull ledger: ");
    extend_str(&mut text, site_url);
    assert(text@ =~= digest_text(today, date, site_url@));
    let mut reference = chars_of("awesome-ledger/digest/");
    extend_str(&mut reference, iso.as_str());
    let mut tags: Vec<String> = Vec::new();
    tags.push(String::from_str("changed"));
    tags.push(String::from_str("chg0"));
    tags.push(String::from_str("awesome-ledger"));
    let c = Chunk { text: string_of(&text), reference: string_of(&reference), tags };
    assert(c.tags@.map_values(|s: String| s@) =~= digest_tags());
    Some(c)
}

proof fn lemma_on_day_empty(es: Seq<EventV>, d: Date)
    ensures
        on_day(es, d).len() == 0 <==> forall|i: int| 0 <= i < es.len() ==> #[trigger] es[i].date != d,
    decreases es.len(),
{
    if es.len() > 0 {
        let t = es.drop_last();
        lemma_on_day_empty(t, d);
        if forall|i: int| 0 <= i < es.len() ==> #[trigger] es[i].date != d {
            assert forall|i: int| 0 <= i < t.len() implies #[trigger] t[i].date != d by {
                assert(t[i] == es[i]);
            }
            assert(es[es.len() - 1] == es.last());
        } else {
            let i = choose|i: int| 0 <= i < es.len() && es[i].date == d;
            if i < t.len() {
                assert(t[i] == es[i]);
            }
        }
    }
}

/// No chunk on a quiet day: the digest is None exactly when no event is
/// dated that day.
pub proof fn law_quiet_day_has_no_chunk(es: Seq<EventV>, d: Date, site_url: Seq<char>)
    ensures
        compose_spec(es, d, site_url) is None <==> forall|i: int| 0 <= i < es.len() ==> #[trigger] es[i].date != d,
{
    lemma_on_day_empty(es, d);
}

/// Successive digests never overwrite each other: chunks of two different
/// days carry different references, and are queued under different file
/// names.
pub proof fn law_one_reference_per_day(es: Seq<EventV>, d1: Date, d2: Date, site_url: Seq<char>)
    requires
        valid_date(d1),
        valid_date(d2),
        d1 != d2,
        compose_spec(es, d1, site_url) is Some,
        compose_spec(es, d2, site_url) is Some,
    ensures
        compose_spec(es, d1, site_url).unwrap().1 != compose_spec(es, d2, site_url).unwrap().1,
        queue_file_spec(d1) != queue_file_spec(d2),
{
    let p = "awesome-ledger/digest/"@;
    if compose_spec(es, d1, site_url).unwrap().1 == compose_spec(es, d2, site_url).unwrap().1 {
        assert((p + iso_date(d1)).skip(p.len() as int) =~= iso_date(d1));
        assert((p + iso_date(d2)).skip(p.len() as int) =~= iso_date(d2));
        lemma_iso_date_injective(d1, d2);
    }
    let q = "digest-"@;
    let j = ".json"@;
    if queue_file_spec(d1) == queue_file_spec(d2) {
        let f1 = queue_file_spec(d1);
        assert(f1 == q + iso_date(d1) + j);
        assert(queue_file_spec(d2) == q + iso_date(d2) + j);
        assert(iso_date(d1).len() == iso_date(d2).len());
        assert((q + iso_date(d1) + j).subrange(q.len() as int, (q.len() + iso_date(d1).len()) as int) =~= iso_date(d1));
        assert((q + iso_date(d2) + j).subrange(q.len() as int, (q.len() + iso_date(d2).len()) as int) =~= iso_date(d2));
        lemma_iso_date_injective(d1, d2);
    }
}

proof fn lemma_additions_len(es: Seq<EventV>)
    ensures
        additions(es).len() <= es.len(),
    decreases es.len(),
{
    if es.len() > 0 {
        lemma_additions_len(es.drop_last());
    }
}

// ---------------------------------------------------------------------------
// The queue and its delivery
// ---------------------------------------------------------------------------

/// The queue file of a day's digest: a same-day rerun writes the same file.
pub open spec fn queue_file_spec(d: Date) -> Seq<char> {
    "digest-"@ + iso_date(d) + ".json"@
}

pub fn queue_file_name(date: Date) -> (r: String)
    requires
        valid_date(date),
    ensures
        r@ == queue_file_spec(date),
{
    let mut v = chars_of("digest-");
    let iso = date.iso();
    extend_str(&mut v, iso.as_str());
    extend_str(&mut v, ".json");
    string_of(&v)
}

/// Whether a file name has the extension "json" (as `Path::extension`
/// reads it: what follows the last dot, when that dot is not the first
/// character).
pub open spec fn is_json_name(n: Seq<char>) -> bool {
    rfind(n, '.') > 0 && after_last(n, '.') == "json"@
}

pub fn is_json(name: &str) -> (r: bool)
    ensures
        r == is_json_name(name@),
{
    let v = chars_of(name);
    match rfind_char(&v, '.') {
        Some(k) => {
            if k == 0 {
                return false;
            }
            let ext = after_last_char(&v, '.');
            let json = chars_of("json");
            seq_eq(&ext, &json)
        },
        None => false,
    }
}

pub open spec fn json_names(ns: Seq<Seq<char>>) -> Seq<Seq<char>>
    decreases ns.len(),
{
    if ns.len() == 0 {
        seq![]
    } else if is_json_name(ns.last()) {
        json_names(ns.drop_last()).push(ns.last())
    } else {
        json_names(ns.drop_last())
    }
}

pub open spec fn name_keyed(ns: Seq<Seq<char>>) -> Seq<(KeyV, Seq<char>)> {
    ns.map_values(|n: Seq<char>| (KeyV { num: 0, first: n, second: seq![] }, n))
}

/// The queued digests to deliver, oldest first: the ".json" files of the
/// queue in name order.
pub open spec fn pending_spec(ns: Seq<Seq<char>>) -> Seq<Seq<char>> {
    sort_keyed(name_keyed(json_names(ns))).map_values(|p: (KeyV, Seq<char>)| p.1)
}

pub fn pending(names: Vec<String>) -> (r: Vec<String>)
    ensures
        r@.map_values(|s: String| s@) == pending_spec(names@.map_values(|s: String| s@)),
{
    let ghost nv = names@.map_values(|s: String| s@);
    let mut items: Vec<(SortKey, String)> = Vec::new();
    let ghost mut n: int = 0;
    for name in it: names
        invariant
            nv == it.seq().map_values(|s: String| s@),
            n == it.index(),
            keyed_view(items@).map_values(|p: (KeyV, String)| (p.0, p.1@)) == name_keyed(json_names(nv.take(n))),
    {
        proof {
            assert(nv.take(n + 1).drop_last() =~= nv.take(n));
            assert(nv[n] == name@);
        }
        if is_json(name.as_str()) {
            let k = SortKey { num: 0, first: chars_of(name.as_str()), second: Vec::new() };
            let ghost before = keyed_view(items@).map_values(|p: (KeyV, String)| (p.0, p.1@));
            let ghost nm = name@;
            items.push((k, name));
            assert(keyed_view(items@).map_values(|p: (KeyV, String)| (p.0, p.1@)) =~= before.push(
                (KeyV { num: 0, first: nm, second: seq![] }, nm),
            ));
            assert(json_names(nv.take(n + 1)) == json_names(nv.take(n)).push(nm));
            assert(name_keyed(json_names(nv.take(n + 1))) =~= name_keyed(json_names(nv.take(n))).push(
                (KeyV { num: 0, first: nm, second: seq![] }, nm),
            ));
        }
        proof {
            n = n + 1;
        }
    }
    assert(nv.take(n) =~= nv);
    let sorted = sort_by_key(items);
    proof {
        let f = |s: String| s@;
        lemma_sort_keyed_map(keyed_view(items@), f);
        assert(map_payload(keyed_view(items@), f) =~= keyed_view(items@).map_values(
            |p: (KeyV, String)| (p.0, p.1@),
        ));
    }
    let ghost sv = keyed_view(sorted@);
    let mut out: Vec<String> = Vec::new();
    let ghost mut m: int = 0;
    for p in it: sorted
        invariant
            sv == keyed_view(it.seq()),
            m == it.index(),
            out@.map_values(|s: String| s@) == sv.take(m).map_values(|p: (KeyV, String)| p.1@),
    {
        let ghost before = out@.map_values(|s: String| s@);
        out.push(p.1);
        assert(out@.map_values(|s: String| s@) =~= before.push(p.1@));
        assert(sv.take(m + 1).map_values(|p: (KeyV, String)| p.1@) =~= sv.take(m).map_values(
            |p: (KeyV, String)| p.1@,
        ).push(p.1@));
        proof {
            m = m + 1;
        }
    }
    assert(sv.take(m) =~= sv);
    assert(out@.map_values(|s: String| s@) =~= pending_spec(nv));
    out
}

/// Where chunks are posted: `{base}/idx/mem0/chunks`, trailing slashes of
/// the base dropped.
pub open spec fn chunks_url_spec(base: Seq<char>) -> Seq<char> {
    trim_end_char(base, '/') + "/idx/mem0/chunks"@
}

pub fn chunks_url(base: &str) -> (r: String)
    ensures
        r@ == chunks_url_spec(base@),
{
    let v = chars_of(base);
    let mut t = trim_end_char_vec(&v, '/');
    extend_str(&mut t, "/idx/mem0/chunks");
    string_of(&t)
}

/// Whether the memory service acknowledged a chunk (a 2xx status).
pub fn acked(status: u16) -> (r: bool)
    ensures
        r == (200 <= status <= 299),
{
    200 <= status && status <= 299
}

/// What became of one queued chunk.
pub enum Delivery {
    /// Acknowledged: the file is deleted.
    Acked,
    /// Answered without an ack; the status as text.
    Refused(String),
    /// Not delivered; the error as text.
    Failed(String),
}

/// The tally of a flush of the queue.
#[derive(Debug)]
pub struct Flush {
    pub sent: usize,
    pub left: usize,
    pub notes: Vec<String>,
}

pub open spec fn notes_view(v: Seq<String>) -> Seq<Seq<char>> {
    v.map_values(|s: String| s@)
}

/// The note on a chunk kept in the queue.
pub open spec fn kept_note(name: Seq<char>, d: Delivery) -> Seq<char> {
    match d {
        Delivery::Refused(st) => name + ": HTTP "@ + st@ + " \u{2014} kept in queue"@,
        Delivery::Failed(e) => name + ": "@ + e@ + " \u{2014} kept in queue"@,
        Delivery::Acked => seq![],
    }
}

pub open spec fn notes_lines(ns: Seq<Seq<char>>) -> Seq<char>
    decreases ns.len(),
{
    if ns.len() == 0 {
        seq![]
    } else {
        notes_lines(ns.drop_last()) + "\n  "@ + ns.last()
    }
}

pub open spec fn flush_text(f: Flush) -> Seq<char> {
    "digest queue: "@ + dec(f.sent as nat) + " sent, "@ + dec(f.left as nat) + " pending"@ + notes_lines(
        notes_view(f.notes@),
    )
}

impl Flush {
    pub fn new() -> (r: Flush)
        ensures
            r.sent == 0 && r.left == 0 && r.notes@.len() == 0,
    {
        Flush { sent: 0, left: 0, notes: Vec::new() }
    }

    /// Counts one chunk: an ack as sent; anything else as left in the
    /// queue, with a note.
    pub fn record(&mut self, name: &str, d: Delivery)
        requires
            old(self).sent < usize::MAX,
            old(self).left < usize::MAX,
        ensures
            d is Acked ==> final(self).sent == old(self).sent + 1 && final(self).left == old(self).left
                && final(self).notes@ == old(self).notes@,
            !(d is Acked) ==> final(self).sent == old(self).sent && final(self).left == old(self).left + 1
                && notes_view(final(self).notes@) == notes_view(old(self).notes@).push(kept_note(name@, d)),
    {
        let ghost dv = d;
        match d {
            Delivery::Acked => {
                self.sent = self.sent + 1;
            },
            Delivery::Refused(st) => {
                self.left = self.left + 1;
                let mut v = chars_of(name);
                extend_str(&mut v, ": HTTP ");
                extend_str(&mut v, st.as_str());
                extend_str(&mut v, " \u{2014} kept in queue");
                let ghost before = notes_view(self.notes@);
                self.notes.push(string_of(&v));
                assert(notes_view(self.notes@) =~= before.push(kept_note(name@, dv)));
            },
            Delivery::Failed(e) => {
                self.left = self.left + 1;
                let mut v = chars_of(name);
                extend_str(&mut v, ": ");
                extend_str(&mut v, e.as_str());
                extend_str(&mut v, " \u{2014} kept in queue");
                let ghost before = notes_view(self.notes@);
                self.notes.push(string_of(&v));
                assert(notes_view(self.notes@) =~= before.push(kept_note(name@, dv)));
            },
        }
    }

    /// The report of the flush.
    pub fn text(&self) -> (r: String)
        ensures
            r@ == flush_text(*self),
    {
        let mut v = chars_of("digest queue: ");
        push_dec(&mut v, self.sent as u64);
        extend_str(&mut v, " sent, ");
        push_dec(&mut v, self.left as u64);
        extend_str(&mut v, " pending");
        let ghost head = v@;
        let ghost nv = notes_view(self.notes@);
        let mut i: usize = 0;
        while i < self.notes.len()
            invariant
                i <= self.notes.len(),
                nv == notes_view(self.notes@),
                v@ == head + notes_lines(nv.take(i as int)),
            decreases self.notes.len() - i,
        {
            extend_str(&mut v, "\n  ");
            extend_str(&mut v, self.notes[i].as_str());
            assert(nv.take(i + 1).drop_last() =~= nv.take(i as int));
            assert(nv.take(i + 1).last() == nv[i as int]);
            i += 1;
        }
        assert(nv.take(i as int) =~= nv);
        string_of(&v)
    }
}

} // verus!
