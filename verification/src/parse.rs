//! Markdown -> entry set: list items with a link become entries; the
//! heading trail is the section; text after the link is the description.
//! Permissive by design: anything that does not look like an entry is
//! ignored. pulldown-cmark tokenizes; the entry extraction over its event
//! stream is this module's own state machine.

use pulldown_cmark::Event::{Code, End, HardBreak, SoftBreak, Start, Text};
use pulldown_cmark::{Options, Parser, Tag, TagEnd};
use vstd::prelude::*;
use crate::text::{
    before_any, before_any_vec, chars_of, contains_seq, extend, is_whitespace, is_ws, segments,
    segments_vec, squeeze, squeeze_vec, string_of, strip_prefix, strip_prefix_vec, to_lower,
    trim, trim_end_str, trim_end_str_vec, trim_vec, unicode_lower, vecs_view, find, lemma_find,
    lemma_find_at, find_in, lemma_find_in, lemma_find_in_at, ends_with, starts_with,
};
use crate::model::free_of;

verus! {

/// One markdown event, as far as the entry extraction reads it.
pub enum MdEvent {
    StartHeading(u32),
    EndHeading,
    StartItem,
    EndItem,
    StartImage,
    EndImage,
    /// Start of a link, with its destination.
    StartLink(String),
    EndLink,
    /// Text or inline code.
    Text(String),
    /// Soft or hard line break.
    Break,
    Other,
}

/// The model of an `MdEvent`.
pub enum MdTok {
    StartHeading(u32),
    EndHeading,
    StartItem,
    EndItem,
    StartImage,
    EndImage,
    StartLink(Seq<char>),
    EndLink,
    Text(Seq<char>),
    Break,
    Other,
}

impl View for MdEvent {
    type V = MdTok;

    open spec fn view(&self) -> MdTok {
        match self {
            MdEvent::StartHeading(l) => MdTok::StartHeading(*l),
            MdEvent::EndHeading => MdTok::EndHeading,
            MdEvent::StartItem => MdTok::StartItem,
            MdEvent::EndItem => MdTok::EndItem,
            MdEvent::StartImage => MdTok::StartImage,
            MdEvent::EndImage => MdTok::EndImage,
            MdEvent::StartLink(u) => MdTok::StartLink(u@),
            MdEvent::EndLink => MdTok::EndLink,
            MdEvent::Text(t) => MdTok::Text(t@),
            MdEvent::Break => MdTok::Break,
            MdEvent::Other => MdTok::Other,
        }
    }
}

/// The event stream that pulldown-cmark produces for a document (tables
/// and strikethrough enabled).
pub uninterp spec fn cmark_events(md: Seq<char>) -> Seq<MdTok>;

/// `Parser::new_ext(md, ENABLE_TABLES | ENABLE_STRIKETHROUGH)`, each event
/// converted to an `MdEvent`. The stream itself is named, not stated.
#[verifier::external_body]
fn markdown_events(md: &str) -> (r: Vec<MdEvent>)
    ensures
        r@.map_values(|e: MdEvent| e@) == cmark_events(md@),
{
    Parser::new_ext(md, Options::ENABLE_TABLES | Options::ENABLE_STRIKETHROUGH).map(|ev| match ev {
        Start(Tag::Heading { level, .. }) => MdEvent::StartHeading(level as u32),
        End(TagEnd::Heading(_)) => MdEvent::EndHeading,
        Start(Tag::Item) => MdEvent::StartItem,
        End(TagEnd::Item) => MdEvent::EndItem,
        Start(Tag::Image { .. }) => MdEvent::StartImage,
        End(TagEnd::Image) => MdEvent::EndImage,
        Start(Tag::Link { dest_url, .. }) => MdEvent::StartLink(dest_url.to_string()),
        End(TagEnd::Link) => MdEvent::EndLink,
        Text(t) | Code(t) => MdEvent::Text(t.to_string()),
        SoftBreak | HardBreak => MdEvent::Break,
        _ => MdEvent::Other,
    }).collect()
}

/// A list entry found in a README.
#[derive(Debug)]
pub struct ParsedEntry {
    pub name: String,
    pub url: String,
    pub description: String,
    /// Heading trail (h2 and deeper; the h1 is the page title).
    pub section: Vec<String>,
}

pub struct EntryV {
    pub name: Seq<char>,
    pub url: Seq<char>,
    pub description: Seq<char>,
    pub section: Seq<Seq<char>>,
}

pub open spec fn strings_view(v: Seq<String>) -> Seq<Seq<char>> {
    v.map_values(|s: String| s@)
}

impl View for ParsedEntry {
    type V = EntryV;

    open spec fn view(&self) -> EntryV {
        EntryV {
            name: self.name@,
            url: self.url@,
            description: self.description@,
            section: strings_view(self.section@),
        }
    }
}

// ---------------------------------------------------------------------------
// The extraction state machine, as a model
// ---------------------------------------------------------------------------

/// A list item being read: its first real link and the text around it,
/// and the position its entry takes in the output (reserved when the item
/// starts, so that an item comes before the items nested in it).
pub struct Cap {
    pub slot: nat,
    pub url: Option<Seq<char>>,
    pub in_link: bool,
    pub name: Seq<char>,
    pub description: Seq<char>,
}

#[verifier::ext_equal]
pub struct PState {
    /// (level, text) of the enclosing headings.
    pub trail: Seq<(u32, Seq<char>)>,
    /// The heading being read.
    pub heading: Option<(u32, Seq<char>)>,
    /// Open list items, innermost last.
    pub items: Seq<Cap>,
    pub in_image: nat,
    /// One slot per item started so far, in document order; filled when
    /// the item ends and makes an entry.
    pub out: Seq<Option<EntryV>>,
}

pub open spec fn new_cap(slot: nat) -> Cap {
    Cap { slot, url: None, in_link: false, name: seq![], description: seq![] }
}

pub open spec fn init_state() -> PState {
    PState { trail: seq![], heading: None, items: seq![], in_image: 0, out: seq![] }
}

/// Text inside the link is the name, text after it the description; text
/// before any link is dropped.
pub open spec fn cap_text(c: Cap, t: Seq<char>) -> Cap {
    if c.in_link {
        Cap { name: c.name + t, ..c }
    } else if c.url is Some {
        Cap { description: c.description + t, ..c }
    } else {
        c
    }
}

/// Separators awesome lists put between link and blurb: '-', en dash,
/// em dash, ':', middle dot.
pub open spec fn is_sep(c: char) -> bool {
    c == '-' || c == '\u{2013}' || c == '\u{2014}' || c == ':' || c == '\u{00b7}'
}

/// `s` without its leading separators and white space.
pub open spec fn drop_seps(s: Seq<char>) -> Seq<char>
    decreases s.len(),
{
    if s.len() > 0 && (is_sep(s[0]) || is_ws(s[0])) {
        drop_seps(s.drop_first())
    } else {
        s
    }
}

/// The description with its leading separator stripped.
pub open spec fn clean_description(s: Seq<char>) -> Seq<char> {
    trim(drop_seps(squeeze(s)))
}

/// Heading texts of level 2 and deeper.
pub open spec fn section_of(trail: Seq<(u32, Seq<char>)>) -> Seq<Seq<char>>
    decreases trail.len(),
{
    if trail.len() == 0 {
        seq![]
    } else {
        let rest = section_of(trail.drop_last());
        if trail.last().0 >= 2 {
            rest.push(trail.last().1)
        } else {
            rest
        }
    }
}

/// The entry a finished item makes: it needs a link; an empty name falls
/// back to the URL.
pub open spec fn finish(c: Cap, trail: Seq<(u32, Seq<char>)>) -> Option<EntryV> {
    match c.url {
        None => None,
        Some(url) => {
            let name = squeeze(c.name);
            Some(
                EntryV {
                    name: if name.len() == 0 {
                        url
                    } else {
                        name
                    },
                    url,
                    description: clean_description(c.description),
                    section: section_of(trail),
                },
            )
        },
    }
}

/// The trail with every heading of level `lvl` or deeper closed.
pub open spec fn pop_trail(trail: Seq<(u32, Seq<char>)>, lvl: u32) -> Seq<(u32, Seq<char>)>
    decreases trail.len(),
{
    if trail.len() > 0 && trail.last().0 >= lvl {
        pop_trail(trail.drop_last(), lvl)
    } else {
        trail
    }
}

pub open spec fn with_last(items: Seq<Cap>, c: Cap) -> Seq<Cap> {
    items.update(items.len() - 1, c)
}

/// One event applied to the extraction state.
pub open spec fn step(st: PState, ev: MdTok) -> PState {
    match ev {
        MdTok::StartHeading(l) => PState { heading: Some((l, seq![])), ..st },
        MdTok::EndHeading => match st.heading {
            Some((lvl, text)) => {
                let popped = pop_trail(st.trail, lvl);
                let t = squeeze(text);
                PState {
                    trail: if t.len() > 0 {
                        popped.push((lvl, t))
                    } else {
                        popped
                    },
                    heading: None,
                    ..st
                }
            },
            None => st,
        },
        MdTok::StartItem => PState {
            items: st.items.push(new_cap(st.out.len())),
            out: st.out.push(None),
            ..st
        },
        MdTok::EndItem => if st.items.len() > 0 {
            let c = st.items.last();
            PState {
                items: st.items.drop_last(),
                out: if c.slot < st.out.len() {
                    st.out.update(c.slot as int, finish(c, st.trail))
                } else {
                    st.out
                },
                ..st
            }
        } else {
            st
        },
        MdTok::StartImage => PState { in_image: st.in_image + 1, ..st },
        MdTok::EndImage => PState {
            in_image: if st.in_image > 0 {
                (st.in_image - 1) as nat
            } else {
                0
            },
            ..st
        },
        MdTok::StartLink(u) => if st.in_image == 0 && st.items.len() > 0 && st.items.last().url is None {
            let c = st.items.last();
            PState { items: with_last(st.items, Cap { url: Some(u), in_link: true, ..c }), ..st }
        } else {
            st
        },
        MdTok::EndLink => if st.items.len() > 0 {
            let c = st.items.last();
            // A link with no text is a badge (a link-wrapped image), not the
            // entry link: keep waiting for the real one.
            let url = if c.in_link && trim(c.name).len() == 0 {
                None
            } else {
                c.url
            };
            PState { items: with_last(st.items, Cap { url, in_link: false, ..c }), ..st }
        } else {
            st
        },
        MdTok::Text(t) => match st.heading {
            Some((l, h)) => PState { heading: Some((l, h + t)), ..st },
            None => if st.in_image == 0 && st.items.len() > 0 {
                PState { items: with_last(st.items, cap_text(st.items.last(), t)), ..st }
            } else {
                st
            },
        },
        MdTok::Break => match st.heading {
            Some((l, h)) => PState { heading: Some((l, h.push(' '))), ..st },
            None => if st.items.len() > 0 {
                PState {
                    items: with_last(st.items, cap_text(st.items.last(), seq![' '])),
                    ..st
                }
            } else {
                st
            },
        },
        MdTok::Other => st,
    }
}

/// The state after a whole event stream.
pub open spec fn run_events(evs: Seq<MdTok>) -> PState
    decreases evs.len(),
{
    if evs.len() == 0 {
        init_state()
    } else {
        step(run_events(evs.drop_last()), evs.last())
    }
}

/// The filled slots, in order.
pub open spec fn filled<T>(s: Seq<Option<T>>) -> Seq<T>
    decreases s.len(),
{
    if s.len() == 0 {
        seq![]
    } else {
        match s.last() {
            Some(x) => filled(s.drop_last()).push(x),
            None => filled(s.drop_last()),
        }
    }
}

/// The entries of an event stream, in document order: one per list item
/// that has a link, at the place where the item starts.
pub open spec fn entries_spec(evs: Seq<MdTok>) -> Seq<EntryV> {
    filled(run_events(evs).out)
}


// ---------------------------------------------------------------------------
// The extraction state machine, executable
// ---------------------------------------------------------------------------

struct ItemCapture {
    slot: usize,
    url: Option<Vec<char>>,
    in_link: bool,
    name: Vec<char>,
    description: Vec<char>,
}

pub open spec fn opt_chars_view(o: Option<Vec<char>>) -> Option<Seq<char>> {
    match o {
        Some(v) => Some(v@),
        None => None,
    }
}

impl View for ItemCapture {
    type V = Cap;

    closed spec fn view(&self) -> Cap {
        Cap {
            slot: self.slot as nat,
            url: opt_chars_view(self.url),
            in_link: self.in_link,
            name: self.name@,
            description: self.description@,
        }
    }
}

pub open spec fn trail_view(t: Seq<(u32, Vec<char>)>) -> Seq<(u32, Seq<char>)> {
    t.map_values(|p: (u32, Vec<char>)| (p.0, p.1@))
}

pub open spec fn heading_view(h: Option<(u32, Vec<char>)>) -> Option<(u32, Seq<char>)> {
    match h {
        Some((l, t)) => Some((l, t@)),
        None => None,
    }
}

pub open spec fn entries_view(v: Seq<ParsedEntry>) -> Seq<EntryV> {
    v.map_values(|e: ParsedEntry| e@)
}

fn cap_push_text(c: &mut ItemCapture, t: &[char])
    ensures
        final(c)@ == cap_text(old(c)@, t@),
{
    if c.in_link {
        extend(&mut c.name, t);
    } else if c.url.is_some() {
        extend(&mut c.description, t);
    }
}

/// `drop_seps`.
fn drop_seps_vec(v: &[char]) -> (r: Vec<char>)
    ensures
        r@ == drop_seps(v@),
{
    let mut i: usize = 0;
    assert(v@.skip(0) == v@);
    while i < v.len() && (is_sep_char(v[i]) || is_whitespace(v[i]))
        invariant
            i <= v.len(),
            drop_seps(v@) == drop_seps(v@.skip(i as int)),
        decreases v.len() - i,
    {
        assert(v@.skip(i as int).drop_first() == v@.skip(i + 1));
        i += 1;
    }
    crate::text::slice_vec(v, i, v.len())
}

fn is_sep_char(c: char) -> (r: bool)
    ensures
        r == is_sep(c),
{
    c == '-' || c == '\u{2013}' || c == '\u{2014}' || c == ':' || c == '\u{00b7}'
}

fn section_exec(trail: &Vec<(u32, Vec<char>)>) -> (r: Vec<String>)
    ensures
        strings_view(r@) == section_of(trail_view(trail@)),
{
    let mut out: Vec<String> = Vec::new();
    let mut i: usize = 0;
    while i < trail.len()
        invariant
            i <= trail.len(),
            strings_view(out@) == section_of(trail_view(trail@.take(i as int))),
        decreases trail.len() - i,
    {
        let ghost before = out@;
        if trail[i].0 >= 2 {
            out.push(string_of(&trail[i].1));
        }
        proof {
            let tv = trail_view(trail@.take(i + 1));
            assert(tv.drop_last() =~= trail_view(trail@.take(i as int)));
            assert(tv.last() == (trail@[i as int].0, trail@[i as int].1@));
            assert(strings_view(out@) =~= if trail@[i as int].0 >= 2 {
                strings_view(before).push(trail@[i as int].1@)
            } else {
                strings_view(before)
            });
        }
        i += 1;
    }
    assert(trail@.take(trail.len() as int) == trail@);
    out
}

fn finish_exec(c: ItemCapture, trail: &Vec<(u32, Vec<char>)>) -> (r: Option<ParsedEntry>)
    ensures
        match r {
            Some(e) => finish(c@, trail_view(trail@)) == Some(e@),
            None => finish(c@, trail_view(trail@)) is None,
        },
{
    match c.url {
        None => None,
        Some(url) => {
            let name = squeeze_vec(&c.name);
            let name = if name.len() == 0 {
                string_of(&url)
            } else {
                string_of(&name)
            };
            let sq = squeeze_vec(&c.description);
            let ds = drop_seps_vec(&sq);
            let desc = trim_vec(&ds);
            let section = section_exec(trail);
            Some(
                ParsedEntry {
                    name,
                    url: string_of(&url),
                    description: string_of(&desc),
                    section,
                },
            )
        },
    }
}

/// The model of the executable extraction state.
spec fn exec_state_view(
    trail: Seq<(u32, Vec<char>)>,
    heading: Option<(u32, Vec<char>)>,
    items: Seq<ItemCapture>,
    in_image: usize,
    out: Seq<Option<ParsedEntry>>,
) -> PState {
    PState {
        trail: trail_view(trail),
        heading: heading_view(heading),
        items: items.map_values(|c: ItemCapture| c@),
        in_image: in_image as nat,
        out: slots_view(out),
    }
}

pub open spec fn slots_view(v: Seq<Option<ParsedEntry>>) -> Seq<Option<EntryV>> {
    v.map_values(
        |o: Option<ParsedEntry>|
            match o {
                Some(e) => Some(e@),
                None => None,
            },
    )
}

/// The entries of a markdown event stream (see `entries_spec`).
pub fn entries_of_events(evs: &Vec<MdEvent>) -> (r: Vec<ParsedEntry>)
    ensures
        entries_view(r@) == entries_spec(evs@.map_values(|e: MdEvent| e@)),
{
    let ghost toks = evs@.map_values(|e: MdEvent| e@);
    let mut trail: Vec<(u32, Vec<char>)> = Vec::new();
    let mut heading: Option<(u32, Vec<char>)> = None;
    let mut items: Vec<ItemCapture> = Vec::new();
    let mut in_image: usize = 0;
    let mut out: Vec<Option<ParsedEntry>> = Vec::new();
    let mut i: usize = 0;
    proof {
        assert(toks.take(0) =~= Seq::<MdTok>::empty());
        assert(exec_state_view(trail@, heading, items@, in_image, out@) =~= init_state());
    }
    while i < evs.len()
        invariant
            i <= evs.len(),
            toks == evs@.map_values(|e: MdEvent| e@),
            in_image <= i,
            out@.len() <= i,
            forall|k: int| 0 <= k < items@.len() ==> (#[trigger] items@[k]).slot < out@.len(),
            exec_state_view(trail@, heading, items@, in_image, out@) == run_events(
                toks.take(i as int),
            ),
        decreases evs.len() - i,
    {
        let ghost st = run_events(toks.take(i as int));
        let ghost iv = items@.map_values(|c: ItemCapture| c@);
        proof {
            assert(toks.take(i + 1).drop_last() =~= toks.take(i as int));
            assert(toks.take(i + 1).last() == evs@[i as int]@);
        }
        match &evs[i] {
            MdEvent::StartHeading(l) => {
                heading = Some((*l, Vec::new()));
                assert(exec_state_view(trail@, heading, items@, in_image, out@) =~= step(
                    st,
                    evs@[i as int]@,
                ));
            },
            MdEvent::EndHeading => {
                let h = heading;
                heading = None;
                match h {
                    Some((lvl, text)) => {
                        let ghost t0 = trail_view(trail@);
                        while trail.len() > 0 && trail[trail.len() - 1].0 >= lvl
                            invariant
                                pop_trail(t0, lvl) == pop_trail(trail_view(trail@), lvl),
                            decreases trail.len(),
                        {
                            let ghost tv = trail_view(trail@);
                            trail.pop();
                            assert(trail_view(trail@) =~= tv.drop_last());
                        }
                        let t = squeeze_vec(&text);
                        let ghost popped = trail_view(trail@);
                        if t.len() > 0 {
                            trail.push((lvl, t));
                            assert(trail_view(trail@) =~= popped.push((lvl, t@)));
                        }
                        assert(exec_state_view(trail@, heading, items@, in_image, out@) =~= step(
                            st,
                            evs@[i as int]@,
                        ));
                    },
                    None => {
                        assert(exec_state_view(trail@, heading, items@, in_image, out@) =~= step(
                            st,
                            evs@[i as int]@,
                        ));
                    },
                }
            },
            MdEvent::StartItem => {
                let slot = out.len();
                let ghost ov = slots_view(out@);
                out.push(None);
                assert(slots_view(out@) =~= ov.push(None));
                items.push(
                    ItemCapture { slot, url: None, in_link: false, name: Vec::new(), description: Vec::new() },
                );
                assert(items@.map_values(|c: ItemCapture| c@) =~= iv.push(new_cap(slot as nat)));
                assert(exec_state_view(trail@, heading, items@, in_image, out@) =~= step(
                    st,
                    evs@[i as int]@,
                ));
            },
            MdEvent::EndItem => {
                if items.len() > 0 {
                    let ghost n = items.len();
                    assert(items@[n - 1].slot < out@.len());
                    let it = items.pop().unwrap();
                    assert(items@.map_values(|c: ItemCapture| c@) =~= iv.drop_last());
                    let ghost ov = slots_view(out@);
                    let ghost cv = it@;
                    let slot = it.slot;
                    let done = finish_exec(it, &trail);
                    let ghost dv = slots_view(seq![done])[0];
                    assert(dv == finish(cv, trail_view(trail@)));
                    out.set(slot, done);
                    assert(slots_view(out@) =~= ov.update(slot as int, dv));
                }
                assert(exec_state_view(trail@, heading, items@, in_image, out@) =~= step(
                    st,
                    evs@[i as int]@,
                ));
            },
            MdEvent::StartImage => {
                in_image = in_image + 1;
                assert(exec_state_view(trail@, heading, items@, in_image, out@) =~= step(
                    st,
                    evs@[i as int]@,
                ));
            },
            MdEvent::EndImage => {
                if in_image > 0 {
                    in_image = in_image - 1;
                }
                assert(exec_state_view(trail@, heading, items@, in_image, out@) =~= step(
                    st,
                    evs@[i as int]@,
                ));
            },
            MdEvent::StartLink(u) => {
                if in_image == 0 && items.len() > 0 && items[items.len() - 1].url.is_none() {
                    let mut it = items.pop().unwrap();
                    it.url = Some(chars_of(u.as_str()));
                    it.in_link = true;
                    items.push(it);
                    assert(items@.map_values(|c: ItemCapture| c@) =~= with_last(
                        iv,
                        Cap { url: Some(u@), in_link: true, ..iv.last() },
                    ));
                }
                assert(exec_state_view(trail@, heading, items@, in_image, out@) =~= step(
                    st,
                    evs@[i as int]@,
                ));
            },
            MdEvent::EndLink => {
                if items.len() > 0 {
                    let mut it = items.pop().unwrap();
                    if it.in_link {
                        let tn = trim_vec(&it.name);
                        if tn.len() == 0 {
                            it.url = None;
                        }
                    }
                    it.in_link = false;
                    items.push(it);
                    assert(items@.map_values(|c: ItemCapture| c@) =~= with_last(
                        iv,
                        Cap {
                            url: if iv.last().in_link && trim(iv.last().name).len() == 0 {
                                None
                            } else {
                                iv.last().url
                            },
                            in_link: false,
                            ..iv.last()
                        },
                    ));
                }
                assert(exec_state_view(trail@, heading, items@, in_image, out@) =~= step(
                    st,
                    evs@[i as int]@,
                ));
            },
            MdEvent::Text(t) => {
                let tv = chars_of(t.as_str());
                match heading {
                    Some((l, ref mut h)) => {
                        extend(h, &tv);
                    },
                    None => {
                        if in_image == 0 && items.len() > 0 {
                            let mut it = items.pop().unwrap();
                            cap_push_text(&mut it, &tv);
                            items.push(it);
                            assert(items@.map_values(|c: ItemCapture| c@) =~= with_last(
                                iv,
                                cap_text(iv.last(), t@),
                            ));
                        }
                    },
                }
                assert(exec_state_view(trail@, heading, items@, in_image, out@) =~= step(
                    st,
                    evs@[i as int]@,
                ));
            },
            MdEvent::Break => {
                let sp: Vec<char> = vec![' '];
                assert(sp@ =~= seq![' ']);
                match heading {
                    Some((l, ref mut h)) => {
                        h.push(' ');
                    },
                    None => {
                        if items.len() > 0 {
                            let mut it = items.pop().unwrap();
                            cap_push_text(&mut it, &sp);
                            items.push(it);
                            assert(items@.map_values(|c: ItemCapture| c@) =~= with_last(
                                iv,
                                cap_text(iv.last(), seq![' ']),
                            ));
                        }
                    },
                }
                assert(exec_state_view(trail@, heading, items@, in_image, out@) =~= step(
                    st,
                    evs@[i as int]@,
                ));
            },
            MdEvent::Other => {
                assert(exec_state_view(trail@, heading, items@, in_image, out@) =~= step(
                    st,
                    evs@[i as int]@,
                ));
            },
        }
        i += 1;
    }
    assert(toks.take(evs.len() as int) =~= toks);
    let ghost sv = slots_view(out@);
    let mut entries: Vec<ParsedEntry> = Vec::new();
    let ghost mut j: int = 0;
    for slot in it: out
        invariant
            sv == slots_view(it.seq()),
            j == it.index(),
            entries_view(entries@) == filled(sv.take(j)),
    {
        proof {
            assert(sv.take(j + 1).drop_last() =~= sv.take(j));
            assert(sv.take(j + 1).last() == sv[j]);
        }
        match slot {
            Some(e) => {
                let ghost before = entries_view(entries@);
                entries.push(e);
                assert(entries_view(entries@) =~= before.push(e@));
            },
            None => {},
        }
        proof {
            j = j + 1;
        }
    }
    assert(sv.take(sv.len() as int) =~= sv);
    entries
}

/// The entries of a markdown document.
pub fn entries(md: &str) -> (r: Vec<ParsedEntry>)
    ensures
        entries_view(r@) == entries_spec(cmark_events(md@)),
{
    let evs = markdown_events(md);
    entries_of_events(&evs)
}


// ---------------------------------------------------------------------------
// The awesome index
// ---------------------------------------------------------------------------

/// A GitHub list linked from the awesome index; category = nearest
/// section heading.
#[derive(Debug, PartialEq, Eq)]
pub struct IndexList {
    pub owner: String,
    pub repo: String,
    pub category: String,
}

pub struct IndexListV {
    pub owner: Seq<char>,
    pub repo: Seq<char>,
    pub category: Seq<char>,
}

impl View for IndexList {
    type V = IndexListV;

    open spec fn view(&self) -> IndexListV {
        IndexListV { owner: self.owner@, repo: self.repo@, category: self.category@ }
    }
}

/// What follows "https://github.com/", "http://github.com/" or
/// "https://www.github.com/", tried in that order.
pub open spec fn github_rest(url: Seq<char>) -> Option<Seq<char>> {
    match strip_prefix(url, "https://github.com/"@) {
        Some(r) => Some(r),
        None => match strip_prefix(url, "http://github.com/"@) {
            Some(r) => Some(r),
            None => strip_prefix(url, "https://www.github.com/"@),
        },
    }
}

/// (owner, repo) of a plain github.com repo URL: exactly two non-empty path
/// segments before any '#' or '?', the repo without trailing ".git"s.
pub open spec fn repo_spec(url: Seq<char>) -> Option<(Seq<char>, Seq<char>)> {
    match github_rest(url) {
        None => None,
        Some(rest) => {
            let segs = segments(before_any(rest, seq!['#', '?']), '/');
            if segs.len() != 2 {
                None
            } else {
                let repo = trim_end_str(segs[1], ".git"@);
                if repo.len() == 0 {
                    None
                } else {
                    Some((segs[0], repo))
                }
            }
        },
    }
}

/// (owner, repo) for a plain github.com repo URL, else None.
pub fn github_repo(url: &str) -> (r: Option<(String, String)>)
    ensures
        match r {
            Some((o, p)) => repo_spec(url@) == Some((o@, p@)),
            None => repo_spec(url@) is None,
        },
{
    let u = chars_of(url);
    let p1 = chars_of("https://github.com/");
    let p2 = chars_of("http://github.com/");
    let p3 = chars_of("https://www.github.com/");
    let rest = match strip_prefix_vec(&u, &p1) {
        Some(r) => r,
        None => match strip_prefix_vec(&u, &p2) {
            Some(r) => r,
            None => match strip_prefix_vec(&u, &p3) {
                Some(r) => r,
                None => {
                    return None;
                },
            },
        },
    };
    let ds: Vec<char> = vec!['#', '?'];
    assert(ds@ =~= seq!['#', '?']);
    let path = before_any_vec(&rest, &ds);
    let segs = segments_vec(&path, '/');
    if segs.len() != 2 {
        return None;
    }
    let git = chars_of(".git");
    let repo = trim_end_str_vec(&segs[1], &git);
    if repo.len() == 0 {
        return None;
    }
    Some((string_of(&segs[0]), string_of(&repo)))
}

/// Dedupe key of an index list: owner and repo, each lower-cased.
pub open spec fn index_key(owner: Seq<char>, repo: Seq<char>) -> Seq<char> {
    unicode_lower(owner) + seq!['/'] + unicode_lower(repo)
}

/// The index scan over the entries of the awesome index: (keys seen,
/// lists found). Only plain GitHub repo links count; the first link to a
/// repo wins; the category is the innermost heading.
pub open spec fn index_run(es: Seq<EntryV>) -> (Seq<Seq<char>>, Seq<IndexListV>)
    decreases es.len(),
{
    if es.len() == 0 {
        (seq![], seq![])
    } else {
        let (seen, out) = index_run(es.drop_last());
        let e = es.last();
        match repo_spec(e.url) {
            None => (seen, out),
            Some((o, r)) => {
                let k = index_key(o, r);
                if seen.contains(k) {
                    (seen, out)
                } else {
                    let category = if e.section.len() > 0 {
                        e.section.last()
                    } else {
                        "Uncategorized"@
                    };
                    (seen.push(k), out.push(IndexListV { owner: o, repo: r, category }))
                }
            },
        }
    }
}

pub open spec fn index_lists_view(v: Seq<IndexList>) -> Seq<IndexListV> {
    v.map_values(|l: IndexList| l@)
}

/// The lists an index's entries link to (see `index_run`).
pub fn index_lists_of(es: &Vec<ParsedEntry>) -> (r: Vec<IndexList>)
    ensures
        index_lists_view(r@) == index_run(entries_view(es@)).1,
{
    let ghost ev = entries_view(es@);
    let mut seen: Vec<Vec<char>> = Vec::new();
    let mut out: Vec<IndexList> = Vec::new();
    let mut i: usize = 0;
    while i < es.len()
        invariant
            i <= es.len(),
            ev == entries_view(es@),
            (vecs_view(seen@), index_lists_view(out@)) == index_run(ev.take(i as int)),
        decreases es.len() - i,
    {
        proof {
            assert(ev.take(i + 1).drop_last() =~= ev.take(i as int));
            assert(ev.take(i + 1).last() == es@[i as int]@);
        }
        let e = &es[i];
        match github_repo(e.url.as_str()) {
            None => {},
            Some((owner, repo)) => {
                let lo = to_lower(owner.as_str());
                let lr = to_lower(repo.as_str());
                let mut key = chars_of(lo.as_str());
                key.push('/');
                let lrv = chars_of(lr.as_str());
                extend(&mut key, &lrv);
                assert(key@ =~= index_key(owner@, repo@));
                if !contains_seq(&seen, &key) {
                    let category = if e.section.len() > 0 {
                        let last = &e.section[e.section.len() - 1];
                        last.clone()
                    } else {
                        String::from_str("Uncategorized")
                    };
                    let ghost sv = vecs_view(seen@);
                    let ghost ov = index_lists_view(out@);
                    seen.push(key);
                    out.push(IndexList { owner, repo, category });
                    assert(vecs_view(seen@) =~= sv.push(index_key(owner@, repo@)));
                    assert(index_lists_view(out@) =~= ov.push(out@.last()@));
                }
            },
        }
        i += 1;
    }
    assert(ev.take(es.len() as int) =~= ev);
    out
}

/// The GitHub lists linked from the awesome index.
pub fn index_lists(md: &str) -> (r: Vec<IndexList>)
    ensures
        index_lists_view(r@) == index_run(entries_spec(cmark_events(md@))).1,
{
    let es = entries(md);
    index_lists_of(&es)
}

proof fn lemma_segments_of(o: Seq<char>, x: Seq<char>)
    requires
        x.len() > 0,
        forall|i: int| 0 <= i < x.len() ==> x[i] != '/',
    ensures
        segments(x, '/') == seq![x],
        segments(x + seq!['/'], '/') == seq![x],
        o.len() > 0 && (forall|i: int| 0 <= i < o.len() ==> o[i] != '/') ==> segments(
            o + seq!['/'] + x,
            '/',
        ) == seq![o, x] && segments(o + seq!['/'] + x + seq!['/'], '/') == seq![o, x],
{
    let e = Seq::<char>::empty();
    let ee = Seq::<Seq<char>>::empty();
    lemma_find(e, '/');
    assert(segments(e, '/') == ee);
    lemma_find(x, '/');
    if find(x, '/') >= 0 {
        assert(x[find(x, '/')] != '/');
    }
    assert(segments(x, '/') == seq![x]);
    let x1 = x + seq!['/'];
    assert forall|j: int| 0 <= j < x.len() implies x1[j] != '/' by {
        assert(x1[j] == x[j]);
    }
    lemma_find_at(x1, '/', x.len() as int);
    assert(x1.take(x.len() as int) =~= x);
    assert(x1.skip(x.len() as int + 1) =~= e);
    assert(segments(x1, '/') =~= seq![x] + ee);
    if o.len() > 0 && (forall|i: int| 0 <= i < o.len() ==> o[i] != '/') {
        let s1 = o + seq!['/'] + x;
        let s2 = o + seq!['/'] + x + seq!['/'];
        assert forall|j: int| 0 <= j < o.len() implies s1[j] != '/' by {
            assert(s1[j] == o[j]);
        }
        assert forall|j: int| 0 <= j < o.len() implies s2[j] != '/' by {
            assert(s2[j] == o[j]);
        }
        lemma_find_at(s1, '/', o.len() as int);
        lemma_find_at(s2, '/', o.len() as int);
        assert(s1.take(o.len() as int) =~= o);
        assert(s2.take(o.len() as int) =~= o);
        assert(s1.skip(o.len() as int + 1) =~= x);
        assert(s2.skip(o.len() as int + 1) =~= x1);
        assert(segments(s1, '/') =~= seq![o] + seq![x]);
        assert(segments(s2, '/') =~= seq![o] + seq![x]);
    }
}

/// Owner and repo of a plain repo link: for any owner and repo name free of
/// '/', '#' and '?' (the repo not ending in ".git"), behind
/// "https://github.com/", "http://github.com/" or
/// "https://www.github.com/", and followed by nothing, "/", ".git", or
/// anything that starts with '#' or '?', the pair read back is exactly
/// that owner and repo, case kept.
pub proof fn law_repo_round_trip(p: Seq<char>, o: Seq<char>, r: Seq<char>, t: Seq<char>)
    requires
        p == "https://github.com/"@ || p == "http://github.com/"@ || p == "https://www.github.com/"@,
        o.len() > 0,
        r.len() > 0,
        free_of(o, seq!['/', '#', '?']),
        free_of(r, seq!['/', '#', '?']),
        !ends_with(r, ".git"@),
        t.len() == 0 || t == seq!['/'] || t == ".git"@ || (t.len() > 0 && (t[0] == '#' || t[0] == '?')),
    ensures
        repo_spec(p + o + seq!['/'] + r + t) == Some((o, r)),
{
    reveal_strlit("https://github.com/");
    reveal_strlit("http://github.com/");
    reveal_strlit("https://www.github.com/");
    reveal_strlit(".git");
    let d3 = seq!['/', '#', '?'];
    let dq = seq!['#', '?'];
    let url = p + o + seq!['/'] + r + t;
    let rest = o + seq!['/'] + r + t;
    assert(url =~= p + rest);
    assert(url.take(p.len() as int) =~= p);
    assert(url.skip(p.len() as int) =~= rest);
    if p != "https://github.com/"@ {
        assert(url[4] == ':' || url[8] == 'w');
        assert(!starts_with(url, "https://github.com/"@));
        if p != "http://github.com/"@ {
            assert(url[4] == 's');
            assert(!starts_with(url, "http://github.com/"@));
        }
    }
    assert(github_rest(url) == Some(rest));
    assert forall|i: int| 0 <= i < o.len() implies o[i] != '/' by {
        assert(!d3.contains(o[i]));
        assert(d3[0] == '/');
    }
    assert forall|i: int| 0 <= i < r.len() implies r[i] != '/' by {
        assert(!d3.contains(r[i]));
        assert(d3[0] == '/');
    }
    let core = o + seq!['/'] + r;
    assert forall|j: int| 0 <= j < core.len() implies !dq.contains(#[trigger] core[j]) by {
        if j < o.len() {
            assert(core[j] == o[j]);
            assert(!d3.contains(o[j]));
            if dq.contains(o[j]) {
                let k = choose|k: int| 0 <= k < dq.len() && dq[k] == o[j];
                assert(d3[k + 1] == dq[k]);
            }
        } else if j > o.len() {
            assert(core[j] == r[j - o.len() - 1]);
            assert(!d3.contains(r[j - o.len() - 1]));
            if dq.contains(core[j]) {
                let k = choose|k: int| 0 <= k < dq.len() && dq[k] == core[j];
                assert(d3[k + 1] == dq[k]);
            }
        } else {
            assert(core[j] == '/');
        }
    }
    if t.len() > 0 && (t[0] == '#' || t[0] == '?') {
        assert(rest =~= core + t);
        assert forall|j: int| 0 <= j < core.len() implies !dq.contains(#[trigger] rest[j]) by {
            assert(rest[j] == core[j]);
        }
        assert(dq.contains(rest[core.len() as int])) by {
            assert(rest[core.len() as int] == t[0]);
            assert(dq[0] == '#' && dq[1] == '?');
        }
        lemma_find_in_at(rest, dq, core.len() as int);
        assert(rest.take(core.len() as int) =~= core);
        lemma_segments_of(o, r);
        assert(trim_end_str(r, ".git"@) == r);
    } else {
        let g = ".git"@;
        assert(free_of(rest, dq)) by {
            assert forall|j: int| 0 <= j < rest.len() implies !dq.contains(#[trigger] rest[j]) by {
                if j < core.len() {
                    assert(rest[j] == core[j]);
                } else {
                    assert(rest[j] == t[j - core.len()]);
                    assert(!dq.contains('/') && !dq.contains('.') && !dq.contains('g') && !dq.contains('i')
                        && !dq.contains('t'));
                }
            }
        }
        crate::model::lemma_no_delim_found(rest, dq);
        if t.len() == 0 {
            assert(rest =~= core);
            lemma_segments_of(o, r);
            assert(trim_end_str(r, g) == r);
        } else if t == seq!['/'] {
            lemma_segments_of(o, r);
            assert(trim_end_str(r, g) == r);
        } else {
            let rg = r + g;
            assert(rest =~= o + seq!['/'] + rg);
            assert forall|i: int| 0 <= i < rg.len() implies rg[i] != '/' by {
                if i >= r.len() {
                    assert(rg[i] == g[i - r.len()]);
                }
            }
            lemma_segments_of(o, rg);
            assert(ends_with(rg, g)) by {
                assert(rg.skip(rg.len() - g.len()) =~= g);
            }
            assert(rg.take(rg.len() - g.len()) =~= r);
            assert(trim_end_str(r, g) == r);
        }
    }
}

proof fn lemma_segments_pieces(s: Seq<char>, d: char, x: Seq<char>)
    requires
        free_of(s, x),
    ensures
        forall|k: int|
            0 <= k < segments(s, d).len() ==> (#[trigger] segments(s, d)[k]).len() > 0 && free_of(
                segments(s, d)[k],
                x.push(d),
            ),
    decreases s.len(),
{
    let i = find(s, d);
    lemma_find(s, d);
    let xd = x.push(d);
    if i >= 0 {
        let t = s.skip(i + 1);
        assert(free_of(t, x)) by {
            assert forall|j: int| 0 <= j < t.len() implies !x.contains(#[trigger] t[j]) by {
                assert(t[j] == s[i + 1 + j]);
            }
        }
        lemma_segments_pieces(t, d, x);
        if i > 0 {
            let h = s.take(i);
            assert(free_of(h, xd)) by {
                assert forall|j: int| 0 <= j < h.len() implies !xd.contains(#[trigger] h[j]) by {
                    assert(h[j] == s[j]);
                    assert(s[j] != d);
                    assert(!x.contains(s[j]));
                    if xd.contains(h[j]) {
                        let m = choose|m: int| 0 <= m < xd.len() && xd[m] == h[j];
                        if m < x.len() {
                            assert(x[m] == xd[m]);
                        }
                    }
                }
            }
            let r = segments(t, d);
            assert(segments(s, d) == seq![h] + r);
            assert forall|k: int| 0 <= k < segments(s, d).len() implies (#[trigger] segments(s, d)[k]).len() > 0
                && free_of(segments(s, d)[k], xd) by {
                if k > 0 {
                    assert(segments(s, d)[k] == r[k - 1]);
                }
            }
        } else {
            assert(segments(s, d) == segments(t, d));
        }
    } else if s.len() > 0 {
        assert(free_of(s, xd)) by {
            assert forall|j: int| 0 <= j < s.len() implies !xd.contains(#[trigger] s[j]) by {
                assert(s[j] != d);
                assert(!x.contains(s[j]));
                if xd.contains(s[j]) {
                    let m = choose|m: int| 0 <= m < xd.len() && xd[m] == s[j];
                    if m < x.len() {
                        assert(x[m] == xd[m]);
                    }
                }
            }
        }
        assert(segments(s, d) == seq![s]);
    } else {
        assert(segments(s, d).len() == 0);
    }
}

proof fn lemma_trim_end_str_shape(s: Seq<char>, g: Seq<char>)
    requires
        g.len() > 0,
    ensures
        !ends_with(trim_end_str(s, g), g),
        trim_end_str(s, g) == s.take(trim_end_str(s, g).len() as int),
        trim_end_str(s, g).len() <= s.len(),
    decreases s.len(),
{
    if ends_with(s, g) {
        let t = s.take(s.len() - g.len());
        lemma_trim_end_str_shape(t, g);
        assert(t.take(trim_end_str(t, g).len() as int) =~= s.take(trim_end_str(t, g).len() as int));
    } else {
        assert(s.take(s.len() as int) =~= s);
    }
}

/// What `github_repo` accepts is a plain repo link: it starts with one of
/// the three GitHub prefixes, and the owner and repo it reads are
/// non-empty, free of '/', '#' and '?', the repo not ending in ".git".
pub proof fn law_repo_shape(url: Seq<char>)
    requires
        repo_spec(url) is Some,
    ensures
        starts_with(url, "https://github.com/"@) || starts_with(url, "http://github.com/"@) || starts_with(
            url,
            "https://www.github.com/"@,
        ),
        repo_spec(url).unwrap().0.len() > 0,
        repo_spec(url).unwrap().1.len() > 0,
        free_of(repo_spec(url).unwrap().0, seq!['#', '?', '/']),
        free_of(repo_spec(url).unwrap().1, seq!['#', '?', '/']),
        !ends_with(repo_spec(url).unwrap().1, ".git"@),
{
    reveal_strlit(".git");
    let rest = github_rest(url).unwrap();
    let dq = seq!['#', '?'];
    let b = before_any(rest, dq);
    lemma_find_in(rest, dq);
    assert(free_of(b, dq)) by {
        assert forall|j: int| 0 <= j < b.len() implies !dq.contains(#[trigger] b[j]) by {
            assert(b[j] == rest[j]);
        }
    }
    lemma_segments_pieces(b, '/', dq);
    let segs = segments(b, '/');
    assert(dq.push('/') =~= seq!['#', '?', '/']);
    let r0 = segs[1];
    lemma_trim_end_str_shape(r0, ".git"@);
    let r = trim_end_str(r0, ".git"@);
    assert forall|j: int| 0 <= j < r.len() implies !seq!['#', '?', '/'].contains(#[trigger] r[j]) by {
        assert(r[j] == r0[j]);
    }
}

/// The open items hold their reserved places in document order: an
/// enclosing item's place comes before the places of the items nested in
/// it, and every place is a slot already in the output.
pub open spec fn slots_in_order(st: PState) -> bool {
    &&& forall|a: int, b: int| 0 <= a < b < st.items.len() ==> (#[trigger] st.items[a]).slot < (
    #[trigger] st.items[b]).slot
    &&& forall|a: int| 0 <= a < st.items.len() ==> (#[trigger] st.items[a]).slot < st.out.len()
}

proof fn lemma_step_slots(st: PState, ev: MdTok)
    requires
        slots_in_order(st),
    ensures
        slots_in_order(step(st, ev)),
        step(st, ev).out.len() >= st.out.len(),
{
    let n = step(st, ev);
    match ev {
        MdTok::StartItem => {
            assert forall|a: int, b: int| 0 <= a < b < n.items.len() implies (#[trigger] n.items[a]).slot < (
            #[trigger] n.items[b]).slot by {
                assert(n.items[a] == st.items[a]);
                if b < st.items.len() {
                    assert(n.items[b] == st.items[b]);
                }
            }
            assert forall|a: int| 0 <= a < n.items.len() implies (#[trigger] n.items[a]).slot < n.out.len() by {
                if a < st.items.len() {
                    assert(n.items[a] == st.items[a]);
                }
            }
        },
        MdTok::EndItem => {
            if st.items.len() > 0 {
                assert forall|a: int, b: int| 0 <= a < b < n.items.len() implies (#[trigger] n.items[a]).slot < (
                #[trigger] n.items[b]).slot by {
                    assert(n.items[a] == st.items[a] && n.items[b] == st.items[b]);
                }
                assert forall|a: int| 0 <= a < n.items.len() implies (#[trigger] n.items[a]).slot < n.out.len() by {
                    assert(n.items[a] == st.items[a]);
                }
            }
        },
        _ => {
            assert(n.items.len() == st.items.len());
            assert forall|a: int| 0 <= a < n.items.len() implies (#[trigger] n.items[a]).slot == st.items[a].slot by {
                if a < n.items.len() - 1 {
                    assert(n.items[a] == st.items[a]);
                }
            }
            assert forall|a: int, b: int| 0 <= a < b < n.items.len() implies (#[trigger] n.items[a]).slot < (
            #[trigger] n.items[b]).slot by {
                assert(n.items[a].slot == st.items[a].slot);
                assert(n.items[b].slot == st.items[b].slot);
            }
        },
    }
}

/// Document order: at every point of the stream, each open item's entry
/// has a reserved place in the output, and an enclosing item's place
/// comes before those of the items nested in it.
pub proof fn law_items_keep_document_order(evs: Seq<MdTok>)
    ensures
        slots_in_order(run_events(evs)),
    decreases evs.len(),
{
    if evs.len() > 0 {
        law_items_keep_document_order(evs.drop_last());
        lemma_step_slots(run_events(evs.drop_last()), evs.last());
    }
}

} // verus!
