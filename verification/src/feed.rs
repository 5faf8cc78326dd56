//! RSS 2.0 feed, hand-assembled; entries come newest first.

use vstd::prelude::*;
use crate::date::{fmt_rfc2822_six, iso_date, valid_date};
use crate::text::{chars_of, extend, extend_str};
use crate::view::FeedEntry;

verus! {

pub open spec fn esc_char(c: char) -> Seq<char> {
    if c == '&' {
        "&amp;"@
    } else if c == '<' {
        "&lt;"@
    } else if c == '>' {
        "&gt;"@
    } else if c == '"' {
        "&quot;"@
    } else {
        seq![c]
    }
}

/// `s` with `&`, `<`, `>` and `"` replaced by their entities.
pub open spec fn xml_esc(s: Seq<char>) -> Seq<char>
    decreases s.len(),
{
    if s.len() == 0 {
        seq![]
    } else {
        xml_esc(s.drop_last()) + esc_char(s.last())
    }
}

/// Appends `xml_esc(s)` to `out`.
pub fn push_escaped(out: &mut Vec<char>, s: &str)
    ensures
        final(out)@ == old(out)@ + xml_esc(s@),
{
    let v = chars_of(s);
    let mut i: usize = 0;
    while i < v.len()
        invariant
            i <= v.len(),
            v@ == s@,
            out@ == old(out)@ + xml_esc(v@.take(i as int)),
        decreases v.len() - i,
    {
        proof {
            assert(v@.take(i + 1).drop_last() =~= v@.take(i as int));
        }
        let c = v[i];
        let ghost before = out@;
        if c == '&' {
            extend_str(out, "&amp;");
        } else if c == '<' {
            extend_str(out, "&lt;");
        } else if c == '>' {
            extend_str(out, "&gt;");
        } else if c == '"' {
            extend_str(out, "&quot;");
        } else {
            out.push(c);
        }
        assert(out@ =~= before + esc_char(c));
        i += 1;
    }
    assert(v@.take(v.len() as int) =~= v@);
}

/// One `<item>` of the feed.
pub open spec fn feed_item(e: FeedEntry) -> Seq<char> {
    "<item>\n<title>"@ + xml_esc(e.name@) + " \u{2014} via "@ + xml_esc(e.via@) + "</title>\n<link>"@
        + xml_esc(e.url@) + "</link>\n<guid isPermaLink=\"false\">"@ + xml_esc(e.url@) + "#"@
        + iso_date(e.date) + "</guid>\n<pubDate>"@ + fmt_rfc2822_six(e.date) + "</pubDate>\n"@
        + if e.desc@.len() > 0 {
        "<description>"@ + xml_esc(e.desc@) + "</description>\n"@
    } else {
        seq![]
    } + "</item>\n"@
}

pub open spec fn feed_items(es: Seq<FeedEntry>) -> Seq<char>
    decreases es.len(),
{
    if es.len() == 0 {
        seq![]
    } else {
        feed_items(es.drop_last()) + feed_item(es.last())
    }
}

pub open spec fn feed_head() -> Seq<char> {
    "<?xml version=\"1.0\" encoding=\"UTF-8\"?>\n<rss version=\"2.0\">\n<channel>\n"@
}

pub open spec fn feed_blurb() -> Seq<char> {
    "<description>New entries across the GitHub awesome ecosystem, diffed nightly.</description>\n"@
}

/// The whole feed document.
pub open spec fn feed_spec(title: Seq<char>, page_url: Seq<char>, es: Seq<FeedEntry>) -> Seq<char> {
    feed_head() + "<title>"@ + xml_esc(title) + "</title>\n<link>"@ + xml_esc(page_url)
        + "</link>\n"@ + feed_blurb() + if es.len() > 0 {
        "<lastBuildDate>"@ + fmt_rfc2822_six(es[0].date) + "</lastBuildDate>\n"@
    } else {
        seq![]
    } + feed_items(es) + "</channel>\n</rss>\n"@
}

/// Dates that an RSS stamp can show (RFC 2822 years are 0..=9999).
pub open spec fn feed_dates_ok(es: Seq<FeedEntry>) -> bool {
    forall|i: int| 0 <= i < es.len() ==> valid_date(#[trigger] es[i].date) && 0 <= es[i].date.year <= 9999
}

/// The part of an item before its optional description.
pub open spec fn item_head(e: FeedEntry) -> Seq<char> {
    "<item>\n<title>"@ + xml_esc(e.name@) + " \u{2014} via "@ + xml_esc(e.via@) + "</title>\n<link>"@
        + xml_esc(e.url@) + "</link>\n<guid isPermaLink=\"false\">"@ + xml_esc(e.url@) + "#"@
        + iso_date(e.date) + "</guid>\n<pubDate>"@ + fmt_rfc2822_six(e.date) + "</pubDate>\n"@
}

#[verifier::rlimit(40)]
fn push_item(out: &mut Vec<char>, e: &FeedEntry)
    requires
        valid_date(e.date),
        0 <= e.date.year <= 9999,
    ensures
        final(out)@ == old(out)@ + feed_item(*e),
{
    let ghost start = out@;
    let mut buf: Vec<char> = Vec::new();
    extend_str(&mut buf, "<item>\n<title>");
    push_escaped(&mut buf, e.name.as_str());
    extend_str(&mut buf, " \u{2014} via ");
    push_escaped(&mut buf, e.via.as_str());
    extend_str(&mut buf, "</title>\n<link>");
    push_escaped(&mut buf, e.url.as_str());
    extend_str(&mut buf, "</link>\n<guid isPermaLink=\"false\">");
    push_escaped(&mut buf, e.url.as_str());
    extend_str(&mut buf, "#");
    let d = e.date.iso();
    extend_str(&mut buf, d.as_str());
    extend_str(&mut buf, "</guid>\n<pubDate>");
    let stamp = e.date.rfc2822_six();
    extend_str(&mut buf, stamp.as_str());
    extend_str(&mut buf, "</pubDate>\n");
    assert(buf@ =~= item_head(*e));
    let ghost head = buf@;
    if !e.desc.as_str().is_empty() {
        extend_str(&mut buf, "<description>");
        push_escaped(&mut buf, e.desc.as_str());
        extend_str(&mut buf, "</description>\n");
        assert(buf@ =~= head + ("<description>"@ + xml_esc(e.desc@) + "</description>\n"@));
    } else {
        assert(buf@ =~= head + Seq::<char>::empty());
    }
    extend_str(&mut buf, "</item>\n");
    assert(feed_item(*e) =~= item_head(*e) + (if e.desc@.len() > 0 {
        "<description>"@ + xml_esc(e.desc@) + "</description>\n"@
    } else {
        seq![]
    }) + "</item>\n"@);
    extend(out, &buf);
}

/// `title`: channel title; `page_url`: the HTML page this feed mirrors.
pub fn render(title: &str, page_url: &str, entries: &[FeedEntry]) -> (r: String)
    requires
        feed_dates_ok(entries@),
    ensures
        r@ == feed_spec(title@, page_url@, entries@),
{
    let mut out: Vec<char> = Vec::new();
    extend_str(&mut out, "<?xml version=\"1.0\" encoding=\"UTF-8\"?>\n<rss version=\"2.0\">\n<channel>\n");
    extend_str(&mut out, "<title>");
    push_escaped(&mut out, title);
    extend_str(&mut out, "</title>\n<link>");
    push_escaped(&mut out, page_url);
    extend_str(&mut out, "</link>\n");
    extend_str(&mut out, "<description>New entries across the GitHub awesome ecosystem, diffed nightly.</description>\n");
    let ghost head = out@;
    if entries.len() > 0 {
        extend_str(&mut out, "<lastBuildDate>");
        let stamp = entries[0].date.rfc2822_six();
        extend_str(&mut out, stamp.as_str());
        extend_str(&mut out, "</lastBuildDate>\n");
    }
    let ghost top = out@;
    let mut i: usize = 0;
    while i < entries.len()
        invariant
            i <= entries.len(),
            feed_dates_ok(entries@),
            out@ == top + feed_items(entries@.take(i as int)),
        decreases entries.len() - i,
    {
        proof {
            assert(entries@.take(i + 1).drop_last() =~= entries@.take(i as int));
        }
        push_item(&mut out, &entries[i]);
        assert(out@ =~= top + feed_items(entries@.take(i + 1)));
        i += 1;
    }
    assert(entries@.take(entries.len() as int) =~= entries@);
    extend_str(&mut out, "</channel>\n</rss>\n");
    assert(out@ =~= feed_spec(title@, page_url@, entries@));
    crate::text::string_of(&out)
}

/// Escaped text carries no markup: no `<`, `>` or `"` is left in it, and
/// text without `&`, `<`, `>` and `"` is left as it is.
pub proof fn law_xml_esc_no_markup(s: Seq<char>)
    ensures
        forall|i: int| 0 <= i < xml_esc(s).len() ==> #[trigger] xml_esc(s)[i] != '<' && xml_esc(s)[i] != '>'
            && xml_esc(s)[i] != '"',
        (forall|i: int| 0 <= i < s.len() ==> #[trigger] s[i] != '&' && s[i] != '<' && s[i] != '>' && s[i] != '"')
            ==> xml_esc(s) == s,
    decreases s.len(),
{
    if s.len() > 0 {
        let t = s.drop_last();
        law_xml_esc_no_markup(t);
        let c = s.last();
        let r = xml_esc(s);
        assert(r == xml_esc(t) + esc_char(c));
        assert forall|i: int| 0 <= i < r.len() implies #[trigger] r[i] != '<' && r[i] != '>' && r[i] != '"' by {
            if i < xml_esc(t).len() {
                assert(r[i] == xml_esc(t)[i]);
            } else {
                let k = i - xml_esc(t).len();
                assert(r[i] == esc_char(c)[k]);
                if c == '&' {
                    assert("&amp;"@ =~= seq!['&', 'a', 'm', 'p', ';']) by { reveal_strlit("&amp;"); }
                } else if c == '<' {
                    assert("&lt;"@ =~= seq!['&', 'l', 't', ';']) by { reveal_strlit("&lt;"); }
                } else if c == '>' {
                    assert("&gt;"@ =~= seq!['&', 'g', 't', ';']) by { reveal_strlit("&gt;"); }
                } else if c == '"' {
                    assert("&quot;"@ =~= seq!['&', 'q', 'u', 'o', 't', ';']) by { reveal_strlit("&quot;"); }
                }
            }
        }
        if forall|i: int| 0 <= i < s.len() ==> #[trigger] s[i] != '&' && s[i] != '<' && s[i] != '>' && s[i] != '"' {
            assert forall|i: int| 0 <= i < t.len() implies #[trigger] t[i] != '&' && t[i] != '<' && t[i] != '>' && t[i] != '"' by {
                assert(t[i] == s[i]);
            }
            assert(s[s.len() - 1] == c);
            assert(r =~= s);
        }
    } else {
        assert(xml_esc(s) =~= s);
    }
}

/// Escaping works character by character: the escape of a concatenation is
/// the concatenation of the escapes (so nothing is escaped twice).
pub proof fn law_xml_esc_concat(a: Seq<char>, b: Seq<char>)
    ensures
        xml_esc(a + b) == xml_esc(a) + xml_esc(b),
    decreases b.len(),
{
    if b.len() == 0 {
        assert(a + b =~= a);
        assert(xml_esc(b) =~= Seq::<char>::empty());
        assert(xml_esc(a) + xml_esc(b) =~= xml_esc(a));
    } else {
        law_xml_esc_concat(a, b.drop_last());
        assert((a + b).drop_last() =~= a + b.drop_last());
        assert((a + b).last() == b.last());
        assert(xml_esc(a) + xml_esc(b) =~= xml_esc(a) + xml_esc(b.drop_last()) + esc_char(b.last()));
    }
}

} // verus!
