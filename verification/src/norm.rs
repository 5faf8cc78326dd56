//! URL normalization: the canonical key that makes an entry the same entry
//! across renames, reorders and cosmetic link edits. The `url` crate
//! parses; the folding into a key is this module's own.

use url::Url;
use vstd::prelude::*;
use crate::sort::{
    KeyV, SortKey, key_le, keyed_view, keys_sorted, law_sort_keyed_permutes, law_sort_keyed_sorted,
    lemma_key_le_total, lemma_seq_lt_asym, seq_lt, sort_by_key, sort_keyed,
};
use crate::text::{
    ascii_lower, ascii_lower_vec, chars_of, ends_with, extend, has_prefix, has_suffix, seq_eq,
    slice_vec, starts_with, string_of, strip_prefix, strip_prefix_vec, trim, trim_end_char,
    trim_end_char_vec, trim_vec,
};

verus! {

/// The parts of a parsed URL that the key is made from.
pub struct UrlParts {
    pub scheme: String,
    pub host: Option<String>,
    pub path: String,
    /// Decoded query pairs, in order.
    pub query: Vec<(String, String)>,
}

pub struct UrlPartsV {
    pub scheme: Seq<char>,
    pub host: Option<Seq<char>>,
    pub path: Seq<char>,
    pub query: Seq<(Seq<char>, Seq<char>)>,
}

pub open spec fn pairs_view(q: Seq<(String, String)>) -> Seq<(Seq<char>, Seq<char>)> {
    q.map_values(|p: (String, String)| (p.0@, p.1@))
}

impl View for UrlParts {
    type V = UrlPartsV;

    open spec fn view(&self) -> UrlPartsV {
        UrlPartsV {
            scheme: self.scheme@,
            host: match self.host {
                Some(h) => Some(h@),
                None => None,
            },
            path: self.path@,
            query: pairs_view(self.query@),
        }
    }
}

pub open spec fn parts_opt_view(p: Option<UrlParts>) -> Option<UrlPartsV> {
    match p {
        Some(u) => Some(u@),
        None => None,
    }
}

/// What `url::Url::parse` makes of a string: None when it is not an
/// absolute URL, else its scheme, host, path and query pairs.
pub uninterp spec fn url_parsed(raw: Seq<char>) -> Option<UrlPartsV>;

/// `Url::parse`, read into `UrlParts` (`scheme()`, `host_str()`, `path()`,
/// `query_pairs()`). The parse is named, not stated.
#[verifier::external_body]
fn parse_url(raw: &str) -> (r: Option<UrlParts>)
    ensures
        parts_opt_view(r) == url_parsed(raw@),
{
    match Url::parse(raw) {
        Err(_) => None,
        Ok(u) => Some(UrlParts {
            scheme: u.scheme().to_string(),
            host: u.host_str().map(|h| h.to_string()),
            path: u.path().to_string(),
            query: u.query_pairs().map(|(k, v)| (k.into_owned(), v.into_owned())).collect(),
        }),
    }
}

/// Query keys that only track where a click came from.
pub open spec fn is_tracking(k: Seq<char>) -> bool {
    k == "fbclid"@ || k == "gclid"@ || k == "igshid"@ || k == "mc_cid"@ || k == "mc_eid"@ || k
        == "ref"@ || k == "ref_src"@
}

pub open spec fn keep_param(k: Seq<char>) -> bool {
    !starts_with(k, "utm_"@) && !is_tracking(k)
}

/// The query pairs kept in the key, as sort items.
pub open spec fn kept_pairs(q: Seq<(Seq<char>, Seq<char>)>) -> Seq<(KeyV, ())>
    decreases q.len(),
{
    if q.len() == 0 {
        seq![]
    } else {
        let rest = kept_pairs(q.drop_last());
        let (k, v) = q.last();
        if keep_param(k) {
            rest.push((KeyV { num: 0, first: k, second: v }, ()))
        } else {
            rest
        }
    }
}

/// "?k=v&k2" from sorted pairs; an empty value drops its '='.
pub open spec fn query_string(ps: Seq<(KeyV, ())>) -> Seq<char>
    decreases ps.len(),
{
    if ps.len() == 0 {
        seq![]
    } else {
        let k = ps.last().0.first;
        let v = ps.last().0.second;
        query_string(ps.drop_last()) + seq![
            if ps.len() == 1 {
                '?'
            } else {
                '&'
            },
        ] + k + if v.len() > 0 {
            seq!['='] + v
        } else {
            seq![]
        }
    }
}

pub open spec fn www() -> Seq<char> {
    seq!['w', 'w', 'w', '.']
}

pub open spec fn git_suffix() -> Seq<char> {
    seq!['.', 'g', 'i', 't']
}

/// `h` without any leading "www." (removed as often as it occurs).
pub open spec fn strip_www(h: Seq<char>) -> Seq<char>
    decreases h.len(),
{
    if starts_with(h, www()) {
        strip_www(h.skip(4))
    } else {
        h
    }
}

/// The host lower-cased, without leading "www.".
pub open spec fn key_host(h: Seq<char>) -> Seq<char> {
    strip_www(ascii_lower(h))
}

/// Trimming a character from the end leaves a prefix that does not end
/// with it.
pub proof fn lemma_trim_end_char_len(s: Seq<char>, c: char)
    ensures
        trim_end_char(s, c).len() <= s.len(),
        trim_end_char(s, c).len() == 0 || trim_end_char(s, c).last() != c,
        trim_end_char(s, c) == s.take(trim_end_char(s, c).len() as int),
    decreases s.len(),
{
    if s.len() > 0 && s.last() == c {
        lemma_trim_end_char_len(s.drop_last(), c);
        let t = trim_end_char(s.drop_last(), c);
        assert(s.drop_last().take(t.len() as int) =~= s.take(t.len() as int));
    } else {
        assert(s.take(s.len() as int) =~= s);
    }
}

/// The path with trailing slashes and ".git" endings cut until neither is
/// left.
pub open spec fn key_path(p: Seq<char>) -> Seq<char>
    decreases p.len(),
{
    let t = trim_end_char(p, '/');
    proof {
        lemma_trim_end_char_len(p, '/');
    }
    if ends_with(t, git_suffix()) {
        key_path(t.take(t.len() - 4))
    } else {
        t
    }
}

/// The key's host and path carry no "www." prefix, no trailing slash and
/// no ".git" ending.
pub proof fn law_key_parts_are_bare(h: Seq<char>, p: Seq<char>)
    ensures
        !starts_with(key_host(h), www()),
        !ends_with(key_path(p), seq!['/']),
        !ends_with(key_path(p), git_suffix()),
    decreases p.len(),
{
    lemma_strip_www_bare(ascii_lower(h));
    let t = trim_end_char(p, '/');
    lemma_trim_end_char_len(p, '/');
    if ends_with(t, git_suffix()) {
        law_key_parts_are_bare(h, t.take(t.len() - 4));
    } else {
        if ends_with(t, seq!['/']) {
            assert(t.skip(t.len() - 1)[0] == t.last());
        }
    }
}

/// No "www." is left at the front once stripped.
pub proof fn lemma_strip_www_bare(h: Seq<char>)
    ensures
        !starts_with(strip_www(h), www()),
    decreases h.len(),
{
    if starts_with(h, www()) {
        lemma_strip_www_bare(h.skip(4));
    }
}

/// The canonical key of parsed URL parts: https, lower-cased host without
/// www, no trailing slash, no `.git` ending, no fragment, tracking params dropped,
/// the remaining query sorted. None unless http(s) with a host.
pub open spec fn canonical_of(p: Option<UrlPartsV>) -> Option<Seq<char>> {
    match p {
        None => None,
        Some(u) => if u.scheme != "http"@ && u.scheme != "https"@ {
            None
        } else {
            match u.host {
                None => None,
                Some(h) => Some(
                    "https://"@ + key_host(h) + key_path(u.path) + query_string(
                        sort_keyed(kept_pairs(u.query)),
                    ),
                ),
            }
        },
    }
}

/// The canonical key of a raw link (surrounding white space ignored).
pub open spec fn canonical_spec(raw: Seq<char>) -> Option<Seq<char>> {
    canonical_of(url_parsed(trim(raw)))
}

fn is_tracking_exec(k: &[char]) -> (r: bool)
    ensures
        r == is_tracking(k@),
{
    let c0 = chars_of("fbclid");
    let c1 = chars_of("gclid");
    let c2 = chars_of("igshid");
    let c3 = chars_of("mc_cid");
    let c4 = chars_of("mc_eid");
    let c5 = chars_of("ref");
    let c6 = chars_of("ref_src");
    seq_eq(k, &c0) || seq_eq(k, &c1) || seq_eq(k, &c2) || seq_eq(k, &c3) || seq_eq(k, &c4)
        || seq_eq(k, &c5) || seq_eq(k, &c6)
}

/// The canonical key of parsed URL parts (see `canonical_of`).
pub fn canonical_from(parts: Option<UrlParts>) -> (r: Option<String>)
    ensures
        match r {
            Some(s) => canonical_of(parts_opt_view(parts)) == Some(s@),
            None => canonical_of(parts_opt_view(parts)) is None,
        },
{
    let u = match parts {
        None => {
            return None;
        },
        Some(u) => u,
    };
    let scheme = chars_of(u.scheme.as_str());
    let http = chars_of("http");
    let https = chars_of("https");
    if !seq_eq(&scheme, &http) && !seq_eq(&scheme, &https) {
        return None;
    }
    let host = match &u.host {
        None => {
            return None;
        },
        Some(h) => chars_of(h.as_str()),
    };
    let mut host = ascii_lower_vec(&host);
    let ghost h0 = host@;
    let www_v = vec!['w', 'w', 'w', '.'];
    assert(www_v@ =~= www());
    while has_prefix(&host, &www_v)
        invariant
            strip_www(host@) == strip_www(h0),
            www_v@ == www(),
        decreases host.len(),
    {
        host = slice_vec(&host, 4, host.len());
    }
    let mut path = chars_of(u.path.as_str());
    let ghost p0 = path@;
    let git = vec!['.', 'g', 'i', 't'];
    assert(git@ =~= git_suffix());
    loop
        invariant_except_break
            key_path(path@) == key_path(p0),
        invariant
            git@ == git_suffix(),
        ensures
            path@ == key_path(p0),
        decreases path.len(),
    {
        let t = trim_end_char_vec(&path, '/');
        proof {
            lemma_trim_end_char_len(path@, '/');
        }
        if has_suffix(&t, &git) {
            path = slice_vec(&t, 0, t.len() - 4);
        } else {
            path = t;
            break;
        }
    }
    // Kept pairs, as sort items.
    let ghost q = pairs_view(u.query@);
    let mut items: Vec<(SortKey, ())> = Vec::new();
    let mut i: usize = 0;
    while i < u.query.len()
        invariant
            i <= u.query.len(),
            q == pairs_view(u.query@),
            keyed_view(items@) == kept_pairs(q.take(i as int)),
        decreases u.query.len() - i,
    {
        proof {
            assert(q.take(i + 1).drop_last() =~= q.take(i as int));
        }
        let k = chars_of(u.query[i].0.as_str());
        let v = chars_of(u.query[i].1.as_str());
        let utm = chars_of("utm_");
        if !has_prefix(&k, &utm) && !is_tracking_exec(&k) {
            let ghost before = keyed_view(items@);
            items.push((SortKey { num: 0, first: k, second: v }, ()));
            assert(keyed_view(items@) =~= before.push(
                (KeyV { num: 0, first: q[i as int].0, second: q[i as int].1 }, ()),
            ));
        }
        i += 1;
    }
    assert(q.take(u.query.len() as int) =~= q);
    let sorted = sort_by_key(items);
    let mut key = chars_of("https://");
    extend(&mut key, &host);
    extend(&mut key, &path);
    let ghost head = key@;
    let ghost sv = keyed_view(sorted@);
    let mut j: usize = 0;
    while j < sorted.len()
        invariant
            j <= sorted.len(),
            sv == keyed_view(sorted@),
            key@ == head + query_string(sv.take(j as int)),
        decreases sorted.len() - j,
    {
        proof {
            assert(sv.take(j + 1).drop_last() =~= sv.take(j as int));
        }
        key.push(if j == 0 { '?' } else { '&' });
        extend(&mut key, &sorted[j].0.first);
        if sorted[j].0.second.len() > 0 {
            key.push('=');
            extend(&mut key, &sorted[j].0.second);
        }
        assert(key@ =~= head + query_string(sv.take(j + 1)));
        j += 1;
    }
    assert(sv.take(sorted.len() as int) =~= sv);
    Some(string_of(&key))
}

/// Canonical key for an entry URL; None for non-http(s) links (anchors,
/// mailto, relative paths): those are not entries.
pub fn canonical(raw: &str) -> (r: Option<String>)
    ensures
        match r {
            Some(s) => canonical_spec(raw@) == Some(s@),
            None => canonical_spec(raw@) is None,
        },
{
    let v = chars_of(raw);
    let t = trim_vec(&v);
    let ts = string_of(&t);
    canonical_from(parse_url(ts.as_str()))
}

/// Cosmetic edits of a link keep its key: the scheme (http or https), the
/// case of the host, trailing slashes on the path, and tracking parameters
/// added to the query make no difference. (The fragment never enters the
/// key: the parsed parts carry none.)
pub proof fn law_cosmetic_edits_keep_key(u: UrlPartsV, k: Seq<char>, v: Seq<char>)
    requires
        u.scheme == "http"@ || u.scheme == "https"@,
    ensures
        canonical_of(Some(UrlPartsV { scheme: "https"@, ..u })) == canonical_of(Some(u)),
        canonical_of(Some(UrlPartsV { path: u.path.push('/'), ..u })) == canonical_of(Some(u)),
        !keep_param(k) ==> canonical_of(Some(UrlPartsV { query: u.query.push((k, v)), ..u }))
            == canonical_of(Some(u)),
        u.host matches Some(h) ==> canonical_of(Some(UrlPartsV { host: Some(ascii_lower(h)), ..u }))
            == canonical_of(Some(u)),
{
    let p = u.path.push('/');
    assert(p.drop_last() =~= u.path);
    assert(trim_end_char(p, '/') == trim_end_char(u.path, '/'));
    let q = u.query.push((k, v));
    assert(q.drop_last() =~= u.query);
    match u.host {
        Some(h) => {
            assert(ascii_lower(ascii_lower(h)) =~= ascii_lower(h));
        },
        None => {},
    }
}

proof fn lemma_kept_pairs_concat(a: Seq<(Seq<char>, Seq<char>)>, b: Seq<(Seq<char>, Seq<char>)>)
    ensures
        kept_pairs(a + b) == kept_pairs(a) + kept_pairs(b),
    decreases b.len(),
{
    if b.len() == 0 {
        assert(a + b =~= a);
        assert(kept_pairs(a) + kept_pairs(b) =~= kept_pairs(a));
    } else {
        lemma_kept_pairs_concat(a, b.drop_last());
        assert((a + b).drop_last() =~= a + b.drop_last());
        assert((a + b).last() == b.last());
        let (k, v) = b.last();
        if keep_param(k) {
            assert(kept_pairs(a) + kept_pairs(b) =~= (kept_pairs(a) + kept_pairs(b.drop_last())).push(
                (KeyV { num: 0, first: k, second: v }, ()),
            ));
        }
    }
}

proof fn lemma_key_le_antisym(a: KeyV, b: KeyV)
    requires
        key_le(a, b),
        key_le(b, a),
    ensures
        a == b,
{
    if seq_lt(a.first, b.first) {
        lemma_seq_lt_asym(a.first, b.first);
    }
    if seq_lt(b.first, a.first) {
        lemma_seq_lt_asym(b.first, a.first);
    }
    if seq_lt(a.second, b.second) {
        lemma_seq_lt_asym(a.second, b.second);
    }
    if seq_lt(b.second, a.second) {
        lemma_seq_lt_asym(b.second, a.second);
    }
}

/// Two sorted sequences of the same elements are the same sequence.
proof fn lemma_sorted_unique(a: Seq<(KeyV, ())>, b: Seq<(KeyV, ())>)
    requires
        keys_sorted(a),
        keys_sorted(b),
        a.to_multiset() == b.to_multiset(),
    ensures
        a == b,
    decreases a.len(),
{
    broadcast use vstd::seq_lib::group_to_multiset_ensures;
    broadcast use vstd::multiset::group_multiset_axioms;

    assert(a.len() == a.to_multiset().len() && b.len() == b.to_multiset().len());
    if a.len() > 0 {
        let x = a.last();
        let y = b.last();
        assert(a.to_multiset().count(x) > 0) by {
            assert(a.contains(x)) by {
                assert(a[a.len() - 1] == x);
            }
        }
        assert(b.contains(x));
        let j = choose|j: int| 0 <= j < b.len() && b[j] == x;
        if j < b.len() - 1 {
            assert(key_le(b[j].0, b[b.len() - 1].0));
        } else {
            lemma_key_le_total(x.0, y.0);
        }
        assert(b.to_multiset().count(y) > 0) by {
            assert(b.contains(y)) by {
                assert(b[b.len() - 1] == y);
            }
        }
        assert(a.contains(y));
        let m = choose|m: int| 0 <= m < a.len() && a[m] == y;
        if m < a.len() - 1 {
            assert(key_le(a[m].0, a[a.len() - 1].0));
        }
        lemma_key_le_total(x.0, y.0);
        lemma_key_le_antisym(x.0, y.0);
        assert(x == y);
        let ta = a.drop_last();
        let tb = b.drop_last();
        assert(a == ta.push(x));
        assert(b == tb.push(y));
        assert(ta.to_multiset() =~= tb.to_multiset()) by {
            broadcast use vstd::seq_lib::to_multiset_build;

            assert(ta.push(x).to_multiset() == ta.to_multiset().insert(x));
            assert(tb.push(x).to_multiset() == tb.to_multiset().insert(x));
            assert forall|e: (KeyV, ())| ta.to_multiset().count(e) == tb.to_multiset().count(e) by {
                assert(a.to_multiset().count(e) == ta.to_multiset().insert(x).count(e));
                assert(b.to_multiset().count(e) == tb.to_multiset().insert(x).count(e));
            }
        }
        assert(keys_sorted(ta)) by {
            assert forall|i: int, k: int| 0 <= i < k < ta.len() implies key_le(#[trigger] ta[i].0, #[trigger] ta[k].0) by {
                assert(ta[i] == a[i] && ta[k] == a[k]);
            }
        }
        assert(keys_sorted(tb)) by {
            assert forall|i: int, k: int| 0 <= i < k < tb.len() implies key_le(#[trigger] tb[i].0, #[trigger] tb[k].0) by {
                assert(tb[i] == b[i] && tb[k] == b[k]);
            }
        }
        lemma_sorted_unique(ta, tb);
    } else {
        assert(b.len() == 0);
        assert(a =~= b);
    }
}

/// The order of the query parameters does not matter: swapping two
/// neighbouring parameters keeps the key (and so does any reordering, a
/// series of such swaps).
pub proof fn law_query_order_ignored(u: UrlPartsV, i: int)
    requires
        0 <= i < u.query.len() - 1,
    ensures
        canonical_of(
            Some(UrlPartsV { query: u.query.update(i, u.query[i + 1]).update(i + 1, u.query[i]), ..u }),
        ) == canonical_of(Some(u)),
{
    broadcast use vstd::seq_lib::group_to_multiset_ensures;
    broadcast use vstd::multiset::group_multiset_axioms;
    broadcast use vstd::seq_lib::lemma_multiset_commutative;

    let q = u.query;
    let q2 = q.update(i, q[i + 1]).update(i + 1, q[i]);
    let pre = q.take(i);
    let post = q.skip(i + 2);
    let xy = seq![q[i], q[i + 1]];
    let yx = seq![q[i + 1], q[i]];
    assert(q =~= pre + xy + post);
    assert(q2 =~= pre + yx + post);
    lemma_kept_pairs_concat(pre + xy, post);
    lemma_kept_pairs_concat(pre, xy);
    lemma_kept_pairs_concat(pre + yx, post);
    lemma_kept_pairs_concat(pre, yx);
    let kxy = kept_pairs(xy);
    let kyx = kept_pairs(yx);
    assert(kxy.to_multiset() =~= kyx.to_multiset()) by {
        broadcast use vstd::seq_lib::to_multiset_build;

        let e = Seq::<(Seq<char>, Seq<char>)>::empty();
        assert(xy.drop_last() =~= e.push(q[i]));
        assert(yx.drop_last() =~= e.push(q[i + 1]));
        assert(e.push(q[i]).drop_last() =~= e);
        assert(e.push(q[i + 1]).drop_last() =~= e);
        let px = (KeyV { num: 0, first: q[i].0, second: q[i].1 }, ());
        let py = (KeyV { num: 0, first: q[i + 1].0, second: q[i + 1].1 }, ());
        let z = Seq::<(KeyV, ())>::empty();
        assert(kept_pairs(e) == z);
        assert(e.push(q[i]).last() == q[i]);
        assert(e.push(q[i + 1]).last() == q[i + 1]);
        assert(xy.last() == q[i + 1]);
        assert(yx.last() == q[i]);
        let kx = kept_pairs(e.push(q[i]));
        let ky = kept_pairs(e.push(q[i + 1]));
        assert(kx == if keep_param(q[i].0) { z.push(px) } else { z });
        assert(ky == if keep_param(q[i + 1].0) { z.push(py) } else { z });
        assert(kxy == if keep_param(q[i + 1].0) { kx.push(py) } else { kx });
        assert(kyx == if keep_param(q[i].0) { ky.push(px) } else { ky });
        if keep_param(q[i].0) && keep_param(q[i + 1].0) {
            assert(kxy == z.push(px).push(py));
            assert(kyx == z.push(py).push(px));
            assert(z.push(px).push(py).to_multiset() == z.push(px).to_multiset().insert(py));
            assert(z.push(px).to_multiset() == z.to_multiset().insert(px));
            assert(z.push(py).push(px).to_multiset() == z.push(py).to_multiset().insert(px));
            assert(z.push(py).to_multiset() == z.to_multiset().insert(py));
            assert forall|w: (KeyV, ())| kxy.to_multiset().count(w) == kyx.to_multiset().count(w) by {}
        } else if keep_param(q[i].0) {
            assert(kxy == z.push(px));
            assert(kyx == z.push(px));
        } else if keep_param(q[i + 1].0) {
            assert(kxy == z.push(py));
            assert(kyx == z.push(py));
        } else {
            assert(kxy == z);
            assert(kyx == z);
        }
    }
    let k1 = kept_pairs(q);
    let k2 = kept_pairs(q2);
    assert(k1 == kept_pairs(pre) + kxy + kept_pairs(post));
    assert(k2 == kept_pairs(pre) + kyx + kept_pairs(post));
    assert(k1.to_multiset() =~= k2.to_multiset());
    law_sort_keyed_sorted(k1);
    law_sort_keyed_sorted(k2);
    law_sort_keyed_permutes(k1);
    law_sort_keyed_permutes(k2);
    lemma_sorted_unique(sort_keyed(k1), sort_keyed(k2));
}

} // verus!
