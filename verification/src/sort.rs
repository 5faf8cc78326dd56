//! Stable ordering by a three-part key: an integer, then two strings in
//! the lexicographic order of their characters (the order of `String`'s
//! `Ord`, since UTF-8 preserves code point order).

use vstd::prelude::*;

verus! {

/// Lexicographic `<` on character sequences.
pub open spec fn seq_lt(a: Seq<char>, b: Seq<char>) -> bool
    decreases a.len(),
{
    if a.len() == 0 {
        b.len() > 0
    } else if b.len() == 0 {
        false
    } else if a[0] != b[0] {
        a[0] < b[0]
    } else {
        seq_lt(a.drop_first(), b.drop_first())
    }
}

pub proof fn lemma_seq_lt_irrefl(a: Seq<char>)
    ensures
        !seq_lt(a, a),
    decreases a.len(),
{
    if a.len() > 0 {
        lemma_seq_lt_irrefl(a.drop_first());
    }
}

pub proof fn lemma_seq_lt_trans(a: Seq<char>, b: Seq<char>, c: Seq<char>)
    requires
        seq_lt(a, b),
        seq_lt(b, c),
    ensures
        seq_lt(a, c),
    decreases a.len(),
{
    if a.len() > 0 && b.len() > 0 && c.len() > 0 && a[0] == b[0] && b[0] == c[0] {
        lemma_seq_lt_trans(a.drop_first(), b.drop_first(), c.drop_first());
    }
}

pub proof fn lemma_seq_lt_total(a: Seq<char>, b: Seq<char>)
    ensures
        a == b || seq_lt(a, b) || seq_lt(b, a),
    decreases a.len(),
{
    if a.len() > 0 && b.len() > 0 && a[0] == b[0] {
        let a1 = a.drop_first();
        let b1 = b.drop_first();
        lemma_seq_lt_total(a1, b1);
        if a1 == b1 {
            assert(a1.len() == b1.len());
            assert(a.len() == a1.len() + 1 && b.len() == b1.len() + 1);
            assert forall|i: int| 0 <= i < a.len() implies a[i] == b[i] by {
                if i > 0 {
                    assert(a[i] == a1[i - 1]);
                    assert(b[i] == b1[i - 1]);
                }
            }
            assert(a =~= b);
        }
    } else if a.len() == 0 && b.len() == 0 {
        assert(a =~= b);
    }
}

pub proof fn lemma_seq_lt_asym(a: Seq<char>, b: Seq<char>)
    requires
        seq_lt(a, b),
    ensures
        !seq_lt(b, a),
        a != b,
    decreases a.len(),
{
    lemma_seq_lt_irrefl(a);
    if a.len() > 0 && b.len() > 0 && a[0] == b[0] {
        lemma_seq_lt_asym(a.drop_first(), b.drop_first());
    }
}

pub open spec fn seq_le(a: Seq<char>, b: Seq<char>) -> bool {
    a == b || seq_lt(a, b)
}

/// Lexicographic comparison: `Some(true)` for `<`, `Some(false)` for `>`,
/// `None` for equal.
pub fn compare_chars(a: &[char], b: &[char]) -> (r: Option<bool>)
    ensures
        match r {
            Some(lt) => a@ != b@ && lt == seq_lt(a@, b@) && !lt == seq_lt(b@, a@),
            None => a@ == b@,
        },
{
    let mut i: usize = 0;
    assert(a@.skip(0) == a@ && b@.skip(0) == b@);
    while i < a.len() && i < b.len()
        invariant
            i <= a.len() && i <= b.len(),
            a@.take(i as int) == b@.take(i as int),
            seq_lt(a@, b@) == seq_lt(a@.skip(i as int), b@.skip(i as int)),
            seq_lt(b@, a@) == seq_lt(b@.skip(i as int), a@.skip(i as int)),
        decreases a.len() - i,
    {
        assert(a@.skip(i as int)[0] == a@[i as int]);
        assert(b@.skip(i as int)[0] == b@[i as int]);
        if a[i] != b[i] {
            assert(a@[i as int] != b@[i as int]);
            assert(a@[i as int] != b@[i as int] ==> a@ != b@);
            assert(seq_lt(a@.skip(i as int), b@.skip(i as int)) == (a@[i as int] < b@[i as int]));
            assert(seq_lt(b@.skip(i as int), a@.skip(i as int)) == (b@[i as int] < a@[i as int]));
            let lt = a[i] < b[i];
            return Some(lt);
        }
        assert(a@.skip(i as int).drop_first() == a@.skip(i + 1));
        assert(b@.skip(i as int).drop_first() == b@.skip(i + 1));
        assert(a@.take(i + 1) == a@.take(i as int).push(a@[i as int]));
        assert(b@.take(i + 1) == b@.take(i as int).push(b@[i as int]));
        i += 1;
    }
    if a.len() == b.len() {
        assert(a@ == a@.take(i as int) && b@ == b@.take(i as int));
        None
    } else {
        proof {
            if a.len() < b.len() {
                assert(a@.skip(i as int).len() == 0);
                assert(a@ == b@.take(a.len() as int));
            } else {
                assert(b@.skip(i as int).len() == 0);
                assert(b@ == a@.take(b.len() as int));
            }
        }
        Some(a.len() < b.len())
    }
}

/// A sort key: compared by `num`, then `first`, then `second`.
pub struct SortKey {
    pub num: i64,
    pub first: Vec<char>,
    pub second: Vec<char>,
}

/// The model of a sort key.
pub struct KeyV {
    pub num: int,
    pub first: Seq<char>,
    pub second: Seq<char>,
}

impl View for SortKey {
    type V = KeyV;

    open spec fn view(&self) -> KeyV {
        KeyV { num: self.num as int, first: self.first@, second: self.second@ }
    }
}

pub open spec fn key_le(a: KeyV, b: KeyV) -> bool {
    a.num < b.num || (a.num == b.num && (seq_lt(a.first, b.first) || (a.first == b.first
        && seq_le(a.second, b.second))))
}

pub open spec fn keyed_view<T>(s: Seq<(SortKey, T)>) -> Seq<(KeyV, T)> {
    s.map_values(|p: (SortKey, T)| (p.0@, p.1))
}

pub fn key_le_exec(a: &SortKey, b: &SortKey) -> (r: bool)
    ensures
        r == key_le(a@, b@),
{
    if a.num != b.num {
        return a.num < b.num;
    }
    proof {
        lemma_seq_lt_irrefl(a.first@);
    }
    match compare_chars(&a.first, &b.first) {
        Some(lt) => lt,
        None => match compare_chars(&a.second, &b.second) {
            Some(lt) => lt,
            None => true,
        },
    }
}

/// `x` inserted into `s` after every element whose key is not above its own.
pub open spec fn insert_keyed<T>(s: Seq<(KeyV, T)>, x: (KeyV, T)) -> Seq<(KeyV, T)>
    decreases s.len(),
{
    if s.len() == 0 || key_le(s.last().0, x.0) {
        s.push(x)
    } else {
        insert_keyed(s.drop_last(), x).push(s.last())
    }
}

/// Stable sort by key: the elements in key order, equal keys in their
/// input order.
pub open spec fn sort_keyed<T>(s: Seq<(KeyV, T)>) -> Seq<(KeyV, T)>
    decreases s.len(),
{
    if s.len() == 0 {
        s
    } else {
        insert_keyed(sort_keyed(s.drop_last()), s.last())
    }
}

proof fn lemma_insert_at<T>(s: Seq<(KeyV, T)>, x: (KeyV, T), p: int)
    requires
        0 <= p <= s.len(),
        p == 0 || key_le(s[p - 1].0, x.0),
        forall|j: int| p <= j < s.len() ==> !key_le(#[trigger] s[j].0, x.0),
    ensures
        insert_keyed(s, x) == s.take(p).push(x) + s.skip(p),
    decreases s.len(),
{
    if s.len() == 0 {
        assert(s.take(p).push(x) + s.skip(p) =~= s.push(x));
    } else if p == s.len() {
        assert(s.take(p).push(x) + s.skip(p) =~= s.push(x));
    } else {
        let t = s.drop_last();
        assert forall|j: int| p <= j < t.len() implies !key_le(#[trigger] t[j].0, x.0) by {
            assert(t[j] == s[j]);
        }
        if p > 0 {
            assert(t[p - 1] == s[p - 1]);
        }
        lemma_insert_at(t, x, p);
        assert(s.take(p).push(x) + s.skip(p) =~= (t.take(p).push(x) + t.skip(p)).push(s.last()));
    }
}

/// Stable sort of keyed items (see `sort_keyed`).
pub fn sort_by_key<T>(items: Vec<(SortKey, T)>) -> (r: Vec<(SortKey, T)>)
    ensures
        keyed_view(r@) == sort_keyed(keyed_view(items@)),
{
    let ghost src = items@;
    let ghost srcv = keyed_view(items@);
    let mut out: Vec<(SortKey, T)> = Vec::new();
    let ghost mut n: int = 0;
    for x in it: items
        invariant
            src == it.seq(),
            n == it.index(),
            srcv == keyed_view(src),
            keyed_view(out@) == sort_keyed(srcv.take(n)),
    {
        proof {
            assert(srcv.take(n + 1).drop_last() =~= srcv.take(n));
        }
        let mut p = out.len();
        while p > 0 && !key_le_exec(&out[p - 1].0, &x.0)
            invariant
                p <= out.len(),
                forall|j: int| p <= j < out@.len() ==> !key_le(#[trigger] out@[j].0@, x.0@),
            decreases p,
        {
            p -= 1;
        }
        let ghost xv = (x.0@, x.1);
        proof {
            let ov = keyed_view(out@);
            assert forall|j: int| p <= j < ov.len() implies !key_le(#[trigger] ov[j].0, xv.0) by {
                assert(ov[j].0 == out@[j].0@);
            }
            lemma_insert_at(ov, xv, p as int);
            assert(src[n] == x);
            assert(srcv.take(n + 1).last() == xv);
        }
        let ghost before = keyed_view(out@);
        out.insert(p, x);
        assert(keyed_view(out@) =~= before.take(p as int).push(xv) + before.skip(p as int));
        proof {
            n = n + 1;
        }
    }
    assert(srcv.take(n) =~= srcv);
    out
}


pub open spec fn map_payload<T, U>(s: Seq<(KeyV, T)>, f: spec_fn(T) -> U) -> Seq<(KeyV, U)> {
    s.map_values(|p: (KeyV, T)| (p.0, f(p.1)))
}

proof fn lemma_insert_keyed_map<T, U>(s: Seq<(KeyV, T)>, x: (KeyV, T), f: spec_fn(T) -> U)
    ensures
        insert_keyed(map_payload(s, f), (x.0, f(x.1))) == map_payload(insert_keyed(s, x), f),
    decreases s.len(),
{
    let ms = map_payload(s, f);
    if s.len() == 0 || key_le(s.last().0, x.0) {
        assert(map_payload(s.push(x), f) =~= ms.push((x.0, f(x.1))));
    } else {
        assert(ms.drop_last() =~= map_payload(s.drop_last(), f));
        lemma_insert_keyed_map(s.drop_last(), x, f);
        let t = insert_keyed(s.drop_last(), x);
        assert(map_payload(t.push(s.last()), f) =~= map_payload(t, f).push((s.last().0, f(s.last().1))));
    }
}

/// Sorting by key does not look at the payload.
pub proof fn lemma_sort_keyed_map<T, U>(s: Seq<(KeyV, T)>, f: spec_fn(T) -> U)
    ensures
        sort_keyed(map_payload(s, f)) == map_payload(sort_keyed(s), f),
    decreases s.len(),
{
    if s.len() > 0 {
        let ms = map_payload(s, f);
        assert(ms.drop_last() =~= map_payload(s.drop_last(), f));
        lemma_sort_keyed_map(s.drop_last(), f);
        lemma_insert_keyed_map(sort_keyed(s.drop_last()), s.last(), f);
    }
}


proof fn lemma_insert_keyed_contains<T>(s: Seq<(KeyV, T)>, x: (KeyV, T))
    ensures
        insert_keyed(s, x).len() == s.len() + 1,
        forall|i: int| 0 <= i < insert_keyed(s, x).len() ==> #[trigger] insert_keyed(s, x)[i] == x || s.contains(insert_keyed(s, x)[i]),
    decreases s.len(),
{
    if s.len() == 0 || key_le(s.last().0, x.0) {
        assert forall|i: int| 0 <= i < insert_keyed(s, x).len() implies #[trigger] insert_keyed(s, x)[i] == x || s.contains(insert_keyed(s, x)[i]) by {
            if i < s.len() {
                assert(insert_keyed(s, x)[i] == s[i]);
            }
        }
    } else {
        let t = s.drop_last();
        lemma_insert_keyed_contains(t, x);
        assert forall|i: int| 0 <= i < insert_keyed(s, x).len() implies #[trigger] insert_keyed(s, x)[i] == x || s.contains(insert_keyed(s, x)[i]) by {
            if i < insert_keyed(t, x).len() {
                let y = insert_keyed(t, x)[i];
                assert(insert_keyed(s, x)[i] == y);
                if y != x {
                    assert(t.contains(y));
                    let j = choose|j: int| 0 <= j < t.len() && t[j] == y;
                    assert(s[j] == y);
                }
            } else {
                assert(insert_keyed(s, x)[i] == s.last());
                assert(s[s.len() - 1] == s.last());
            }
        }
    }
}

/// Sorting keeps the elements: every element of the result is one of the input.
pub proof fn lemma_sort_keyed_contains<T>(s: Seq<(KeyV, T)>)
    ensures
        sort_keyed(s).len() == s.len(),
        forall|i: int| 0 <= i < sort_keyed(s).len() ==> s.contains(#[trigger] sort_keyed(s)[i]),
    decreases s.len(),
{
    if s.len() > 0 {
        let t = s.drop_last();
        lemma_sort_keyed_contains(t);
        lemma_insert_keyed_contains(sort_keyed(t), s.last());
        assert forall|i: int| 0 <= i < sort_keyed(s).len() implies s.contains(#[trigger] sort_keyed(s)[i]) by {
            let y = sort_keyed(s)[i];
            if y == s.last() {
                assert(s[s.len() - 1] == y);
            } else {
                assert(sort_keyed(t).contains(y));
                let j = choose|j: int| 0 <= j < sort_keyed(t).len() && sort_keyed(t)[j] == y;
                assert(t.contains(sort_keyed(t)[j]));
                let m = choose|m: int| 0 <= m < t.len() && t[m] == y;
                assert(s[m] == y);
            }
        }
    }
}


pub open spec fn keys_sorted<T>(s: Seq<(KeyV, T)>) -> bool {
    forall|i: int, j: int| 0 <= i < j < s.len() ==> key_le(#[trigger] s[i].0, #[trigger] s[j].0)
}

proof fn lemma_key_le_trans(a: KeyV, b: KeyV, c: KeyV)
    requires
        key_le(a, b),
        key_le(b, c),
    ensures
        key_le(a, c),
{
    if a.num == b.num && b.num == c.num {
        if seq_lt(a.first, b.first) && seq_lt(b.first, c.first) {
            lemma_seq_lt_trans(a.first, b.first, c.first);
        }
        if a.first == b.first && b.first == c.first {
            if seq_lt(a.second, b.second) && seq_lt(b.second, c.second) {
                lemma_seq_lt_trans(a.second, b.second, c.second);
            }
        }
    }
}

pub proof fn lemma_key_le_total(a: KeyV, b: KeyV)
    ensures
        key_le(a, b) || key_le(b, a),
{
    lemma_seq_lt_total(a.first, b.first);
    lemma_seq_lt_total(a.second, b.second);
}

proof fn lemma_insert_keyed_sorted<T>(s: Seq<(KeyV, T)>, x: (KeyV, T))
    requires
        keys_sorted(s),
    ensures
        keys_sorted(insert_keyed(s, x)),
    decreases s.len(),
{
    lemma_insert_keyed_contains(s, x);
    if s.len() == 0 || key_le(s.last().0, x.0) {
        let r = s.push(x);
        assert forall|i: int, j: int| 0 <= i < j < r.len() implies key_le(#[trigger] r[i].0, #[trigger] r[j].0) by {
            if j == s.len() as int && i < s.len() - 1 {
                assert(r[i] == s[i]);
                assert(key_le(s[i].0, s[s.len() - 1].0));
                lemma_key_le_trans(s[i].0, s[s.len() - 1].0, x.0);
            } else if j < s.len() {
                assert(r[i] == s[i] && r[j] == s[j]);
            }
        }
    } else {
        let t = s.drop_last();
        let last = s.last();
        assert(keys_sorted(t)) by {
            assert forall|i: int, j: int| 0 <= i < j < t.len() implies key_le(#[trigger] t[i].0, #[trigger] t[j].0) by {
                assert(t[i] == s[i] && t[j] == s[j]);
            }
        }
        lemma_insert_keyed_sorted(t, x);
        lemma_insert_keyed_contains(t, x);
        lemma_key_le_total(last.0, x.0);
        let u = insert_keyed(t, x);
        let r = u.push(last);
        assert forall|i: int, j: int| 0 <= i < j < r.len() implies key_le(#[trigger] r[i].0, #[trigger] r[j].0) by {
            if j == u.len() as int {
                assert(r[i] == u[i]);
                if u[i] != x {
                    assert(t.contains(u[i]));
                    let m = choose|m: int| 0 <= m < t.len() && t[m] == u[i];
                    assert(s[m] == t[m]);
                    assert(key_le(s[m].0, s[s.len() - 1].0));
                }
            } else {
                assert(r[i] == u[i] && r[j] == u[j]);
            }
        }
    }
}

/// Sorting orders by key: every element's key is at most the key of each
/// element after it.
pub proof fn law_sort_keyed_sorted<T>(s: Seq<(KeyV, T)>)
    ensures
        keys_sorted(sort_keyed(s)),
    decreases s.len(),
{
    if s.len() > 0 {
        law_sort_keyed_sorted(s.drop_last());
        lemma_insert_keyed_sorted(sort_keyed(s.drop_last()), s.last());
    }
}

proof fn lemma_insert_keyed_multiset<T>(s: Seq<(KeyV, T)>, x: (KeyV, T))
    ensures
        insert_keyed(s, x).to_multiset() == s.to_multiset().insert(x),
    decreases s.len(),
{
    broadcast use vstd::seq_lib::to_multiset_build;
    broadcast use vstd::multiset::group_multiset_axioms;

    if s.len() == 0 || key_le(s.last().0, x.0) {
    } else {
        let t = s.drop_last();
        lemma_insert_keyed_multiset(t, x);
        assert(s == t.push(s.last()));
        assert(insert_keyed(s, x).to_multiset() =~= s.to_multiset().insert(x));
    }
}

/// Sorting neither drops nor adds an element: the result is a permutation
/// of the input.
pub proof fn law_sort_keyed_permutes<T>(s: Seq<(KeyV, T)>)
    ensures
        sort_keyed(s).to_multiset() == s.to_multiset(),
    decreases s.len(),
{
    broadcast use vstd::seq_lib::to_multiset_build;

    if s.len() > 0 {
        let t = s.drop_last();
        law_sort_keyed_permutes(t);
        lemma_insert_keyed_multiset(sort_keyed(t), s.last());
        assert(s == t.push(s.last()));
    }
}

/// The payloads of `s` differ pairwise under `f`.
pub open spec fn distinct_by<T, U>(s: Seq<(KeyV, T)>, f: spec_fn(T) -> U) -> bool {
    forall|i: int, j: int| 0 <= i < j < s.len() ==> f(#[trigger] s[i].1) != f(#[trigger] s[j].1)
}

proof fn lemma_insert_keyed_distinct<T, U>(s: Seq<(KeyV, T)>, x: (KeyV, T), f: spec_fn(T) -> U)
    requires
        distinct_by(s, f),
        forall|i: int| 0 <= i < s.len() ==> f(#[trigger] s[i].1) != f(x.1),
    ensures
        distinct_by(insert_keyed(s, x), f),
        insert_keyed(s, x).len() == s.len() + 1,
        forall|i: int|
            0 <= i < insert_keyed(s, x).len() ==> #[trigger] insert_keyed(s, x)[i] == x || s.contains(
                insert_keyed(s, x)[i],
            ),
    decreases s.len(),
{
    if s.len() == 0 || key_le(s.last().0, x.0) {
        let r = s.push(x);
        assert forall|i: int| 0 <= i < r.len() implies #[trigger] r[i] == x || s.contains(r[i]) by {
            if i < s.len() {
                assert(r[i] == s[i]);
            }
        }
    } else {
        let t = s.drop_last();
        assert forall|i: int, j: int| 0 <= i < j < t.len() implies f(#[trigger] t[i].1) != f(#[trigger] t[j].1) by {
            assert(t[i] == s[i] && t[j] == s[j]);
        }
        assert forall|i: int| 0 <= i < t.len() implies f(#[trigger] t[i].1) != f(x.1) by {
            assert(t[i] == s[i]);
        }
        lemma_insert_keyed_distinct(t, x, f);
        let q = insert_keyed(t, x);
        let r = q.push(s.last());
        assert(insert_keyed(s, x) == r);
        assert forall|i: int| 0 <= i < q.len() implies f(#[trigger] q[i].1) != f(s.last().1) by {
            if q[i] == x {
                assert(f(s[s.len() - 1].1) != f(x.1));
            } else {
                assert(t.contains(q[i]));
                let m = choose|m: int| 0 <= m < t.len() && t[m] == q[i];
                assert(s[m] == q[i]);
                assert(f(s[m].1) != f(s[s.len() - 1].1));
            }
        }
        assert forall|i: int, j: int| 0 <= i < j < r.len() implies f(#[trigger] r[i].1) != f(#[trigger] r[j].1) by {
            if j == r.len() - 1 {
                assert(r[i] == q[i]);
            } else {
                assert(r[i] == q[i] && r[j] == q[j]);
            }
        }
        assert forall|i: int| 0 <= i < r.len() implies #[trigger] r[i] == x || s.contains(r[i]) by {
            if i == r.len() - 1 {
                assert(s[s.len() - 1] == r[i]);
            } else {
                assert(r[i] == q[i]);
                if q[i] != x {
                    assert(t.contains(q[i]));
                    let m = choose|m: int| 0 <= m < t.len() && t[m] == q[i];
                    assert(s[m] == q[i]);
                }
            }
        }
    }
}

/// Sorting keeps payloads that differ pairwise under `f` apart.
pub proof fn lemma_sort_keyed_distinct<T, U>(s: Seq<(KeyV, T)>, f: spec_fn(T) -> U)
    requires
        distinct_by(s, f),
    ensures
        distinct_by(sort_keyed(s), f),
    decreases s.len(),
{
    if s.len() > 0 {
        let t = s.drop_last();
        assert forall|i: int, j: int| 0 <= i < j < t.len() implies f(#[trigger] t[i].1) != f(#[trigger] t[j].1) by {
            assert(t[i] == s[i] && t[j] == s[j]);
        }
        lemma_sort_keyed_distinct(t, f);
        lemma_sort_keyed_contains(t);
        let st = sort_keyed(t);
        assert forall|i: int| 0 <= i < st.len() implies f(#[trigger] st[i].1) != f(s.last().1) by {
            assert(t.contains(st[i]));
            let m = choose|m: int| 0 <= m < t.len() && t[m] == st[i];
            assert(s[m] == st[i]);
            assert(f(s[m].1) != f(s[s.len() - 1].1));
        }
        lemma_insert_keyed_distinct(st, s.last(), f);
    }
}

} // verus!
