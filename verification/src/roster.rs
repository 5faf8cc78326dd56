//! The enrolled lists, keyed by lower-cased "owner/repo" and kept in key
//! order (the order of a `BTreeMap<String, _>`).

use vstd::prelude::*;
use crate::date::Date;
use crate::model::{ListInfo, ListInfoV, full_name, lists_view};
use crate::registry::{Registry, blocked_spec};
use crate::sort::{compare_chars, lemma_seq_lt_asym, lemma_seq_lt_irrefl, lemma_seq_lt_total, lemma_seq_lt_trans, seq_lt};
use crate::text::{chars_of, contains_seq, extend_str, string_of, to_lower, unicode_lower, vecs_view};

verus! {

/// Roster key of a list: lower-cased "owner/repo".
pub open spec fn list_key(owner: Seq<char>, repo: Seq<char>) -> Seq<char> {
    unicode_lower(full_name(owner, repo))
}

pub open spec fn sorted_strict(s: Seq<(Seq<char>, ListInfoV)>) -> bool {
    forall|i: int, j: int| 0 <= i < j < s.len() ==> seq_lt(#[trigger] s[i].0, #[trigger] s[j].0)
}

/// The record under a key.
pub open spec fn lookup(s: Seq<(Seq<char>, ListInfoV)>, k: Seq<char>) -> Option<ListInfoV>
    decreases s.len(),
{
    if s.len() == 0 {
        None
    } else if s.last().0 == k {
        Some(s.last().1)
    } else {
        lookup(s.drop_last(), k)
    }
}

/// The record a run of `BTreeMap::insert`s of lists leaves under a key:
/// the last list with that key.
pub open spec fn list_lookup(ls: Seq<ListInfoV>, k: Seq<char>) -> Option<ListInfoV>
    decreases ls.len(),
{
    if ls.len() == 0 {
        None
    } else if list_key(ls.last().owner, ls.last().repo) == k {
        Some(ls.last())
    } else {
        list_lookup(ls.drop_last(), k)
    }
}

/// The map a roster holds.
pub open spec fn rmap(s: Seq<(Seq<char>, ListInfoV)>) -> Map<Seq<char>, ListInfoV> {
    Map::new(|k: Seq<char>| lookup(s, k) is Some, |k: Seq<char>| lookup(s, k).unwrap())
}

/// The record `upsert` leaves: an existing list revives and takes the new
/// category; a new one is enrolled today with no entries.
pub open spec fn upserted(
    old: Option<ListInfoV>,
    owner: Seq<char>,
    repo: Seq<char>,
    category: Seq<char>,
    date: Date,
) -> ListInfoV {
    match old {
        Some(v) => ListInfoV { dead: false, category, ..v },
        None => ListInfoV {
            owner,
            repo,
            category,
            enrolled: Some(date),
            dead: false,
            entries: 0,
        },
    }
}

pub open spec fn upsert_map(
    m: Map<Seq<char>, ListInfoV>,
    owner: Seq<char>,
    repo: Seq<char>,
    category: Seq<char>,
    date: Date,
) -> Map<Seq<char>, ListInfoV> {
    let k = list_key(owner, repo);
    m.insert(
        k,
        upserted(
            if m.dom().contains(k) {
                Some(m[k])
            } else {
                None
            },
            owner,
            repo,
            category,
            date,
        ),
    )
}

/// A record after retirement: lists neither in the index nor pinned die.
pub open spec fn retire_one(
    p: (Seq<char>, ListInfoV),
    in_index: Seq<Seq<char>>,
    pinned: Seq<Seq<char>>,
) -> (Seq<char>, ListInfoV) {
    if !in_index.contains(p.0) && !pinned.contains(p.0) {
        (p.0, ListInfoV { dead: true, ..p.1 })
    } else {
        p
    }
}

/// The records whose list is not on the blocklist.
pub open spec fn unblocked(s: Seq<(Seq<char>, ListInfoV)>, bl: Seq<Seq<char>>) -> Seq<
    (Seq<char>, ListInfoV),
>
    decreases s.len(),
{
    if s.len() == 0 {
        s
    } else {
        let rest = unblocked(s.drop_last(), bl);
        if blocked_spec(bl, s.last().1.owner, s.last().1.repo) {
            rest
        } else {
            rest.push(s.last())
        }
    }
}

/// Keys of the live (not dead) lists, in key order.
pub open spec fn live_of(s: Seq<(Seq<char>, ListInfoV)>) -> Seq<Seq<char>>
    decreases s.len(),
{
    if s.len() == 0 {
        seq![]
    } else {
        let rest = live_of(s.drop_last());
        if s.last().1.dead {
            rest
        } else {
            rest.push(s.last().0)
        }
    }
}

/// At most `limit` of the keys (all of them for None).
pub open spec fn up_to(ks: Seq<Seq<char>>, limit: Option<usize>) -> Seq<Seq<char>> {
    match limit {
        Some(n) => if ks.len() <= n {
            ks
        } else {
            ks.take(n as int)
        },
        None => ks,
    }
}

pub open spec fn retire_map(
    m: Map<Seq<char>, ListInfoV>,
    in_index: Seq<Seq<char>>,
    pinned: Seq<Seq<char>>,
) -> Map<Seq<char>, ListInfoV> {
    Map::new(|k: Seq<char>| m.dom().contains(k), |k: Seq<char>| retire_one((k, m[k]), in_index, pinned).1)
}

pub open spec fn unblocked_map(m: Map<Seq<char>, ListInfoV>, bl: Seq<Seq<char>>) -> Map<
    Seq<char>,
    ListInfoV,
> {
    Map::new(
        |k: Seq<char>| m.dom().contains(k) && !blocked_spec(bl, m[k].owner, m[k].repo),
        |k: Seq<char>| m[k],
    )
}

proof fn lemma_lookup_retire(s: Seq<(Seq<char>, ListInfoV)>, in_index: Seq<Seq<char>>, pinned: Seq<Seq<char>>, k: Seq<char>)
    ensures
        lookup(s.map_values(|p: (Seq<char>, ListInfoV)| retire_one(p, in_index, pinned)), k) == match lookup(s, k) {
            Some(v) => Some(retire_one((k, v), in_index, pinned).1),
            None => None,
        },
    decreases s.len(),
{
    let f = |p: (Seq<char>, ListInfoV)| retire_one(p, in_index, pinned);
    if s.len() > 0 {
        assert(s.map_values(f).drop_last() =~= s.drop_last().map_values(f));
        lemma_lookup_retire(s.drop_last(), in_index, pinned, k);
    }
}

proof fn lemma_lookup_unblocked(s: Seq<(Seq<char>, ListInfoV)>, bl: Seq<Seq<char>>, k: Seq<char>)
    requires
        sorted_strict(s),
    ensures
        lookup(unblocked(s, bl), k) == match lookup(s, k) {
            Some(v) => if blocked_spec(bl, v.owner, v.repo) {
                None
            } else {
                Some(v)
            },
            None => None,
        },
    decreases s.len(),
{
    if s.len() > 0 {
        let t = s.drop_last();
        assert(sorted_strict(t)) by {
            assert forall|i: int, j: int| 0 <= i < j < t.len() implies seq_lt(#[trigger] t[i].0, #[trigger] t[j].0) by {
                assert(t[i] == s[i] && t[j] == s[j]);
            }
        }
        lemma_lookup_unblocked(t, bl, k);
        let u = unblocked(t, bl);
        assert(u.push(s.last()).drop_last() =~= u);
        if s.last().0 == k {
            // k is unique: the rest does not hold it.
            assert forall|i: int| 0 <= i < t.len() implies t[i].0 != k by {
                assert(t[i] == s[i]);
                assert(seq_lt(s[i].0, s[s.len() - 1].0));
                lemma_seq_lt_irrefl(k);
            }
            lemma_lookup_none(t, k);
            lemma_unblocked_keys(t, bl, k);
        }
    }
}

proof fn lemma_unblocked_keys(s: Seq<(Seq<char>, ListInfoV)>, bl: Seq<Seq<char>>, k: Seq<char>)
    requires
        lookup(s, k) is None,
    ensures
        lookup(unblocked(s, bl), k) is None,
    decreases s.len(),
{
    if s.len() > 0 {
        lemma_unblocked_keys(s.drop_last(), bl, k);
        let u = unblocked(s.drop_last(), bl);
        assert(u.push(s.last()).drop_last() =~= u);
    }
}

pub struct Roster {
    entries: Vec<(String, ListInfo)>,
}

impl View for Roster {
    type V = Seq<(Seq<char>, ListInfoV)>;

    closed spec fn view(&self) -> Seq<(Seq<char>, ListInfoV)> {
        self.entries@.map_values(|p: (String, ListInfo)| (p.0@, p.1@))
    }
}

proof fn lemma_lookup_in(s: Seq<(Seq<char>, ListInfoV)>, k: Seq<char>, i: int)
    requires
        sorted_strict(s),
        0 <= i < s.len(),
        s[i].0 == k,
    ensures
        lookup(s, k) == Some(s[i].1),
    decreases s.len(),
{
    if i < s.len() - 1 {
        assert(seq_lt(s[i].0, s[s.len() - 1].0));
        lemma_seq_lt_irrefl(k);
        let t = s.drop_last();
        assert(t[i] == s[i]);
        lemma_lookup_in(t, k, i);
    }
}

proof fn lemma_lookup_none(s: Seq<(Seq<char>, ListInfoV)>, k: Seq<char>)
    requires
        forall|i: int| 0 <= i < s.len() ==> s[i].0 != k,
    ensures
        lookup(s, k) is None,
    decreases s.len(),
{
    if s.len() > 0 {
        let t = s.drop_last();
        assert forall|i: int| 0 <= i < t.len() implies t[i].0 != k by {
            assert(t[i] == s[i]);
        }
        lemma_lookup_none(t, k);
    }
}

/// A roster is determined by its lookups: key order, unique keys.
pub proof fn lemma_lookup_cases(s: Seq<(Seq<char>, ListInfoV)>, k: Seq<char>)
    requires
        sorted_strict(s),
    ensures
        match lookup(s, k) {
            Some(v) => exists|i: int| 0 <= i < s.len() && s[i].0 == k && s[i].1 == v,
            None => forall|i: int| 0 <= i < s.len() ==> s[i].0 != k,
        },
{
    if exists|i: int| 0 <= i < s.len() && s[i].0 == k {
        let i = choose|i: int| 0 <= i < s.len() && s[i].0 == k;
        lemma_lookup_in(s, k, i);
    } else {
        lemma_lookup_none(s, k);
    }
}

impl Roster {
    pub closed spec fn wf(&self) -> bool {
        sorted_strict(self@)
    }

    pub fn new() -> (r: Roster)
        ensures
            r.wf(),
            r@.len() == 0,
    {
        Roster { entries: Vec::new() }
    }

    pub fn len(&self) -> (r: usize)
        ensures
            r == self@.len(),
    {
        self.entries.len()
    }

    /// Position where `k` is or would go.
    fn position(&self, k: &[char]) -> (r: (usize, bool))
        requires
            self.wf(),
        ensures
            r.0 <= self@.len(),
            forall|i: int| 0 <= i < r.0 ==> seq_lt(#[trigger] self@[i].0, k@),
            r.1 ==> r.0 < self@.len() && self@[r.0 as int].0 == k@,
            !r.1 ==> forall|i: int| r.0 <= i < self@.len() ==> seq_lt(k@, #[trigger] self@[i].0),
    {
        let ghost s = self@;
        let mut p: usize = 0;
        while p < self.entries.len()
            invariant
                s == self@,
                sorted_strict(s),
                p <= s.len(),
                forall|i: int| 0 <= i < p ==> seq_lt(#[trigger] s[i].0, k@),
            decreases self.entries.len() - p,
        {
            let kp = chars_of(self.entries[p].0.as_str());
            assert(kp@ == s[p as int].0);
            match compare_chars(&kp, k) {
                Some(true) => {
                    p += 1;
                },
                Some(false) => {
                    assert(seq_lt(k@, s[p as int].0));
                    assert forall|i: int| p <= i < s.len() implies seq_lt(k@, #[trigger] s[i].0) by {
                        if i > p {
                            lemma_seq_lt_trans(k@, s[p as int].0, s[i].0);
                        }
                    }
                    return (p, false);
                },
                None => {
                    return (p, true);
                },
            }
        }
        (p, false)
    }

    /// The record under a key.
    pub fn get(&self, key: &str) -> (r: Option<&ListInfo>)
        requires
            self.wf(),
        ensures
            match r {
                Some(l) => lookup(self@, key@) == Some(l@),
                None => lookup(self@, key@) is None,
            },
    {
        let k = chars_of(key);
        let (p, found) = self.position(&k);
        proof {
            lemma_lookup_cases(self@, key@);
        }
        if found {
            proof {
                lemma_lookup_in(self@, key@, p as int);
            }
            Some(&self.entries[p].1)
        } else {
            proof {
                assert forall|i: int| 0 <= i < self@.len() implies self@[i].0 != key@ by {
                    if i < p {
                        lemma_seq_lt_asym(self@[i].0, key@);
                    } else {
                        lemma_seq_lt_asym(key@, self@[i].0);
                    }
                }
                lemma_lookup_none(self@, key@);
            }
            None
        }
    }

    /// `BTreeMap::insert`: the record under `key` becomes `info`.
    pub fn put(&mut self, key: String, info: ListInfo)
        requires
            old(self).wf(),
        ensures
            final(self).wf(),
            forall|k: Seq<char>| #[trigger] lookup(final(self)@, k) == if k == key@ {
                Some(info@)
            } else {
                lookup(old(self)@, k)
            },
    {
        let ghost s = self@;
        let kv = chars_of(key.as_str());
        let (p, found) = self.position(&kv);
        let ghost kk = key@;
        let ghost iv = info@;
        if found {
            self.entries.set(p, (key, info));
            assert(self@ =~= s.update(p as int, (kk, iv)));
            assert(sorted_strict(self@)) by {
                assert forall|i: int, j: int| 0 <= i < j < self@.len() implies seq_lt(
                    #[trigger] self@[i].0,
                    #[trigger] self@[j].0,
                ) by {
                    assert(s[i].0 == self@[i].0 && s[j].0 == self@[j].0);
                }
            }
            assert forall|k: Seq<char>| #[trigger] lookup(self@, k) == if k == kk {
                Some(iv)
            } else {
                lookup(s, k)
            } by {
                lemma_lookup_cases(s, k);
                lemma_lookup_cases(self@, k);
                if k == kk {
                    lemma_lookup_in(self@, k, p as int);
                } else {
                    match lookup(s, k) {
                        Some(v) => {
                            let i = choose|i: int| 0 <= i < s.len() && s[i].0 == k && s[i].1 == v;
                            assert(i != p);
                            lemma_lookup_in(self@, k, i);
                        },
                        None => {
                            assert forall|i: int| 0 <= i < self@.len() implies self@[i].0 != k by {
                                assert(s[i].0 == self@[i].0);
                            }
                            lemma_lookup_none(self@, k);
                        },
                    }
                }
            }
        } else {
            self.entries.insert(p, (key, info));
            assert(self@ =~= s.insert(p as int, (kk, iv)));
            assert(sorted_strict(self@)) by {
                assert forall|i: int, j: int| 0 <= i < j < self@.len() implies seq_lt(
                    #[trigger] self@[i].0,
                    #[trigger] self@[j].0,
                ) by {
                    if j < p {
                        assert(self@[i] == s[i] && self@[j] == s[j]);
                    } else if j == p {
                        assert(self@[i] == s[i]);
                    } else if i == p {
                        assert(self@[j] == s[j - 1]);
                    } else if i < p {
                        assert(self@[i] == s[i] && self@[j] == s[j - 1]);
                        lemma_seq_lt_trans(s[i].0, kk, s[j - 1].0);
                    } else {
                        assert(self@[i] == s[i - 1] && self@[j] == s[j - 1]);
                    }
                }
            }
            assert forall|k: Seq<char>| #[trigger] lookup(self@, k) == if k == kk {
                Some(iv)
            } else {
                lookup(s, k)
            } by {
                lemma_lookup_cases(s, k);
                lemma_lookup_cases(self@, k);
                if k == kk {
                    assert(self@[p as int].0 == kk);
                    lemma_lookup_in(self@, k, p as int);
                } else {
                    match lookup(s, k) {
                        Some(v) => {
                            let i = choose|i: int| 0 <= i < s.len() && s[i].0 == k && s[i].1 == v;
                            if i < p {
                                assert(self@[i] == s[i]);
                                lemma_lookup_in(self@, k, i);
                            } else {
                                assert(self@[i + 1] == s[i]);
                                lemma_lookup_in(self@, k, i + 1);
                            }
                        },
                        None => {
                            assert forall|i: int| 0 <= i < self@.len() implies self@[i].0 != k by {
                                if i < p {
                                    assert(self@[i] == s[i]);
                                } else if i > p {
                                    assert(self@[i] == s[i - 1]);
                                }
                            }
                            lemma_lookup_none(self@, k);
                        },
                    }
                }
            }
        }
    }

    /// Creates or revives a list (see `upserted`).
    pub fn upsert(&mut self, owner: &str, repo: &str, category: &str, date: Date)
        requires
            old(self).wf(),
        ensures
            final(self).wf(),
            rmap(final(self)@) == upsert_map(rmap(old(self)@), owner@, repo@, category@, date),
    {
        let mut full = chars_of(owner);
        full.push('/');
        extend_str(&mut full, repo);
        assert(full@ =~= full_name(owner@, repo@));
        let fs = string_of(&full);
        let key = to_lower(fs.as_str());
        let ghost s = self@;
        let ghost k = key@;
        let updated = match self.get(key.as_str()) {
            Some(info) => {
                let mut n = info.copy();
                n.dead = false;
                n.category = String::from_str(category);
                n
            },
            None => ListInfo {
                owner: String::from_str(owner),
                repo: String::from_str(repo),
                category: String::from_str(category),
                enrolled: Some(date),
                dead: false,
                entries: 0,
            },
        };
        assert(updated@ == upserted(lookup(s, k), owner@, repo@, category@, date));
        self.put(key, updated);
        assert(rmap(self@) =~= upsert_map(rmap(s), owner@, repo@, category@, date)) by {
            assert forall|k2: Seq<char>| #[trigger] rmap(self@).dom().contains(k2) == upsert_map(
                rmap(s),
                owner@,
                repo@,
                category@,
                date,
            ).dom().contains(k2) by {
                assert(lookup(self@, k2) == if k2 == k {
                    Some(updated@)
                } else {
                    lookup(s, k2)
                });
            }
            assert forall|k2: Seq<char>| #[trigger] rmap(self@).dom().contains(k2) implies rmap(
                self@,
            )[k2] == upsert_map(rmap(s), owner@, repo@, category@, date)[k2] by {
                assert(lookup(self@, k2) == if k2 == k {
                    Some(updated@)
                } else {
                    lookup(s, k2)
                });
            }
        }
    }

    /// Builds a roster from stored lists; a later list with the same key
    /// replaces an earlier one.
    pub fn from_lists(lists: Vec<ListInfo>) -> (r: Roster)
        ensures
            r.wf(),
            forall|k: Seq<char>| #[trigger] lookup(r@, k) == list_lookup(lists_view(lists@), k),
    {
        let ghost lv = lists_view(lists@);
        let mut r = Roster::new();
        let ghost mut n: int = 0;
        for l in it: lists
            invariant
                lv == lists_view(it.seq()),
                n == it.index(),
                r.wf(),
                forall|k: Seq<char>| #[trigger] lookup(r@, k) == list_lookup(lv.take(n), k),
        {
            let key_src = l.full();
            let key = to_lower(key_src.as_str());
            proof {
                assert(lv.take(n + 1).drop_last() =~= lv.take(n));
                assert(lv.take(n + 1).last() == l@);
            }
            r.put(key, l);
            proof {
                n = n + 1;
            }
        }
        assert(lv.take(n) =~= lv);
        r
    }

    /// The records, in key order.
    pub fn into_lists(self) -> (r: Vec<ListInfo>)
        ensures
            lists_view(r@) == self@.map_values(|p: (Seq<char>, ListInfoV)| p.1),
    {
        let ghost s = self@;
        let mut out: Vec<ListInfo> = Vec::new();
        let ghost mut n: int = 0;
        for p in it: self.entries
            invariant
                s == it.seq().map_values(|p: (String, ListInfo)| (p.0@, p.1@)),
                n == it.index(),
                lists_view(out@) == s.take(n).map_values(|p: (Seq<char>, ListInfoV)| p.1),
        {
            let ghost before = lists_view(out@);
            assert(s[n] == (p.0@, p.1@));
            assert(s.take(n + 1).map_values(|p: (Seq<char>, ListInfoV)| p.1) =~= s.take(n).map_values(
                |p: (Seq<char>, ListInfoV)| p.1,
            ).push(p.1@));
            out.push(p.1);
            assert(lists_view(out@) =~= s.take(n + 1).map_values(|p: (Seq<char>, ListInfoV)| p.1));
            proof {
                n = n + 1;
            }
        }
        assert(s.take(n) =~= s);
        out
    }

    /// Retires every list that is neither in `in_index` nor in `pinned`.
    pub fn retire(&mut self, in_index: &Vec<Vec<char>>, pinned: &Vec<Vec<char>>)
        requires
            old(self).wf(),
        ensures
            final(self).wf(),
            final(self)@ == old(self)@.map_values(
                |p: (Seq<char>, ListInfoV)| retire_one(p, vecs_view(in_index@), vecs_view(pinned@)),
            ),
            rmap(final(self)@) == retire_map(rmap(old(self)@), vecs_view(in_index@), vecs_view(pinned@)),
    {
        let ghost s = self@;
        let ghost f = |p: (Seq<char>, ListInfoV)| retire_one(p, vecs_view(in_index@), vecs_view(pinned@));
        let mut src: Vec<(String, ListInfo)> = Vec::new();
        std::mem::swap(&mut src, &mut self.entries);
        let ghost mut n: int = 0;
        for p in it: src
            invariant
                s == it.seq().map_values(|p: (String, ListInfo)| (p.0@, p.1@)),
                n == it.index(),
                self@ == s.take(n).map_values(f),
                f == (|p: (Seq<char>, ListInfoV)| retire_one(p, vecs_view(in_index@), vecs_view(pinned@))),
        {
            let (k, mut info) = p;
            let kv = chars_of(k.as_str());
            if !contains_seq(in_index, &kv) && !contains_seq(pinned, &kv) {
                info.dead = true;
            }
            assert(s[n] == (k@, p.1@));
            let ghost before = self@;
            self.entries.push((k, info));
            assert(self@ =~= before.push(f(s[n])));
            assert(s.take(n + 1).map_values(f) =~= s.take(n).map_values(f).push(f(s[n])));
            proof {
                n = n + 1;
            }
        }
        assert(s.take(n) =~= s);
        assert(rmap(self@) =~= retire_map(rmap(s), vecs_view(in_index@), vecs_view(pinned@))) by {
            assert forall|k: Seq<char>| #[trigger] rmap(self@).dom().contains(k) == retire_map(rmap(s), vecs_view(in_index@), vecs_view(pinned@)).dom().contains(k) by {
                lemma_lookup_retire(s, vecs_view(in_index@), vecs_view(pinned@), k);
            }
            assert forall|k: Seq<char>| #[trigger] rmap(self@).dom().contains(k) implies rmap(self@)[k] == retire_map(rmap(s), vecs_view(in_index@), vecs_view(pinned@))[k] by {
                lemma_lookup_retire(s, vecs_view(in_index@), vecs_view(pinned@), k);
            }
        }
        assert(sorted_strict(self@)) by {
            assert forall|i: int, j: int| 0 <= i < j < self@.len() implies seq_lt(
                #[trigger] self@[i].0,
                #[trigger] self@[j].0,
            ) by {
                assert(self@[i].0 == s[i].0 && self@[j].0 == s[j].0);
            }
        }
    }

    /// Drops the lists on the registry's blocklist.
    pub fn retain_unblocked(&mut self, registry: &Registry)
        requires
            old(self).wf(),
        ensures
            final(self).wf(),
            final(self)@ == unblocked(old(self)@, registry.blocklist@.map_values(|s: String| s@)),
            rmap(final(self)@) == unblocked_map(rmap(old(self)@), registry.blocklist@.map_values(|s: String| s@)),
    {
        let ghost s = self@;
        let ghost bl = registry.blocklist@.map_values(|s: String| s@);
        let mut src: Vec<(String, ListInfo)> = Vec::new();
        std::mem::swap(&mut src, &mut self.entries);
        let ghost mut n: int = 0;
        for p in it: src
            invariant
                s == it.seq().map_values(|p: (String, ListInfo)| (p.0@, p.1@)),
                sorted_strict(s),
                n == it.index(),
                bl == registry.blocklist@.map_values(|s: String| s@),
                self@ == unblocked(s.take(n), bl),
                sorted_strict(self@),
                forall|a: int, j: int| 0 <= a < self@.len() && n <= j < s.len() ==> seq_lt(
                    #[trigger] self@[a].0,
                    #[trigger] s[j].0,
                ),
        {
            let blocked = registry.is_blocked(p.1.owner.as_str(), p.1.repo.as_str());
            assert(s[n] == (p.0@, p.1@));
            assert(s.take(n + 1).drop_last() =~= s.take(n));
            if !blocked {
                let ghost before = self@;
                self.entries.push(p);
                assert(self@ =~= before.push(s[n]));
            }
            proof {
                n = n + 1;
            }
        }
        assert(s.take(n) =~= s);
        assert(rmap(self@) =~= unblocked_map(rmap(s), bl)) by {
            assert forall|k: Seq<char>| #[trigger] rmap(self@).dom().contains(k) == unblocked_map(rmap(s), bl).dom().contains(k) by {
                lemma_lookup_unblocked(s, bl, k);
            }
            assert forall|k: Seq<char>| #[trigger] rmap(self@).dom().contains(k) implies rmap(self@)[k] == unblocked_map(rmap(s), bl)[k] by {
                lemma_lookup_unblocked(s, bl, k);
            }
        }
    }

    /// Keys of the lists to fetch: the live ones, at most `limit`.
    pub fn live_keys(&self, limit: Option<usize>) -> (r: Vec<String>)
        ensures
            r@.map_values(|k: String| k@) == up_to(live_of(self@), limit),
    {
        let ghost s = self@;
        let mut out: Vec<String> = Vec::new();
        let mut i: usize = 0;
        while i < self.entries.len()
            invariant
                i <= self.entries.len(),
                s == self@,
                out@.map_values(|k: String| k@) == up_to(live_of(s.take(i as int)), limit),
            decreases self.entries.len() - i,
        {
            proof {
                assert(s.take(i + 1).drop_last() =~= s.take(i as int));
                assert(s.take(i + 1).last() == s[i as int]);
            }
            let full = match limit {
                Some(n) => out.len() >= n,
                None => false,
            };
            let ghost before = out@.map_values(|k: String| k@);
            let ghost lb = live_of(s.take(i as int));
            if !self.entries[i].1.dead && !full {
                out.push(self.entries[i].0.clone());
                assert(out@.map_values(|k: String| k@) =~= before.push(s[i as int].0));
            }
            proof {
                let la = live_of(s.take(i + 1));
                match limit {
                    Some(n) => {
                        if !s[i as int].1.dead {
                            assert(la == lb.push(s[i as int].0));
                            if lb.len() < n {
                                assert(up_to(la, limit) =~= up_to(lb, limit).push(s[i as int].0));
                            } else {
                                assert(up_to(la, limit) =~= up_to(lb, limit));
                            }
                        }
                    },
                    None => {},
                }
            }
            i += 1;
        }
        assert(s.take(self.entries.len() as int) =~= s);
        out
    }
}

proof fn lemma_live_of_members(s: Seq<(Seq<char>, ListInfoV)>)
    ensures
        forall|i: int|
            0 <= i < live_of(s).len() ==> exists|j: int|
                0 <= j < s.len() && s[j].0 == #[trigger] live_of(s)[i] && !s[j].1.dead,
        forall|j: int| 0 <= j < s.len() && !s[j].1.dead ==> live_of(s).contains(#[trigger] s[j].0),
    decreases s.len(),
{
    if s.len() > 0 {
        let t = s.drop_last();
        lemma_live_of_members(t);
        let lt = live_of(t);
        let l = live_of(s);
        assert forall|i: int| 0 <= i < l.len() implies exists|j: int|
            0 <= j < s.len() && s[j].0 == #[trigger] l[i] && !s[j].1.dead by {
            if i < lt.len() {
                assert(l[i] == lt[i]);
                let j = choose|j: int| 0 <= j < t.len() && t[j].0 == lt[i] && !t[j].1.dead;
                assert(s[j] == t[j]);
            } else {
                assert(s[s.len() - 1] == s.last());
            }
        }
        assert forall|j: int| 0 <= j < s.len() && !s[j].1.dead implies l.contains(#[trigger] s[j].0) by {
            if j < t.len() {
                assert(t[j] == s[j]);
                assert(lt.contains(t[j].0));
                let m = choose|m: int| 0 <= m < lt.len() && lt[m] == t[j].0;
                assert(l[m] == lt[m]);
            } else {
                assert(l[l.len() - 1] == s.last().0);
            }
        }
    }
}

/// Retired lists are no longer fetched: every key a run fetches names a
/// live record of the roster, and with no limit every live record is
/// fetched.
pub proof fn law_fetch_only_live(s: Seq<(Seq<char>, ListInfoV)>)
    requires
        sorted_strict(s),
    ensures
        forall|i: int|
            0 <= i < live_of(s).len() ==> rmap(s).dom().contains(#[trigger] live_of(s)[i]) && !rmap(
                s,
            )[live_of(s)[i]].dead,
        forall|k: Seq<char>| #[trigger] rmap(s).dom().contains(k) && !rmap(s)[k].dead ==> live_of(s).contains(k),
{
    lemma_live_of_members(s);
    assert forall|i: int| 0 <= i < live_of(s).len() implies rmap(s).dom().contains(#[trigger] live_of(s)[i])
        && !rmap(s)[live_of(s)[i]].dead by {
        let j = choose|j: int| 0 <= j < s.len() && s[j].0 == live_of(s)[i] && !s[j].1.dead;
        lemma_lookup_in(s, s[j].0, j);
    }
    assert forall|k: Seq<char>| #[trigger] rmap(s).dom().contains(k) && !rmap(s)[k].dead implies live_of(s).contains(k) by {
        lemma_lookup_cases(s, k);
        let j = choose|j: int| 0 <= j < s.len() && s[j].0 == k && s[j].1 == lookup(s, k).unwrap();
        assert(!s[j].1.dead);
    }
}

/// The map stored lists give: each list under its key, a later list with
/// the same key replacing an earlier one (as `from_lists` builds it).
pub open spec fn lists_map(ls: Seq<ListInfoV>) -> Map<Seq<char>, ListInfoV> {
    Map::new(|k: Seq<char>| list_lookup(ls, k) is Some, |k: Seq<char>| list_lookup(ls, k).unwrap())
}

/// Every record sits under its own list's key.
pub open spec fn keyed(m: Map<Seq<char>, ListInfoV>) -> bool {
    forall|k: Seq<char>| #[trigger] m.dom().contains(k) ==> k == list_key(m[k].owner, m[k].repo)
}

proof fn lemma_list_lookup_key(ls: Seq<ListInfoV>, k: Seq<char>)
    ensures
        list_lookup(ls, k) matches Some(v) ==> k == list_key(v.owner, v.repo),
    decreases ls.len(),
{
    if ls.len() > 0 {
        lemma_list_lookup_key(ls.drop_last(), k);
    }
}

/// Stored lists are keyed.
pub proof fn lemma_lists_map_keyed(ls: Seq<ListInfoV>)
    ensures
        keyed(lists_map(ls)),
{
    assert forall|k: Seq<char>| #[trigger] lists_map(ls).dom().contains(k) implies k == list_key(
        lists_map(ls)[k].owner,
        lists_map(ls)[k].repo,
    ) by {
        lemma_list_lookup_key(ls, k);
    }
}

/// An upsert keeps a keyed map keyed.
pub proof fn lemma_upsert_map_keyed(
    m: Map<Seq<char>, ListInfoV>,
    owner: Seq<char>,
    repo: Seq<char>,
    category: Seq<char>,
    date: Date,
)
    requires
        keyed(m),
    ensures
        keyed(upsert_map(m, owner, repo, category, date)),
{
    let u = upsert_map(m, owner, repo, category, date);
    let k0 = list_key(owner, repo);
    assert forall|k: Seq<char>| #[trigger] u.dom().contains(k) implies k == list_key(u[k].owner, u[k].repo) by {
        if k != k0 {
            assert(m.dom().contains(k));
        }
    }
}

proof fn lemma_list_lookup_seq(s: Seq<(Seq<char>, ListInfoV)>, k: Seq<char>)
    requires
        forall|i: int| 0 <= i < s.len() ==> #[trigger] s[i].0 == list_key(s[i].1.owner, s[i].1.repo),
    ensures
        list_lookup(s.map_values(|p: (Seq<char>, ListInfoV)| p.1), k) == lookup(s, k),
    decreases s.len(),
{
    if s.len() > 0 {
        let t = s.drop_last();
        assert(s.map_values(|p: (Seq<char>, ListInfoV)| p.1).drop_last() =~= t.map_values(
            |p: (Seq<char>, ListInfoV)| p.1,
        ));
        assert forall|i: int| 0 <= i < t.len() implies #[trigger] t[i].0 == list_key(t[i].1.owner, t[i].1.repo) by {
            assert(t[i] == s[i]);
        }
        assert(s[s.len() - 1].0 == list_key(s[s.len() - 1].1.owner, s[s.len() - 1].1.repo));
        lemma_list_lookup_seq(t, k);
    }
}

/// A keyed roster's records, stored and loaded again, give the same map.
pub proof fn lemma_roster_round_trip(r: &Roster)
    requires
        r.wf(),
        keyed(rmap(r@)),
    ensures
        lists_map(r@.map_values(|p: (Seq<char>, ListInfoV)| p.1)) == rmap(r@),
{
    let s = r@;
    assert forall|i: int| 0 <= i < s.len() implies #[trigger] s[i].0 == list_key(s[i].1.owner, s[i].1.repo) by {
        lemma_lookup_in(s, s[i].0, i);
        assert(rmap(s).dom().contains(s[i].0));
    }
    assert forall|k: Seq<char>| true implies list_lookup(s.map_values(|p: (Seq<char>, ListInfoV)| p.1), k)
        == lookup(s, k) by {
        lemma_list_lookup_seq(s, k);
    }
    assert(lists_map(s.map_values(|p: (Seq<char>, ListInfoV)| p.1)) =~= rmap(s));
}

} // verus!
