//! The enrollment registry (lists.toml): extra pins beyond the awesome
//! index, and a blocklist for noisy lists.

use vstd::prelude::*;
use crate::model::full_name;
use crate::text::{ascii_lower, ascii_lower_vec, chars_of, extend_str, seq_eq};

verus! {

#[derive(Debug)]
pub struct Registry {
    pub extra: Vec<ExtraList>,
    /// "owner/repo" entries, compared ignoring ASCII case.
    pub blocklist: Vec<String>,
}

#[derive(Debug)]
pub struct ExtraList {
    pub owner: String,
    pub repo: String,
    pub category: Option<String>,
}

pub struct ExtraV {
    pub owner: Seq<char>,
    pub repo: Seq<char>,
    pub category: Option<Seq<char>>,
}

impl View for ExtraList {
    type V = ExtraV;

    open spec fn view(&self) -> ExtraV {
        ExtraV {
            owner: self.owner@,
            repo: self.repo@,
            category: match self.category {
                Some(c) => Some(c@),
                None => None,
            },
        }
    }
}

pub open spec fn extras_view(v: Seq<ExtraList>) -> Seq<ExtraV> {
    v.map_values(|e: ExtraList| e@)
}

/// Whether two strings are equal ignoring ASCII case (`eq_ignore_ascii_case`).
pub open spec fn eq_ignore_case(a: Seq<char>, b: Seq<char>) -> bool {
    ascii_lower(a) == ascii_lower(b)
}

/// Whether "owner/repo" is on the blocklist.
pub open spec fn blocked_spec(blocklist: Seq<Seq<char>>, owner: Seq<char>, repo: Seq<char>) -> bool {
    exists|i: int| 0 <= i < blocklist.len() && eq_ignore_case(blocklist[i], full_name(owner, repo))
}

impl Registry {
    /// The empty registry (what an empty lists.toml holds).
    pub fn empty() -> (r: Registry)
        ensures
            r.extra@.len() == 0,
            r.blocklist@.len() == 0,
    {
        Registry { extra: Vec::new(), blocklist: Vec::new() }
    }

    /// Whether the list is on the blocklist.
    pub fn is_blocked(&self, owner: &str, repo: &str) -> (r: bool)
        ensures
            r == blocked_spec(self.blocklist@.map_values(|s: String| s@), owner@, repo@),
    {
        let mut full = chars_of(owner);
        full.push('/');
        extend_str(&mut full, repo);
        assert(full@ =~= full_name(owner@, repo@));
        let key = ascii_lower_vec(&full);
        let ghost bl = self.blocklist@.map_values(|s: String| s@);
        let mut i: usize = 0;
        while i < self.blocklist.len()
            invariant
                i <= self.blocklist.len(),
                bl == self.blocklist@.map_values(|s: String| s@),
                key@ == ascii_lower(full_name(owner@, repo@)),
                forall|j: int| 0 <= j < i ==> !eq_ignore_case(#[trigger] bl[j], full_name(owner@, repo@)),
            decreases self.blocklist.len() - i,
        {
            let b = chars_of(self.blocklist[i].as_str());
            let bk = ascii_lower_vec(&b);
            if seq_eq(&bk, &key) {
                assert(eq_ignore_case(bl[i as int], full_name(owner@, repo@)));
                return true;
            }
            i += 1;
        }
        false
    }
}

} // verus!
