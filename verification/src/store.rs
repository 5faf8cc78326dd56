//! Per-list snapshots (entry set + fetch cache) that the diff runs against.
//! Reading and writing them is I/O and lives outside the library; the
//! file name is computed here.

use vstd::prelude::*;
use crate::text::{all_ascii, ascii_lower, chars_of, extend_str, string_of, to_lower, unicode_lower};

verus! {

/// An entry as kept in a list's snapshot.
#[derive(Debug)]
pub struct StoredEntry {
    /// Canonical URL: the diff identity.
    pub key: String,
    pub name: String,
    pub url: String,
    pub description: String,
    pub section: Vec<String>,
}

pub struct StoredV {
    pub key: Seq<char>,
    pub name: Seq<char>,
    pub url: Seq<char>,
    pub description: Seq<char>,
    pub section: Seq<Seq<char>>,
}

impl View for StoredEntry {
    type V = StoredV;

    open spec fn view(&self) -> StoredV {
        StoredV {
            key: self.key@,
            name: self.name@,
            url: self.url@,
            description: self.description@,
            section: self.section@.map_values(|s: String| s@),
        }
    }
}

pub open spec fn stored_view(v: Seq<StoredEntry>) -> Seq<StoredV> {
    v.map_values(|e: StoredEntry| e@)
}

/// A list's snapshot.
#[derive(Debug)]
pub struct Snapshot {
    pub etag: Option<String>,
    pub readme_path: Option<String>,
    /// Consecutive 404s; two mark the list dead.
    pub misses: u32,
    pub entries: Vec<StoredEntry>,
}

impl Snapshot {
    /// A snapshot with nothing in it.
    pub fn empty() -> (r: Snapshot)
        ensures
            r.etag is None,
            r.readme_path is None,
            r.misses == 0,
            r.entries@.len() == 0,
    {
        Snapshot { etag: None, readme_path: None, misses: 0, entries: Vec::new() }
    }
}

/// File name of a list's snapshot under the state's `lists/` directory.
pub open spec fn snapshot_name(owner: Seq<char>, repo: Seq<char>) -> Seq<char> {
    unicode_lower(owner) + "--"@ + unicode_lower(repo) + ".json"@
}

/// "owner--repo.json", both parts lower-cased.
pub fn snapshot_file_name(owner: &str, repo: &str) -> (r: String)
    ensures
        r@ == snapshot_name(owner@, repo@),
        all_ascii(owner@) && all_ascii(repo@) ==> r@ == ascii_lower(owner@) + "--"@
            + ascii_lower(repo@) + ".json"@,
{
    let lo = to_lower(owner);
    let lr = to_lower(repo);
    let mut v = chars_of(lo.as_str());
    extend_str(&mut v, "--");
    extend_str(&mut v, lr.as_str());
    extend_str(&mut v, ".json");
    string_of(&v)
}

} // verus!
