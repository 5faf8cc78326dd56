//! What a README fetch can answer, and the fetcher's decisions: which
//! paths to try, where each lives, and what an HTTP status means. The
//! requests themselves are I/O and live outside the library.

use vstd::prelude::*;
use crate::text::{chars_of, extend_str, seq_eq, string_of};

verus! {

/// Outcome of asking for one list's README.
pub enum Doc {
    /// 304: entry set unchanged, nothing to parse.
    Unchanged,
    /// Fresh body; `path` is the README path that answered.
    New { body: String, etag: Option<String>, path: String },
    /// Every candidate path 404'd: the repo (or its README) is gone.
    Gone,
}

/// A source of READMEs; errors are reported as text.
pub trait Source {
    fn readme(
        &mut self,
        owner: &str,
        repo: &str,
        path_hint: Option<&str>,
        etag: Option<&str>,
    ) -> Result<Doc, String>;
}

/// README paths tried when no hint answers.
pub open spec fn candidates() -> Seq<Seq<char>> {
    seq!["README.md"@, "readme.md"@, "Readme.md"@, "README.markdown"@]
}

/// The paths to try: the hint first, then the candidates other than it.
pub open spec fn paths_spec(hint: Option<Seq<char>>) -> Seq<Seq<char>> {
    match hint {
        Some(h) => seq![h] + candidates().filter(|c: Seq<char>| c != h),
        None => candidates(),
    }
}

/// The README paths to try, in order.
pub fn readme_paths(hint: Option<&str>) -> (r: Vec<String>)
    ensures
        r@.map_values(|s: String| s@) == paths_spec(
            match hint {
                Some(h) => Some(h@),
                None => None,
            },
        ),
{
    let mut out: Vec<String> = Vec::new();
    let cands = ["README.md", "readme.md", "Readme.md", "README.markdown"];
    let ghost hv: Option<Seq<char>> = match hint {
        Some(h) => Some(h@),
        None => None,
    };
    let ghost c = candidates();
    match hint {
        Some(h) => out.push(String::from_str(h)),
        None => {},
    }
    let ghost head: Seq<Seq<char>> = match hint {
        Some(h) => seq![h@],
        None => seq![],
    };
    assert(out@.map_values(|s: String| s@) =~= head);
    let mut i: usize = 0;
    while i < 4
        invariant
            i <= 4,
            c == candidates(),
            hv == (match hint {
                Some(h) => Some(h@),
                None => None,
            }),
            head == (match hint {
                Some(h) => seq![h@],
                None => Seq::<Seq<char>>::empty(),
            }),
            cands@.len() == 4,
            forall|j: int| 0 <= j < 4 ==> (#[trigger] cands@[j])@ == c[j],
            out@.map_values(|s: String| s@) == head + match hv {
                Some(h) => c.take(i as int).filter(|x: Seq<char>| x != h),
                None => c.take(i as int),
            },
        decreases 4 - i,
    {
        let cand = cands[i];
        let ghost before = out@.map_values(|s: String| s@);
        let keep = match hint {
            Some(h) => {
                let a = chars_of(h);
                let b = chars_of(cand);
                !seq_eq(&a, &b)
            },
            None => true,
        };
        if keep {
            out.push(String::from_str(cand));
            assert(out@.map_values(|s: String| s@) =~= before.push(cand@));
        }
        proof {
            assert(c.take(i + 1).drop_last() =~= c.take(i as int));
            match hv {
                Some(h) => {
                    reveal(Seq::filter);
                    assert(c.take(i + 1).last() == cand@);
                },
                None => {},
            }
        }
        i += 1;
    }
    proof {
        assert(c.take(4) =~= c);
        match hv {
            Some(h) => {},
            None => {
                assert(head + c =~= c);
            },
        }
    }
    out
}

/// Where a README lives: raw.githubusercontent.com at HEAD.
pub open spec fn raw_url_spec(owner: Seq<char>, repo: Seq<char>, path: Seq<char>) -> Seq<char> {
    "https://raw.githubusercontent.com/"@ + owner + "/"@ + repo + "/HEAD/"@ + path
}

pub fn raw_url(owner: &str, repo: &str, path: &str) -> (r: String)
    ensures
        r@ == raw_url_spec(owner@, repo@, path@),
{
    let mut v = chars_of("https://raw.githubusercontent.com/");
    extend_str(&mut v, owner);
    extend_str(&mut v, "/");
    extend_str(&mut v, repo);
    extend_str(&mut v, "/HEAD/");
    extend_str(&mut v, path);
    string_of(&v)
}

/// What an HTTP status means for one README request.
#[derive(Debug, Clone, Copy, PartialEq, Eq, Structural)]
pub enum Reply {
    /// 304: unchanged since the etag.
    Unchanged,
    /// 404: not at this path; try the next one.
    NotFound,
    /// 2xx: read the body.
    Body,
    /// Any other 4xx: retrying will not heal it.
    GiveUp,
    /// 5xx and the rest: retry after a back-off.
    Retry,
}

pub open spec fn reply_spec(status: u16) -> Reply {
    if status == 304 {
        Reply::Unchanged
    } else if status == 404 {
        Reply::NotFound
    } else if 200 <= status <= 299 {
        Reply::Body
    } else if 400 <= status <= 499 {
        Reply::GiveUp
    } else {
        Reply::Retry
    }
}

pub fn reply_for(status: u16) -> (r: Reply)
    ensures
        r == reply_spec(status),
{
    if status == 304 {
        Reply::Unchanged
    } else if status == 404 {
        Reply::NotFound
    } else if 200 <= status && status <= 299 {
        Reply::Body
    } else if 400 <= status && status <= 499 {
        Reply::GiveUp
    } else {
        Reply::Retry
    }
}

/// Back-off before attempt `attempt` (0-based): none before the first,
/// then 1 s and 4 s; None once the attempts are used up.
pub open spec fn backoff_spec(attempt: usize) -> Option<u64> {
    if attempt == 0 {
        Some(0)
    } else if attempt == 1 {
        Some(1)
    } else if attempt == 2 {
        Some(4)
    } else {
        None
    }
}

pub fn backoff_secs(attempt: usize) -> (r: Option<u64>)
    ensures
        r == backoff_spec(attempt),
{
    if attempt == 0 {
        Some(0)
    } else if attempt == 1 {
        Some(1)
    } else if attempt == 2 {
        Some(4)
    } else {
        None
    }
}

/// What the request loop for one URL does after an attempt.
#[derive(Debug, Clone, Copy, PartialEq, Eq, Structural)]
pub enum Next {
    /// 304: the README is unchanged.
    Unchanged,
    /// 404: not at this path.
    NotFound,
    /// 2xx: read the body.
    Body,
    /// Try again after `wait` seconds.
    Retry { wait: u64 },
    /// Stop and report the last error.
    GiveUp,
}

/// The step after attempt `attempt` (0-based) answered `status` (None:
/// the request itself failed). A 5xx or a failed request is retried after
/// the back-off while attempts are left; any other 4xx gives up at once.
pub open spec fn next_spec(attempt: usize, status: Option<u16>) -> Next {
    let r = match status {
        Some(s) => reply_spec(s),
        None => Reply::Retry,
    };
    match r {
        Reply::Unchanged => Next::Unchanged,
        Reply::NotFound => Next::NotFound,
        Reply::Body => Next::Body,
        Reply::GiveUp => Next::GiveUp,
        Reply::Retry => if attempt < 2 {
            Next::Retry { wait: backoff_spec((attempt + 1) as usize).unwrap() }
        } else {
            Next::GiveUp
        },
    }
}

pub fn next_after(attempt: usize, status: Option<u16>) -> (r: Next)
    ensures
        r == next_spec(attempt, status),
{
    let reply = match status {
        Some(s) => reply_for(s),
        None => Reply::Retry,
    };
    match reply {
        Reply::Unchanged => Next::Unchanged,
        Reply::NotFound => Next::NotFound,
        Reply::Body => Next::Body,
        Reply::GiveUp => Next::GiveUp,
        Reply::Retry => if attempt < 2 {
            match backoff_secs(attempt + 1) {
                Some(w) => Next::Retry { wait: w },
                None => Next::GiveUp,
            }
        } else {
            Next::GiveUp
        },
    }
}

/// How many requests the loop makes for one URL when its attempts answer
/// `rs` in turn, starting at attempt `attempt`.
pub open spec fn requests(rs: Seq<Option<u16>>, attempt: usize) -> nat
    decreases rs.len(),
{
    if rs.len() == 0 {
        0
    } else {
        match next_spec(attempt, rs[0]) {
            Next::Retry { .. } => 1 + requests(rs.drop_first(), (attempt + 1) as usize),
            _ => 1,
        }
    }
}

proof fn lemma_requests(rs: Seq<Option<u16>>, attempt: usize)
    requires
        attempt <= 2,
    ensures
        requests(rs, attempt) <= 3 - attempt,
    decreases rs.len(),
{
    if rs.len() > 0 {
        if next_spec(attempt, rs[0]) is Retry {
            lemma_requests(rs.drop_first(), (attempt + 1) as usize);
        }
    }
}

/// One URL costs at most three requests, whatever the server answers; a
/// 4xx other than 404 is never retried; and only the first two attempts
/// can be followed by another.
pub proof fn law_request_bound(rs: Seq<Option<u16>>, attempt: usize, status: u16)
    ensures
        requests(rs, 0) <= 3,
        400 <= status <= 499 && status != 404 ==> next_spec(attempt, Some(status)) == Next::GiveUp,
        next_spec(attempt, Some(status)) is Retry ==> attempt < 2 && (500 <= status || status < 200 || (
        300 <= status < 400 && status != 304)),
        next_spec(attempt, None) is Retry <==> attempt < 2,
{
    lemma_requests(rs, 0);
}

} // verus!
