//! Publishing the rendered site: a fresh single-commit branch force-pushed
//! over git. Running git is I/O; which commands run, and with what, is
//! decided here.

use vstd::prelude::*;
use crate::text::{chars_of, ends_with, extend_str, has_suffix, string_of};

verus! {

/// `s`, ending in a newline (one is added when it does not).
pub open spec fn with_newline(s: Seq<char>) -> Seq<char> {
    if ends_with(s, seq!['\n']) {
        s
    } else {
        s.push('\n')
    }
}

/// A deploy key as written to its file: ssh refuses a key without its
/// final newline.
pub fn ensure_trailing_newline(s: &str) -> (r: String)
    ensures
        r@ == with_newline(s@),
{
    let mut v = chars_of(s);
    let nl = vec!['\n'];
    assert(nl@ =~= seq!['\n']);
    if has_suffix(&v, &nl) {
        string_of(&v)
    } else {
        v.push('\n');
        string_of(&v)
    }
}

pub open spec fn ssh_command_spec(key_file: Seq<char>) -> Seq<char> {
    "ssh -i "@ + key_file + " -o IdentitiesOnly=yes -o StrictHostKeyChecking=accept-new"@
}

/// The ssh command git pushes through, with the deploy key.
pub fn ssh_command(key_file: &str) -> (r: String)
    ensures
        r@ == ssh_command_spec(key_file@),
{
    let mut v = chars_of("ssh -i ");
    extend_str(&mut v, key_file);
    extend_str(&mut v, " -o IdentitiesOnly=yes -o StrictHostKeyChecking=accept-new");
    string_of(&v)
}

/// The git commands of a publish, in order: a throwaway repository on
/// `branch` holding the site as one commit, force-pushed to `remote`.
pub open spec fn git_steps_spec(remote: Seq<char>, branch: Seq<char>, message: Seq<char>) -> Seq<
    Seq<Seq<char>>,
> {
    seq![
        seq!["init"@, "-q"@],
        seq!["symbolic-ref"@, "HEAD"@, "refs/heads/"@ + branch],
        seq!["config"@, "user.name"@, "awesome-ledger"@],
        seq!["config"@, "user.email"@, "ledger@016180.xyz"@],
        seq!["add"@, "-A"@],
        seq!["commit"@, "-q"@, "-m"@, message],
        seq!["push"@, "--force"@, "-q"@, remote, "HEAD:refs/heads/"@ + branch],
    ]
}

pub open spec fn steps_view(v: Seq<Vec<String>>) -> Seq<Seq<Seq<char>>> {
    v.map_values(|c: Vec<String>| c@.map_values(|s: String| s@))
}

fn cmd2(a: &str, b: &str) -> (r: Vec<String>)
    ensures
        r@.map_values(|s: String| s@) == seq![a@, b@],
{
    let mut v: Vec<String> = Vec::new();
    v.push(String::from_str(a));
    v.push(String::from_str(b));
    assert(v@.map_values(|s: String| s@) =~= seq![a@, b@]);
    v
}

fn cmd3(a: &str, b: &str, c: &str) -> (r: Vec<String>)
    ensures
        r@.map_values(|s: String| s@) == seq![a@, b@, c@],
{
    let mut v = cmd2(a, b);
    let ghost before = v@.map_values(|s: String| s@);
    v.push(String::from_str(c));
    assert(v@.map_values(|s: String| s@) =~= before.push(c@));
    v
}

pub fn git_steps(remote: &str, branch: &str, message: &str) -> (r: Vec<Vec<String>>)
    ensures
        steps_view(r@) == git_steps_spec(remote@, branch@, message@),
{
    let mut head_ref = chars_of("refs/heads/");
    extend_str(&mut head_ref, branch);
    let mut push_ref = chars_of("HEAD:refs/heads/");
    extend_str(&mut push_ref, branch);
    let hr = string_of(&head_ref);
    let pr = string_of(&push_ref);
    let c1 = cmd2("init", "-q");
    let c2 = cmd3("symbolic-ref", "HEAD", hr.as_str());
    let c3 = cmd3("config", "user.name", "awesome-ledger");
    let c4 = cmd3("config", "user.email", "ledger@016180.xyz");
    let c5 = cmd2("add", "-A");
    let mut c6 = cmd3("commit", "-q", "-m");
    let ghost b6 = c6@.map_values(|s: String| s@);
    c6.push(String::from_str(message));
    assert(c6@.map_values(|s: String| s@) =~= b6.push(message@));
    let mut c7 = cmd3("push", "--force", "-q");
    let ghost b7 = c7@.map_values(|s: String| s@);
    c7.push(String::from_str(remote));
    c7.push(pr);
    assert(c7@.map_values(|s: String| s@) =~= b7.push(remote@).push("HEAD:refs/heads/"@ + branch@));
    let ghost vs = seq![c1@, c2@, c3@, c4@, c5@, c6@, c7@];
    let ghost ws = seq![c1, c2, c3, c4, c5, c6, c7];
    let mut out: Vec<Vec<String>> = Vec::new();
    out.push(c1);
    out.push(c2);
    out.push(c3);
    out.push(c4);
    out.push(c5);
    out.push(c6);
    out.push(c7);
    assert(out@ =~= ws);
    assert(out@.map_values(|c: Vec<String>| c@) =~= vs);
    let ghost g = git_steps_spec(remote@, branch@, message@);
    let ghost sv = steps_view(out@);
    assert(sv.len() == g.len());
    assert(sv[0] =~= g[0]);
    assert(sv[1] =~= g[1]);
    assert(sv[2] =~= g[2]);
    assert(sv[3] =~= g[3]);
    assert(sv[4] =~= g[4]);
    assert(sv[5] =~= g[5]);
    assert(sv[6] =~= g[6]);
    assert(steps_view(out@) =~= git_steps_spec(remote@, branch@, message@));
    out
}

} // verus!
