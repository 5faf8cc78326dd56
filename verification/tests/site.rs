use awesome_ledger::date::Date;
use awesome_ledger::fetch::{backoff_secs, next_after, raw_url, readme_paths, reply_for, Next, Reply};
use awesome_ledger::model::{Event, Kind, ListInfo, Meta, State};
use awesome_ledger::publish::{ensure_trailing_newline, git_steps, ssh_command};
use awesome_ledger::render::{feed_files, feeds_fit};
use awesome_ledger::store::snapshot_file_name;
use awesome_ledger::view::build;

#[test]
fn readme_paths_put_the_hint_first_once() {
    assert_eq!(readme_paths(None), ["README.md", "readme.md", "Readme.md", "README.markdown"]);
    assert_eq!(
        readme_paths(Some("readme.md")),
        ["readme.md", "README.md", "Readme.md", "README.markdown"]
    );
    assert_eq!(
        readme_paths(Some("docs/README.md")),
        ["docs/README.md", "README.md", "readme.md", "Readme.md", "README.markdown"]
    );
    assert_eq!(
        raw_url("a", "b", "README.md"),
        "https://raw.githubusercontent.com/a/b/HEAD/README.md"
    );
}

#[test]
fn statuses_and_backoff() {
    assert_eq!(reply_for(304), Reply::Unchanged);
    assert_eq!(reply_for(404), Reply::NotFound);
    assert_eq!(reply_for(200), Reply::Body);
    assert_eq!(reply_for(403), Reply::GiveUp);
    assert_eq!(reply_for(502), Reply::Retry);
    assert_eq!(backoff_secs(0), Some(0));
    assert_eq!(backoff_secs(1), Some(1));
    assert_eq!(backoff_secs(2), Some(4));
    assert_eq!(backoff_secs(3), None);
}

#[test]
fn deploy_key_and_git_steps() {
    assert_eq!(ensure_trailing_newline("KEY"), "KEY\n");
    assert_eq!(ensure_trailing_newline("KEY\n"), "KEY\n");
    assert_eq!(ensure_trailing_newline(""), "\n");
    assert_eq!(
        ssh_command("/tmp/k"),
        "ssh -i /tmp/k -o IdentitiesOnly=yes -o StrictHostKeyChecking=accept-new"
    );
    let steps = git_steps("git@h:o/r.git", "gh-pages", "publish 2026-08-24 06:00 UTC");
    assert_eq!(steps.len(), 7);
    assert_eq!(steps[0], ["init", "-q"]);
    assert_eq!(steps[1], ["symbolic-ref", "HEAD", "refs/heads/gh-pages"]);
    assert_eq!(steps[5], ["commit", "-q", "-m", "publish 2026-08-24 06:00 UTC"]);
    assert_eq!(steps[6], ["push", "--force", "-q", "git@h:o/r.git", "HEAD:refs/heads/gh-pages"]);
}

#[test]
fn snapshot_files_are_lower_case() {
    assert_eq!(snapshot_file_name("Foo", "Bar"), "foo--bar.json");
}

#[test]
fn feed_files_site_then_lists() {
    let lists = vec![ListInfo {
        owner: "a".into(),
        repo: "awesome-x".into(),
        category: String::new(),
        enrolled: None,
        dead: false,
        entries: 3,
    }];
    let events = vec![Event {
        date: Date::from_ymd(2026, 8, 24).unwrap(),
        kind: Kind::Added,
        list: "a/awesome-x".into(),
        name: "n".into(),
        url: "https://github.com/o/n".into(),
        description: String::new(),
        section: Vec::new(),
    }];
    let st = State::assemble(lists, events, Meta::empty());
    let site = build(&st, Date::from_ymd(2026, 8, 24).unwrap(), "https://example.com");
    assert!(feeds_fit(&site));
    let files = feed_files(&site, "https://site.example//");
    let paths: Vec<&str> = files.iter().map(|f| f.0.as_str()).collect();
    assert_eq!(paths, ["feed.xml", "list/a-awesome-x/feed.xml"]);
    assert!(files[0].1.contains("<title>The Awesome Ledger</title>\n<link>https://site.example/</link>"));
    assert!(files[1].1.contains(
        "<title>The Awesome Ledger — awesome-x</title>\n<link>https://site.example/list/a-awesome-x/</link>"
    ));
}

#[test]
fn request_loop_steps() {
    assert_eq!(next_after(0, Some(304)), Next::Unchanged);
    assert_eq!(next_after(0, Some(404)), Next::NotFound);
    assert_eq!(next_after(1, Some(200)), Next::Body);
    assert_eq!(next_after(0, Some(403)), Next::GiveUp);
    assert_eq!(next_after(0, Some(503)), Next::Retry { wait: 1 });
    assert_eq!(next_after(1, None), Next::Retry { wait: 4 });
    assert_eq!(next_after(2, Some(503)), Next::GiveUp);
    assert_eq!(next_after(2, None), Next::GiveUp);
    // Always failing: three requests, then give up.
    let mut attempt = 0usize;
    let mut requests = 0;
    loop {
        requests += 1;
        match next_after(attempt, Some(500)) {
            Next::Retry { .. } => attempt += 1,
            _ => break,
        }
    }
    assert_eq!(requests, 3);
}
