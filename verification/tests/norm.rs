use awesome_ledger::norm::{canonical, canonical_from, UrlParts};

#[test]
fn folds_scheme_www_slash_git_and_fragment() {
    for raw in [
        "http://www.GitHub.com/Foo/Bar.git",
        "https://github.com/Foo/Bar/",
        "https://github.com/Foo/Bar#readme",
    ] {
        assert_eq!(canonical(raw).as_deref(), Some("https://github.com/Foo/Bar"));
    }
}

#[test]
fn drops_tracking_keeps_real_query_sorted() {
    assert_eq!(
        canonical("https://ex.com/p?utm_source=x&b=2&a=1&ref=hn").as_deref(),
        Some("https://ex.com/p?a=1&b=2")
    );
}

#[test]
fn rejects_non_http() {
    assert_eq!(canonical("#contents"), None);
    assert_eq!(canonical("mailto:x@y.z"), None);
    assert_eq!(canonical("../other.md"), None);
}

#[test]
fn root_path_and_only_tracking_query() {
    assert_eq!(canonical("https://Example.com/").as_deref(), Some("https://example.com"));
    assert_eq!(canonical("https://ex.com/p?utm_medium=y").as_deref(), Some("https://ex.com/p"));
}

#[test]
fn query_order_and_cosmetics_keep_the_key() {
    let a = canonical("https://ex.com/p?b=2&a=1&fbclid=z");
    let b = canonical("http://EX.com/p/?a=1&b=2");
    assert_eq!(a, b);
    assert_eq!(a.as_deref(), Some("https://ex.com/p?a=1&b=2"));
    assert_eq!(canonical("  https://ex.com/p?flag  ").as_deref(), Some("https://ex.com/p?flag"));
}

#[test]
fn key_from_given_parts() {
    let parts = UrlParts {
        scheme: "http".into(),
        host: Some("WWW.Example.COM".into()),
        path: "/a/b.git//".into(),
        query: vec![
            ("utm_campaign".into(), "x".into()),
            ("z".into(), "".into()),
            ("ref".into(), "hn".into()),
            ("a".into(), "1".into()),
        ],
    };
    assert_eq!(canonical_from(Some(parts)).as_deref(), Some("https://example.com/a/b?a=1&z"));
    let ftp = UrlParts { scheme: "ftp".into(), host: Some("h".into()), path: "/".into(), query: vec![] };
    assert_eq!(canonical_from(Some(ftp)), None);
    let no_host = UrlParts { scheme: "https".into(), host: None, path: "/".into(), query: vec![] };
    assert_eq!(canonical_from(Some(no_host)), None);
    assert_eq!(canonical_from(None), None);
}

#[test]
fn no_trailing_slash_git_or_www_survives() {
    assert_eq!(canonical("https://ex.com/x/.git").as_deref(), Some("https://ex.com/x"));
    assert_eq!(canonical("https://www.www.ex.com/a/.git/").as_deref(), Some("https://ex.com/a"));
    assert_eq!(canonical("https://ex.com/r.git.git").as_deref(), Some("https://ex.com/r"));
    let parts = UrlParts { scheme: "https".into(), host: Some("ex.com".into()), path: "/x/.git".into(), query: vec![] };
    assert_eq!(canonical_from(Some(parts)).as_deref(), Some("https://ex.com/x"));
}
