use awesome_ledger::parse::{entries, entries_of_events, github_repo, index_lists, IndexList, MdEvent};

const SAMPLE: &str = "\
# Awesome Things\n\n\
[![Awesome](https://awesome.re/badge.svg)](https://awesome.re)\n\n\
## Tools\n\n\
### Editors\n\n\
- [Alpha](https://github.com/a/alpha) - The first one.\n\
- [![badge](https://img.shields.io/x.svg)](https://ci.example.com) [Beta](https://github.com/b/beta) — Second, with a leading badge.\n\
- Plain text bullet without a link.\n\
- [Gamma](https://github.com/c/gamma)\n\
  - [Delta](https://github.com/d/delta) - Nested under Gamma.\n\n\
## Reading\n\n\
- [Site](https://example.com/article?utm_source=x) : an article.\n";

#[test]
fn extracts_entries_with_sections_and_descriptions() {
    let es = entries(SAMPLE);
    let names: Vec<&str> = es.iter().map(|e| e.name.as_str()).collect();
    assert_eq!(names, ["Alpha", "Beta", "Gamma", "Delta", "Site"]);
    let alpha = &es[0];
    assert_eq!(alpha.url, "https://github.com/a/alpha");
    assert_eq!(alpha.description, "The first one.");
    assert_eq!(alpha.section, ["Tools", "Editors"]);
    assert_eq!(es[1].url, "https://github.com/b/beta");
    assert_eq!(es[1].description, "Second, with a leading badge.");
    assert_eq!(es[2].name, "Gamma");
    assert_eq!(es[2].description, "");
    assert_eq!(es[3].name, "Delta");
    assert_eq!(es[3].description, "Nested under Gamma.");
    assert_eq!(es[4].section, ["Reading"]);
    assert_eq!(es[4].description, "an article.");
}

#[test]
fn index_scan_keeps_only_plain_github_repos() {
    let md = "\
# Awesome\n\n## Contents\n\n- [Platforms](#platforms)\n\n## Platforms\n\n\
- [Node.js](https://github.com/sindresorhus/awesome-nodejs#readme) - JS.\n\
- [Deep](https://github.com/o/r/tree/main/docs) - subfolder, not a list repo.\n\
- [Elsewhere](https://gitlab.com/o/r) - not github.\n\
- [Node.js](https://github.com/sindresorhus/awesome-nodejs) - duplicate.\n";
    let idx = index_lists(md);
    assert_eq!(
        idx,
        [IndexList {
            owner: "sindresorhus".into(),
            repo: "awesome-nodejs".into(),
            category: "Platforms".into()
        }]
    );
}

#[test]
fn github_repo_shapes() {
    assert_eq!(github_repo("https://github.com/a/b#readme"), Some(("a".into(), "b".into())));
    assert_eq!(github_repo("https://github.com/a/b.git"), Some(("a".into(), "b".into())));
    assert_eq!(github_repo("https://github.com/a"), None);
    assert_eq!(github_repo("https://github.com/a/b/c"), None);
    assert_eq!(github_repo("https://example.com/a/b"), None);
}

#[test]
fn empty_readme_has_no_entries() {
    assert!(entries("").is_empty());
    assert!(entries("nothing that parses to a list\n").is_empty());
    assert!(index_lists("# Title\n\nno lists here\n").is_empty());
}

#[test]
fn entry_state_machine_on_a_given_event_stream() {
    let s = |t: &str| MdEvent::Text(t.to_string());
    let evs = vec![
        MdEvent::StartHeading(1),
        s("Title"),
        MdEvent::EndHeading,
        MdEvent::StartHeading(2),
        s("Tools"),
        MdEvent::Break,
        s("and more"),
        MdEvent::EndHeading,
        MdEvent::StartItem,
        // a badge: a link around an image only
        MdEvent::StartLink("https://ci.example.com".into()),
        MdEvent::StartImage,
        s("badge"),
        MdEvent::EndImage,
        MdEvent::EndLink,
        MdEvent::StartLink("https://github.com/x/y".into()),
        s("  The   Name "),
        MdEvent::EndLink,
        s(" \u{2014} a  tool. "),
        MdEvent::EndItem,
        MdEvent::StartItem,
        MdEvent::StartLink("https://github.com/x/z".into()),
        MdEvent::EndLink,
        MdEvent::EndItem,
        MdEvent::StartItem,
        s("no link here"),
        MdEvent::EndItem,
    ];
    let es = entries_of_events(&evs);
    assert_eq!(es.len(), 1);
    assert_eq!(es[0].name, "The Name");
    assert_eq!(es[0].url, "https://github.com/x/y");
    assert_eq!(es[0].description, "a tool.");
    assert_eq!(es[0].section, ["Tools and more"]);
}

#[test]
fn nested_items_follow_their_parent() {
    let md = "## Tools\n\n- [Gamma](https://github.com/c/gamma) - outer.\n  - [Delta](https://github.com/d/delta) - inner.\n- [Eps](https://github.com/e/eps)\n";
    let es = entries(md);
    let names: Vec<&str> = es.iter().map(|e| e.name.as_str()).collect();
    assert_eq!(names, ["Gamma", "Delta", "Eps"]);
    assert_eq!(es[0].description, "outer.");
    assert_eq!(es[1].description, "inner.");

    let evs = vec![
        MdEvent::StartItem,
        MdEvent::StartLink("g".into()),
        MdEvent::Text("G".into()),
        MdEvent::EndLink,
        MdEvent::StartItem,
        MdEvent::StartLink("d".into()),
        MdEvent::Text("D".into()),
        MdEvent::EndLink,
        MdEvent::EndItem,
        MdEvent::EndItem,
    ];
    let urls: Vec<String> = entries_of_events(&evs).into_iter().map(|e| e.url).collect();
    assert_eq!(urls, ["g", "d"]);
}
