use awesome_ledger::registry::{ExtraList, Registry};

/// Reads lists.toml text into the registry through toml's own value tree.
fn registry_of(text: &str) -> Registry {
    let table: toml::Table = toml::from_str(text).unwrap();
    let mut reg = Registry::empty();
    if let Some(extra) = table.get("extra").and_then(|v| v.as_array()) {
        for x in extra {
            let t = x.as_table().unwrap();
            reg.extra.push(ExtraList {
                owner: t["owner"].as_str().unwrap().to_string(),
                repo: t["repo"].as_str().unwrap().to_string(),
                category: t.get("category").and_then(|c| c.as_str()).map(String::from),
            });
        }
    }
    if let Some(bl) = table.get("blocklist").and_then(|v| v.as_array()) {
        for b in bl {
            reg.blocklist.push(b.as_str().unwrap().to_string());
        }
    }
    reg
}

#[test]
fn parses_registry() {
    let reg = registry_of(
        r#"
        blocklist = ["noisy/awesome-noise"]
        [[extra]]
        owner = "someone"
        repo = "awesome-thing"
        category = "Miscellaneous"
        "#,
    );
    assert_eq!(reg.extra.len(), 1);
    assert_eq!(reg.extra[0].category.as_deref(), Some("Miscellaneous"));
    assert!(reg.is_blocked("Noisy", "awesome-noise"));
    assert!(!reg.is_blocked("someone", "awesome-thing"));
}

#[test]
fn empty_file_is_empty_registry() {
    let reg = registry_of("");
    assert!(reg.extra.is_empty() && reg.blocklist.is_empty());
}

#[test]
fn blocklist_ignores_ascii_case_only() {
    let mut reg = Registry::empty();
    reg.blocklist.push("Noisy/Awesome-Noise".into());
    assert!(reg.is_blocked("noisy", "AWESOME-NOISE"));
    assert!(!reg.is_blocked("noisy", "awesome-noise2"));
    assert!(!reg.is_blocked("noisy/awesome", "noise"));
}
