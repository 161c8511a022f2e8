use unsaferust::catalog::{parse_catalog_line, projectsImport, split_fields};
use unsaferust::store::StatsStore;

#[test]
fn split_keeps_empty_fields() {
    assert_eq!(split_fields("https://github.com/a/b", '/'), vec!["https:", "", "github.com", "a", "b"]);
    assert_eq!(split_fields("", '/'), vec![""]);
    assert_eq!(split_fields("/", '/'), vec!["", ""]);
}

#[test]
fn catalog_line_fields() {
    let e = parse_catalog_line("https://github.com/tokio-rs/tokio").unwrap();
    assert_eq!(e.provider_url, "https://github.com");
    assert_eq!(e.namespace, "tokio-rs");
    assert_eq!(e.name, "tokio");
    assert!(parse_catalog_line("https://github.com/tokio-rs").is_none());
    assert!(parse_catalog_line("").is_none());
    assert!(parse_catalog_line("a/b/c/d/e/f").is_none());
}

#[test]
fn import_skips_malformed_duplicate_and_unknown() {
    let mut store = StatsStore::new();
    store.addProvider("https://github.com");
    let lines: Vec<String> = [
        "https://github.com/tokio-rs/tokio",
        "",
        "bad line",
        "https://github.com/serde-rs/serde",
        "https://github.com/tokio-rs/tokio",
        "https://gitlab.com/x/y",
    ]
    .iter()
    .map(|l| l.to_string())
    .collect();
    assert_eq!(projectsImport(&mut store, &lines), 4);
    let projects = store.getProjects();
    assert_eq!(projects.len(), 2);
    assert_eq!(projects[0].name, "tokio");
    assert_eq!(projects[1].name, "serde");
    assert_eq!(projects[1].namespace, "serde-rs");
    assert_eq!(projects[1].provider_id, 1);
}
