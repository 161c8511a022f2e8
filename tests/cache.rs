use unsaferust::cache::{page_key, render_page, render_row, PageCache};
use unsaferust::models::{ProjectStatsDTO, ProjectStatsWithMeta};
use unsaferust::store::StatsStore;

fn store() -> StatsStore {
    let mut store = StatsStore::new();
    store.addProvider("https://github.com");
    store.createProject("https://github.com", "seanmonstar", "warp");
    store.createProject("https://github.com", "actix-web", "actix");
    store.updateProjectStatsById(1, 100, 10, 1609459200);
    store.updateProjectStatsById(2, 200, 11, 1609459200);
    store
}

fn row(project_id: i32, name: &str) -> ProjectStatsDTO {
    ProjectStatsDTO::new(
        project_id,
        name.to_string(),
        format!("https://github.com/ns/{name}"),
        100,
        -3,
        "2021-01-01".to_string(),
        "".to_string(),
    )
}

#[test]
fn cache_key_joins_query_with_underscores() {
    assert_eq!(page_key(0, 3, "foo"), "0_3_foo");
    assert_eq!(page_key(12, 50, ""), "12_50_");
    assert_ne!(page_key(1, 23, "x"), page_key(12, 3, "x"));
}

#[test]
fn render_row_writes_json_object() {
    assert_eq!(
        render_row(&row(1, "warp")),
        "{\"project_id\":1,\"name\":\"warp\",\"url\":\"https://github.com/ns/warp\",\"code_lines\":100,\"unsafe_lines\":-3,\"created_at\":\"2021-01-01\",\"updated_at\":\"\"}"
    );
}

#[test]
fn render_row_escapes_strings() {
    let text = render_row(&row(7, "a\"b"));
    assert!(text.contains("\"name\":\"a\\\"b\""));
}

#[test]
fn render_row_escapes_control_characters() {
    let text = render_row(&row(7, "a\u{1f}\t\\b"));
    assert!(text.contains("\"name\":\"a\\u001f\\t\\\\b\""), "{text}");
    let expected = serde_json::to_string("x\u{1}\"\u{8}").unwrap();
    assert!(render_row(&row(8, "x\u{1}\"\u{8}")).contains(&format!("\"name\":{expected},")));
}

#[test]
fn render_page_writes_rows_and_total() {
    let page = ProjectStatsWithMeta { projectStats: vec![row(1, "a"), row(2, "b")], meta: 9 };
    let text = render_page(&page);
    assert!(text.starts_with("{\"projectStats\":[{\"project_id\":1,"));
    assert!(text.contains("},{\"project_id\":2,"));
    assert!(text.ends_with("}],\"meta\":9}"));
    let empty = ProjectStatsWithMeta { projectStats: vec![], meta: 0 };
    assert_eq!(render_page(&empty), "{\"projectStats\":[],\"meta\":0}");
}

#[test]
fn get_and_set_key() {
    let mut cache = PageCache::new();
    assert_eq!(cache.getKey("k"), None);
    cache.setKey("k", "v1");
    cache.setKey("other", "w");
    cache.setKey("k", "v2");
    assert_eq!(cache.getKey("k"), Some("v2".to_string()));
    assert_eq!(cache.getKey("other"), Some("w".to_string()));
    cache.flush();
    assert_eq!(cache.getKey("k"), None);
    assert_eq!(cache.getKey("other"), None);
}

#[test]
fn cache_aside_serves_second_read_from_cache() {
    let store = store();
    let mut cache = PageCache::new();
    cache.flush();
    let (first, computed) = cache.getPage(&store, "", 50, 0);
    assert!(computed);
    let (second, computed) = cache.getPage(&store, "", 50, 0);
    assert!(!computed);
    assert_eq!(first, second);
    assert_eq!(cache.getKey("0_50_"), Some(first.clone()));
    assert!(first.ends_with("],\"meta\":2}"));
}

#[test]
fn cache_aside_is_stale_until_flush() {
    let mut store = store();
    let mut cache = PageCache::new();
    let (before, _) = cache.getPage(&store, "warp", 10, 0);
    store.updateProjectStatsById(1, 150, 12, 1609459300);
    let (stale, computed) = cache.getPage(&store, "warp", 10, 0);
    assert!(!computed);
    assert_eq!(stale, before);
    cache.flush();
    let (fresh, computed) = cache.getPage(&store, "warp", 10, 0);
    assert!(computed);
    assert_ne!(fresh, before);
    assert!(fresh.contains("\"unsafe_lines\":12"));
}

#[test]
fn cache_keys_distinguish_queries() {
    let store = store();
    let mut cache = PageCache::new();
    let (all, _) = cache.getPage(&store, "", 50, 0);
    let (filtered, computed) = cache.getPage(&store, "warp", 50, 0);
    assert!(computed);
    assert_ne!(all, filtered);
}
