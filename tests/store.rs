use unsaferust::models::Pagination;
use unsaferust::store::{CreateOutcome, ReconcileOutcome, StatsStore};

const DAY_2020_01_01: u64 = 1577836800;
const DAY_2021_01_01: u64 = 1609459200;

fn store_with_provider() -> StatsStore {
    let mut store = StatsStore::new();
    assert_eq!(store.addProvider("https://github.com"), Some(1));
    store
}

fn store_with_projects() -> StatsStore {
    let mut store = store_with_provider();
    assert_eq!(store.createProject("https://github.com", "seanmonstar", "warp"), CreateOutcome::Created(1));
    assert_eq!(store.createProject("https://github.com", "actix-web", "actix"), CreateOutcome::Created(2));
    store
}

fn store_with_stats() -> StatsStore {
    let mut store = store_with_projects();
    store.updateProjectStatsById(1, 100, 10, DAY_2020_01_01);
    store.updateProjectStatsById(1, 100, 11, DAY_2021_01_01);
    store.updateProjectStatsById(2, 200, 20, DAY_2020_01_01);
    store.updateProjectStatsById(2, 200, 11, DAY_2021_01_01);
    store
}

fn names(store: &StatsStore, filter: &str, limit: u32, page: u32) -> Vec<String> {
    store
        .getProjectsStats(filter, limit, page)
        .projectStats
        .iter()
        .map(|d| d.name.clone())
        .collect()
}

#[test]
fn test_projects_get_all() {
    let store = store_with_projects();
    let projects = store.getProjects();
    assert_eq!(projects.len(), 2);
    assert_eq!(projects[1].namespace, "actix-web");
    assert_eq!(store.getProjectById(3).len(), 0);
}

#[test]
fn test_projects_get_by_id() {
    let store = store_with_projects();
    let projects = store.getProjectById(2);
    assert_eq!(projects[0].namespace, "actix-web");
    assert_eq!(projects[0].name, "actix");
    assert_eq!(store.getProjectById(3).len(), 0);
}

#[test]
fn test_providers_get_all() {
    let store = store_with_provider();
    let providers = store.getProviders();
    assert_eq!(providers.len(), 1);
    assert_eq!(providers[0].url, "https://github.com");
}

#[test]
fn test_providers_get_by_id() {
    let store = store_with_provider();
    let providers = store.getProviderById(1);
    assert_eq!(providers[0].url, "https://github.com");
    assert_eq!(store.getProviderById(100).len(), 0);
}

#[test]
fn test_project_stats_get_all() {
    let store = store_with_stats();
    let response = store.getProjectsStats("", 50, 0);
    assert_eq!(response.projectStats.len(), 2);
    assert_eq!(response.projectStats[0].unsafe_lines, 11);
    assert_eq!(response.projectStats[0].created_at, "2021-01-01");
    assert_eq!(response.projectStats[1].unsafe_lines, 11);
    assert_eq!(response.projectStats[1].created_at, "2021-01-01");
    assert_eq!(response.meta, 2);
}

#[test]
fn test_project_stats_get_by_id() {
    let store = store_with_stats();
    let project_stats = store.getProjectsStatsById(1);
    assert_eq!(project_stats.len(), 2);
    assert_eq!(project_stats[0].unsafe_lines, 11);
    assert_eq!(project_stats[0].created_at, "2021-01-01");
    assert_eq!(project_stats[1].unsafe_lines, 10);
    assert_eq!(project_stats[1].created_at, "2020-01-01");

    let project_stats = store.getProjectsStatsById(2);
    assert_eq!(project_stats.len(), 2);
    assert_eq!(project_stats[0].unsafe_lines, 11);
    assert_eq!(project_stats[0].created_at, "2021-01-01");
    assert_eq!(project_stats[1].unsafe_lines, 20);
    assert_eq!(project_stats[1].created_at, "2020-01-01");
}

#[test]
fn history_of_unknown_project_is_empty() {
    let store = store_with_stats();
    assert_eq!(store.getProjectsStatsById(7).len(), 0);
}

fn query(page: u32, limit: u32, name: Option<&str>) -> (u32, u32, String) {
    let p = Pagination { page: Some(page), limit: Some(limit), name: name.map(|n| n.to_string()) };
    (p.page_index(), p.page_size(), p.name_filter())
}

#[test]
fn test_project_stats_pagination() {
    let mut store = store_with_provider();
    for i in 1..10 {
        let name = format!("name_{i}");
        let namespace = format!("namespace_{i}");
        assert_eq!(store.createProject("https://github.com", &namespace, &name), CreateOutcome::Created(i));
        store.updateProjectStatsById(i, i, i, 1000);
    }

    let (page, limit, name) = query(1, 25, None);
    assert_eq!(store.getProjectsStats(&name, limit, page).projectStats.len(), 9);

    let (page, limit, name) = query(1, 3, None);
    assert_eq!(names(&store, &name, limit, page), vec!["name_1", "name_2", "name_3"]);

    let (page, limit, name) = query(3, 3, None);
    assert_eq!(names(&store, &name, limit, page), vec!["name_7", "name_8", "name_9"]);

    let (page, limit, name) = query(2, 4, None);
    assert_eq!(names(&store, &name, limit, page), vec!["name_5", "name_6", "name_7", "name_8"]);

    let (page, limit, name) = query(2, 8, None);
    assert_eq!(names(&store, &name, limit, page), vec!["name_9"]);
}

#[test]
fn testProjectStatsPaginationWithName() {
    let mut store = store_with_provider();
    for i in 1..10 {
        let name = format!("foo_{i}");
        let namespace = format!("namespace_{i}");
        assert_eq!(store.createProject("https://github.com", &namespace, &name), CreateOutcome::Created(i));
        store.updateProjectStatsById(i, i, i, 1000);
    }
    for i in 1..10 {
        let name = format!("bar_{i}");
        let namespace = format!("namespace_{i}");
        assert_eq!(
            store.createProject("https://github.com", &namespace, &name),
            CreateOutcome::Created(i + 9)
        );
        store.updateProjectStatsById(i + 9, i, i, 1000);
    }

    let (page, limit, name) = query(1, 25, None);
    assert_eq!(store.getProjectsStats(&name, limit, page).projectStats.len(), 18);

    let (page, limit, name) = query(1, 3, Some("foo"));
    assert_eq!(names(&store, &name, limit, page), vec!["foo_1", "foo_2", "foo_3"]);

    let (page, limit, name) = query(3, 3, Some("foo"));
    assert_eq!(names(&store, &name, limit, page), vec!["foo_7", "foo_8", "foo_9"]);

    let (page, limit, name) = query(2, 4, Some("bar"));
    assert_eq!(names(&store, &name, limit, page), vec!["bar_5", "bar_6", "bar_7", "bar_8"]);

    let (page, limit, name) = query(2, 8, Some("bar"));
    assert_eq!(names(&store, &name, limit, page), vec!["bar_9"]);

    let (page, limit, name) = query(2, 8, Some("hello"));
    assert_eq!(store.getProjectsStats(&name, limit, page).projectStats.len(), 0);
}

#[test]
fn reconcile_twice_with_same_unsafe_count_keeps_one_snapshot() {
    let mut store = store_with_projects();
    assert_eq!(store.updateProjectStatsById(1, 100, 5, 1000), ReconcileOutcome::Inserted);
    assert_eq!(store.updateProjectStatsById(1, 140, 5, DAY_2021_01_01), ReconcileOutcome::Updated);
    let history = store.getProjectsStatsById(1);
    assert_eq!(history.len(), 1);
    assert_eq!(history[0].code_lines, 140);
    assert_eq!(history[0].unsafe_lines, 5);
    assert_eq!(history[0].created_at, "1970-01-01");
    assert_eq!(history[0].updated_at, "2021-01-01");
}

#[test]
fn reconcile_with_new_unsafe_count_adds_snapshot() {
    let mut store = store_with_projects();
    assert_eq!(store.updateProjectStatsById(1, 100, 5, 1000), ReconcileOutcome::Inserted);
    assert_eq!(store.updateProjectStatsById(1, 120, 7, 2000), ReconcileOutcome::Inserted);
    let history = store.getProjectsStatsById(1);
    assert_eq!(history.len(), 2);
    assert_eq!(history[0].code_lines, 120);
    assert_eq!(history[0].unsafe_lines, 7);
    assert_eq!(history[1].code_lines, 100);
    assert_eq!(history[1].unsafe_lines, 5);
    assert_eq!(history[1].updated_at, "");
}

#[test]
fn reconcile_unknown_project_changes_nothing() {
    let mut store = store_with_projects();
    assert_eq!(store.updateProjectStatsById(3, 100, 5, 1000), ReconcileOutcome::UnknownProject);
    assert_eq!(store.updateProjectStatsById(0, 100, 5, 1000), ReconcileOutcome::UnknownProject);
    assert_eq!(store.getProjectsStats("", 10, 0).meta, 0);
}

#[test]
fn ranked_view_shows_latest_created_snapshot() {
    let mut store = store_with_projects();
    store.updateProjectStatsById(1, 100, 5, DAY_2020_01_01);
    store.updateProjectStatsById(1, 120, 7, DAY_2021_01_01);
    let page = store.getProjectsStats("warp", 10, 0);
    assert_eq!(page.meta, 1);
    assert_eq!(page.projectStats.len(), 1);
    assert_eq!(page.projectStats[0].unsafe_lines, 7);
    assert_eq!(page.projectStats[0].code_lines, 120);
    assert_eq!(page.projectStats[0].created_at, "2021-01-01");
}

#[test]
fn ranked_view_ignores_later_update_of_older_snapshot() {
    let mut store = store_with_projects();
    store.updateProjectStatsById(1, 100, 5, DAY_2020_01_01);
    store.updateProjectStatsById(1, 120, 7, DAY_2021_01_01);
    store.updateProjectStatsById(1, 130, 5, DAY_2021_01_01 + 86400);
    let page = store.getProjectsStats("", 10, 0);
    assert_eq!(page.projectStats[0].name, "warp");
    assert_eq!(page.projectStats[0].unsafe_lines, 7);
}

#[test]
fn ranked_view_breaks_ties_by_latest_insertion() {
    let mut store = store_with_projects();
    store.updateProjectStatsById(1, 100, 5, 5000);
    store.updateProjectStatsById(1, 120, 7, 5000);
    let page = store.getProjectsStats("", 10, 0);
    assert_eq!(page.projectStats[0].unsafe_lines, 7);
}

#[test]
fn listing_row_carries_url_and_identifiers() {
    let store = store_with_stats();
    let page = store.getProjectsStats("", 1, 0);
    assert_eq!(page.meta, 2);
    assert_eq!(page.projectStats.len(), 1);
    let row = &page.projectStats[0];
    assert_eq!(row.project_id, 2);
    assert_eq!(row.name, "actix");
    assert_eq!(row.url, "https://github.com/actix-web/actix");
    assert_eq!(row.code_lines, 200);
    assert_eq!(row.updated_at, "");
}

#[test]
fn listing_skips_projects_without_snapshots() {
    let mut store = store_with_projects();
    store.updateProjectStatsById(1, 100, 5, 1000);
    let page = store.getProjectsStats("", 10, 0);
    assert_eq!(page.meta, 1);
    assert_eq!(page.projectStats[0].name, "warp");
}

#[test]
fn name_filter_ignores_letter_case() {
    let store = store_with_stats();
    let page = store.getProjectsStats("WaR", 10, 0);
    assert_eq!(page.meta, 1);
    assert_eq!(page.projectStats[0].name, "warp");
}

#[test]
fn page_past_the_end_is_empty_with_total() {
    let store = store_with_stats();
    let page = store.getProjectsStats("", 2, 1);
    assert_eq!(page.projectStats.len(), 0);
    assert_eq!(page.meta, 2);
    let page = store.getProjectsStats("", 0, 0);
    assert_eq!(page.projectStats.len(), 0);
    assert_eq!(page.meta, 2);
    let page = store.getProjectsStats("", u32::MAX, u32::MAX);
    assert_eq!(page.projectStats.len(), 0);
}

#[test]
fn create_project_is_idempotent_by_name() {
    let mut store = store_with_projects();
    assert_eq!(store.createProject("https://github.com", "other", "warp"), CreateOutcome::AlreadyPresent);
    assert_eq!(store.getProjects().len(), 2);
}

#[test]
fn create_project_needs_known_provider() {
    let mut store = store_with_projects();
    assert_eq!(store.createProject("https://gitlab.com", "group", "tool"), CreateOutcome::UnknownProvider);
    assert_eq!(store.getProjects().len(), 2);
}

#[test]
fn add_provider_finds_existing_url() {
    let mut store = store_with_provider();
    assert_eq!(store.addProvider("https://gitlab.com"), Some(2));
    assert_eq!(store.addProvider("https://github.com"), Some(1));
    assert_eq!(store.getProviders().len(), 2);
}

#[test]
fn projects_with_url_join_provider() {
    let store = store_with_projects();
    let projects = store.getProjectsWithUrl();
    assert_eq!(projects.len(), 2);
    assert_eq!(projects[0].id, 1);
    assert_eq!(projects[0].name, "warp");
    assert_eq!(projects[0].namespace, "seanmonstar");
    assert_eq!(projects[0].url, "https://github.com");
}

#[test]
fn pagination_defaults() {
    let p = Pagination { page: None, limit: None, name: None };
    assert_eq!(p.page_index(), 0);
    assert_eq!(p.page_size(), 50);
    assert_eq!(p.name_filter(), "");
    let p = Pagination { page: Some(0), limit: Some(7), name: Some("foo".to_string()) };
    assert_eq!(p.page_index(), 0);
    assert_eq!(p.page_size(), 7);
    assert_eq!(p.name_filter(), "foo");
}

#[test]
fn pagination_pages_of_nine() {
    let mut store = store_with_provider();
    for i in (1..10).rev() {
        let name = format!("name_{i}");
        store.createProject("https://github.com", "ns", &name);
    }
    for id in 1..10 {
        store.updateProjectStatsById(id, 10, 1, 1000);
    }
    assert_eq!(names(&store, "", 3, 0), vec!["name_1", "name_2", "name_3"]);
    assert_eq!(names(&store, "", 3, 2), vec!["name_7", "name_8", "name_9"]);
    assert_eq!(names(&store, "", 8, 1), vec!["name_9"]);
    let all = store.getProjectsStats("", 25, 0);
    assert_eq!(all.meta, 9);
    assert_eq!(all.projectStats.len(), 9);
    assert_eq!(all.projectStats[0].name, "name_1");
    assert_eq!(all.projectStats[8].name, "name_9");
}
