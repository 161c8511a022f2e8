use unsaferust::models::{CodeLines, ProjectWithUrl, UnsafeLines};
use unsaferust::refresh::{
    clone_url, extraction_command, is_dir_name, parse_extraction_output, plan_refresh, shell_quote,
    reconcile_batch, ExtractionResult,
};
use unsaferust::store::StatsStore;

fn project(id: i32, namespace: &str, name: &str, url: &str) -> ProjectWithUrl {
    ProjectWithUrl { id, namespace: namespace.to_string(), name: name.to_string(), url: url.to_string() }
}

#[test]
fn parse_output_reads_two_counts() {
    assert_eq!(parse_extraction_output("5:100\n"), Some((UnsafeLines(5), CodeLines(100))));
    assert_eq!(parse_extraction_output("\n7\n:\n8\n"), Some((UnsafeLines(7), CodeLines(8))));
    assert_eq!(parse_extraction_output("+3:4"), Some((UnsafeLines(3), CodeLines(4))));
    assert_eq!(parse_extraction_output("0:2147483647"), Some((UnsafeLines(0), CodeLines(2147483647))));
}

#[test]
fn parse_output_rejects_other_shapes() {
    assert_eq!(parse_extraction_output("12:\n"), None);
    assert_eq!(parse_extraction_output(""), None);
    assert_eq!(parse_extraction_output("abc"), None);
    assert_eq!(parse_extraction_output("1:2:3"), None);
    assert_eq!(parse_extraction_output("1 :2"), None);
    assert_eq!(parse_extraction_output("2147483648:1"), None);
    assert_eq!(parse_extraction_output("-3:4"), None);
    assert_eq!(parse_extraction_output("3:-4"), None);
}

#[test]
fn clone_url_joins_provider_namespace_and_name() {
    let p = project(1, "seanmonstar", "warp", "https://github.com");
    assert_eq!(clone_url(&p), "https://github.com/seanmonstar/warp");
}

#[test]
fn extraction_command_text() {
    let expected = "mkdir -p /tmp/rust_projects > /dev/null 2>&1;\ncd /tmp/rust_projects || exit 1;\nif [ -d ./'warp' ]\nthen\n    cd ./'warp' || exit 1;\n    git pull --ff-only > /dev/null 2>&1 || exit 1;\n    cd .. || exit 1;\nelse\n    git clone 'https://github.com/seanmonstar/warp' ./'warp' > /dev/null 2>&1 || exit 1;\nfi\nunsafe_lines=$(grep -r --include='*.rs' unsafe ./'warp' | grep -v '//' | grep -v 'forbid(unsafe_code)' | wc -l);\ncd ./'warp' || exit 1;\ncode_lines=$(cloc . | grep Rust | awk '{print $5}');\necho \"$unsafe_lines:$code_lines\";\n";
    assert_eq!(extraction_command("warp", "https://github.com/seanmonstar/warp"), expected);
}

#[test]
fn shell_quoting() {
    assert_eq!(shell_quote("warp"), "'warp'");
    assert_eq!(shell_quote(""), "''");
    assert_eq!(shell_quote("it's"), "'it'\\''s'");
    assert_eq!(shell_quote("a b;$(x)"), "'a b;$(x)'");
}

#[test]
fn directory_names() {
    assert!(is_dir_name("warp"));
    assert!(is_dir_name("a b;c"));
    assert!(is_dir_name(".hidden"));
    assert!(!is_dir_name(""));
    assert!(!is_dir_name("."));
    assert!(!is_dir_name(".."));
    assert!(!is_dir_name("a/b"));
    assert!(!is_dir_name("a\0b"));
}

#[test]
fn plan_gives_one_job_per_project_with_directory_name() {
    let projects = vec![
        project(1, "seanmonstar", "warp", "https://github.com"),
        project(2, "evil", "x;reboot", "https://github.com"),
        project(3, "a+b", "..", "https://github.com"),
        project(4, "a+b", "actix-web", "https://github.com"),
    ];
    let jobs = plan_refresh(&projects);
    assert_eq!(jobs.len(), 3);
    assert_eq!(jobs[0].project_id, 1);
    assert_eq!(jobs[0].repo_key, "warp");
    assert_eq!(jobs[0].clone_url, "https://github.com/seanmonstar/warp");
    assert_eq!(jobs[0].command, extraction_command("warp", "https://github.com/seanmonstar/warp"));
    assert_eq!(jobs[1].project_id, 2);
    assert!(jobs[1].command.contains("./'x;reboot'"));
    assert_eq!(jobs[2].project_id, 4);
    assert_eq!(jobs[2].clone_url, "https://github.com/a+b/actix-web");
}

#[test]
fn plan_covers_every_project() {
    let projects = vec![
        project(1, "a+b", "warp", "https://github.com"),
        project(2, "ns", "tokio", "https://example.org/git"),
    ];
    let jobs = plan_refresh(&projects);
    assert_eq!(jobs.len(), 2);
    assert_eq!(jobs[0].clone_url, "https://github.com/a+b/warp");
    assert_eq!(jobs[1].clone_url, "https://example.org/git/ns/tokio");
}

#[test]
fn batch_with_one_failure_still_records_the_others() {
    let mut store = StatsStore::new();
    store.addProvider("https://github.com");
    store.createProject("https://github.com", "a", "alpha");
    store.createProject("https://github.com", "b", "beta");
    let results = vec![
        ExtractionResult { project_id: 1, outcome: None },
        ExtractionResult { project_id: 2, outcome: Some((UnsafeLines(5), CodeLines(50))) },
    ];
    assert_eq!(reconcile_batch(&mut store, &results, 1000), 1);
    assert_eq!(store.getProjectsStatsById(1).len(), 0);
    let beta = store.getProjectsStatsById(2);
    assert_eq!(beta.len(), 1);
    assert_eq!(beta[0].unsafe_lines, 5);
    assert_eq!(beta[0].code_lines, 50);
}

#[test]
fn batch_applies_results_in_order() {
    let mut store = StatsStore::new();
    store.addProvider("https://github.com");
    store.createProject("https://github.com", "a", "alpha");
    let results = vec![
        ExtractionResult { project_id: 1, outcome: Some((UnsafeLines(5), CodeLines(50))) },
        ExtractionResult { project_id: 1, outcome: Some((UnsafeLines(5), CodeLines(60))) },
        ExtractionResult { project_id: 9, outcome: Some((UnsafeLines(1), CodeLines(1))) },
    ];
    assert_eq!(reconcile_batch(&mut store, &results, 2000), 3);
    let alpha = store.getProjectsStatsById(1);
    assert_eq!(alpha.len(), 1);
    assert_eq!(alpha[0].code_lines, 60);
}
