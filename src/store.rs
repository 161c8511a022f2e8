//! The metric store: providers, repositories and their metric snapshots, with
//! the upsert that keeps one snapshot per observed unsafe-line count, the
//! current snapshot of each repository, and the reads served from them.
use vstd::prelude::*;
use crate::models::{
    Project, ProjectStats, ProjectStatsDTO, ProjectStatsWithMeta, ProjectWithUrl, Provider,
};
use crate::listing::{
    candidates, insert_position, lemma_insert_pos_bounds, lemma_rows_upto_len, lemma_sort_len,
    listing, name_matches, page_of, project_url, row_of, rows_upto, rows_view, sort_by_name,
    updated_text,
};
use crate::text::{contains_text, date_text, lower_of, lowercase, render_date};

verus! {

/// One observation of a repository's metrics. Its position in the store is its
/// identifier: a later position means a later insertion.
#[derive(Copy, Clone, Debug, PartialEq, Eq, Structural)]
pub struct Snapshot {
    pub project_id: i32,
    pub code_lines: i32,
    pub unsafe_lines: i32,
    /// Unix time, in seconds, of the insertion.
    pub created_at: u64,
    /// Unix time, in seconds, of the last refresh in place, if any.
    pub updated_at: Option<u64>,
}

/// A repository as the store sees it; its identifier is its position plus one.
pub struct ProjectView {
    pub provider_id: i32,
    pub namespace: Seq<char>,
    pub name: Seq<char>,
}

/// The contents of a store. Provider `i + 1` has URL `providers[i]`, and
/// repository `i + 1` is `projects[i]`.
pub struct StoreModel {
    pub providers: Seq<Seq<char>>,
    pub projects: Seq<ProjectView>,
    pub snapshots: Seq<Snapshot>,
}

/// What a store must satisfy: identifiers fit in an `i32`, every repository
/// references a provider and has a name of its own, every snapshot references a
/// repository, and no two snapshots share a repository and an unsafe-line count.
pub open spec fn store_ok(v: StoreModel) -> bool {
    &&& v.providers.len() < i32::MAX
    &&& v.projects.len() < i32::MAX
    &&& forall|i: int, j: int|
        0 <= i < v.providers.len() && 0 <= j < v.providers.len() && i != j ==> #[trigger] v.providers[i]
            != #[trigger] v.providers[j]
    &&& forall|i: int|
        0 <= i < v.projects.len() ==> 1 <= #[trigger] v.projects[i].provider_id
            <= v.providers.len()
    &&& forall|i: int, j: int|
        0 <= i < v.projects.len() && 0 <= j < v.projects.len() && i != j ==> #[trigger] v.projects[i].name
            != #[trigger] v.projects[j].name
    &&& forall|i: int|
        0 <= i < v.snapshots.len() ==> 1 <= #[trigger] v.snapshots[i].project_id
            <= v.projects.len()
    &&& forall|i: int, j: int|
        0 <= i < v.snapshots.len() && 0 <= j < v.snapshots.len() && i != j
            && #[trigger] v.snapshots[i].project_id == #[trigger] v.snapshots[j].project_id
            ==> v.snapshots[i].unsafe_lines != v.snapshots[j].unsafe_lines
}

/// First position from `i` on of the snapshot of repository `pid` with `u`
/// unsafe lines.
pub open spec fn find_snapshot_from(s: Seq<Snapshot>, pid: i32, u: i32, i: int) -> Option<int>
    decreases s.len() - i,
{
    if i < 0 || i >= s.len() {
        None
    } else if s[i].project_id == pid && s[i].unsafe_lines == u {
        Some(i)
    } else {
        find_snapshot_from(s, pid, u, i + 1)
    }
}

/// Position of the snapshot of repository `pid` with `u` unsafe lines.
pub open spec fn find_snapshot(s: Seq<Snapshot>, pid: i32, u: i32) -> Option<int> {
    find_snapshot_from(s, pid, u, 0)
}

/// The snapshots after an observation of `code` lines and `u` unsafe lines of
/// repository `pid` at time `now`: the snapshot with that unsafe-line count is
/// refreshed in place, or a new one is appended.
pub open spec fn reconcile_snapshots(
    s: Seq<Snapshot>,
    pid: i32,
    code: i32,
    u: i32,
    now: u64,
) -> Seq<Snapshot> {
    match find_snapshot(s, pid, u) {
        Some(i) => s.update(
            i,
            Snapshot {
                project_id: pid,
                code_lines: code,
                unsafe_lines: u,
                created_at: s[i].created_at,
                updated_at: Some(now),
            },
        ),
        None => s.push(
            Snapshot {
                project_id: pid,
                code_lines: code,
                unsafe_lines: u,
                created_at: now,
                updated_at: None,
            },
        ),
    }
}

/// Whether `pid` names a repository of the store.
pub open spec fn has_project(v: StoreModel, pid: i32) -> bool {
    1 <= pid <= v.projects.len()
}

/// The store after an observation; an unknown repository leaves it unchanged.
pub open spec fn reconcile_spec(v: StoreModel, pid: i32, code: i32, u: i32, now: u64) -> StoreModel {
    if has_project(v, pid) {
        StoreModel {
            providers: v.providers,
            projects: v.projects,
            snapshots: reconcile_snapshots(v.snapshots, pid, code, u, now),
        }
    } else {
        v
    }
}

/// Among the first `n` snapshots, the position of the current one of repository
/// `pid`: the latest created, and of those the latest inserted.
pub open spec fn latest_in(s: Seq<Snapshot>, pid: i32, n: int) -> Option<int>
    decreases n,
{
    if n <= 0 {
        None
    } else {
        let prev = latest_in(s, pid, n - 1);
        if s[n - 1].project_id == pid && (prev is None || s[prev->0].created_at
            <= s[n - 1].created_at) {
            Some(n - 1)
        } else {
            prev
        }
    }
}

/// Position of the current snapshot of repository `pid`, if it has any.
pub open spec fn current_snapshot(v: StoreModel, pid: i32) -> Option<int> {
    latest_in(v.snapshots, pid, v.snapshots.len() as int)
}

/// Position of the first provider with URL `url`, searching from `i`.
pub open spec fn provider_from(v: StoreModel, url: Seq<char>, i: int) -> Option<int>
    decreases v.providers.len() - i,
{
    if i < 0 || i >= v.providers.len() {
        None
    } else if v.providers[i] == url {
        Some(i)
    } else {
        provider_from(v, url, i + 1)
    }
}

/// Whether a repository of that name is in the store.
pub open spec fn name_taken(v: StoreModel, name: Seq<char>) -> bool {
    exists|i: int| 0 <= i < v.projects.len() && #[trigger] v.projects[i].name == name
}

/// The store after adding repository `namespace/name` under the provider with
/// URL `url`: unchanged when the name is taken, the provider unknown or no
/// identifier is left.
pub open spec fn create_spec(v: StoreModel, url: Seq<char>, namespace: Seq<char>, name: Seq<char>) -> StoreModel {
    if name_taken(v, name) || provider_from(v, url, 0) is None || v.projects.len() + 1 >= i32::MAX {
        v
    } else {
        StoreModel {
            providers: v.providers,
            projects: v.projects.push(
                ProjectView {
                    provider_id: (provider_from(v, url, 0)->0 + 1) as i32,
                    namespace,
                    name,
                },
            ),
            snapshots: v.snapshots,
        }
    }
}

/// What adding a repository did to the store.
#[derive(Copy, Clone, Debug, PartialEq, Eq, Structural)]
pub enum CreateOutcome {
    /// The repository was added under this identifier.
    Created(i32),
    /// A repository of that name is already there; nothing changed.
    AlreadyPresent,
    /// No provider has that URL; nothing changed.
    UnknownProvider,
    /// No identifier is left; nothing changed.
    CatalogFull,
}

/// Where snapshot `x` goes in a history ordered from the latest created, searching
/// from `i`: before the first snapshot created earlier than it.
pub open spec fn history_pos(sorted: Seq<Snapshot>, x: Snapshot, i: int) -> int
    decreases sorted.len() - i,
{
    if i < 0 || i >= sorted.len() {
        sorted.len() as int
    } else if sorted[i].created_at < x.created_at {
        i
    } else {
        history_pos(sorted, x, i + 1)
    }
}

/// Snapshots of repository `pid` among the first `n`, latest created first, and
/// in insertion order among those created at the same time.
pub open spec fn history_upto(s: Seq<Snapshot>, pid: i32, n: int) -> Seq<Snapshot>
    decreases n,
{
    if n <= 0 {
        Seq::<Snapshot>::empty()
    } else {
        let h = history_upto(s, pid, n - 1);
        if s[n - 1].project_id == pid {
            h.insert(history_pos(h, s[n - 1], 0), s[n - 1])
        } else {
            h
        }
    }
}

/// The metric history of a repository, latest created first.
pub open spec fn history(v: StoreModel, pid: i32) -> Seq<Snapshot> {
    history_upto(v.snapshots, pid, v.snapshots.len() as int)
}

/// A history entry as served: the snapshot with its times rendered as text.
pub open spec fn stats_match(r: ProjectStats, x: Snapshot) -> bool {
    &&& r.project_id == x.project_id
    &&& r.code_lines == x.code_lines
    &&& r.unsafe_lines == x.unsafe_lines
    &&& r.created_at@ == date_text(x.created_at as int)
    &&& r.updated_at@ == updated_text(x.updated_at)
}

/// What an observation did to the store.
#[derive(Copy, Clone, Debug, PartialEq, Eq, Structural)]
pub enum ReconcileOutcome {
    /// The snapshot with that unsafe-line count was refreshed in place.
    Updated,
    /// A new snapshot was appended.
    Inserted,
    /// No repository has that identifier; nothing changed.
    UnknownProject,
}

/// Providers, repositories and metric snapshots.
pub struct StatsStore {
    providers: Vec<Provider>,
    projects: Vec<Project>,
    snapshots: Vec<Snapshot>,
}

impl View for StatsStore {
    type V = StoreModel;

    closed spec fn view(&self) -> StoreModel {
        StoreModel {
            providers: self.providers@.map_values(|p: Provider| p.url@),
            projects: self.projects@.map_values(
                |p: Project| ProjectView { provider_id: p.provider_id, namespace: p.namespace@, name: p.name@ },
            ),
            snapshots: self.snapshots@,
        }
    }
}

proof fn lemma_find_from_skips(s: Seq<Snapshot>, pid: i32, u: i32, i: int)
    requires
        0 <= i <= s.len(),
        forall|j: int| 0 <= j < i ==> !(#[trigger] s[j].project_id == pid && s[j].unsafe_lines == u),
    ensures
        find_snapshot(s, pid, u) == find_snapshot_from(s, pid, u, i),
    decreases i,
{
    if i > 0 {
        lemma_find_from_skips(s, pid, u, i - 1);
    }
}

proof fn lemma_find_found(s: Seq<Snapshot>, pid: i32, u: i32, i: int)
    requires
        0 <= i <= s.len(),
    ensures
        find_snapshot_from(s, pid, u, i) matches Some(k) ==> i <= k < s.len() && s[k].project_id
            == pid && s[k].unsafe_lines == u && forall|j: int|
            i <= j < k ==> !(#[trigger] s[j].project_id == pid && s[j].unsafe_lines == u),
        find_snapshot_from(s, pid, u, i) is None ==> forall|k: int|
            i <= k < s.len() ==> !(#[trigger] s[k].project_id == pid && s[k].unsafe_lines == u),
    decreases s.len() - i,
{
    if i < s.len() {
        lemma_find_found(s, pid, u, i + 1);
    }
}

proof fn lemma_latest_bounds(s: Seq<Snapshot>, pid: i32, n: int)
    requires
        0 <= n <= s.len(),
    ensures
        latest_in(s, pid, n) matches Some(c) ==> 0 <= c < n && s[c].project_id == pid,
    decreases n,
{
    if n > 0 {
        lemma_latest_bounds(s, pid, n - 1);
    }
}

proof fn provider_from_none(v: StoreModel, url: Seq<char>, i: int)
    requires
        0 <= i <= v.providers.len(),
        provider_from(v, url, i) is None,
    ensures
        forall|j: int| i <= j < v.providers.len() ==> #[trigger] v.providers[j] != url,
    decreases v.providers.len() - i,
{
    if i < v.providers.len() {
        provider_from_none(v, url, i + 1);
    }
}

proof fn provider_from_some(v: StoreModel, url: Seq<char>, i: int)
    requires
        0 <= i <= v.providers.len(),
    ensures
        provider_from(v, url, i) matches Some(k) ==> i <= k < v.providers.len() && v.providers[k]
            == url,
    decreases v.providers.len() - i,
{
    if i < v.providers.len() {
        provider_from_some(v, url, i + 1);
    }
}


proof fn lemma_find_extends(s: Seq<Snapshot>, t: Seq<Snapshot>, b: i32, ub: i32, i: int)
    requires
        0 <= i,
        s.len() <= t.len(),
        forall|m: int|
            0 <= m < s.len() ==> ((#[trigger] t[m]).project_id == b) == (s[m].project_id == b) && (
            t[m].project_id == b ==> t[m] == s[m]),
        forall|m: int| s.len() <= m < t.len() ==> (#[trigger] t[m]).project_id != b,
    ensures
        find_snapshot_from(t, b, ub, i) == find_snapshot_from(s, b, ub, i),
    decreases t.len() - i,
{
    if i < t.len() {
        lemma_find_extends(s, t, b, ub, i + 1);
    }
}

/// An observation keeps the store's invariant.
pub proof fn lemma_reconcile_ok(v: StoreModel, pid: i32, code: i32, u: i32, now: u64)
    requires
        store_ok(v),
    ensures
        store_ok(reconcile_spec(v, pid, code, u, now)),
        reconcile_spec(v, pid, code, u, now).projects == v.projects,
        reconcile_spec(v, pid, code, u, now).providers == v.providers,
{
    if has_project(v, pid) {
        let s = v.snapshots;
        let w = reconcile_snapshots(s, pid, code, u, now);
        lemma_find_found(s, pid, u, 0);
        match find_snapshot(s, pid, u) {
            Some(i) => {
                assert forall|a: int| 0 <= a < s.len() implies #[trigger] w[a].project_id
                    == s[a].project_id && w[a].unsafe_lines == s[a].unsafe_lines by {}
                assert forall|a: int, b: int|
                    0 <= a < w.len() && 0 <= b < w.len() && a != b && #[trigger] w[a].project_id
                        == #[trigger] w[b].project_id implies w[a].unsafe_lines
                    != w[b].unsafe_lines by {
                    assert(s[a].project_id == s[b].project_id);
                }
            },
            None => {
                assert forall|a: int, b: int|
                    0 <= a < w.len() && 0 <= b < w.len() && a != b && #[trigger] w[a].project_id
                        == #[trigger] w[b].project_id implies w[a].unsafe_lines
                    != w[b].unsafe_lines by {
                    if a < s.len() && b < s.len() {
                        assert(w[a] == s[a] && w[b] == s[b]);
                    } else if a < s.len() {
                        assert(w[a] == s[a]);
                    } else {
                        assert(w[b] == s[b]);
                    }
                }
                assert forall|a: int| 0 <= a < w.len() implies 1 <= #[trigger] w[a].project_id
                    <= v.projects.len() by {
                    if a < s.len() {
                        assert(w[a] == s[a]);
                    }
                }
            },
        }
    }
}

/// After an observation of a repository, the store holds exactly one snapshot
/// for that repository and unsafe-line count, and it carries the observed line
/// count: refreshed in place at time `now` if it was there, else created at `now`.
pub proof fn lemma_reconcile_records(v: StoreModel, pid: i32, code: i32, u: i32, now: u64)
    requires
        store_ok(v),
        has_project(v, pid),
    ensures
        ({
            let w = reconcile_spec(v, pid, code, u, now).snapshots;
            &&& find_snapshot(w, pid, u) matches Some(k) && 0 <= k < w.len() && w[k].project_id
                == pid && w[k].unsafe_lines == u && w[k].code_lines == code && (match find_snapshot(
                v.snapshots,
                pid,
                u,
            ) {
                Some(i) => k == i && w[k].updated_at == Some(now) && w[k].created_at
                    == v.snapshots[i].created_at && w.len() == v.snapshots.len(),
                None => k == v.snapshots.len() && w[k].created_at == now && w[k].updated_at is None
                    && w.len() == v.snapshots.len() + 1,
            })
            &&& forall|j: int|
                0 <= j < w.len() && (#[trigger] w[j]).project_id == pid && w[j].unsafe_lines == u
                    ==> find_snapshot(w, pid, u) == Some(j)
        }),
{
    let s = v.snapshots;
    let w = reconcile_spec(v, pid, code, u, now).snapshots;
    lemma_find_found(s, pid, u, 0);
    lemma_reconcile_ok(v, pid, code, u, now);
    match find_snapshot(s, pid, u) {
        Some(i) => {
            assert forall|j: int| 0 <= j < i implies !(#[trigger] w[j].project_id == pid
                && w[j].unsafe_lines == u) by {
                assert(w[j] == s[j]);
            }
            lemma_find_from_skips(w, pid, u, i);
        },
        None => {
            let n = s.len() as int;
            assert forall|j: int| 0 <= j < n implies !(#[trigger] w[j].project_id == pid && w[j].unsafe_lines == u) by {
                assert(w[j] == s[j]);
            }
            lemma_find_from_skips(w, pid, u, n);
        },
    }
    assert forall|j: int|
        0 <= j < w.len() && (#[trigger] w[j]).project_id == pid && w[j].unsafe_lines == u
            implies find_snapshot(w, pid, u) == Some(j) by {
        let k = find_snapshot(w, pid, u)->0;
        if j != k {
            assert(w[j].project_id == w[k].project_id);
        }
    }
}

/// An observation of one repository leaves where and what the snapshots of every
/// other repository are.
pub proof fn lemma_reconcile_other(
    v: StoreModel,
    pid: i32,
    code: i32,
    u: i32,
    now: u64,
    other: i32,
    other_unsafe: i32,
)
    requires
        store_ok(v),
        pid != other,
    ensures
        ({
            let w = reconcile_spec(v, pid, code, u, now).snapshots;
            &&& w.len() >= v.snapshots.len()
            &&& find_snapshot(w, other, other_unsafe) == find_snapshot(
                v.snapshots,
                other,
                other_unsafe,
            )
            &&& find_snapshot(v.snapshots, other, other_unsafe) matches Some(k) ==> 0 <= k
                < v.snapshots.len() && w[k] == v.snapshots[k]
        }),
{
    let s = v.snapshots;
    let w = reconcile_spec(v, pid, code, u, now).snapshots;
    lemma_find_found(s, other, other_unsafe, 0);
    if has_project(v, pid) {
        lemma_find_found(s, pid, u, 0);
        assert forall|m: int| 0 <= m < s.len() implies ((#[trigger] w[m]).project_id == other) == (
        s[m].project_id == other) && (w[m].project_id == other ==> w[m] == s[m]) by {}
        lemma_find_extends(s, w, other, other_unsafe, 0);
    }
}

/// Reconciling twice with the same unsafe-line count leaves exactly one snapshot
/// for that repository and count; it holds the second line count and the second
/// call's time as its update time, keeps the creation time it had after the
/// first call, and the second call adds no snapshot.
pub proof fn lemma_reconcile_idempotent(
    v: StoreModel,
    pid: i32,
    first_code: i32,
    second_code: i32,
    u: i32,
    first_now: u64,
    second_now: u64,
)
    requires
        store_ok(v),
        has_project(v, pid),
    ensures
        ({
            let w1 = reconcile_spec(v, pid, first_code, u, first_now);
            let w2 = reconcile_spec(w1, pid, second_code, u, second_now);
            &&& w2.snapshots.len() == w1.snapshots.len()
            &&& exists|k: int|
                0 <= k < w2.snapshots.len() && w2.snapshots[k].project_id == pid
                    && w2.snapshots[k].unsafe_lines == u && w2.snapshots[k].code_lines == second_code
                    && w2.snapshots[k].updated_at == Some(second_now)
                    && w2.snapshots[k].created_at == (match find_snapshot(v.snapshots, pid, u) {
                    Some(i) => v.snapshots[i].created_at,
                    None => first_now,
                }) && forall|j: int|
                    0 <= j < w2.snapshots.len() && (#[trigger] w2.snapshots[j]).project_id == pid
                        && w2.snapshots[j].unsafe_lines == u ==> j == k
        }),
{
    let w1 = reconcile_spec(v, pid, first_code, u, first_now);
    lemma_reconcile_records(v, pid, first_code, u, first_now);
    lemma_reconcile_ok(v, pid, first_code, u, first_now);
    lemma_reconcile_records(w1, pid, second_code, u, second_now);
    let w2 = reconcile_spec(w1, pid, second_code, u, second_now);
    let k = find_snapshot(w2.snapshots, pid, u)->0;
    let k1 = find_snapshot(w1.snapshots, pid, u)->0;
    assert(k == k1);
    assert(0 <= k < w2.snapshots.len() && w2.snapshots[k].project_id == pid
        && w2.snapshots[k].unsafe_lines == u && w2.snapshots[k].code_lines == second_code
        && w2.snapshots[k].updated_at == Some(second_now));
}

/// Two observations of a repository that had no snapshot, with different
/// unsafe-line counts, leave it two snapshots: one per observation, in order.
pub proof fn lemma_distinct_counts_kept(
    v: StoreModel,
    pid: i32,
    first_code: i32,
    first_unsafe: i32,
    first_now: u64,
    second_code: i32,
    second_unsafe: i32,
    second_now: u64,
)
    requires
        store_ok(v),
        has_project(v, pid),
        first_unsafe != second_unsafe,
        forall|j: int| 0 <= j < v.snapshots.len() ==> (#[trigger] v.snapshots[j]).project_id != pid,
    ensures
        ({
            let w1 = reconcile_spec(v, pid, first_code, first_unsafe, first_now);
            let w = reconcile_spec(w1, pid, second_code, second_unsafe, second_now).snapshots;
            let n = v.snapshots.len() as int;
            &&& w.len() == n + 2
            &&& w[n] == Snapshot {
                project_id: pid,
                code_lines: first_code,
                unsafe_lines: first_unsafe,
                created_at: first_now,
                updated_at: None,
            }
            &&& w[n + 1] == Snapshot {
                project_id: pid,
                code_lines: second_code,
                unsafe_lines: second_unsafe,
                created_at: second_now,
                updated_at: None,
            }
            &&& forall|j: int| 0 <= j < n ==> (#[trigger] w[j]).project_id != pid
        }),
{
    let n = v.snapshots.len() as int;
    lemma_find_found(v.snapshots, pid, first_unsafe, 0);
    let w1 = reconcile_spec(v, pid, first_code, first_unsafe, first_now);
    assert(find_snapshot(v.snapshots, pid, first_unsafe) is None);
    assert forall|j: int| 0 <= j < n + 1 implies !(#[trigger] w1.snapshots[j].project_id == pid
        && w1.snapshots[j].unsafe_lines == second_unsafe) by {
        if j < n {
            assert(w1.snapshots[j] == v.snapshots[j]);
        }
    }
    lemma_find_from_skips(w1.snapshots, pid, second_unsafe, n + 1);
    let w = reconcile_spec(w1, pid, second_code, second_unsafe, second_now).snapshots;
    assert forall|j: int| 0 <= j < n implies (#[trigger] w[j]).project_id != pid by {
        assert(w[j] == v.snapshots[j]);
    }
}

/// The current snapshot of a repository is one of its own, none of its snapshots
/// was created later, and of those created at the same time none was inserted
/// later; a repository has a current snapshot exactly when it has a snapshot.
pub proof fn lemma_current_is_latest(v: StoreModel, pid: i32)
    ensures
        match current_snapshot(v, pid) {
            Some(c) => 0 <= c < v.snapshots.len() && v.snapshots[c].project_id == pid && forall|
                j: int,
            |
                0 <= j < v.snapshots.len() && (#[trigger] v.snapshots[j]).project_id == pid
                    ==> v.snapshots[j].created_at < v.snapshots[c].created_at || (
                v.snapshots[j].created_at == v.snapshots[c].created_at && j <= c),
            None => forall|j: int|
                0 <= j < v.snapshots.len() ==> (#[trigger] v.snapshots[j]).project_id != pid,
        },
{
    lemma_latest_is_latest(v.snapshots, pid, v.snapshots.len() as int);
}

proof fn lemma_latest_is_latest(s: Seq<Snapshot>, pid: i32, n: int)
    requires
        0 <= n <= s.len(),
    ensures
        match latest_in(s, pid, n) {
            Some(c) => 0 <= c < n && s[c].project_id == pid && forall|j: int|
                0 <= j < n && (#[trigger] s[j]).project_id == pid ==> s[j].created_at
                    < s[c].created_at || (s[j].created_at == s[c].created_at && j <= c),
            None => forall|j: int| 0 <= j < n ==> (#[trigger] s[j]).project_id != pid,
        },
    decreases n,
{
    if n > 0 {
        lemma_latest_is_latest(s, pid, n - 1);
    }
}

proof fn lemma_history_pos_bounds(sorted: Seq<Snapshot>, x: Snapshot, i: int)
    requires
        0 <= i <= sorted.len(),
    ensures
        i <= history_pos(sorted, x, i) <= sorted.len(),
    decreases sorted.len() - i,
{
    if i < sorted.len() {
        lemma_history_pos_bounds(sorted, x, i + 1);
    }
}

proof fn lemma_history_pos_facts(sorted: Seq<Snapshot>, x: Snapshot, i: int)
    requires
        0 <= i <= sorted.len(),
    ensures
        forall|j: int|
            i <= j < history_pos(sorted, x, i) ==> (#[trigger] sorted[j]).created_at >= x.created_at,
        history_pos(sorted, x, i) < sorted.len() ==> sorted[history_pos(sorted, x, i)].created_at
            < x.created_at,
    decreases sorted.len() - i,
{
    if i < sorted.len() {
        lemma_history_pos_facts(sorted, x, i + 1);
    }
}

proof fn lemma_history_upto(s: Seq<Snapshot>, pid: i32, n: int)
    requires
        0 <= n <= s.len(),
    ensures
        history_upto(s, pid, n).len() == s.subrange(0, n).filter(|x: Snapshot| x.project_id == pid).len(),
        forall|x: Snapshot|
            #[trigger] history_upto(s, pid, n).contains(x) <==> (s.subrange(0, n).contains(x)
                && x.project_id == pid),
        forall|i: int, j: int|
            0 <= i < j < history_upto(s, pid, n).len() ==> (#[trigger] history_upto(s, pid, n)[i]).created_at
                >= (#[trigger] history_upto(s, pid, n)[j]).created_at,
    decreases n,
{
    let pred = |x: Snapshot| x.project_id == pid;
    let sub = s.subrange(0, n);
    reveal(Seq::filter);
    if n == 0 {
        assert(sub.filter(pred) =~= Seq::<Snapshot>::empty());
    } else {
        lemma_history_upto(s, pid, n - 1);
        let prev = s.subrange(0, n - 1);
        assert(sub.drop_last() =~= prev);
        assert(sub.last() == s[n - 1]);
        let h = history_upto(s, pid, n - 1);
        let x = s[n - 1];
        assert forall|z: Snapshot| #[trigger] sub.contains(z) <==> (prev.contains(z) || z == x) by {
            if sub.contains(z) {
                let k = choose|k: int| 0 <= k < sub.len() && sub[k] == z;
                if k < n - 1 {
                    assert(prev[k] == z);
                }
            }
            if prev.contains(z) {
                let k = choose|k: int| 0 <= k < prev.len() && prev[k] == z;
                assert(sub[k] == z);
            }
            if z == x {
                assert(sub[n - 1] == z);
            }
        }
        if x.project_id == pid {
            let p = history_pos(h, x, 0);
            lemma_history_pos_bounds(h, x, 0);
            lemma_history_pos_facts(h, x, 0);
            h.insert_ensures(p, x);
            let t = h.insert(p, x);
            assert forall|z: Snapshot| #[trigger] t.contains(z) <==> (h.contains(z) || z == x) by {
                if t.contains(z) {
                    let k = choose|k: int| 0 <= k < t.len() && t[k] == z;
                    if k < p {
                        assert(h[k] == z);
                    } else if k > p {
                        assert(h[k - 1] == z);
                    }
                }
                if h.contains(z) {
                    let k = choose|k: int| 0 <= k < h.len() && h[k] == z;
                    if k < p {
                        assert(t[k] == z);
                    } else {
                        assert(t[k + 1] == z);
                    }
                }
                if z == x {
                    assert(t[p] == z);
                }
            }
            assert forall|i: int, j: int| 0 <= i < j < t.len() implies (#[trigger] t[i]).created_at
                >= (#[trigger] t[j]).created_at by {
                if j < p {
                    assert(t[i] == h[i] && t[j] == h[j]);
                } else if j == p {
                    assert(t[i] == h[i]);
                } else if i < p {
                    assert(t[i] == h[i] && t[j] == h[j - 1]);
                    assert(h[i].created_at >= x.created_at);
                    assert(h[p].created_at < x.created_at);
                } else if i == p {
                    assert(t[j] == h[j - 1]);
                    assert(h[p].created_at < x.created_at);
                    if j - 1 > p {
                        assert(h[p].created_at >= h[j - 1].created_at);
                    }
                } else {
                    assert(t[i] == h[i - 1] && t[j] == h[j - 1]);
                }
            }
        }
    }
}

/// The history of a repository holds exactly its snapshots, as many as it has,
/// latest created first.
pub proof fn lemma_history(v: StoreModel, pid: i32)
    ensures
        history(v, pid).len() == v.snapshots.filter(|x: Snapshot| x.project_id == pid).len(),
        forall|x: Snapshot|
            #[trigger] history(v, pid).contains(x) <==> (v.snapshots.contains(x) && x.project_id
                == pid),
        forall|i: int, j: int|
            0 <= i < j < history(v, pid).len() ==> (#[trigger] history(v, pid)[i]).created_at
                >= (#[trigger] history(v, pid)[j]).created_at,
{
    lemma_history_upto(v.snapshots, pid, v.snapshots.len() as int);
    assert(v.snapshots.subrange(0, v.snapshots.len() as int) =~= v.snapshots);
}

impl StatsStore {
    /// A well-formed store satisfies `store_ok`, so the laws stated over
    /// `store_ok` apply to it.
    pub proof fn lemma_wf_store_ok(&self)
        requires
            self.wf(),
        ensures
            store_ok(self@),
    {
    }
    /// The invariant of the store, with identifiers equal to positions plus one.
    pub closed spec fn wf(&self) -> bool {
        &&& store_ok(self@)
        &&& forall|i: int| 0 <= i < self.providers.len() ==> #[trigger] self.providers@[i].id == i + 1
        &&& forall|i: int| 0 <= i < self.projects.len() ==> #[trigger] self.projects@[i].id == i + 1
    }

    /// An empty store.
    pub fn new() -> (r: Self)
        ensures
            r.wf(),
            r@.providers.len() == 0,
            r@.projects.len() == 0,
            r@.snapshots.len() == 0,
    {
        let r = StatsStore { providers: Vec::new(), projects: Vec::new(), snapshots: Vec::new() };
        assert(r@.providers =~= Seq::<Seq<char>>::empty());
        assert(r@.projects =~= Seq::<ProjectView>::empty());
        r
    }

    /// Records an observation of repository `project_id`: the snapshot with the
    /// same unsafe-line count gets the new line count and update time `now`;
    /// without one, a snapshot created at `now` is appended.
    pub fn updateProjectStatsById(
        &mut self,
        project_id: i32,
        code_lines: i32,
        unsafe_lines: i32,
        now: u64,
    ) -> (r: ReconcileOutcome)
        requires
            old(self).wf(),
        ensures
            final(self).wf(),
            final(self)@ == reconcile_spec(old(self)@, project_id, code_lines, unsafe_lines, now),
            r == (if !has_project(old(self)@, project_id) {
                ReconcileOutcome::UnknownProject
            } else if find_snapshot(old(self)@.snapshots, project_id, unsafe_lines) is Some {
                ReconcileOutcome::Updated
            } else {
                ReconcileOutcome::Inserted
            }),
    {
        if project_id < 1 || project_id as usize > self.projects.len() {
            return ReconcileOutcome::UnknownProject;
        }
        let ghost s0 = self.snapshots@;
        let n = self.snapshots.len();
        let mut i: usize = 0;
        while i < n
            invariant
                n == self.snapshots.len(),
                s0 == self.snapshots@,
                s0 == old(self).snapshots@,
                self.providers == old(self).providers,
                self.projects == old(self).projects,
                has_project(old(self)@, project_id),
                old(self).wf(),
                i <= n,
                forall|j: int|
                    0 <= j < i ==> !(#[trigger] s0[j].project_id == project_id && s0[j].unsafe_lines
                        == unsafe_lines),
            decreases n - i,
        {
            let s = self.snapshots[i];
            if s.project_id == project_id && s.unsafe_lines == unsafe_lines {
                proof {
                    lemma_find_from_skips(s0, project_id, unsafe_lines, i as int);
                }
                let updated = Snapshot {
                    project_id,
                    code_lines,
                    unsafe_lines,
                    created_at: s.created_at,
                    updated_at: Some(now),
                };
                self.snapshots.set(i, updated);
                assert forall|a: int| 0 <= a < n implies #[trigger] self.snapshots@[a].project_id
                    == s0[a].project_id && self.snapshots@[a].unsafe_lines
                    == s0[a].unsafe_lines by {}
                assert forall|a: int, b: int|
                    0 <= a < n && 0 <= b < n && a != b && #[trigger] self.snapshots@[a].project_id
                        == #[trigger] self.snapshots@[b].project_id implies self.snapshots@[a].unsafe_lines
                    != self.snapshots@[b].unsafe_lines by {
                    assert(s0[a].project_id == s0[b].project_id);
                }
                assert(self@.providers =~= old(self)@.providers);
                assert(self@.projects =~= old(self)@.projects);
                assert(self@.snapshots =~= reconcile_snapshots(
                    s0,
                    project_id,
                    code_lines,
                    unsafe_lines,
                    now,
                ));
                return ReconcileOutcome::Updated;
            }
            i = i + 1;
        }
        proof {
            lemma_find_from_skips(s0, project_id, unsafe_lines, n as int);
        }
        self.snapshots.push(
            Snapshot { project_id, code_lines, unsafe_lines, created_at: now, updated_at: None },
        );
        assert(self@.providers =~= old(self)@.providers);
        assert(self@.projects =~= old(self)@.projects);
        assert(self@.snapshots =~= reconcile_snapshots(
            s0,
            project_id,
            code_lines,
            unsafe_lines,
            now,
        ));
        ReconcileOutcome::Inserted
    }

    /// Adds a provider, or finds the one with that URL. `None` when no
    /// identifier is left.
    pub fn addProvider(&mut self, url: &str) -> (r: Option<i32>)
        requires
            old(self).wf(),
        ensures
            final(self).wf(),
            final(self)@.projects == old(self)@.projects,
            final(self)@.snapshots == old(self)@.snapshots,
            match provider_from(old(self)@, url@, 0) {
                Some(i) => r == Some((i + 1) as i32) && final(self)@ == old(self)@,
                None => if old(self)@.providers.len() + 1 < i32::MAX {
                    r == Some((old(self)@.providers.len() + 1) as i32) && final(self)@.providers
                        == old(self)@.providers.push(url@)
                } else {
                    r is None && final(self)@ == old(self)@
                },
            },
    {
        match self.provider_index(url) {
            Some(i) => {
                proof {
                    provider_from_some(self@, url@, 0);
                }
                Some((i + 1) as i32)
            },
            None => {
                let n = self.providers.len();
                if n + 1 >= 2147483647 {
                    return None;
                }
                let id = (n + 1) as i32;
                let ghost before = self@;
                proof {
                    provider_from_none(before, url@, 0);
                }
                self.providers.push(Provider::new(id, url));
                assert(self@.providers =~= before.providers.push(url@));
                assert(self@.projects =~= before.projects);
                Some(id)
            },
        }
    }

    /// Position of the provider with URL `url`.
    fn provider_index(&self, url: &str) -> (r: Option<usize>)
        requires
            self.wf(),
        ensures
            match r {
                Some(i) => provider_from(self@, url@, 0) == Some(i as int),
                None => provider_from(self@, url@, 0) is None,
            },
    {
        let target = String::from_str(url);
        let n = self.providers.len();
        let mut i: usize = 0;
        while i < n
            invariant
                n == self@.providers.len(),
                i <= n,
                target@ == url@,
                provider_from(self@, url@, 0) == provider_from(self@, url@, i as int),
            decreases n - i,
        {
            if self.providers[i].url == target {
                return Some(i);
            }
            i = i + 1;
        }
        None
    }

    /// Whether a repository has that name.
    fn has_name(&self, name: &str) -> (r: bool)
        requires
            self.wf(),
        ensures
            r == name_taken(self@, name@),
    {
        let target = String::from_str(name);
        let n = self.projects.len();
        let mut i: usize = 0;
        while i < n
            invariant
                n == self@.projects.len(),
                i <= n,
                target@ == name@,
                forall|j: int| 0 <= j < i ==> #[trigger] self@.projects[j].name != name@,
            decreases n - i,
        {
            if self.projects[i].name == target {
                assert(self@.projects[i as int].name == name@);
                return true;
            }
            i = i + 1;
        }
        false
    }

    /// Adds repository `namespace/name` under the provider with URL
    /// `provider_url`, unless a repository of that name is already there.
    pub fn createProject(&mut self, provider_url: &str, namespace: &str, name: &str) -> (r:
        CreateOutcome)
        requires
            old(self).wf(),
        ensures
            final(self).wf(),
            final(self)@ == create_spec(old(self)@, provider_url@, namespace@, name@),
            if name_taken(old(self)@, name@) {
                r == CreateOutcome::AlreadyPresent && final(self)@ == old(self)@
            } else if provider_from(old(self)@, provider_url@, 0) is None {
                r == CreateOutcome::UnknownProvider && final(self)@ == old(self)@
            } else if old(self)@.projects.len() + 1 >= i32::MAX {
                r == CreateOutcome::CatalogFull && final(self)@ == old(self)@
            } else {
                r == CreateOutcome::Created((old(self)@.projects.len() + 1) as i32)
                    && final(self)@.projects == old(self)@.projects.push(
                    ProjectView {
                        provider_id: (provider_from(old(self)@, provider_url@, 0)->0 + 1) as i32,
                        namespace: namespace@,
                        name: name@,
                    },
                )
            },
    {
        if self.has_name(name) {
            return CreateOutcome::AlreadyPresent;
        }
        let pos = match self.provider_index(provider_url) {
            Some(i) => i,
            None => {
                return CreateOutcome::UnknownProvider;
            },
        };
        let n = self.projects.len();
        if n + 1 >= 2147483647 {
            return CreateOutcome::CatalogFull;
        }
        proof {
            provider_from_some(self@, provider_url@, 0);
        }
        let id = (n + 1) as i32;
        let ghost before = self@;
        self.projects.push(
            Project {
                id,
                provider_id: (pos + 1) as i32,
                namespace: String::from_str(namespace),
                name: String::from_str(name),
            },
        );
        assert(self@.projects =~= before.projects.push(
            ProjectView { provider_id: (pos + 1) as i32, namespace: namespace@, name: name@ },
        ));
        assert(self@.providers =~= before.providers);
        CreateOutcome::Created(id)
    }

    /// Every repository with the base URL of its provider, in store order.
    pub fn getProjectsWithUrl(&self) -> (r: Vec<ProjectWithUrl>)
        requires
            self.wf(),
        ensures
            r@.len() == self@.projects.len(),
            forall|i: int|
                0 <= i < r@.len() ==> (#[trigger] r@[i]).id == i + 1 && r@[i].namespace@
                    == self@.projects[i].namespace && r@[i].name@ == self@.projects[i].name
                    && r@[i].url@ == self@.providers[self@.projects[i].provider_id - 1],
    {
        let mut r: Vec<ProjectWithUrl> = Vec::new();
        let n = self.projects.len();
        let mut i: usize = 0;
        while i < n
            invariant
                self.wf(),
                n == self@.projects.len(),
                i <= n,
                r@.len() == i,
                forall|j: int|
                    0 <= j < i ==> (#[trigger] r@[j]).id == j + 1 && r@[j].namespace@
                        == self@.projects[j].namespace && r@[j].name@ == self@.projects[j].name
                        && r@[j].url@ == self@.providers[self@.projects[j].provider_id - 1],
            decreases n - i,
        {
            let p = &self.projects[i];
            assert(self@.projects[i as int].provider_id == p.provider_id);
            let prov = &self.providers[(p.provider_id - 1) as usize];
            r.push(
                ProjectWithUrl {
                    id: p.id,
                    namespace: p.namespace.clone(),
                    name: p.name.clone(),
                    url: prov.url.clone(),
                },
            );
            i = i + 1;
        }
        r
    }

    /// The metric history of repository `id`, latest created first; empty for
    /// an unknown repository.
    pub fn getProjectsStatsById(&self, id: i32) -> (r: Vec<ProjectStats>)
        requires
            self.wf(),
        ensures
            r@.len() == history(self@, id).len(),
            forall|i: int| 0 <= i < r@.len() ==> stats_match(#[trigger] r@[i], history(self@, id)[i]),
    {
        let mut sorted: Vec<Snapshot> = Vec::new();
        let n = self.snapshots.len();
        let mut k: usize = 0;
        while k < n
            invariant
                n == self@.snapshots.len(),
                k <= n,
                sorted@ == history_upto(self@.snapshots, id, k as int),
            decreases n - k,
        {
            let x = self.snapshots[k];
            if x.project_id == id {
                let ghost before = sorted@;
                let m = sorted.len();
                let mut j: usize = 0;
                while j < m && !(sorted[j].created_at < x.created_at)
                    invariant
                        m == sorted@.len(),
                        before == sorted@,
                        j <= m,
                        history_pos(before, x, 0) == history_pos(before, x, j as int),
                    decreases m - j,
                {
                    j = j + 1;
                }
                proof {
                    lemma_history_pos_bounds(before, x, 0);
                }
                sorted.insert(j, x);
            }
            k = k + 1;
        }
        let mut r: Vec<ProjectStats> = Vec::new();
        let m = sorted.len();
        let mut i: usize = 0;
        while i < m
            invariant
                m == sorted@.len(),
                sorted@ == history(self@, id),
                i <= m,
                r@.len() == i,
                forall|j: int| 0 <= j < i ==> stats_match(#[trigger] r@[j], sorted@[j]),
            decreases m - i,
        {
            let x = sorted[i];
            let updated_at = match x.updated_at {
                Some(t) => render_date(t),
                None => String::new(),
            };
            r.push(
                ProjectStats {
                    project_id: x.project_id,
                    code_lines: x.code_lines,
                    unsafe_lines: x.unsafe_lines,
                    created_at: render_date(x.created_at),
                    updated_at,
                },
            );
            i = i + 1;
        }
        r
    }

    /// Every provider, by identifier.
    pub fn getProviders(&self) -> (r: Vec<Provider>)
        requires
            self.wf(),
        ensures
            r@.len() == self@.providers.len(),
            forall|i: int|
                0 <= i < r@.len() ==> (#[trigger] r@[i]).id == i + 1 && r@[i].url@
                    == self@.providers[i],
    {
        let mut r: Vec<Provider> = Vec::new();
        let n = self.providers.len();
        let mut i: usize = 0;
        while i < n
            invariant
                self.wf(),
                n == self@.providers.len(),
                i <= n,
                r@.len() == i,
                forall|j: int|
                    0 <= j < i ==> (#[trigger] r@[j]).id == j + 1 && r@[j].url@ == self@.providers[j],
            decreases n - i,
        {
            r.push(Provider { id: self.providers[i].id, url: self.providers[i].url.clone() });
            i = i + 1;
        }
        r
    }

    /// The provider with identifier `id`, as a list of at most one.
    pub fn getProviderById(&self, id: i32) -> (r: Vec<Provider>)
        requires
            self.wf(),
        ensures
            if 1 <= id <= self@.providers.len() {
                r@.len() == 1 && r@[0].id == id && r@[0].url@ == self@.providers[id - 1]
            } else {
                r@.len() == 0
            },
    {
        let mut r: Vec<Provider> = Vec::new();
        if 1 <= id && id as usize <= self.providers.len() {
            let p = &self.providers[(id - 1) as usize];
            r.push(Provider { id: p.id, url: p.url.clone() });
        }
        r
    }

    fn copy_project(&self, i: usize) -> (r: Project)
        requires
            self.wf(),
            i < self@.projects.len(),
        ensures
            r.id == i + 1,
            r.provider_id == self@.projects[i as int].provider_id,
            r.namespace@ == self@.projects[i as int].namespace,
            r.name@ == self@.projects[i as int].name,
    {
        let p = &self.projects[i];
        Project {
            id: p.id,
            provider_id: p.provider_id,
            namespace: p.namespace.clone(),
            name: p.name.clone(),
        }
    }

    /// Every repository, by identifier.
    pub fn getProjects(&self) -> (r: Vec<Project>)
        requires
            self.wf(),
        ensures
            r@.len() == self@.projects.len(),
            forall|i: int|
                0 <= i < r@.len() ==> (#[trigger] r@[i]).id == i + 1 && r@[i].provider_id
                    == self@.projects[i].provider_id && r@[i].namespace@
                    == self@.projects[i].namespace && r@[i].name@ == self@.projects[i].name,
    {
        let mut r: Vec<Project> = Vec::new();
        let n = self.projects.len();
        let mut i: usize = 0;
        while i < n
            invariant
                self.wf(),
                n == self@.projects.len(),
                i <= n,
                r@.len() == i,
                forall|j: int|
                    0 <= j < i ==> (#[trigger] r@[j]).id == j + 1 && r@[j].provider_id
                        == self@.projects[j].provider_id && r@[j].namespace@
                        == self@.projects[j].namespace && r@[j].name@ == self@.projects[j].name,
            decreases n - i,
        {
            r.push(self.copy_project(i));
            i = i + 1;
        }
        r
    }

    /// The repository with identifier `id`, as a list of at most one.
    pub fn getProjectById(&self, id: i32) -> (r: Vec<Project>)
        requires
            self.wf(),
        ensures
            if 1 <= id <= self@.projects.len() {
                r@.len() == 1 && r@[0].id == id && r@[0].provider_id == self@.projects[id
                    - 1].provider_id && r@[0].namespace@ == self@.projects[id - 1].namespace
                    && r@[0].name@ == self@.projects[id - 1].name
            } else {
                r@.len() == 0
            },
    {
        let mut r: Vec<Project> = Vec::new();
        if 1 <= id && id as usize <= self.projects.len() {
            r.push(self.copy_project((id - 1) as usize));
        }
        r
    }

    /// Position of the current snapshot of repository `pid`.
    fn current_index(&self, pid: i32) -> (r: Option<usize>)
        requires
            self.wf(),
        ensures
            match r {
                Some(c) => current_snapshot(self@, pid) == Some(c as int),
                None => current_snapshot(self@, pid) is None,
            },
    {
        let n = self.snapshots.len();
        let mut best: Option<usize> = None;
        let mut i: usize = 0;
        while i < n
            invariant
                n == self.snapshots.len(),
                i <= n,
                match best {
                    Some(b) => latest_in(self.snapshots@, pid, i as int) == Some(b as int),
                    None => latest_in(self.snapshots@, pid, i as int) is None,
                },
            decreases n - i,
        {
            proof {
                lemma_latest_bounds(self.snapshots@, pid, i as int);
            }
            let s = self.snapshots[i];
            if s.project_id == pid {
                match best {
                    Some(b) => {
                        if self.snapshots[b].created_at <= s.created_at {
                            best = Some(i);
                        }
                    },
                    None => {
                        best = Some(i);
                    },
                }
            }
            i = i + 1;
        }
        best
    }

    /// The listing row of repository position `k` with snapshot `c`.
    fn make_row(&self, k: usize, c: usize) -> (r: ProjectStatsDTO)
        requires
            self.wf(),
            k < self@.projects.len(),
            c < self@.snapshots.len(),
        ensures
            r@ == row_of(self@, k as int, c as int),
    {
        let p = &self.projects[k];
        assert(self@.projects[k as int].provider_id == p.provider_id);
        let prov = &self.providers[(p.provider_id - 1) as usize];
        proof {
            reveal_strlit("/");
        }
        let url = prov.url.clone().concat("/").concat(p.namespace.as_str()).concat("/").concat(
            p.name.as_str(),
        );
        let s = self.snapshots[c];
        let updated_at = match s.updated_at {
            Some(t) => render_date(t),
            None => String::new(),
        };
        let r = ProjectStatsDTO {
            project_id: (k + 1) as i32,
            name: p.name.clone(),
            url,
            code_lines: s.code_lines,
            unsafe_lines: s.unsafe_lines,
            created_at: render_date(s.created_at),
            updated_at,
        };
        assert(r@.url =~= project_url(self@, k as int));
        r
    }

    /// One page of the current-metrics listing. Each repository that has a
    /// snapshot and whose name contains `name`, letter case aside, is listed once
    /// with its current snapshot; the list is ordered by name and cut to the
    /// `limit` rows from `limit * page` on. `meta` counts the whole filtered list.
    pub fn getProjectsStats(&self, name: &str, limit: u32, page: u32) -> (r:
        ProjectStatsWithMeta)
        requires
            self.wf(),
        ensures
            rows_view(r.projectStats@) == page_of(
                listing(self@, name@),
                limit as int * page as int,
                limit as int,
            ),
            r.meta == candidates(self@, name@).len(),
    {
        let filtering = name.unicode_len() > 0;
        let lower_filter = lowercase(name);
        let mut sorted: Vec<ProjectStatsDTO> = Vec::new();
        let mut count: usize = 0;
        let n = self.projects.len();
        let mut k: usize = 0;
        while k < n
            invariant
                self.wf(),
                n == self@.projects.len(),
                k <= n,
                filtering == (name@.len() > 0),
                lower_filter@ == lower_of(name@),
                rows_view(sorted@) == sort_by_name(rows_upto(self@, name@, k as int)),
                count == rows_upto(self@, name@, k as int).len(),
            decreases n - k,
        {
            let ghost prev = rows_upto(self@, name@, k as int);
            proof {
                lemma_rows_upto_len(self@, name@, k as int);
            }
            let cur = self.current_index((k + 1) as i32);
            match cur {
                Some(c) => {
                    proof {
                        lemma_latest_bounds(self@.snapshots, (k + 1) as i32, self@.snapshots.len() as int);
                    }
                    let pass = if !filtering {
                        true
                    } else {
                        let lowered = lowercase(self.projects[k].name.as_str());
                        contains_text(lowered.as_str(), lower_filter.as_str())
                    };
                    assert(pass == name_matches(name@, self@.projects[k as int].name));
                    if pass {
                        let row = self.make_row(k, c);
                        let pos = insert_position(&sorted, &row);
                        let ghost before = rows_view(sorted@);
                        proof {
                            lemma_insert_pos_bounds(before, row@, 0);
                        }
                        sorted.insert(pos, row);
                        proof {
                            let next = rows_upto(self@, name@, k + 1);
                            assert(next == prev.push(row_of(self@, k as int, c as int)));
                            assert(next.drop_last() =~= prev);
                            assert(rows_view(sorted@) =~= before.insert(pos as int, row@));
                        }
                        count = count + 1;
                    }
                },
                None => {},
            }
            k = k + 1;
        }
        proof {
            lemma_rows_upto_len(self@, name@, n as int);
            lemma_sort_len(rows_upto(self@, name@, n as int));
            assert(limit as int * page as int <= u64::MAX) by (nonlinear_arith)
                requires
                    limit <= u32::MAX,
                    page <= u32::MAX,
            ;
        }
        let offset: u64 = limit as u64 * page as u64;
        let total = sorted.len();
        let ghost all = rows_view(sorted@);
        let items = if offset >= total as u64 {
            Vec::new()
        } else {
            let mut tail = sorted.split_off(offset as usize);
            assert(rows_view(tail@) =~= all.subrange(offset as int, total as int));
            if (limit as usize) < tail.len() {
                tail.truncate(limit as usize);
                assert(rows_view(tail@) =~= all.subrange(offset as int, offset + limit));
            }
            tail
        };
        assert(rows_view(items@) =~= page_of(all, offset as int, limit as int));
        ProjectStatsWithMeta { projectStats: items, meta: count as i64 }
    }
}

} // verus!
