//! The decisions of the refresh pipeline: which extraction job each repository
//! gets, how the output of a job is read, and how a batch of results is folded
//! into the store. Running the jobs is left to the caller.
use vstd::prelude::*;
use crate::models::{CodeLines, ProjectWithUrl, UnsafeLines};
use crate::store::{
    StatsStore, StoreModel, find_snapshot, has_project, lemma_reconcile_ok, lemma_reconcile_other,
    lemma_reconcile_records, reconcile_spec, store_ok,
};
use crate::text::{parse_i32, parse_i32_spec};

verus! {

/// Whether a name can be a directory under the scratch root: not empty, not `.`
/// or `..`, and without `/` or NUL. A repository whose name cannot be one gets
/// no extraction job, and its snapshots stay as they are.
pub open spec fn dir_name_ok(s: Seq<char>) -> bool {
    &&& s.len() > 0
    &&& s != seq!['.']
    &&& s != seq!['.', '.']
    &&& forall|i: int| 0 <= i < s.len() ==> #[trigger] s[i] != '/' && s[i] != '\0'
}

/// A text with each `'` written as `'\''`, so that it can stand between single
/// quotes in a shell script.
pub open spec fn shell_escaped(s: Seq<char>) -> Seq<char>
    decreases s.len(),
{
    if s.len() == 0 {
        s
    } else if s.last() == '\'' {
        shell_escaped(s.drop_last()) + seq!['\'', '\\', '\'', '\'']
    } else {
        shell_escaped(s.drop_last()).push(s.last())
    }
}

/// A text as one shell word that the shell reads back as the text itself.
pub open spec fn shell_quoted(s: Seq<char>) -> Seq<char> {
    seq!['\''] + shell_escaped(s) + seq!['\'']
}

/// Clone URL of a repository: `url/namespace/name`.
pub open spec fn clone_url_of(url: Seq<char>, namespace: Seq<char>, name: Seq<char>) -> Seq<char> {
    url + seq!['/'] + namespace + seq!['/'] + name
}

/// The shell script that brings the working copy `dir` of the scratch root up to
/// date, fast-forwarding it or cloning `url` into it, and prints `unsafe:code`:
/// the lines of `.rs` files that mention `unsafe`, leaving out comment lines and
/// `forbid(unsafe_code)` lines, and the Rust code lines that cloc counts. When
/// the clone, the fast-forward or a change of directory fails, it stops and
/// prints nothing, which reads as a failed extraction. `dir` and `url` stand in
/// the script single-quoted.
pub open spec fn command_of(dir: Seq<char>, url: Seq<char>) -> Seq<char> {
    let dir = shell_quoted(dir);
    let url = shell_quoted(url);
    "mkdir -p /tmp/rust_projects > /dev/null 2>&1;\ncd /tmp/rust_projects || exit 1;\nif [ -d ./"@ + dir
        + " ]\nthen\n    cd ./"@ + dir
        + " || exit 1;\n    git pull --ff-only > /dev/null 2>&1 || exit 1;\n    cd .. || exit 1;\nelse\n    git clone "@ + url
        + " ./"@ + dir
        + " > /dev/null 2>&1 || exit 1;\nfi\nunsafe_lines=$(grep -r --include='*.rs' unsafe ./"@ + dir
        + " | grep -v '//' | grep -v 'forbid(unsafe_code)' | wc -l);\ncd ./"@ + dir
        + " || exit 1;\ncode_lines=$(cloc . | grep Rust | awk '{print $5}');\necho \"$unsafe_lines:$code_lines\";\n"@
}

/// One extraction to run: the repository, its working-directory key, its clone
/// URL and the script to run.
pub struct ExtractionJob {
    pub project_id: i32,
    pub repo_key: String,
    pub clone_url: String,
    pub command: String,
}

/// The job of a repository.
pub open spec fn job_matches(j: ExtractionJob, p: ProjectWithUrl) -> bool {
    &&& j.project_id == p.id
    &&& j.repo_key@ == p.name@
    &&& j.clone_url@ == clone_url_of(p.url@, p.namespace@, p.name@)
    &&& j.command@ == command_of(p.name@, clone_url_of(p.url@, p.namespace@, p.name@))
}

/// Positions, among the first `n` repositories, of those that get a job.
pub open spec fn planned_upto(ps: Seq<ProjectWithUrl>, n: int) -> Seq<int>
    decreases n,
{
    if n <= 0 {
        Seq::<int>::empty()
    } else if dir_name_ok(ps[n - 1].name@) {
        planned_upto(ps, n - 1).push(n - 1)
    } else {
        planned_upto(ps, n - 1)
    }
}

/// The result of one extraction: the two counts, or `None` when it failed.
pub struct ExtractionResult {
    pub project_id: i32,
    pub outcome: Option<(UnsafeLines, CodeLines)>,
}

/// The store after a batch of results, taken in order; failed ones are skipped.
pub open spec fn apply_results(v: StoreModel, rs: Seq<ExtractionResult>, now: u64) -> StoreModel
    decreases rs.len(),
{
    if rs.len() == 0 {
        v
    } else {
        let w = apply_results(v, rs.drop_last(), now);
        match rs.last().outcome {
            Some((u, c)) => reconcile_spec(w, rs.last().project_id, c.0, u.0, now),
            None => w,
        }
    }
}

/// Number of successful results.
pub open spec fn successes(rs: Seq<ExtractionResult>) -> nat
    decreases rs.len(),
{
    if rs.len() == 0 {
        0
    } else {
        successes(rs.drop_last()) + if rs.last().outcome is Some {
            1nat
        } else {
            0nat
        }
    }
}

/// Text without its line breaks.
pub open spec fn without_newlines(s: Seq<char>) -> Seq<char>
    decreases s.len(),
{
    if s.len() == 0 {
        s
    } else if s.last() == '\n' {
        without_newlines(s.drop_last())
    } else {
        without_newlines(s.drop_last()).push(s.last())
    }
}

/// Position of the first `:` from `i` on.
pub open spec fn colon_from(s: Seq<char>, i: int) -> Option<int>
    decreases s.len() - i,
{
    if i < 0 || i >= s.len() {
        None
    } else if s[i] == ':' {
        Some(i)
    } else {
        colon_from(s, i + 1)
    }
}

/// The counts that an extraction printed: its output, line breaks removed, must
/// be exactly two non-negative `i32` separated by `:`, unsafe lines first.
pub open spec fn parse_output_spec(s: Seq<char>) -> Option<(i32, i32)> {
    let t = without_newlines(s);
    match colon_from(t, 0) {
        Some(p) => match (
            parse_i32_spec(t.subrange(0, p)),
            parse_i32_spec(t.subrange(p + 1, t.len() as int)),
        ) {
            (Some(u), Some(c)) => if u >= 0 && c >= 0 {
                Some((u, c))
            } else {
                None
            },
            _ => None,
        },
        None => None,
    }
}

/// Whether a name can be a working directory under the scratch root.
pub fn is_dir_name(s: &str) -> (r: bool)
    ensures
        r == dir_name_ok(s@),
{
    let n = s.unicode_len();
    if n == 0 {
        return false;
    }
    let mut i: usize = 0;
    while i < n
        invariant
            n == s@.len(),
            i <= n,
            forall|k: int| 0 <= k < i ==> #[trigger] s@[k] != '/' && s@[k] != '\0',
        decreases n - i,
    {
        let c = s.get_char(i);
        if c == '/' || c == '\0' {
            return false;
        }
        i = i + 1;
    }
    let dot = s.get_char(0) == '.';
    if n == 1 && dot {
        assert(s@ =~= seq!['.']);
        return false;
    }
    if n == 2 && dot && s.get_char(1) == '.' {
        assert(s@ =~= seq!['.', '.']);
        return false;
    }
    true
}

proof fn lemma_shell_escaped_step(s: Seq<char>, i: int)
    requires
        0 <= i < s.len(),
    ensures
        shell_escaped(s.subrange(0, i + 1)) == (if s[i] == '\'' {
            shell_escaped(s.subrange(0, i)) + seq!['\'', '\\', '\'', '\'']
        } else {
            shell_escaped(s.subrange(0, i)).push(s[i])
        }),
{
    assert(s.subrange(0, i + 1).drop_last() =~= s.subrange(0, i));
}

/// A text as one single-quoted shell word.
pub fn shell_quote(s: &str) -> (r: String)
    ensures
        r@ == shell_quoted(s@),
{
    proof {
        reveal_strlit("'");
        reveal_strlit("\\");
    }
    let n = s.unicode_len();
    let mut body = String::new();
    let mut i: usize = 0;
    assert(s@.subrange(0, 0) =~= Seq::<char>::empty());
    while i < n
        invariant
            n == s@.len(),
            i <= n,
            body@ == shell_escaped(s@.subrange(0, i as int)),
        decreases n - i,
    {
        proof {
            lemma_shell_escaped_step(s@, i as int);
        }
        let c = s.get_char(i);
        let ghost before = body@;
        if c == '\'' {
            proof {
                reveal_strlit("'");
                reveal_strlit("\\");
            }
            body.append("'");
            body.append("\\");
            body.append("'");
            body.append("'");
            assert(body@ =~= before + seq!['\'', '\\', '\'', '\'']);
        } else {
            let one = s.substring_char(i, i + 1);
            assert(one@ =~= seq![c]);
            body.append(one);
            assert(body@ =~= before.push(c));
        }
        i = i + 1;
    }
    assert(s@.subrange(0, n as int) =~= s@);
    let r = String::from_str("'").concat(body.as_str()).concat("'");
    r
}

/// Clone URL of a repository.
pub fn clone_url(p: &ProjectWithUrl) -> (r: String)
    ensures
        r@ == clone_url_of(p.url@, p.namespace@, p.name@),
{
    proof {
        reveal_strlit("/");
    }
    p.url.clone().concat("/").concat(p.namespace.as_str()).concat("/").concat(p.name.as_str())
}

/// The extraction script for working copy `dir` and clone URL `url`.
pub fn extraction_command(dir: &str, url: &str) -> (r: String)
    ensures
        r@ == command_of(dir@, url@),
{
    let quoted_dir = shell_quote(dir);
    let quoted_url = shell_quote(url);
    let dir = quoted_dir.as_str();
    let url = quoted_url.as_str();
    let mut s = String::from_str("mkdir -p /tmp/rust_projects > /dev/null 2>&1;\ncd /tmp/rust_projects || exit 1;\nif [ -d ./");
    s.append(dir);
    s.append(" ]\nthen\n    cd ./");
    s.append(dir);
    s.append(" || exit 1;\n    git pull --ff-only > /dev/null 2>&1 || exit 1;\n    cd .. || exit 1;\nelse\n    git clone ");
    s.append(url);
    s.append(" ./");
    s.append(dir);
    s.append(" > /dev/null 2>&1 || exit 1;\nfi\nunsafe_lines=$(grep -r --include='*.rs' unsafe ./");
    s.append(dir);
    s.append(" | grep -v '//' | grep -v 'forbid(unsafe_code)' | wc -l);\ncd ./");
    s.append(dir);
    s.append(" || exit 1;\ncode_lines=$(cloc . | grep Rust | awk '{print $5}');\necho \"$unsafe_lines:$code_lines\";\n");
    s
}

/// One job per repository whose name can be a working directory, in the given
/// order; every repository gets one when all names can. A repository whose name
/// cannot gets none and stays unchanged.
pub fn plan_refresh(projects: &Vec<ProjectWithUrl>) -> (r: Vec<ExtractionJob>)
    ensures
        r@.len() == planned_upto(projects@, projects@.len() as int).len(),
        (forall|i: int| 0 <= i < projects@.len() ==> dir_name_ok(#[trigger] projects@[i].name@))
            ==> r@.len() == projects@.len() && forall|i: int|
            0 <= i < r@.len() ==> job_matches(#[trigger] r@[i], projects@[i]),
        forall|i: int|
            0 <= i < r@.len() ==> job_matches(
                #[trigger] r@[i],
                projects@[planned_upto(projects@, projects@.len() as int)[i]],
            ),
{
    let mut jobs: Vec<ExtractionJob> = Vec::new();
    let n = projects.len();
    let mut k: usize = 0;
    while k < n
        invariant
            n == projects@.len(),
            k <= n,
            jobs@.len() == planned_upto(projects@, k as int).len(),
            forall|i: int|
                0 <= i < jobs@.len() ==> job_matches(
                    #[trigger] jobs@[i],
                    projects@[planned_upto(projects@, k as int)[i]],
                ),
        decreases n - k,
    {
        let p = &projects[k];
        if is_dir_name(p.name.as_str()) {
            let url = clone_url(p);
            let command = extraction_command(p.name.as_str(), url.as_str());
            jobs.push(
                ExtractionJob { project_id: p.id, repo_key: p.name.clone(), clone_url: url, command },
            );
        }
        k = k + 1;
    }
    proof {
        lemma_planned_all(projects@, n as int);
    }
    jobs
}

proof fn lemma_planned_all(ps: Seq<ProjectWithUrl>, n: int)
    requires
        0 <= n <= ps.len(),
    ensures
        (forall|i: int| 0 <= i < ps.len() ==> dir_name_ok(#[trigger] ps[i].name@)) ==> planned_upto(
            ps,
            n,
        ).len() == n && forall|i: int| 0 <= i < n ==> #[trigger] planned_upto(ps, n)[i] == i,
    decreases n,
{
    if n > 0 {
        lemma_planned_all(ps, n - 1);
    }
}

proof fn lemma_apply_ok(v: StoreModel, rs: Seq<ExtractionResult>, now: u64)
    requires
        store_ok(v),
    ensures
        store_ok(apply_results(v, rs, now)),
        apply_results(v, rs, now).projects == v.projects,
    decreases rs.len(),
{
    if rs.len() > 0 {
        lemma_apply_ok(v, rs.drop_last(), now);
        let w = apply_results(v, rs.drop_last(), now);
        match rs.last().outcome {
            Some((u, c)) => {
                lemma_reconcile_ok(w, rs.last().project_id, c.0, u.0, now);
            },
            None => {},
        }
    }
}

/// A successful extraction is recorded whatever became of the others in its
/// batch: when result `b` gave `u` unsafe lines and `c` code lines for a known
/// repository that no other result of the batch is about, the store afterwards
/// holds that repository's snapshot for `u` unsafe lines, with `c` code lines.
pub proof fn lemma_partial_batch_failure(
    v: StoreModel,
    rs: Seq<ExtractionResult>,
    now: u64,
    b: int,
    u: UnsafeLines,
    c: CodeLines,
)
    requires
        store_ok(v),
        0 <= b < rs.len(),
        rs[b].outcome == Some((u, c)),
        has_project(v, rs[b].project_id),
        forall|j: int| 0 <= j < rs.len() && j != b ==> (#[trigger] rs[j]).project_id != rs[b].project_id,
    ensures
        ({
            let w = apply_results(v, rs, now).snapshots;
            find_snapshot(w, rs[b].project_id, u.0) matches Some(k) && 0 <= k < w.len()
                && w[k].project_id == rs[b].project_id && w[k].unsafe_lines == u.0
                && w[k].code_lines == c.0
        }),
    decreases rs.len(),
{
    let pid = rs[b].project_id;
    let prefix = rs.drop_last();
    lemma_apply_ok(v, prefix, now);
    let w = apply_results(v, prefix, now);
    if b == rs.len() - 1 {
        assert(rs.last() == rs[b]);
        assert(has_project(w, pid));
        assert(apply_results(v, rs, now) == reconcile_spec(w, pid, c.0, u.0, now));
        lemma_reconcile_records(w, pid, c.0, u.0, now);
    } else {
        assert(prefix[b] == rs[b]);
        assert forall|j: int| 0 <= j < prefix.len() && j != b implies (#[trigger] prefix[j]).project_id
            != prefix[b].project_id by {
            assert(prefix[j] == rs[j]);
        }
        lemma_partial_batch_failure(v, prefix, now, b, u, c);
        let last = rs.last();
        assert(last.project_id != pid);
        match last.outcome {
            Some((lu, lc)) => {
                assert(apply_results(v, rs, now) == reconcile_spec(w, last.project_id, lc.0, lu.0, now));
                lemma_reconcile_other(w, last.project_id, lc.0, lu.0, now, pid, u.0);
            },
            None => {
                assert(apply_results(v, rs, now) == w);
            },
        }
    }
}

proof fn lemma_without_newlines_step(s: Seq<char>, i: int)
    requires
        0 <= i < s.len(),
    ensures
        without_newlines(s.subrange(0, i + 1)) == (if s[i] == '\n' {
            without_newlines(s.subrange(0, i))
        } else {
            without_newlines(s.subrange(0, i)).push(s[i])
        }),
{
    assert(s.subrange(0, i + 1).drop_last() =~= s.subrange(0, i));
}

/// Reads the output of an extraction script: `Some((unsafe lines, code lines))`
/// exactly when, line breaks removed, it is two non-negative `i32` separated by
/// one `:`.
pub fn parse_extraction_output(out: &str) -> (r: Option<(UnsafeLines, CodeLines)>)
    ensures
        r == (match parse_output_spec(out@) {
            Some((u, c)) => Some((UnsafeLines(u), CodeLines(c))),
            None => None,
        }),
{
    let n = out.unicode_len();
    let mut t = String::new();
    let mut i: usize = 0;
    while i < n
        invariant
            n == out@.len(),
            i <= n,
            t@ == without_newlines(out@.subrange(0, i as int)),
        decreases n - i,
    {
        proof {
            lemma_without_newlines_step(out@, i as int);
        }
        let c = out.get_char(i);
        if c != '\n' {
            let one = out.substring_char(i, i + 1);
            assert(one@ =~= seq![c]);
            t.append(one);
        }
        i = i + 1;
    }
    assert(out@.subrange(0, n as int) =~= out@);
    let m = t.unicode_len();
    let mut p: usize = 0;
    while p < m && t.as_str().get_char(p) != ':'
        invariant
            m == t@.len(),
            p <= m,
            colon_from(t@, 0) == colon_from(t@, p as int),
        decreases m - p,
    {
        p = p + 1;
    }
    if p == m {
        return None;
    }
    let left = parse_i32(t.as_str().substring_char(0, p));
    let right = parse_i32(t.as_str().substring_char(p + 1, m));
    match (left, right) {
        (Some(u), Some(c)) => if u >= 0 && c >= 0 {
            Some((UnsafeLines(u), CodeLines(c)))
        } else {
            None
        },
        _ => None,
    }
}

/// Folds a batch of extraction results into the store, in order, each at time
/// `now`; failed results change nothing. Returns how many results succeeded.
pub fn reconcile_batch(store: &mut StatsStore, results: &Vec<ExtractionResult>, now: u64) -> (r:
    usize)
    requires
        old(store).wf(),
    ensures
        final(store).wf(),
        final(store)@ == apply_results(old(store)@, results@, now),
        r == successes(results@),
{
    let n = results.len();
    let mut count: usize = 0;
    let mut i: usize = 0;
    while i < n
        invariant
            store.wf(),
            n == results@.len(),
            i <= n,
            store@ == apply_results(old(store)@, results@.subrange(0, i as int), now),
            count == successes(results@.subrange(0, i as int)),
            count <= i,
        decreases n - i,
    {
        proof {
            assert(results@.subrange(0, i + 1).drop_last() =~= results@.subrange(0, i as int));
            assert(results@.subrange(0, i + 1).last() == results@[i as int]);
        }
        let r = &results[i];
        match r.outcome {
            Some((u, c)) => {
                store.updateProjectStatsById(r.project_id, c.0, u.0, now);
                count = count + 1;
            },
            None => {},
        }
        i = i + 1;
    }
    assert(results@.subrange(0, n as int) =~= results@);
    count
}

} // verus!
