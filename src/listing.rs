//! The listing of current metrics: the ranked view of the store filtered by
//! name, ordered by name and cut into pages.
use vstd::prelude::*;
use crate::models::{DtoView, ProjectStatsDTO};
use crate::store::{StoreModel, current_snapshot, store_ok};
use crate::text::{date_text, is_infix, lemma_text_lt_irreflexive, lemma_text_lt_total, lemma_text_lt_transitive, lower_of, text_less, text_lt};

verus! {

/// Whether a repository name passes a filter: an empty filter passes all, another
/// must occur in the name, letter case aside.
pub open spec fn name_matches(filter: Seq<char>, name: Seq<char>) -> bool {
    filter.len() == 0 || is_infix(lower_of(filter), lower_of(name))
}

/// Text of an update time: empty when there was none.
pub open spec fn updated_text(t: Option<u64>) -> Seq<char> {
    match t {
        Some(x) => date_text(x as int),
        None => Seq::<char>::empty(),
    }
}

/// Clone URL base of repository `k`: `provider url/namespace/name`.
pub open spec fn project_url(v: StoreModel, k: int) -> Seq<char> {
    v.providers[v.projects[k].provider_id - 1] + seq!['/'] + v.projects[k].namespace + seq!['/']
        + v.projects[k].name
}

/// The listing row of repository `k` with snapshot `c`.
pub open spec fn row_of(v: StoreModel, k: int, c: int) -> DtoView {
    DtoView {
        project_id: (k + 1) as i32,
        name: v.projects[k].name,
        url: project_url(v, k),
        code_lines: v.snapshots[c].code_lines,
        unsafe_lines: v.snapshots[c].unsafe_lines,
        created_at: date_text(v.snapshots[c].created_at as int),
        updated_at: updated_text(v.snapshots[c].updated_at),
    }
}

/// Rows of the first `n` repositories, in store order, that have a snapshot and
/// pass the filter; each with its current snapshot.
pub open spec fn rows_upto(v: StoreModel, filter: Seq<char>, n: int) -> Seq<DtoView>
    decreases n,
{
    if n <= 0 {
        Seq::<DtoView>::empty()
    } else {
        let prev = rows_upto(v, filter, n - 1);
        match current_snapshot(v, n as i32) {
            Some(c) => if name_matches(filter, v.projects[n - 1].name) {
                prev.push(row_of(v, n - 1, c))
            } else {
                prev
            },
            None => prev,
        }
    }
}

/// The ranked view, filtered: one row per matching repository that has a snapshot.
pub open spec fn candidates(v: StoreModel, filter: Seq<char>) -> Seq<DtoView> {
    rows_upto(v, filter, v.projects.len() as int)
}

/// Where `x` goes in `sorted`, searching from `i`: before the first row whose
/// name is greater.
pub open spec fn insert_pos(sorted: Seq<DtoView>, x: DtoView, i: int) -> int
    decreases sorted.len() - i,
{
    if i < 0 || i >= sorted.len() {
        sorted.len() as int
    } else if text_lt(x.name, sorted[i].name) {
        i
    } else {
        insert_pos(sorted, x, i + 1)
    }
}

/// Rows ordered by name, ascending.
pub open spec fn sort_by_name(rows: Seq<DtoView>) -> Seq<DtoView>
    decreases rows.len(),
{
    if rows.len() == 0 {
        rows
    } else {
        let sorted = sort_by_name(rows.drop_last());
        sorted.insert(insert_pos(sorted, rows.last(), 0), rows.last())
    }
}

/// The filtered ranked view ordered by name.
pub open spec fn listing(v: StoreModel, filter: Seq<char>) -> Seq<DtoView> {
    sort_by_name(candidates(v, filter))
}

/// Rows `[offset, offset + size)` of `rows`, cut at its end.
pub open spec fn page_of(rows: Seq<DtoView>, offset: int, size: int) -> Seq<DtoView> {
    if offset >= rows.len() {
        Seq::<DtoView>::empty()
    } else if offset + size >= rows.len() {
        rows.subrange(offset, rows.len() as int)
    } else {
        rows.subrange(offset, offset + size)
    }
}

/// Views of a sequence of listing rows.
pub open spec fn rows_view(rows: Seq<ProjectStatsDTO>) -> Seq<DtoView> {
    rows.map_values(|d: ProjectStatsDTO| d@)
}

pub(crate) proof fn lemma_insert_pos_bounds(sorted: Seq<DtoView>, x: DtoView, i: int)
    requires
        0 <= i <= sorted.len(),
    ensures
        i <= insert_pos(sorted, x, i) <= sorted.len(),
    decreases sorted.len() - i,
{
    if i < sorted.len() {
        lemma_insert_pos_bounds(sorted, x, i + 1);
    }
}

pub(crate) proof fn lemma_sort_len(rows: Seq<DtoView>)
    ensures
        sort_by_name(rows).len() == rows.len(),
    decreases rows.len(),
{
    if rows.len() > 0 {
        lemma_sort_len(rows.drop_last());
        lemma_insert_pos_bounds(sort_by_name(rows.drop_last()), rows.last(), 0);
    }
}

pub(crate) proof fn lemma_rows_upto_len(v: StoreModel, filter: Seq<char>, n: int)
    requires
        0 <= n,
    ensures
        rows_upto(v, filter, n).len() <= n,
    decreases n,
{
    if n > 0 {
        lemma_rows_upto_len(v, filter, n - 1);
    }
}

/// Where `x` goes among rows ordered by name.
pub(crate) fn insert_position(sorted: &Vec<ProjectStatsDTO>, x: &ProjectStatsDTO) -> (r: usize)
    ensures
        r as int == insert_pos(rows_view(sorted@), x@, 0),
{
    let ghost rows = rows_view(sorted@);
    let n = sorted.len();
    let mut i: usize = 0;
    while i < n
        invariant
            n == sorted@.len(),
            rows == rows_view(sorted@),
            i <= n,
            insert_pos(rows, x@, 0) == insert_pos(rows, x@, i as int),
        decreases n - i,
    {
        if text_less(x.name.as_str(), sorted[i].name.as_str()) {
            return i;
        }
        i = i + 1;
    }
    i
}

/// Rows strictly ordered by name.
pub open spec fn names_sorted(rows: Seq<DtoView>) -> bool {
    forall|i: int, j: int| 0 <= i < j < rows.len() ==> text_lt(#[trigger] rows[i].name, #[trigger] rows[j].name)
}

/// Rows with pairwise distinct names.
pub open spec fn names_distinct(rows: Seq<DtoView>) -> bool {
    forall|i: int, j: int|
        0 <= i < rows.len() && 0 <= j < rows.len() && i != j ==> #[trigger] rows[i].name
            != #[trigger] rows[j].name
}

proof fn lemma_insert_pos_facts(sorted: Seq<DtoView>, x: DtoView, i: int)
    requires
        0 <= i <= sorted.len(),
    ensures
        forall|j: int| i <= j < insert_pos(sorted, x, i) ==> !text_lt(x.name, #[trigger] sorted[j].name),
        insert_pos(sorted, x, i) < sorted.len() ==> text_lt(x.name, sorted[insert_pos(sorted, x, i)].name),
    decreases sorted.len() - i,
{
    if i < sorted.len() {
        lemma_insert_pos_facts(sorted, x, i + 1);
    }
}

proof fn lemma_insert_keeps_sorted(s: Seq<DtoView>, x: DtoView)
    requires
        names_sorted(s),
        forall|j: int| 0 <= j < s.len() ==> (#[trigger] s[j]).name != x.name,
    ensures
        names_sorted(s.insert(insert_pos(s, x, 0), x)),
{
    let p = insert_pos(s, x, 0);
    lemma_insert_pos_bounds(s, x, 0);
    lemma_insert_pos_facts(s, x, 0);
    s.insert_ensures(p, x);
    let t = s.insert(p, x);
    assert forall|a: int, b: int| 0 <= a < b < t.len() implies text_lt(#[trigger] t[a].name, #[trigger] t[b].name) by {
        if b < p {
            assert(t[a] == s[a] && t[b] == s[b]);
        } else if b == p {
            assert(t[a] == s[a]);
            assert(!text_lt(x.name, s[a].name));
            lemma_text_lt_total(s[a].name, x.name);
        } else if a < p {
            assert(t[a] == s[a] && t[b] == s[b - 1]);
        } else if a == p {
            assert(t[b] == s[b - 1]);
            if b - 1 > p {
                assert(text_lt(s[p].name, s[b - 1].name));
                lemma_text_lt_transitive(x.name, s[p].name, s[b - 1].name);
            }
        } else {
            assert(t[a] == s[a - 1] && t[b] == s[b - 1]);
        }
    }
}

proof fn lemma_sort_by_name_props(rows: Seq<DtoView>)
    requires
        names_distinct(rows),
    ensures
        names_sorted(sort_by_name(rows)),
        sort_by_name(rows).len() == rows.len(),
        forall|x: DtoView| #[trigger] sort_by_name(rows).contains(x) <==> rows.contains(x),
    decreases rows.len(),
{
    lemma_sort_len(rows);
    if rows.len() > 0 {
        let prev = rows.drop_last();
        let x = rows.last();
        assert(names_distinct(prev)) by {
            assert forall|i: int, j: int|
                0 <= i < prev.len() && 0 <= j < prev.len() && i != j implies #[trigger] prev[i].name
                    != #[trigger] prev[j].name by {
                assert(prev[i] == rows[i] && prev[j] == rows[j]);
            }
        }
        lemma_sort_by_name_props(prev);
        let s = sort_by_name(prev);
        assert forall|j: int| 0 <= j < s.len() implies (#[trigger] s[j]).name != x.name by {
            assert(s.contains(s[j]));
            let k = choose|k: int| 0 <= k < prev.len() && prev[k] == s[j];
            assert(prev[k] == rows[k]);
            assert(rows[rows.len() - 1] == x);
        }
        lemma_insert_keeps_sorted(s, x);
        let p = insert_pos(s, x, 0);
        lemma_insert_pos_bounds(s, x, 0);
        s.insert_ensures(p, x);
        let t = s.insert(p, x);
        assert forall|z: DtoView| #[trigger] t.contains(z) <==> rows.contains(z) by {
            if t.contains(z) {
                let k = choose|k: int| 0 <= k < t.len() && t[k] == z;
                if k < p {
                    assert(s.contains(s[k]));
                    let m = choose|m: int| 0 <= m < prev.len() && prev[m] == s[k];
                    assert(rows[m] == z);
                } else if k == p {
                    assert(rows[rows.len() - 1] == z);
                } else {
                    assert(t[k] == s[k - 1]);
                    assert(s.contains(s[k - 1]));
                    let m = choose|m: int| 0 <= m < prev.len() && prev[m] == s[k - 1];
                    assert(rows[m] == z);
                }
            }
            if rows.contains(z) {
                let k = choose|k: int| 0 <= k < rows.len() && rows[k] == z;
                if k == rows.len() - 1 {
                    assert(t[p] == z);
                } else {
                    assert(prev[k] == z);
                    assert(prev.contains(z));
                    assert(s.contains(z));
                    let m = choose|m: int| 0 <= m < s.len() && s[m] == z;
                    if m < p {
                        assert(t[m] == z);
                    } else {
                        assert(t[m + 1] == z);
                    }
                }
            }
        }
    }
}

proof fn lemma_rows_upto_names(v: StoreModel, filter: Seq<char>, n: int)
    requires
        store_ok(v),
        0 <= n <= v.projects.len(),
    ensures
        names_distinct(rows_upto(v, filter, n)),
        forall|i: int|
            0 <= i < rows_upto(v, filter, n).len() ==> exists|m: int|
                0 <= m < n && (#[trigger] rows_upto(v, filter, n)[i]).name == v.projects[m].name,
    decreases n,
{
    if n > 0 {
        lemma_rows_upto_names(v, filter, n - 1);
        let prev = rows_upto(v, filter, n - 1);
        let rows = rows_upto(v, filter, n);
        if rows != prev {
            let c = current_snapshot(v, n as i32)->0;
            assert(rows == prev.push(row_of(v, n - 1, c)));
            assert forall|i: int| 0 <= i < prev.len() implies (#[trigger] rows[i]).name != v.projects[n - 1].name by {
                assert(rows[i] == prev[i]);
                let m = choose|m: int| 0 <= m < n - 1 && prev[i].name == v.projects[m].name;
                assert(v.projects[m].name != v.projects[n - 1].name);
            }
            assert forall|i: int| 0 <= i < rows.len() implies exists|m: int|
                0 <= m < n && (#[trigger] rows[i]).name == v.projects[m].name by {
                if i < prev.len() {
                    assert(rows[i] == prev[i]);
                    let m = choose|m: int| 0 <= m < n - 1 && prev[i].name == v.projects[m].name;
                    assert(rows[i].name == v.projects[m].name);
                } else {
                    assert(rows[i].name == v.projects[n - 1].name);
                }
            }
            assert forall|i: int, j: int|
                0 <= i < rows.len() && 0 <= j < rows.len() && i != j implies #[trigger] rows[i].name
                    != #[trigger] rows[j].name by {
                if i < prev.len() && j < prev.len() {
                    assert(rows[i] == prev[i] && rows[j] == prev[j]);
                }
            }
        }
    }
}

/// The listing is strictly ordered by name and holds exactly the rows of the
/// filtered ranked view, each once.
pub proof fn lemma_listing_sorted(v: StoreModel, filter: Seq<char>)
    requires
        store_ok(v),
    ensures
        names_sorted(listing(v, filter)),
        listing(v, filter).len() == candidates(v, filter).len(),
        forall|x: DtoView| #[trigger] listing(v, filter).contains(x) <==> candidates(v, filter).contains(x),
{
    lemma_rows_upto_names(v, filter, v.projects.len() as int);
    lemma_sort_by_name_props(candidates(v, filter));
}

/// Whether `d` is the listing row of repository position `k`: the repository
/// has a snapshot, passes the filter, and `d` is built from its current snapshot.
pub open spec fn row_from(v: StoreModel, filter: Seq<char>, k: int, d: DtoView) -> bool {
    &&& current_snapshot(v, (k + 1) as i32) is Some
    &&& name_matches(filter, v.projects[k].name)
    &&& d == row_of(v, k, current_snapshot(v, (k + 1) as i32)->0)
    &&& d.project_id == k + 1
}

/// Whether `d` is the listing row of one of the first `n` repositories.
pub open spec fn row_within(v: StoreModel, filter: Seq<char>, n: int, d: DtoView) -> bool {
    exists|k: int| 0 <= k < n && #[trigger] row_from(v, filter, k, d)
}

proof fn lemma_rows_upto_rows(v: StoreModel, filter: Seq<char>, n: int)
    requires
        store_ok(v),
        0 <= n <= v.projects.len(),
    ensures
        forall|i: int|
            0 <= i < rows_upto(v, filter, n).len() ==> row_within(v, filter, n, #[trigger] rows_upto(v, filter, n)[i]),
        forall|i: int, j: int|
            0 <= i < j < rows_upto(v, filter, n).len() ==> (#[trigger] rows_upto(v, filter, n)[i]).project_id
                < (#[trigger] rows_upto(v, filter, n)[j]).project_id,
        forall|i: int|
            0 <= i < rows_upto(v, filter, n).len() ==> (#[trigger] rows_upto(v, filter, n)[i]).project_id <= n,
    decreases n,
{
    if n > 0 {
        lemma_rows_upto_rows(v, filter, n - 1);
        let prev = rows_upto(v, filter, n - 1);
        let rows = rows_upto(v, filter, n);
        if rows != prev {
            let c = current_snapshot(v, n as i32)->0;
            assert(rows == prev.push(row_of(v, n - 1, c)));
            assert(row_from(v, filter, n - 1, rows[prev.len() as int]));
            assert forall|i: int| 0 <= i < rows.len() implies row_within(v, filter, n, #[trigger] rows[i]) by {
                if i < prev.len() {
                    assert(rows[i] == prev[i]);
                    assert(row_within(v, filter, n - 1, prev[i]));
                    let k = choose|k: int| 0 <= k < n - 1 && #[trigger] row_from(v, filter, k, prev[i]);
                    assert(row_from(v, filter, k, rows[i]));
                } else {
                    assert(row_from(v, filter, n - 1, rows[i]));
                }
            }
            assert forall|i: int, j: int| 0 <= i < j < rows.len() implies (#[trigger] rows[i]).project_id
                < (#[trigger] rows[j]).project_id by {
                assert(rows[i] == prev[i]);
                if j < prev.len() {
                    assert(rows[j] == prev[j]);
                }
            }
            assert forall|i: int| 0 <= i < rows.len() implies (#[trigger] rows[i]).project_id <= n by {
                if i < prev.len() {
                    assert(rows[i] == prev[i]);
                }
            }
        }
    }
}

/// Every row of a page of the listing is the row of one repository that has a
/// snapshot and passes the filter, built from its current snapshot, and no
/// repository has two rows in a page.
pub proof fn lemma_page_rows(v: StoreModel, filter: Seq<char>, offset: int, size: int)
    requires
        store_ok(v),
        0 <= offset,
        0 <= size,
    ensures
        forall|i: int|
            0 <= i < page_of(listing(v, filter), offset, size).len() ==> row_within(
                v,
                filter,
                v.projects.len() as int,
                #[trigger] page_of(listing(v, filter), offset, size)[i],
            ),
        forall|i: int, j: int|
            0 <= i < page_of(listing(v, filter), offset, size).len() && 0 <= j < page_of(
                listing(v, filter),
                offset,
                size,
            ).len() && i != j ==> (#[trigger] page_of(listing(v, filter), offset, size)[i]).project_id
                != (#[trigger] page_of(listing(v, filter), offset, size)[j]).project_id,
{
    let l = listing(v, filter);
    let c = candidates(v, filter);
    let page = page_of(l, offset, size);
    lemma_listing_sorted(v, filter);
    lemma_rows_upto_rows(v, filter, v.projects.len() as int);
    assert forall|i: int| 0 <= i < page.len() implies page[i] == l[offset + i] && 0 <= offset + i < l.len() by {}
    assert forall|i: int| 0 <= i < page.len() implies row_within(
        v,
        filter,
        v.projects.len() as int,
        #[trigger] page[i],
    ) by {
        assert(l.contains(l[offset + i]));
        assert(c.contains(page[i]));
        let ci = choose|ci: int| 0 <= ci < c.len() && c[ci] == page[i];
        assert(row_within(v, filter, v.projects.len() as int, c[ci]));
    }
    assert forall|i: int, j: int|
        0 <= i < page.len() && 0 <= j < page.len() && i != j implies (#[trigger] page[i]).project_id
            != (#[trigger] page[j]).project_id by {
        let a = offset + i;
        let b = offset + j;
        assert(l.contains(l[a]) && l.contains(l[b]));
        assert(c.contains(page[i]) && c.contains(page[j]));
        let ci = choose|ci: int| 0 <= ci < c.len() && c[ci] == page[i];
        let cj = choose|cj: int| 0 <= cj < c.len() && c[cj] == page[j];
        if page[i].project_id == page[j].project_id {
            if ci < cj {
                assert(c[ci].project_id < c[cj].project_id);
            } else if cj < ci {
                assert(c[cj].project_id < c[ci].project_id);
            }
            assert(l[a] == l[b]);
            lemma_text_lt_irreflexive(l[a].name);
            if a < b {
                assert(text_lt(l[a].name, l[b].name));
            } else {
                assert(text_lt(l[b].name, l[a].name));
            }
        }
    }
}

} // verus!
