//! The cache-aside layer in front of the listing: a page is rendered as JSON
//! once, kept under a key built from the query, and served verbatim until the
//! cache is flushed.
use vstd::prelude::*;
use crate::models::{DtoView, ProjectStatsDTO, ProjectStatsWithMeta};
use crate::listing::{candidates, listing, page_of, rows_view};
use crate::store::{StatsStore, StoreModel};
use crate::text::{decimal, decimal_string, digit_char, json_quoted, quote_json, signed_decimal, signed_decimal_string};

verus! {

/// JSON object of one listing row.
pub open spec fn row_json(d: DtoView) -> Seq<char> {
    "{\"project_id\":"@ + signed_decimal(d.project_id as int) + ",\"name\":"@ + json_quoted(d.name)
        + ",\"url\":"@ + json_quoted(d.url) + ",\"code_lines\":"@ + signed_decimal(
        d.code_lines as int,
    ) + ",\"unsafe_lines\":"@ + signed_decimal(d.unsafe_lines as int) + ",\"created_at\":"@
        + json_quoted(d.created_at) + ",\"updated_at\":"@ + json_quoted(d.updated_at) + "}"@
}

/// JSON objects of rows, separated by commas.
pub open spec fn rows_json(rows: Seq<DtoView>) -> Seq<char>
    decreases rows.len(),
{
    if rows.len() == 0 {
        Seq::<char>::empty()
    } else if rows.len() == 1 {
        row_json(rows[0])
    } else {
        rows_json(rows.drop_last()) + ","@ + row_json(rows.last())
    }
}

/// JSON object of a page: its rows and the size of the whole listing.
pub open spec fn page_json(rows: Seq<DtoView>, meta: int) -> Seq<char> {
    "{\"projectStats\":["@ + rows_json(rows) + "],\"meta\":"@ + signed_decimal(meta) + "}"@
}

/// Cache key of a query: page index, page size and filter joined by `_`. The
/// two numbers hold no `_`, so distinct queries get distinct keys.
pub open spec fn cache_key(page: u32, limit: u32, name: Seq<char>) -> Seq<char> {
    decimal(page as nat) + seq!['_'] + decimal(limit as nat) + seq!['_'] + name
}

proof fn lemma_decimal_shape(n: nat)
    ensures
        decimal(n).len() >= 1,
        n < 10 <==> decimal(n).len() == 1,
        forall|i: int| 0 <= i < decimal(n).len() ==> #[trigger] decimal(n)[i] != '_',
    decreases n,
{
    if n >= 10 {
        lemma_decimal_shape(n / 10);
        let d = decimal(n);
        assert forall|i: int| 0 <= i < d.len() implies #[trigger] d[i] != '_' by {
            if i < d.len() - 1 {
                assert(d[i] == decimal(n / 10)[i]);
            }
        }
    }
}

proof fn lemma_digit_char_injective(a: int, b: int)
    requires
        0 <= a < 10,
        0 <= b < 10,
        digit_char(a) == digit_char(b),
    ensures
        a == b,
{
}

proof fn lemma_decimal_injective(a: nat, b: nat)
    requires
        decimal(a) == decimal(b),
    ensures
        a == b,
    decreases a,
{
    lemma_decimal_shape(a);
    lemma_decimal_shape(b);
    if a < 10 {
        assert(b < 10);
        assert(decimal(a)[0] == digit_char(a as int));
        assert(decimal(b)[0] == digit_char(b as int));
        lemma_digit_char_injective(a as int, b as int);
    } else {
        let da = decimal(a);
        let db = decimal(b);
        assert(da.drop_last() =~= decimal(a / 10));
        assert(db.drop_last() =~= decimal(b / 10));
        lemma_decimal_injective(a / 10, b / 10);
        assert(da.last() == db.last());
        lemma_digit_char_injective((a % 10) as int, (b % 10) as int);
        assert(a == 10 * (a / 10) + a % 10);
        assert(b == 10 * (b / 10) + b % 10);
    }
}

/// In `d + "_" + rest`, with `d` free of `_`, the position of the first `_` is
/// the length of `d`.
proof fn lemma_split_at_first_underscore(d1: Seq<char>, r1: Seq<char>, d2: Seq<char>, r2: Seq<char>)
    requires
        forall|i: int| 0 <= i < d1.len() ==> #[trigger] d1[i] != '_',
        forall|i: int| 0 <= i < d2.len() ==> #[trigger] d2[i] != '_',
        d1 + seq!['_'] + r1 == d2 + seq!['_'] + r2,
    ensures
        d1 == d2,
        r1 == r2,
{
    let k = d1 + seq!['_'] + r1;
    let k2 = d2 + seq!['_'] + r2;
    if d1.len() < d2.len() {
        assert(k[d1.len() as int] == '_');
        assert(k2[d1.len() as int] == d2[d1.len() as int]);
    } else if d2.len() < d1.len() {
        assert(k2[d2.len() as int] == '_');
        assert(k[d2.len() as int] == d1[d2.len() as int]);
    }
    assert(d1 =~= k.subrange(0, d1.len() as int));
    assert(d2 =~= k2.subrange(0, d2.len() as int));
    assert(r1 =~= k.subrange(d1.len() as int + 1, k.len() as int));
    assert(r2 =~= k2.subrange(d2.len() as int + 1, k2.len() as int));
}

/// Distinct queries get distinct cache keys: the key determines the page index,
/// the page size and the filter.
pub proof fn lemma_cache_key_injective(
    page1: u32,
    limit1: u32,
    name1: Seq<char>,
    page2: u32,
    limit2: u32,
    name2: Seq<char>,
)
    requires
        cache_key(page1, limit1, name1) == cache_key(page2, limit2, name2),
    ensures
        page1 == page2,
        limit1 == limit2,
        name1 == name2,
{
    lemma_decimal_shape(page1 as nat);
    lemma_decimal_shape(page2 as nat);
    lemma_decimal_shape(limit1 as nat);
    lemma_decimal_shape(limit2 as nat);
    let rest1 = decimal(limit1 as nat) + seq!['_'] + name1;
    let rest2 = decimal(limit2 as nat) + seq!['_'] + name2;
    assert(cache_key(page1, limit1, name1) =~= decimal(page1 as nat) + seq!['_'] + rest1);
    assert(cache_key(page2, limit2, name2) =~= decimal(page2 as nat) + seq!['_'] + rest2);
    lemma_split_at_first_underscore(decimal(page1 as nat), rest1, decimal(page2 as nat), rest2);
    lemma_split_at_first_underscore(decimal(limit1 as nat), name1, decimal(limit2 as nat), name2);
    lemma_decimal_injective(page1 as nat, page2 as nat);
    lemma_decimal_injective(limit1 as nat, limit2 as nat);
}

/// The rendered page that a query asks for.
pub open spec fn page_text(v: StoreModel, name: Seq<char>, limit: u32, page: u32) -> Seq<char> {
    page_json(
        page_of(listing(v, name), limit as int * page as int, limit as int),
        candidates(v, name).len() as int,
    )
}

/// A cached read: the page served, whether the listing was computed for it, and
/// the cache afterwards.
pub open spec fn get_page_spec(
    m: Map<Seq<char>, Seq<char>>,
    v: StoreModel,
    name: Seq<char>,
    limit: u32,
    page: u32,
) -> (Seq<char>, bool, Map<Seq<char>, Seq<char>>) {
    let key = cache_key(page, limit, name);
    if m.contains_key(key) {
        (m[key], false, m)
    } else {
        let text = page_text(v, name, limit, page);
        (text, true, m.insert(key, text))
    }
}

/// Cache-aside: right after a flush, a read renders the page from the store; a
/// second read with the same query serves the very same text without computing
/// the listing, even if the store has changed meanwhile, and leaves the cache as
/// it was.
pub proof fn lemma_cache_aside(
    first: StoreModel,
    second: StoreModel,
    name: Seq<char>,
    limit: u32,
    page: u32,
)
    ensures
        ({
            let (t1, computed1, m1) = get_page_spec(
                Map::<Seq<char>, Seq<char>>::empty(),
                first,
                name,
                limit,
                page,
            );
            let (t2, computed2, m2) = get_page_spec(m1, second, name, limit, page);
            &&& computed1
            &&& t1 == page_text(first, name, limit, page)
            &&& !computed2
            &&& t2 == t1
            &&& m2 == m1
        }),
{
}

/// The JSON object of one listing row.
pub fn render_row(d: &ProjectStatsDTO) -> (r: String)
    ensures
        r@ == row_json(d@),
{
    let mut s = String::from_str("{\"project_id\":");
    s.append(signed_decimal_string(d.project_id as i64).as_str());
    s.append(",\"name\":");
    s.append(quote_json(d.name.as_str()).as_str());
    s.append(",\"url\":");
    s.append(quote_json(d.url.as_str()).as_str());
    s.append(",\"code_lines\":");
    s.append(signed_decimal_string(d.code_lines as i64).as_str());
    s.append(",\"unsafe_lines\":");
    s.append(signed_decimal_string(d.unsafe_lines as i64).as_str());
    s.append(",\"created_at\":");
    s.append(quote_json(d.created_at.as_str()).as_str());
    s.append(",\"updated_at\":");
    s.append(quote_json(d.updated_at.as_str()).as_str());
    s.append("}");
    s
}

/// The JSON text of a page, as `{"projectStats":[...],"meta":n}`.
pub fn render_page(p: &ProjectStatsWithMeta) -> (r: String)
    ensures
        r@ == page_json(rows_view(p.projectStats@), p.meta as int),
{
    let ghost rows = rows_view(p.projectStats@);
    let mut body = String::new();
    let n = p.projectStats.len();
    let mut i: usize = 0;
    while i < n
        invariant
            n == p.projectStats@.len(),
            rows == rows_view(p.projectStats@),
            i <= n,
            body@ == rows_json(rows.subrange(0, i as int)),
        decreases n - i,
    {
        let row = render_row(&p.projectStats[i]);
        proof {
            assert(rows.subrange(0, i + 1).drop_last() =~= rows.subrange(0, i as int));
            assert(rows.subrange(0, i + 1).last() == rows[i as int]);
        }
        if i > 0 {
            body.append(",");
        } else {
            assert(body@ =~= Seq::<char>::empty());
            assert(rows.subrange(0, 1)[0] == rows[0]);
        }
        body.append(row.as_str());
        i = i + 1;
    }
    assert(rows.subrange(0, n as int) =~= rows);
    let mut s = String::from_str("{\"projectStats\":[");
    s.append(body.as_str());
    s.append("],\"meta\":");
    s.append(signed_decimal_string(p.meta).as_str());
    s.append("}");
    s
}

/// The cache key of a query.
pub fn page_key(page: u32, limit: u32, name: &str) -> (r: String)
    ensures
        r@ == cache_key(page, limit, name@),
{
    proof {
        reveal_strlit("_");
    }
    decimal_string(page as u64).concat("_").concat(decimal_string(limit as u64).as_str()).concat(
        "_",
    ).concat(name)
}

/// First position from `i` on of an entry with key `k`.
pub open spec fn key_pos(s: Seq<(String, String)>, k: Seq<char>, i: int) -> Option<int>
    decreases s.len() - i,
{
    if i < 0 || i >= s.len() {
        None
    } else if s[i].0@ == k {
        Some(i)
    } else {
        key_pos(s, k, i + 1)
    }
}

proof fn lemma_key_pos_bounds(s: Seq<(String, String)>, k: Seq<char>, i: int)
    requires
        0 <= i,
    ensures
        key_pos(s, k, i) matches Some(p) ==> i <= p < s.len() && s[p].0@ == k,
    decreases s.len() - i,
{
    if i < s.len() {
        lemma_key_pos_bounds(s, k, i + 1);
    }
}

proof fn lemma_key_pos_push(s: Seq<(String, String)>, e: (String, String), k: Seq<char>, i: int)
    requires
        0 <= i <= s.len(),
    ensures
        key_pos(s.push(e), k, i) == (if key_pos(s, k, i) is Some {
            key_pos(s, k, i)
        } else if k == e.0@ {
            Some(s.len() as int)
        } else {
            None
        }),
    decreases s.len() - i,
{
    if i < s.len() {
        assert(s.push(e)[i] == s[i]);
        lemma_key_pos_push(s, e, k, i + 1);
    } else {
        assert(s.push(e)[i] == e);
        if k != e.0@ {
            assert(key_pos(s.push(e), k, i + 1) is None);
        }
    }
}

proof fn lemma_key_pos_same_keys(s: Seq<(String, String)>, t: Seq<(String, String)>, k: Seq<char>, i: int)
    requires
        0 <= i,
        s.len() == t.len(),
        forall|m: int| 0 <= m < s.len() ==> (#[trigger] s[m]).0@ == t[m].0@,
    ensures
        key_pos(s, k, i) == key_pos(t, k, i),
    decreases s.len() - i,
{
    if i < s.len() {
        lemma_key_pos_same_keys(s, t, k, i + 1);
    }
}

/// Pages already rendered, by key.
pub struct PageCache {
    entries: Vec<(String, String)>,
}

impl View for PageCache {
    type V = Map<Seq<char>, Seq<char>>;

    closed spec fn view(&self) -> Map<Seq<char>, Seq<char>> {
        Map::new(
            |k: Seq<char>| key_pos(self.entries@, k, 0) is Some,
            |k: Seq<char>| self.entries@[key_pos(self.entries@, k, 0)->0].1@,
        )
    }
}

impl PageCache {
    /// An empty cache.
    pub fn new() -> (r: Self)
        ensures
            r@ == Map::<Seq<char>, Seq<char>>::empty(),
    {
        let r = PageCache { entries: Vec::new() };
        assert(r@ =~= Map::<Seq<char>, Seq<char>>::empty());
        r
    }

    fn position(&self, key: &str) -> (r: Option<usize>)
        ensures
            match r {
                Some(p) => key_pos(self.entries@, key@, 0) == Some(p as int),
                None => key_pos(self.entries@, key@, 0) is None,
            },
    {
        let target = String::from_str(key);
        let n = self.entries.len();
        let mut i: usize = 0;
        while i < n
            invariant
                n == self.entries@.len(),
                i <= n,
                target@ == key@,
                key_pos(self.entries@, key@, 0) == key_pos(self.entries@, key@, i as int),
            decreases n - i,
        {
            if self.entries[i].0 == target {
                return Some(i);
            }
            i = i + 1;
        }
        None
    }

    /// The page kept under `key`, if any.
    pub fn getKey(&self, key: &str) -> (r: Option<String>)
        ensures
            match r {
                Some(v) => self@.contains_key(key@) && v@ == self@[key@],
                None => !self@.contains_key(key@),
            },
    {
        match self.position(key) {
            Some(p) => {
                proof {
                    lemma_key_pos_bounds(self.entries@, key@, 0);
                }
                Some(self.entries[p].1.clone())
            },
            None => None,
        }
    }

    /// Keeps `value` under `key`, replacing what was there.
    pub fn setKey(&mut self, key: &str, value: &str)
        ensures
            final(self)@ == old(self)@.insert(key@, value@),
    {
        let ghost s0 = self.entries@;
        let entry = (String::from_str(key), String::from_str(value));
        match self.position(key) {
            Some(p) => {
                proof {
                    lemma_key_pos_bounds(s0, key@, 0);
                }
                self.entries.set(p, entry);
                proof {
                    let s1 = self.entries@;
                    let m0 = old(self)@;
                    assert forall|k: Seq<char>| key_pos(s1, k, 0) == key_pos(s0, k, 0) by {
                        lemma_key_pos_same_keys(s0, s1, k, 0);
                    }
                    assert forall|k: Seq<char>| #[trigger] self@.contains_key(k) == m0.insert(key@, value@).contains_key(k) by {
                        lemma_key_pos_same_keys(s0, s1, k, 0);
                    }
                    assert forall|k: Seq<char>| #[trigger] self@.contains_key(k) implies self@[k] == m0.insert(key@, value@)[k] by {
                        lemma_key_pos_same_keys(s0, s1, k, 0);
                        lemma_key_pos_bounds(s0, k, 0);
                        let q = key_pos(s0, k, 0)->0;
                        if k == key@ {
                            assert(q == p);
                        } else {
                            assert(q != p);
                            assert(s1[q] == s0[q]);
                        }
                    }
                }
                assert(self@ =~= old(self)@.insert(key@, value@));
            },
            None => {
                self.entries.push(entry);
                proof {
                    let s1 = self.entries@;
                    assert forall|k: Seq<char>| #[trigger] key_pos(s1, k, 0) == (if key_pos(s0, k, 0) is Some {
                            key_pos(s0, k, 0)
                        } else if k == key@ {
                            Some(s0.len() as int)
                        } else {
                            None
                        }) by {
                        lemma_key_pos_push(s0, entry, k, 0);
                    }
                    assert forall|k: Seq<char>| key_pos(s0, k, 0) is Some implies #[trigger] s1[key_pos(s0, k, 0)->0] == s0[key_pos(s0, k, 0)->0] by {
                        lemma_key_pos_bounds(s0, k, 0);
                    }
                }
                assert(self@ =~= old(self)@.insert(key@, value@));
            },
        }
    }

    /// Forgets every page.
    pub fn flush(&mut self)
        ensures
            final(self)@ == Map::<Seq<char>, Seq<char>>::empty(),
    {
        self.entries.clear();
        assert(self@ =~= Map::<Seq<char>, Seq<char>>::empty());
    }

    /// Serves a page of the listing: verbatim from the cache when its key is
    /// there, else rendered from the store and kept. The flag tells whether the
    /// listing was computed.
    pub fn getPage(&mut self, store: &StatsStore, name: &str, limit: u32, page: u32) -> (r: (
        String,
        bool,
    ))
        requires
            store.wf(),
        ensures
            (r.0@, r.1, final(self)@) == get_page_spec(old(self)@, store@, name@, limit, page),
    {
        let key = page_key(page, limit, name);
        match self.getKey(key.as_str()) {
            Some(text) => (text, false),
            None => {
                let result = store.getProjectsStats(name, limit, page);
                let text = render_page(&result);
                self.setKey(key.as_str(), text.as_str());
                (text, true)
            },
        }
    }
}

} // verus!
