//! Import of a repository catalog: one `<scheme>//<host>/<namespace>/<name>`
//! entry per line.
use vstd::prelude::*;
use crate::store::{StatsStore, StoreModel, create_spec};

verus! {

/// The fields of `s` between occurrences of `sep`; one more than there are
/// separators.
pub open spec fn split_on(s: Seq<char>, sep: char) -> Seq<Seq<char>>
    decreases s.len(),
{
    if s.len() == 0 {
        seq![Seq::<char>::empty()]
    } else {
        let prev = split_on(s.drop_last(), sep);
        if s.last() == sep {
            prev.push(Seq::<char>::empty())
        } else {
            prev.update(prev.len() - 1, prev.last().push(s.last()))
        }
    }
}

/// A catalog entry: provider URL `scheme//host`, namespace and name.
pub struct CatalogEntry {
    pub provider_url: String,
    pub namespace: String,
    pub name: String,
}

/// The entry of a catalog line: its `/`-separated fields must be exactly five;
/// the provider URL is the first and third joined by `//`.
pub open spec fn parse_line_spec(line: Seq<char>) -> Option<(Seq<char>, Seq<char>, Seq<char>)> {
    let f = split_on(line, '/');
    if f.len() == 5 {
        Some((f[0] + seq!['/', '/'] + f[2], f[3], f[4]))
    } else {
        None
    }
}

/// The store after importing catalog lines in order; lines that are not entries
/// are skipped.
pub open spec fn import_spec(v: StoreModel, lines: Seq<Seq<char>>) -> StoreModel
    decreases lines.len(),
{
    if lines.len() == 0 {
        v
    } else {
        let w = import_spec(v, lines.drop_last());
        match parse_line_spec(lines.last()) {
            Some((url, namespace, name)) => create_spec(w, url, namespace, name),
            None => w,
        }
    }
}

/// Number of lines that are catalog entries.
pub open spec fn entry_count(lines: Seq<Seq<char>>) -> nat
    decreases lines.len(),
{
    if lines.len() == 0 {
        0
    } else {
        entry_count(lines.drop_last()) + if parse_line_spec(lines.last()) is Some {
            1nat
        } else {
            0nat
        }
    }
}

proof fn lemma_split_nonempty(s: Seq<char>, sep: char)
    ensures
        split_on(s, sep).len() >= 1,
        split_on(s, sep).len() <= s.len() + 1,
    decreases s.len(),
{
    if s.len() > 0 {
        lemma_split_nonempty(s.drop_last(), sep);
    }
}

/// Splits `s` at every `sep`.
pub fn split_fields(s: &str, sep: char) -> (r: Vec<String>)
    ensures
        r@.map_values(|f: String| f@) == split_on(s@, sep),
{
    let n = s.unicode_len();
    let mut fields: Vec<String> = Vec::new();
    fields.push(String::new());
    let mut i: usize = 0;
    proof {
        assert(s@.subrange(0, 0) =~= Seq::<char>::empty());
        assert(fields@.map_values(|f: String| f@) =~= seq![Seq::<char>::empty()]);
    }
    while i < n
        invariant
            n == s@.len(),
            i <= n,
            fields@.len() >= 1,
            fields@.map_values(|f: String| f@) == split_on(s@.subrange(0, i as int), sep),
        decreases n - i,
    {
        let ghost prefix = s@.subrange(0, i as int);
        let ghost before = fields@.map_values(|f: String| f@);
        proof {
            assert(s@.subrange(0, i + 1).drop_last() =~= prefix);
            assert(s@.subrange(0, i + 1).last() == s@[i as int]);
        }
        let c = s.get_char(i);
        if c == sep {
            fields.push(String::new());
            assert(fields@.map_values(|f: String| f@) =~= before.push(Seq::<char>::empty()));
        } else {
            let last = fields.len() - 1;
            let mut f = fields[last].clone();
            let one = s.substring_char(i, i + 1);
            assert(one@ =~= seq![c]);
            f.append(one);
            assert(f@ =~= before.last().push(c));
            fields.set(last, f);
            assert(fields@.map_values(|f: String| f@) =~= before.update(
                before.len() - 1,
                before.last().push(c),
            ));
        }
        i = i + 1;
    }
    assert(s@.subrange(0, n as int) =~= s@);
    fields
}

/// Reads a catalog line; `None` when it does not have exactly five fields.
pub fn parse_catalog_line(line: &str) -> (r: Option<CatalogEntry>)
    ensures
        match parse_line_spec(line@) {
            Some((url, namespace, name)) => r matches Some(e) && e.provider_url@ == url
                && e.namespace@ == namespace && e.name@ == name,
            None => r is None,
        },
{
    let fields = split_fields(line, '/');
    let ghost f = split_on(line@, '/');
    if fields.len() != 5 {
        return None;
    }
    assert(fields@[0]@ == f[0] && fields@[2]@ == f[2] && fields@[3]@ == f[3] && fields@[4]@
        == f[4]);
    proof {
        reveal_strlit("//");
    }
    let provider_url = fields[0].clone().concat("//").concat(fields[2].as_str());
    Some(
        CatalogEntry {
            provider_url,
            namespace: fields[3].clone(),
            name: fields[4].clone(),
        },
    )
}

/// Imports catalog lines in order: each entry adds its repository unless the
/// name is taken or its provider unknown; other lines are skipped. Returns how
/// many lines were entries, that is, had exactly five `/`-separated fields.
pub fn projectsImport(store: &mut StatsStore, lines: &Vec<String>) -> (r: usize)
    requires
        old(store).wf(),
    ensures
        final(store).wf(),
        final(store)@ == import_spec(old(store)@, lines@.map_values(|l: String| l@)),
        r == entry_count(lines@.map_values(|l: String| l@)),
{
    let ghost all = lines@.map_values(|l: String| l@);
    let n = lines.len();
    let mut entries: usize = 0;
    let mut i: usize = 0;
    while i < n
        invariant
            store.wf(),
            n == lines@.len(),
            all == lines@.map_values(|l: String| l@),
            i <= n,
            entries <= i,
            entries == entry_count(all.subrange(0, i as int)),
            store@ == import_spec(old(store)@, all.subrange(0, i as int)),
        decreases n - i,
    {
        proof {
            assert(all.subrange(0, i + 1).drop_last() =~= all.subrange(0, i as int));
            assert(all.subrange(0, i + 1).last() == lines@[i as int]@);
        }
        match parse_catalog_line(lines[i].as_str()) {
            Some(e) => {
                store.createProject(e.provider_url.as_str(), e.namespace.as_str(), e.name.as_str());
                entries = entries + 1;
            },
            None => {},
        }
        i = i + 1;
    }
    assert(all.subrange(0, n as int) =~= all);
    entries
}

} // verus!
