//! Plain data carried between the store, the read path and the refresh pipeline.
use vstd::prelude::*;

verus! {

/// Number of source lines counted in a repository.
#[derive(Copy, Clone, Debug, PartialEq, Eq, Structural)]
pub struct CodeLines(pub i32);

impl CodeLines {
    pub fn new(lines: i32) -> (r: Self)
        ensures
            r.0 == lines,
    {
        CodeLines(lines)
    }
}

impl From<i32> for CodeLines {
    fn from(value: i32) -> (r: Self) {
        CodeLines(value)
    }
}

impl vstd::std_specs::convert::FromSpecImpl<i32> for CodeLines {
    open spec fn obeys_from_spec() -> bool {
        true
    }

    open spec fn from_spec(v: i32) -> Self {
        CodeLines(v)
    }
}

/// Number of lines marked `unsafe` in a repository.
#[derive(Copy, Clone, Debug, PartialEq, Eq, Structural)]
pub struct UnsafeLines(pub i32);

impl UnsafeLines {
    pub fn new(lines: i32) -> (r: Self)
        ensures
            r.0 == lines,
    {
        UnsafeLines(lines)
    }
}

impl From<i32> for UnsafeLines {
    fn from(value: i32) -> (r: Self) {
        UnsafeLines(value)
    }
}

impl vstd::std_specs::convert::FromSpecImpl<i32> for UnsafeLines {
    open spec fn obeys_from_spec() -> bool {
        true
    }

    open spec fn from_spec(v: i32) -> Self {
        UnsafeLines(v)
    }
}

/// A hosting origin, such as a forge, under which repositories live.
pub struct Provider {
    pub id: i32,
    pub url: String,
}

impl Provider {
    pub fn new(id: i32, url: &str) -> (r: Self)
        ensures
            r.id == id,
            r.url@ == url@,
    {
        Provider { id, url: String::from_str(url) }
    }
}

/// A tracked repository: it lives at `provider url/namespace/name`.
pub struct Project {
    pub id: i32,
    pub provider_id: i32,
    pub namespace: String,
    pub name: String,
}

/// A repository together with the base URL of its provider, as the refresh
/// pipeline needs it.
pub struct ProjectWithUrl {
    pub id: i32,
    pub namespace: String,
    pub name: String,
    pub url: String,
}

/// One row of the current-metrics listing.
pub struct ProjectStatsDTO {
    pub project_id: i32,
    pub name: String,
    pub url: String,
    pub code_lines: i32,
    pub unsafe_lines: i32,
    pub created_at: String,
    pub updated_at: String,
}

/// What a row of the listing holds, as plain values.
pub struct DtoView {
    pub project_id: i32,
    pub name: Seq<char>,
    pub url: Seq<char>,
    pub code_lines: i32,
    pub unsafe_lines: i32,
    pub created_at: Seq<char>,
    pub updated_at: Seq<char>,
}

impl View for ProjectStatsDTO {
    type V = DtoView;

    open spec fn view(&self) -> DtoView {
        DtoView {
            project_id: self.project_id,
            name: self.name@,
            url: self.url@,
            code_lines: self.code_lines,
            unsafe_lines: self.unsafe_lines,
            created_at: self.created_at@,
            updated_at: self.updated_at@,
        }
    }
}

impl ProjectStatsDTO {
    pub fn new(
        project_id: i32,
        name: String,
        url: String,
        code_lines: i32,
        unsafe_lines: i32,
        created_at: String,
        updated_at: String,
    ) -> (r: Self)
        ensures
            r.project_id == project_id,
            r.name@ == name@,
            r.url@ == url@,
            r.code_lines == code_lines,
            r.unsafe_lines == unsafe_lines,
            r.created_at@ == created_at@,
            r.updated_at@ == updated_at@,
    {
        ProjectStatsDTO { project_id, name, url, code_lines, unsafe_lines, created_at, updated_at }
    }
}

/// One metric snapshot of a repository, with its timestamps rendered as text.
pub struct ProjectStats {
    pub project_id: i32,
    pub code_lines: i32,
    pub unsafe_lines: i32,
    pub created_at: String,
    pub updated_at: String,
}

impl ProjectStats {
    pub fn new(
        project_id: i32,
        code_lines: i32,
        unsafe_lines: i32,
        created_at: String,
        updated_at: String,
    ) -> (r: Self)
        ensures
            r.project_id == project_id,
            r.code_lines == code_lines,
            r.unsafe_lines == unsafe_lines,
            r.created_at@ == created_at@,
            r.updated_at@ == updated_at@,
    {
        ProjectStats { project_id, code_lines, unsafe_lines, created_at, updated_at }
    }
}

/// A page of the listing with the size of the whole filtered listing.
pub struct ProjectStatsWithMeta {
    pub projectStats: Vec<ProjectStatsDTO>,
    pub meta: i64,
}

/// Options of a cursor-style listing request.
pub struct PaginationOptions {
    pub project_id: Option<u32>,
    pub limit: Option<u32>,
    pub direction: Option<String>,
}

/// Query of the current-metrics listing: a 1-based page, a page size and an
/// optional name filter.
pub struct Pagination {
    pub page: Option<u32>,
    pub limit: Option<u32>,
    pub name: Option<String>,
}

/// Page size used when a query gives none.
pub const DEFAULT_PAGE_SIZE: u32 = 50;

impl Pagination {
    /// The 0-based page index: page 1 when none is given, and page 0 read as page 1.
    pub fn page_index(&self) -> (r: u32)
        ensures
            r == (match self.page {
                Some(p) => if p == 0 {
                    0
                } else {
                    (p - 1) as u32
                },
                None => 0,
            }),
    {
        match self.page {
            Some(p) => if p == 0 {
                0
            } else {
                p - 1
            },
            None => 0,
        }
    }

    /// The page size, 50 when none is given.
    pub fn page_size(&self) -> (r: u32)
        ensures
            r == (match self.limit {
                Some(l) => l,
                None => DEFAULT_PAGE_SIZE,
            }),
    {
        match self.limit {
            Some(l) => l,
            None => DEFAULT_PAGE_SIZE,
        }
    }

    /// The name filter, empty when none is given.
    pub fn name_filter(&self) -> (r: String)
        ensures
            r@ == (match self.name {
                Some(n) => n@,
                None => Seq::<char>::empty(),
            }),
    {
        match &self.name {
            Some(n) => n.clone(),
            None => String::new(),
        }
    }
}

} // verus!
