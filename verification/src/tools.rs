//! Parameters of the MCP tools.
use vstd::prelude::*;

verus! {

/// Sort order for search results; each has the wire token the indexer and
/// Everything accept (such as `date_modified_asc`).
#[derive(Debug, Clone, Copy, PartialEq, Eq, Structural)]
pub enum SortOrder {
    /// By file name, ascending (default).
    Name,
    /// By file name, descending.
    NameDesc,
    /// By full path, ascending.
    Path,
    /// By full path, descending.
    PathDesc,
    /// By size, largest first.
    Size,
    /// By size, smallest first.
    SizeAsc,
    /// By last-modified time, newest first.
    DateModified,
    /// By last-modified time, oldest first.
    DateModifiedAsc,
    /// By creation time, newest first.
    DateCreated,
    /// By creation time, oldest first.
    DateCreatedAsc,
    /// By last-accessed time, newest first.
    DateAccessed,
    /// By last-accessed time, oldest first.
    DateAccessedAsc,
    /// By file extension, then name.
    Extension,
    /// By file extension, descending, then name.
    ExtensionDesc,
}

pub open spec fn sort_token(s: SortOrder) -> Seq<char> {
    match s {
        SortOrder::Name => "name"@,
        SortOrder::NameDesc => "name_desc"@,
        SortOrder::Path => "path"@,
        SortOrder::PathDesc => "path_desc"@,
        SortOrder::Size => "size"@,
        SortOrder::SizeAsc => "size_asc"@,
        SortOrder::DateModified => "date_modified"@,
        SortOrder::DateModifiedAsc => "date_modified_asc"@,
        SortOrder::DateCreated => "date_created"@,
        SortOrder::DateCreatedAsc => "date_created_asc"@,
        SortOrder::DateAccessed => "date_accessed"@,
        SortOrder::DateAccessedAsc => "date_accessed_asc"@,
        SortOrder::Extension => "extension"@,
        SortOrder::ExtensionDesc => "extension_desc"@,
    }
}

impl SortOrder {
    /// The wire token for this sort order.
    pub fn as_str(&self) -> (r: &'static str)
        ensures
            r@ == sort_token(*self),
    {
        match self {
            SortOrder::Name => "name",
            SortOrder::NameDesc => "name_desc",
            SortOrder::Path => "path",
            SortOrder::PathDesc => "path_desc",
            SortOrder::Size => "size",
            SortOrder::SizeAsc => "size_asc",
            SortOrder::DateModified => "date_modified",
            SortOrder::DateModifiedAsc => "date_modified_asc",
            SortOrder::DateCreated => "date_created",
            SortOrder::DateCreatedAsc => "date_created_asc",
            SortOrder::DateAccessed => "date_accessed",
            SortOrder::DateAccessedAsc => "date_accessed_asc",
            SortOrder::Extension => "extension",
            SortOrder::ExtensionDesc => "extension_desc",
        }
    }
}

/// Parameters of `find_files`.
pub struct SearchParams {
    pub query: String,
    pub max_results: Option<u32>,
    /// Number of results to skip (for pagination).
    pub offset: Option<u32>,
    pub regex: Option<bool>,
    /// Case-sensitive matching (default: case-insensitive).
    pub match_case: Option<bool>,
    /// Match whole words only.
    pub match_whole_word: Option<bool>,
    /// Also search the full path, not just the name.
    pub match_path: Option<bool>,
    /// Sort order (default: name).
    pub sort: Option<SortOrder>,
    /// Restrict the search to files under this path.
    pub path: Option<String>,
    /// Comma-separated fields to return.
    pub fields: Option<String>,
    /// `;`-separated directories to exclude.
    pub exclude_path: Option<String>,
    /// Include node_modules, .git and WinSxS (default: false).
    pub include_all: Option<bool>,
}

/// Parameters of `count_files`.
pub struct CountParams {
    pub query: String,
    /// Restrict the count to a directory.
    pub path: Option<String>,
    pub regex: Option<bool>,
    /// Case-sensitive matching (default: case-insensitive).
    pub match_case: Option<bool>,
    /// Match whole words only.
    pub match_whole_word: Option<bool>,
    /// `;`-separated directories to exclude.
    pub exclude_path: Option<String>,
    /// Include node_modules, .git and WinSxS (default: false).
    pub include_all: Option<bool>,
}

/// Parameters of `aggregate_files`.
pub struct AggregateParams {
    pub query: String,
    /// Restrict the aggregation to files under this path.
    pub path: Option<String>,
    pub regex: Option<bool>,
    /// Case-sensitive matching (default: case-insensitive).
    pub match_case: Option<bool>,
    /// Match whole words only.
    pub match_whole_word: Option<bool>,
    /// `;`-separated directories to exclude.
    pub exclude_path: Option<String>,
    /// Include node_modules, .git and WinSxS (default: false).
    pub include_all: Option<bool>,
    /// How many of the largest entries to return (default 20).
    pub top: Option<u32>,
}

/// Parameters of `recent_changes`.
pub struct RecentChangesParams {
    /// Only events strictly newer than this FILETIME; 0 returns all retained
    /// events.
    pub since: Option<i64>,
    /// Events from the last N hours.
    pub hours: Option<u32>,
    /// Maximum number of events; 0 (default) returns all retained events.
    pub limit: Option<usize>,
}

/// Each sort order has its own wire token.
pub proof fn law_sort_tokens_distinct(a: SortOrder, b: SortOrder)
    ensures
        sort_token(a) == sort_token(b) ==> a == b,
{
    reveal_strlit("name");
    reveal_strlit("name_desc");
    reveal_strlit("path");
    reveal_strlit("path_desc");
    reveal_strlit("size");
    reveal_strlit("size_asc");
    reveal_strlit("date_modified");
    reveal_strlit("date_modified_asc");
    reveal_strlit("date_created");
    reveal_strlit("date_created_asc");
    reveal_strlit("date_accessed");
    reveal_strlit("date_accessed_asc");
    reveal_strlit("extension");
    reveal_strlit("extension_desc");
    if sort_token(a) == sort_token(b) {
        assert(sort_token(a).len() == sort_token(b).len());
        assert(sort_token(a)[0] == sort_token(b)[0]);
        if sort_token(a).len() > 5 {
            assert(sort_token(a)[5] == sort_token(b)[5]);
        }
    }
}

} // verus!
