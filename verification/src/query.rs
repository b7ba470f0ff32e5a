//! Query options, the token language of a parsed query, and the result
//! types of `search` and `aggregate`.

use vstd::prelude::*;

use crate::qparse::{DateOp, SizeFilter};
use crate::types::IndexedFile;

verus! {

/// Options of a `search` (and `count`) request.
#[derive(Debug, Clone)]
pub struct QueryOptions {
    pub query: String,
    pub path: Option<String>,
    pub exclude_path: Option<String>,
    pub include_all: bool,
    pub match_path: bool,
    pub regex: bool,
    pub match_case: bool,
    pub match_whole_word: bool,
    pub max_results: usize,
    pub offset: usize,
    pub sort: Option<String>,
    /// Lowercase paths allowed by a `content:"..."` constraint. When set,
    /// only entries whose lowercased path appears here pass the filter.
    pub content_paths: Option<Vec<String>>,
}

impl Default for QueryOptions {
    fn default() -> (r: Self)
        ensures
            r.query@ == Seq::<char>::empty(),
            r.path is None,
            r.exclude_path is None,
            !r.include_all,
            !r.match_path,
            !r.regex,
            !r.match_case,
            !r.match_whole_word,
            r.max_results == 0,
            r.offset == 0,
            r.sort is None,
            r.content_paths is None,
    {
        QueryOptions {
            query: String::new(),
            path: None,
            exclude_path: None,
            include_all: false,
            match_path: false,
            regex: false,
            match_case: false,
            match_whole_word: false,
            max_results: 0,
            offset: 0,
            sort: None,
            content_paths: None,
        }
    }
}

/// A page of search results and the number of matches before paging.
#[derive(Debug)]
pub struct QueryResult {
    pub total: usize,
    pub entries: Vec<IndexedFile>,
}

/// Options of an `aggregate` request.
#[derive(Debug, Clone)]
pub struct AggregateOptions {
    pub query: String,
    pub path: Option<String>,
    pub exclude_path: Option<String>,
    pub include_all: bool,
    pub match_path: bool,
    pub regex: bool,
    pub match_case: bool,
    pub match_whole_word: bool,
    /// How many of the largest entries to return (0 means 20).
    pub top: usize,
    /// Lowercase paths allowed by a `content:"..."` constraint.
    pub content_paths: Option<Vec<String>>,
}

impl Default for AggregateOptions {
    fn default() -> (r: Self)
        ensures
            r.query@ == Seq::<char>::empty(),
            r.path is None,
            r.exclude_path is None,
            !r.include_all,
            !r.match_path,
            !r.regex,
            !r.match_case,
            !r.match_whole_word,
            r.top == 0,
            r.content_paths is None,
    {
        AggregateOptions {
            query: String::new(),
            path: None,
            exclude_path: None,
            include_all: false,
            match_path: false,
            regex: false,
            match_case: false,
            match_whole_word: false,
            top: 0,
            content_paths: None,
        }
    }
}

/// Summary statistics of the entries an aggregate query matched.
#[derive(Debug, Clone)]
pub struct AggregateResult {
    /// Number of matched entries (files and folders).
    pub total: usize,
    /// Matched file count.
    pub files: usize,
    /// Matched folder count.
    pub folders: usize,
    /// Saturating sum of the matched entries' sizes (folders count with
    /// their recursive size).
    pub total_size: u64,
    /// The `top` largest matched entries.
    pub largest: Vec<AggregateLargest>,
    /// Per-extension counts and size totals over matched files.
    pub by_extension: Vec<AggregateExt>,
}

#[derive(Debug, Clone)]
pub struct AggregateLargest {
    pub path: String,
    pub size: u64,
    pub is_dir: bool,
}

#[derive(Debug, Clone)]
pub struct AggregateExt {
    pub extension: String,
    pub count: usize,
    pub size: u64,
}

/// Which timestamp a date filter reads.
#[derive(Debug, Clone, Copy, PartialEq, Eq, Structural)]
pub enum DateKind {
    Modified,
    Created,
    Accessed,
}

/// `folder:` / `file:`.
#[derive(Debug, Clone, Copy, PartialEq, Eq, Structural)]
pub enum TypeFilter {
    Files,
    Folders,
}

/// One term of a parsed query.
#[derive(Debug)]
pub enum Token {
    /// Positive term (name wildcard or bare text).
    Include { pattern: String, whole_word: bool, case_sensitive: bool },
    /// Negative term (`!pattern`).
    Exclude { pattern: String, whole_word: bool, case_sensitive: bool },
    /// Regex term (`regex:...` or the regex flag).
    Regex { pattern: String, negate: bool },
    /// A group of terms that must all match (the terms between two `|`).
    Or(Vec<Token>),
    /// `path:` scoping.
    Path(String),
    /// `ext:` extension filter (one or more, comma separated).
    Ext(Vec<String>),
    /// `size:` filter.
    Size(SizeFilter),
    /// `dm:`, `dc:`, `da:` date filter (wall-clock unix seconds).
    Date { kind: DateKind, op: DateOp, value: i64 },
    /// `folder:` / `file:` type filter.
    TypeFilter(TypeFilter),
    /// `attrib:` filter (mask of required FILE_ATTRIBUTE bits).
    Attrib { mask: u32, negate: bool },
    /// Matches nothing (unknown attribute letters).
    Never,
    /// Plain scoping term like `C:\foo` (implicit path).
    BarePath(String),
}

/// Mathematical value of a [`Token`]: strings as character sequences.
pub enum TokenV {
    Include { pattern: Seq<char>, whole_word: bool, case_sensitive: bool },
    Exclude { pattern: Seq<char>, whole_word: bool, case_sensitive: bool },
    Regex { pattern: Seq<char>, negate: bool },
    Or(Seq<TokenV>),
    Path(Seq<char>),
    Ext(Seq<Seq<char>>),
    Size(SizeFilter),
    Date { kind: DateKind, op: DateOp, value: i64 },
    TypeFilter(TypeFilter),
    Attrib { mask: u32, negate: bool },
    Never,
    BarePath(Seq<char>),
}

/// The character sequences of a list of strings.
pub open spec fn strings_view(v: Seq<String>) -> Seq<Seq<char>> {
    v.map_values(|s: String| s@)
}

pub open spec fn token_view(t: Token) -> TokenV
    decreases t,
{
    match t {
        Token::Include { pattern, whole_word, case_sensitive } => TokenV::Include {
            pattern: pattern@,
            whole_word,
            case_sensitive,
        },
        Token::Exclude { pattern, whole_word, case_sensitive } => TokenV::Exclude {
            pattern: pattern@,
            whole_word,
            case_sensitive,
        },
        Token::Regex { pattern, negate } => TokenV::Regex { pattern: pattern@, negate },
        Token::Or(g) => TokenV::Or(tokens_view(g@)),
        Token::Path(p) => TokenV::Path(p@),
        Token::Ext(e) => TokenV::Ext(strings_view(e@)),
        Token::Size(f) => TokenV::Size(f),
        Token::Date { kind, op, value } => TokenV::Date { kind, op, value },
        Token::TypeFilter(f) => TokenV::TypeFilter(f),
        Token::Attrib { mask, negate } => TokenV::Attrib { mask, negate },
        Token::Never => TokenV::Never,
        Token::BarePath(p) => TokenV::BarePath(p@),
    }
}

pub open spec fn tokens_view(s: Seq<Token>) -> Seq<TokenV>
    decreases s,
{
    if s.len() == 0 {
        Seq::empty()
    } else {
        tokens_view(s.drop_last()).push(token_view(s.last()))
    }
}

pub proof fn lemma_tokens_view_len(s: Seq<Token>)
    ensures
        tokens_view(s).len() == s.len(),
    decreases s.len(),
{
    if s.len() > 0 {
        lemma_tokens_view_len(s.drop_last());
    }
}

pub proof fn lemma_tokens_view_index(s: Seq<Token>, i: int)
    requires
        0 <= i < s.len(),
    ensures
        tokens_view(s)[i] == token_view(s[i]),
    decreases s.len(),
{
    lemma_tokens_view_len(s);
    if i < s.len() - 1 {
        lemma_tokens_view_index(s.drop_last(), i);
    }
}

pub proof fn lemma_tokens_view_push(s: Seq<Token>, t: Token)
    ensures
        tokens_view(s.push(t)) == tokens_view(s).push(token_view(t)),
{
    assert(s.push(t).drop_last() =~= s);
}

} // verus!
