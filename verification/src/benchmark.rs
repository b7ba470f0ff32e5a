//! The synthetic benchmark of the metadata backends: its command line, its
//! query set and its synthetic corpus. Timing and memory measurement are the
//! application's part.
use vstd::prelude::*;
use crate::fmt::{push_padded, zpad, dec};
use crate::numparse::{parse_u64, spec_parse_u64};
use crate::query::strings_view;
use crate::seqs::eq_lit;
use crate::text::{chars_of, lower_seq, lower_vec, string_from_chars};
use crate::types::IndexedFile;

verus! {

/// Corpus size when none is given.
pub const DEFAULT_ENTRIES: usize = 250_000;
/// Timed runs per query when none is given.
pub const DEFAULT_RUNS: usize = 5;

/// An option of the named form that takes a value.
#[derive(Debug, Clone, Copy, PartialEq, Eq, Structural)]
pub enum BenchFlag {
    Mode,
    Entries,
    Runs,
}

/// Why the benchmark command line was refused.
pub enum BenchError {
    /// An option without its value.
    MissingValue(BenchFlag),
    /// A count that is not a non-negative integer.
    BadNumber(BenchFlag),
    /// An option the benchmark does not know.
    UnknownOption(String),
    /// A first argument that is neither a mode nor a count.
    BadFirst,
    /// A corpus of zero entries.
    ZeroEntries,
    /// Zero timed runs.
    ZeroRuns,
    /// A mode other than memory or disk.
    BadMode(String),
}

pub enum BenchErrorV {
    MissingValue(BenchFlag),
    BadNumber(BenchFlag),
    UnknownOption(Seq<char>),
    BadFirst,
    ZeroEntries,
    ZeroRuns,
    BadMode(Seq<char>),
}

pub open spec fn err_view(e: BenchError) -> BenchErrorV {
    match e {
        BenchError::MissingValue(f) => BenchErrorV::MissingValue(f),
        BenchError::BadNumber(f) => BenchErrorV::BadNumber(f),
        BenchError::UnknownOption(s) => BenchErrorV::UnknownOption(s@),
        BenchError::BadFirst => BenchErrorV::BadFirst,
        BenchError::ZeroEntries => BenchErrorV::ZeroEntries,
        BenchError::ZeroRuns => BenchErrorV::ZeroRuns,
        BenchError::BadMode(s) => BenchErrorV::BadMode(s@),
    }
}

/// What to run.
pub struct BenchConfig {
    pub mode: String,
    pub entries: usize,
    pub runs: usize,
    pub json: bool,
}

pub struct ConfigV {
    pub mode: Seq<char>,
    pub entries: usize,
    pub runs: usize,
    pub json: bool,
}

pub open spec fn config_view(c: BenchConfig) -> ConfigV {
    ConfigV { mode: c.mode@, entries: c.entries, runs: c.runs, json: c.json }
}

pub open spec fn outcome_view(r: Result<BenchConfig, BenchError>) -> Result<ConfigV, BenchErrorV> {
    match r {
        Ok(c) => Ok(config_view(c)),
        Err(e) => Err(err_view(e)),
    }
}

/// `str::parse::<usize>`.
pub open spec fn spec_parse_usize(s: Seq<char>) -> Option<usize> {
    match spec_parse_u64(s) {
        Some(v) => if v <= usize::MAX {
            Some(v as usize)
        } else {
            None
        },
        None => None,
    }
}

fn parse_usize(s: &str) -> (r: Option<usize>)
    ensures
        r == spec_parse_usize(s@),
{
    match parse_u64(&chars_of(s)) {
        Some(v) => if v <= usize::MAX as u64 {
            Some(v as usize)
        } else {
            None
        },
        None => None,
    }
}

/// The named options from position `i` on, over the settings so far.
pub open spec fn named_from(args: Seq<Seq<char>>, i: int, cfg: ConfigV) -> Result<ConfigV, BenchErrorV>
    decreases args.len() - i,
{
    if i < 0 || i >= args.len() {
        Ok(cfg)
    } else {
        let a = args[i];
        if a == "--mode"@ {
            if i + 1 < args.len() {
                named_from(args, i + 2, ConfigV { mode: args[i + 1], ..cfg })
            } else {
                Err(BenchErrorV::MissingValue(BenchFlag::Mode))
            }
        } else if a == "--entries"@ {
            if i + 1 < args.len() {
                match spec_parse_usize(args[i + 1]) {
                    Some(n) => named_from(args, i + 2, ConfigV { entries: n, ..cfg }),
                    None => Err(BenchErrorV::BadNumber(BenchFlag::Entries)),
                }
            } else {
                Err(BenchErrorV::MissingValue(BenchFlag::Entries))
            }
        } else if a == "--runs"@ {
            if i + 1 < args.len() {
                match spec_parse_usize(args[i + 1]) {
                    Some(n) => named_from(args, i + 2, ConfigV { runs: n, ..cfg }),
                    None => Err(BenchErrorV::BadNumber(BenchFlag::Runs)),
                }
            } else {
                Err(BenchErrorV::MissingValue(BenchFlag::Runs))
            }
        } else if a == "--json"@ {
            named_from(args, i + 1, ConfigV { json: true, ..cfg })
        } else {
            Err(BenchErrorV::UnknownOption(a))
        }
    }
}

pub open spec fn default_named() -> ConfigV {
    ConfigV { mode: "memory"@, entries: 250_000, runs: 5, json: false }
}

/// Parse `--mode`, `--entries`, `--runs` and `--json`.
pub fn parse_named(args: &[String]) -> (r: Result<BenchConfig, BenchError>)
    ensures
        outcome_view(r) == named_from(strings_view(args@), 0, default_named()),
{
    let mut cfg = BenchConfig { mode: "memory".to_owned(), entries: DEFAULT_ENTRIES, runs: DEFAULT_RUNS, json: false };
    let ghost av = strings_view(args@);
    let mut i: usize = 0;
    while i < args.len()
        invariant
            i <= args@.len(),
            av == strings_view(args@),
            named_from(av, i as int, config_view(cfg)) == named_from(av, 0, default_named()),
        decreases args@.len() - i,
    {
        let a = chars_of(args[i].as_str());
        proof {
            assert(av[i as int] == args@[i as int]@);
            if i + 1 < args@.len() {
                assert(av[i + 1] == args@[i + 1]@);
            }
        }
        if eq_lit(&a, "--mode") {
            if i + 1 < args.len() {
                cfg.mode = args[i + 1].clone();
                i += 2;
            } else {
                return Err(BenchError::MissingValue(BenchFlag::Mode));
            }
        } else if eq_lit(&a, "--entries") {
            if i + 1 < args.len() {
                match parse_usize(args[i + 1].as_str()) {
                    Some(n) => {
                        cfg.entries = n;
                        i += 2;
                    },
                    None => {
                        return Err(BenchError::BadNumber(BenchFlag::Entries));
                    },
                }
            } else {
                return Err(BenchError::MissingValue(BenchFlag::Entries));
            }
        } else if eq_lit(&a, "--runs") {
            if i + 1 < args.len() {
                match parse_usize(args[i + 1].as_str()) {
                    Some(n) => {
                        cfg.runs = n;
                        i += 2;
                    },
                    None => {
                        return Err(BenchError::BadNumber(BenchFlag::Runs));
                    },
                }
            } else {
                return Err(BenchError::MissingValue(BenchFlag::Runs));
            }
        } else if eq_lit(&a, "--json") {
            cfg.json = true;
            i += 1;
        } else {
            return Err(BenchError::UnknownOption(args[i].clone()));
        }
    }
    Ok(cfg)
}

pub open spec fn is_store_mode(s: Seq<char>) -> bool {
    lower_seq(s) == "memory"@ || lower_seq(s) == "disk"@
}

/// The settings of the positional form (`[memory|disk|COUNT] [COUNT]`): one
/// run, JSON output.
pub open spec fn positional(args: Seq<Seq<char>>) -> Result<ConfigV, BenchErrorV> {
    let first = if args.len() > 0 {
        args[0]
    } else {
        "memory"@
    };
    let base = if is_store_mode(first) {
        Some(250_000usize)
    } else {
        spec_parse_usize(first)
    };
    match base {
        None => Err(BenchErrorV::BadFirst),
        Some(entries) => {
            let mode = if is_store_mode(first) {
                first
            } else {
                "memory"@
            };
            if mode == "memory"@ || mode == "disk"@ {
                if args.len() > 1 {
                    match spec_parse_usize(args[1]) {
                        Some(n) => Ok(ConfigV { mode, entries: n, runs: 1, json: true }),
                        None => Err(BenchErrorV::BadNumber(BenchFlag::Entries)),
                    }
                } else {
                    Ok(ConfigV { mode, entries, runs: 1, json: true })
                }
            } else {
                Ok(ConfigV { mode, entries, runs: 1, json: true })
            }
        },
    }
}

/// The benchmark settings of a command line: `synthetic` followed by named
/// options, or the positional form; then a corpus and a run count above
/// zero and a memory or disk mode are required.
pub open spec fn spec_bench_config(args: Seq<Seq<char>>) -> Result<ConfigV, BenchErrorV> {
    let parsed = if args.len() > 0 && args[0] == "synthetic"@ {
        named_from(args, 1, default_named())
    } else {
        positional(args)
    };
    match parsed {
        Err(e) => Err(e),
        Ok(c) => if c.entries == 0 {
            Err(BenchErrorV::ZeroEntries)
        } else if c.runs == 0 {
            Err(BenchErrorV::ZeroRuns)
        } else if !is_store_mode(c.mode) {
            Err(BenchErrorV::BadMode(c.mode))
        } else {
            Ok(c)
        },
    }
}

fn is_store_mode_exec(s: &str) -> (r: bool)
    ensures
        r == is_store_mode(s@),
{
    let l = lower_vec(&chars_of(s));
    eq_lit(&l, "memory") || eq_lit(&l, "disk")
}

fn positional_exec(args: &[String]) -> (r: Result<BenchConfig, BenchError>)
    ensures
        outcome_view(r) == positional(strings_view(args@)),
{
    let first = if args.len() > 0 {
        args[0].clone()
    } else {
        "memory".to_owned()
    };
    proof {
        if args@.len() > 0 {
            assert(strings_view(args@)[0] == args@[0]@);
        }
        if args@.len() > 1 {
            assert(strings_view(args@)[1] == args@[1]@);
        }
    }
    let store = is_store_mode_exec(first.as_str());
    let entries = if store {
        DEFAULT_ENTRIES
    } else {
        match parse_usize(first.as_str()) {
            Some(n) => n,
            None => {
                return Err(BenchError::BadFirst);
            },
        }
    };
    let mode = if store {
        first
    } else {
        "memory".to_owned()
    };
    let mc = chars_of(mode.as_str());
    if eq_lit(&mc, "memory") || eq_lit(&mc, "disk") {
        if args.len() > 1 {
            match parse_usize(args[1].as_str()) {
                Some(n) => Ok(BenchConfig { mode, entries: n, runs: 1, json: true }),
                None => Err(BenchError::BadNumber(BenchFlag::Entries)),
            }
        } else {
            Ok(BenchConfig { mode, entries, runs: 1, json: true })
        }
    } else {
        Ok(BenchConfig { mode, entries, runs: 1, json: true })
    }
}

/// The benchmark settings of a command line, or why it is refused.
pub fn bench_config(args: &[String]) -> (r: Result<BenchConfig, BenchError>)
    ensures
        outcome_view(r) == spec_bench_config(strings_view(args@)),
{
    let synthetic = args.len() > 0 && eq_lit(&chars_of(args[0].as_str()), "synthetic");
    proof {
        if args@.len() > 0 {
            assert(strings_view(args@)[0] == args@[0]@);
        }
    }
    let parsed = if synthetic {
        let rest = vstd::slice::slice_subrange(args, 1, args.len());
        let r = parse_named(rest);
        proof {
            lemma_named_shift(strings_view(args@), 1, default_named());
            assert(strings_view(rest@) =~= strings_view(args@).skip(1));
        }
        r
    } else {
        positional_exec(args)
    };
    match parsed {
        Err(e) => Err(e),
        Ok(c) => {
            if c.entries == 0 {
                Err(BenchError::ZeroEntries)
            } else if c.runs == 0 {
                Err(BenchError::ZeroRuns)
            } else if !is_store_mode_exec(c.mode.as_str()) {
                Err(BenchError::BadMode(c.mode))
            } else {
                Ok(c)
            }
        },
    }
}

/// Parsing named options from position `k` is parsing the suffix from 0.
proof fn lemma_named_shift(args: Seq<Seq<char>>, k: int, cfg: ConfigV)
    requires
        0 <= k <= args.len(),
    ensures
        named_from(args, k, cfg) == named_from(args.skip(k), 0, cfg),
    decreases args.len() - k,
{
    lemma_named_shift_at(args, k, 0, cfg);
}

proof fn lemma_named_shift_at(args: Seq<Seq<char>>, k: int, j: int, cfg: ConfigV)
    requires
        0 <= k <= args.len(),
        0 <= j,
    ensures
        named_from(args, k + j, cfg) == named_from(args.skip(k), j, cfg),
    decreases args.len() - k - j,
{
    let s = args.skip(k);
    if k + j < args.len() {
        assert(s[j] == args[k + j]);
        if k + j + 1 < args.len() {
            assert(s[j + 1] == args[k + j + 1]);
        }
        let a = args[k + j];
        if a == "--mode"@ {
            if k + j + 1 < args.len() {
                lemma_named_shift_at(args, k, j + 2, ConfigV { mode: args[k + j + 1], ..cfg });
            }
        } else if a == "--entries"@ {
            if k + j + 1 < args.len() {
                match spec_parse_usize(args[k + j + 1]) {
                    Some(n) => lemma_named_shift_at(args, k, j + 2, ConfigV { entries: n, ..cfg }),
                    None => {},
                }
            }
        } else if a == "--runs"@ {
            if k + j + 1 < args.len() {
                match spec_parse_usize(args[k + j + 1]) {
                    Some(n) => lemma_named_shift_at(args, k, j + 2, ConfigV { runs: n, ..cfg }),
                    None => {},
                }
            }
        } else if a == "--json"@ {
            lemma_named_shift_at(args, k, j + 1, ConfigV { json: true, ..cfg });
        }
    }
}

/// The queries the benchmark times.
pub open spec fn spec_benchmark_queries() -> Seq<Seq<char>> {
    seq![
        "file-00000123"@,
        "*.rs"@,
        "module-0042"@,
        "size:>512kb"@,
        "file:*.json"@,
        "folder:*"@,
    ]
}

pub fn benchmark_queries() -> (r: Vec<&'static str>)
    ensures
        r@.len() == 6,
        forall|k: int| 0 <= k < 6 ==> (#[trigger] r@[k])@ == spec_benchmark_queries()[k],
{
    let mut v: Vec<&'static str> = Vec::new();
    v.push("file-00000123");
    v.push("*.rs");
    v.push("module-0042");
    v.push("size:>512kb");
    v.push("file:*.json");
    v.push("folder:*");
    v
}


pub open spec fn bench_ext(n: nat) -> Seq<char> {
    seq!["rs"@, "txt"@, "json"@, "log"@, "md"@][(n % 5) as int]
}

/// Path of synthetic entry `n`: a directory every 97th entry, files named
/// `file-NNNNNNNN.ext` (every 101st `café-…`), under `node_modules` every
/// 17th entry and `src` otherwise.
pub open spec fn synthetic_path(n: nat) -> Seq<char> {
    let root = if n % 17 == 0 {
        "node_modules"@
    } else {
        "src"@
    };
    let dir = "C:\\benchmark\\workspace-"@ + zpad(n % 50, 3) + seq!['\\'] + root + "\\module-"@
        + zpad(n % 10000, 4);
    if n % 97 == 0 {
        dir
    } else {
        dir + seq!['\\'] + (if n % 101 == 0 {
            "café-"@
        } else {
            "file-"@
        }) + zpad(n, 8) + seq!['.'] + bench_ext(n)
    }
}

/// Synthetic entry `n` is as described by [`synthetic_path`], with size
/// `131 n mod 2^20`, all times `n`, record `n`, hidden every 19th entry.
pub open spec fn synthetic_ok(e: IndexedFile, n: nat) -> bool {
    &&& e.derived_ok()
    &&& e.path@ == synthetic_path(n)
    &&& e.size == (n * 131) % 1_048_576
    &&& e.created == n && e.modified == n && e.accessed == n
    &&& e.is_dir == (n % 97 == 0)
    &&& e.file_ref == n
    &&& e.attributes == (if n % 19 == 0 {
        0x2u32
    } else {
        0x80u32
    })
    &&& e.parent_ref == 0
    &&& e.own_name@ == Seq::<char>::empty()
}

fn ext_for(n: usize) -> (r: &'static str)
    ensures
        r@ == bench_ext(n as nat),
{
    let k = n % 5;
    if k == 0 {
        "rs"
    } else if k == 1 {
        "txt"
    } else if k == 2 {
        "json"
    } else if k == 3 {
        "log"
    } else {
        "md"
    }
}

fn append_str(v: &mut Vec<char>, s: &str)
    ensures
        final(v)@ == old(v)@ + s@,
{
    let mut t = chars_of(s);
    v.append(&mut t);
}

fn synthetic_path_exec(n: usize) -> (r: String)
    requires
        n <= u64::MAX,
    ensures
        r@ == synthetic_path(n as nat),
{
    let mut v: Vec<char> = Vec::new();
    append_str(&mut v, "C:\\benchmark\\workspace-");
    push_padded(&mut v, (n % 50) as u64, 3);
    v.push('\\');
    if n % 17 == 0 {
        append_str(&mut v, "node_modules");
    } else {
        append_str(&mut v, "src");
    }
    append_str(&mut v, "\\module-");
    push_padded(&mut v, (n % 10000) as u64, 4);
    if n % 97 != 0 {
        v.push('\\');
        if n % 101 == 0 {
            append_str(&mut v, "café-");
        } else {
            append_str(&mut v, "file-");
        }
        push_padded(&mut v, n as u64, 8);
        v.push('.');
        append_str(&mut v, ext_for(n));
    }
    proof {
        assert(v@ =~= synthetic_path(n as nat));
    }
    string_from_chars(&v)
}

/// The synthetic corpus of `entries` entries.
pub fn synthetic_entries(entries: usize) -> (r: Vec<IndexedFile>)
    requires
        entries <= i64::MAX as usize,
        entries <= u64::MAX / 131,
    ensures
        r@.len() == entries,
        forall|i: int| 0 <= i < entries ==> synthetic_ok(#[trigger] r@[i], i as nat),
{
    let mut out: Vec<IndexedFile> = Vec::new();
    let mut n: usize = 0;
    while n < entries
        invariant
            n <= entries,
            entries <= i64::MAX as usize,
            entries <= u64::MAX / 131,
            out@.len() == n,
            forall|i: int| 0 <= i < n ==> synthetic_ok(#[trigger] out@[i], i as nat),
        decreases entries - n,
    {
        let path = synthetic_path_exec(n);
        let mut e = IndexedFile::new(
            path,
            ((n as u64) * 131) % 1_048_576,
            n as i64,
            n as i64,
            n as i64,
            n % 97 == 0,
            n as u64,
        );
        e.attributes = if n % 19 == 0 {
            0x2
        } else {
            0x80
        };
        out.push(e);
        n += 1;
    }
    out
}

// ---------------------------------------------------------------------------
// The daemon's `benchmark` command
// ---------------------------------------------------------------------------

/// The command line of the daemon's `benchmark` command: a store mode
/// (default `memory`) and an entry count (default 250000), which must be a
/// positive integer. It runs once and reports JSON.
pub open spec fn spec_benchmark_args(args: Seq<Seq<char>>) -> Result<ConfigV, BenchErrorV> {
    let mode = if args.len() > 0 {
        args[0]
    } else {
        "memory"@
    };
    let entries = if args.len() > 1 {
        spec_parse_usize(args[1])
    } else {
        Some(DEFAULT_ENTRIES)
    };
    match entries {
        None => Err(BenchErrorV::BadNumber(BenchFlag::Entries)),
        Some(n) => if n == 0 {
            Err(BenchErrorV::ZeroEntries)
        } else {
            Ok(ConfigV { mode, entries: n, runs: 1, json: true })
        },
    }
}

/// Parse the daemon's `benchmark` command line.
pub fn benchmark_args(args: &[String]) -> (r: Result<BenchConfig, BenchError>)
    ensures
        outcome_view(r) == spec_benchmark_args(strings_view(args@)),
{
    proof {
        if args@.len() > 0 {
            assert(strings_view(args@)[0] == args@[0]@);
        }
        if args@.len() > 1 {
            assert(strings_view(args@)[1] == args@[1]@);
        }
    }
    let mode = if args.len() > 0 {
        args[0].clone()
    } else {
        "memory".to_owned()
    };
    let entries = if args.len() > 1 {
        match parse_usize(args[1].as_str()) {
            Some(n) => n,
            None => {
                return Err(BenchError::BadNumber(BenchFlag::Entries));
            },
        }
    } else {
        DEFAULT_ENTRIES
    };
    if entries == 0 {
        Err(BenchError::ZeroEntries)
    } else {
        Ok(BenchConfig { mode, entries, runs: 1, json: true })
    }
}

/// The queries the daemon's `benchmark` command times.
pub open spec fn spec_benchmark_probes() -> Seq<Seq<char>> {
    seq!["file-00000123"@, "*.rs"@, "module-0042"@]
}

/// The queries the daemon's `benchmark` command times.
pub fn benchmark_probes() -> (r: Vec<&'static str>)
    ensures
        r@.len() == 3,
        forall|k: int| 0 <= k < 3 ==> (#[trigger] r@[k])@ == spec_benchmark_probes()[k],
{
    let mut v: Vec<&'static str> = Vec::new();
    v.push("file-00000123");
    v.push("*.rs");
    v.push("module-0042");
    v
}

/// Path of entry `n` of the daemon benchmark's corpus:
/// `C:\benchmark\workspace-WWW\src\module-MMMM\file-NNNNNNNN.rs`.
pub open spec fn corpus_path(n: nat) -> Seq<char> {
    "C:\\benchmark\\workspace-"@ + zpad(n % 1000, 3) + "\\src\\module-"@ + zpad(n % 10000, 4)
        + "\\file-"@ + zpad(n, 8) + ".rs"@
}

/// Entry `n` of the daemon benchmark's corpus: a file at [`corpus_path`]
/// of size `n mod 2^20`, all times `n`, record `n`, archive attribute.
pub open spec fn corpus_ok(e: IndexedFile, n: nat) -> bool {
    &&& e.derived_ok()
    &&& e.path@ == corpus_path(n)
    &&& e.size == n % 1_048_576
    &&& e.created == n && e.modified == n && e.accessed == n
    &&& !e.is_dir
    &&& e.file_ref == n
    &&& e.attributes == 0x80u32
    &&& e.parent_ref == 0
    &&& e.own_name@ == Seq::<char>::empty()
}

fn corpus_path_exec(n: usize) -> (r: String)
    requires
        n <= u64::MAX,
    ensures
        r@ == corpus_path(n as nat),
{
    let mut v: Vec<char> = Vec::new();
    append_str(&mut v, "C:\\benchmark\\workspace-");
    push_padded(&mut v, (n % 1000) as u64, 3);
    append_str(&mut v, "\\src\\module-");
    push_padded(&mut v, (n % 10000) as u64, 4);
    append_str(&mut v, "\\file-");
    push_padded(&mut v, n as u64, 8);
    append_str(&mut v, ".rs");
    proof {
        assert(v@ =~= corpus_path(n as nat));
    }
    string_from_chars(&v)
}

/// The daemon benchmark's corpus of `entries` files.
pub fn benchmark_corpus(entries: usize) -> (r: Vec<IndexedFile>)
    requires
        entries <= i64::MAX as usize,
    ensures
        r@.len() == entries,
        forall|i: int| 0 <= i < entries ==> corpus_ok(#[trigger] r@[i], i as nat),
{
    let mut out: Vec<IndexedFile> = Vec::new();
    let mut n: usize = 0;
    while n < entries
        invariant
            n <= entries,
            entries <= i64::MAX as usize,
            out@.len() == n,
            forall|i: int| 0 <= i < n ==> corpus_ok(#[trigger] out@[i], i as nat),
        decreases entries - n,
    {
        let path = corpus_path_exec(n);
        let mut e = IndexedFile::new(
            path,
            (n as u64) % 1_048_576,
            n as i64,
            n as i64,
            n as i64,
            false,
            n as u64,
        );
        e.attributes = 0x80;
        out.push(e);
        n += 1;
    }
    out
}

} // verus!
