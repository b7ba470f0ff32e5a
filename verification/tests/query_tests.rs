use std::time::{SystemTime, UNIX_EPOCH};
use instant_file_search::aggregate::aggregate;
use instant_file_search::dates::start_of_day;
use instant_file_search::qparse::{parse_date, parse_relative_span_at};
use instant_file_search::query::{AggregateOptions, QueryOptions};
use instant_file_search::search::{search, search_at};
use instant_file_search::types::IndexedFile;
use instant_file_search::wildcard::wildcard_match;

fn chars(s: &str) -> Vec<char> {
    s.chars().collect()
}

fn now_unix() -> i64 {
    SystemTime::now().duration_since(UNIX_EPOCH).unwrap().as_secs() as i64
}

fn ft(unix: i64) -> i64 {
    (unix + 116_444_736_00i64) * 10_000_000
}

/// Noon 2026-08-01 (dates are evaluated in UTC).
fn aug1_noon() -> i64 {
    parse_date(&chars("2026-08-01"), now_unix()).unwrap() + 12 * 3600
}

fn entry(path: &str, is_dir: bool, modified: i64) -> IndexedFile {
    let m = ft(modified);
    let mut e = IndexedFile::new(path.to_string(), 0, m, m, m, is_dir, 0);
    e.modified = m;
    e
}

fn q(query: &str) -> QueryOptions {
    QueryOptions { query: query.to_string(), ..Default::default() }
}

fn names(entries: &[IndexedFile], opts: &QueryOptions) -> Vec<String> {
    let r = search(entries, opts);
    let mut v: Vec<String> = r.entries.iter().map(|e| e.name.clone()).collect();
    v.sort();
    v
}

fn run(query: &str) -> Vec<String> {
    let entries = vec![
        entry(r"B:\p\.gitignore", false, 1_700_000_000),
        entry(r"B:\p\.env", false, 1_700_000_000),
        entry(r"B:\p\AGENTS.md", false, aug1_noon()),
        entry(r"B:\p\demo.gif", false, aug1_noon()),
        entry(r"B:\p\readme.md", false, aug1_noon()),
        entry(r"B:\p\docs", true, aug1_noon()),
        entry(r"B:\p\target\debug\x.o", false, 1_700_000_000),
        entry(r"C:\target\root.o", false, 1_700_000_000),
        entry(r"C:\$Recycle.Bin\gone.txt", false, 1_700_000_000),
        entry(r"B:\pfoo\sibling.txt", false, 1_700_000_000),
        entry(r"B:\p\CaseFile.txt", false, 1_700_000_000),
    ];
    names(&entries, &q(query))
}

#[test]
fn and_semantics_within_group() {
    assert_eq!(run("AGENTS.md demo.gif"), Vec::<String>::new());
    assert_eq!(run("AGENTS.md | demo.gif"), vec!["AGENTS.md", "demo.gif"]);
}

#[test]
fn type_filter_and_date_and() {
    let got = run("file: dm:2026-08-01");
    assert_eq!(got, vec!["AGENTS.md", "demo.gif", "readme.md"]);
    assert!(run("dm:2026-08-01").contains(&"docs".to_string()));
    assert_eq!(run("file: md"), vec!["AGENTS.md", "readme.md"]);
}

#[test]
fn attrib_filter() {
    const HIDDEN: u32 = 0x0002;
    const SYSTEM: u32 = 0x0004;
    const DIRECTORY: u32 = 0x0010;
    let mut dotenv = entry(r"B:\p\.env", false, 1_700_000_000);
    dotenv.attributes = HIDDEN;
    let mut sysfile = entry(r"B:\p\pagefile.sys", false, 1_700_000_000);
    sysfile.attributes = SYSTEM;
    let mut docs = entry(r"B:\p\docs", true, aug1_noon());
    docs.attributes = DIRECTORY;
    let entries = vec![dotenv, sysfile, docs];
    let got = |s: &str| names(&entries, &q(s));
    assert_eq!(got("attrib:h"), vec![".env"]);
    assert_eq!(got("file: attrib:s"), vec!["pagefile.sys"]);
    assert_eq!(got("attrib:d"), vec!["docs"]);
    assert_eq!(got("attrib:!d"), vec![".env", "pagefile.sys"]);
    assert_eq!(got("attrib:q"), Vec::<String>::new());
}

#[test]
fn wildcard_extensions() {
    assert!(wildcard_match("**.rs", r"src\main.rs", false));
    assert!(!wildcard_match("*.rs", r"src\main.rs", false));
    assert!(wildcard_match("*.rs", "main.rs", false));
    assert!(wildcard_match("a?c", "abc", false));
    assert!(!wildcard_match("a?c", "ac", false));
    assert!(wildcard_match("file[0-9].txt", "file5.txt", false));
    assert!(!wildcard_match("file[0-9].txt", "filex.txt", false));
    assert!(wildcard_match("file[!0-9].txt", "filex.txt", false));
    assert!(!wildcard_match("file[!0-9].txt", "file5.txt", false));
    assert!(wildcard_match("img#.png", "img7.png", false));
    assert!(!wildcard_match("img#.png", "imgx.png", false));
    assert!(wildcard_match(r"a\*b", "a*b", false));
    assert!(!wildcard_match(r"a\*b", "axb", false));
    assert!(wildcard_match("*.TXT", "readme.txt", false));
    assert!(!wildcard_match("*.TXT", "readme.txt", true));
}

#[test]
fn exclude_path_bare_token_drive_root() {
    let opts = QueryOptions {
        query: "*".to_string(),
        exclude_path: Some("target".to_string()),
        include_all: true,
        ..Default::default()
    };
    let entries = vec![
        entry(r"C:\target\root.o", false, 1_700_000_000),
        entry(r"C:\$Recycle.Bin\gone.txt", false, 1_700_000_000),
    ];
    let r = search(&entries, &opts);
    assert_eq!(r.entries.len(), 1);
    assert_eq!(r.entries[0].path, r"C:\$Recycle.Bin\gone.txt");
}

#[test]
fn default_excludes_drive_root() {
    let entries = vec![
        entry(r"C:\target\root.o", false, 1_700_000_000),
        entry(r"C:\$Recycle.Bin\gone.txt", false, 1_700_000_000),
    ];
    let r = search(&entries, &q("*"));
    assert_eq!(r.entries.len(), 1);
    assert_eq!(r.entries[0].path, r"C:\target\root.o");
}

#[test]
fn path_scope_is_directory_boundary() {
    let opts = QueryOptions {
        query: "*".to_string(),
        path: Some(r"B:\p".to_string()),
        ..Default::default()
    };
    let entries = vec![
        entry(r"B:\p\a.txt", false, 1_700_000_000),
        entry(r"B:\pfoo\b.txt", false, 1_700_000_000),
    ];
    let r = search(&entries, &opts);
    let paths: Vec<&str> = r.entries.iter().map(|e| e.path.as_str()).collect();
    assert_eq!(paths, vec![r"B:\p\a.txt"]);
}

#[test]
fn case_prefix_is_case_sensitive() {
    assert_eq!(run("case:CaseFile.txt"), vec!["CaseFile.txt"]);
    assert_eq!(run("case:casefile.txt"), Vec::<String>::new());
    assert_eq!(run("case:Case*"), vec!["CaseFile.txt"]);
    assert_eq!(run("casefile.txt"), vec!["CaseFile.txt"]);
}

#[test]
fn size_units_are_jedec() {
    let mut exact = entry(r"B:\p\exact.bin", false, 1_700_000_000);
    exact.size = 1024 * 1024;
    let mut decimal = entry(r"B:\p\decimal.bin", false, 1_700_000_000);
    decimal.size = 1_000_000;
    let entries = vec![exact, decimal];
    let r = search(&entries, &q("size:1mb"));
    assert_eq!(r.entries.len(), 1);
    assert_eq!(r.entries[0].path, r"B:\p\exact.bin");
    let r = search(&entries, &q("size:1000000"));
    assert_eq!(r.entries.len(), 1);
    assert_eq!(r.entries[0].path, r"B:\p\decimal.bin");
}

#[test]
fn size_inclusive_operators() {
    let mut one_mb = entry(r"B:\p\one.bin", false, 1_700_000_000);
    one_mb.size = 1024 * 1024;
    let mut two_mb = entry(r"B:\p\two.bin", false, 1_700_000_000);
    two_mb.size = 2 * 1024 * 1024;
    let entries = vec![one_mb, two_mb];
    let r = search(&entries, &q("size:>=1mb"));
    assert_eq!(r.entries.len(), 2, ">=1mb must include both");
    let r = search(&entries, &q("size:>1mb"));
    assert_eq!(r.entries.len(), 1, ">1mb must exclude exactly-1mb");
    let r = search(&entries, &q("size:<=1mb"));
    assert_eq!(r.entries.len(), 1, "<=1mb must include only 1mb");
}

#[test]
fn size_bare_unit_is_granularity_range() {
    let mut at = entry(r"B:\p\at.bin", false, 1_700_000_000);
    at.size = 1024;
    let mut over = entry(r"B:\p\over.bin", false, 1_700_000_000);
    over.size = 2048;
    let entries = vec![at, over];
    let r = search(&entries, &q("size:1kb"));
    assert_eq!(r.entries.len(), 1, "size:1kb must be 1024..2047");
    assert_eq!(r.entries[0].path, r"B:\p\at.bin");
    let r = search(&entries, &q("size:1024"));
    assert_eq!(r.entries.len(), 1, "size:1024 exact");
    let r = search(&entries, &q("size:1024..2048"));
    assert_eq!(r.entries.len(), 2, "explicit range 1024..2048");
}

#[test]
fn size_constants() {
    let mk = |name: &str, size: u64| {
        let mut e = entry(&format!(r"B:\p\{name}"), false, 1_700_000_000);
        e.size = size;
        e
    };
    let entries = vec![
        mk("zero", 0),
        mk("halfk", 512),
        mk("onek", 1024),
        mk("onem", 1024 * 1024),
        mk("oneg", 1024 * 1024 * 1024),
        mk("twog", 2 * 1024 * 1024 * 1024),
        mk("fiveg", 5 * 1024 * 1024 * 1024),
        mk("twentyg", 20 * 1024 * 1024 * 1024),
    ];
    let got = |s: &str| names(&entries, &q(s));
    assert_eq!(got("size:tiny"), vec!["halfk", "zero"]);
    assert_eq!(got("size:small"), vec!["halfk", "onek", "zero"]);
    assert_eq!(got("size:medium"), vec!["halfk", "onek", "onem", "zero"]);
    assert_eq!(got("size:large"), vec!["fiveg", "twentyg", "twog"]);
    assert_eq!(got("size:huge"), vec!["fiveg", "twentyg"]);
    assert_eq!(got("size:gigantic"), vec!["twentyg"]);
    assert_eq!(got("size:empty"), vec!["zero"]);
}

#[test]
fn date_rolling_vs_calendar() {
    // The calendar cases hold for a clock early in a month: fix `now` at
    // 2026-08-04T05:00:00Z so 10 days ago falls in July and 40 days ago in June.
    let now = 1_785_600_000 + 5 * 3600;
    let entry_mod = |path: &str, ts: i64| {
        let mut e = entry(path, false, ts);
        e.modified = ft(ts);
        e
    };
    let entries = vec![
        entry_mod(r"B:\p\now.txt", now - 3600),
        entry_mod(r"B:\p\ten.txt", now - 10 * 86400),
        entry_mod(r"B:\p\forty.txt", now - 40 * 86400),
    ];
    let at = |query: &str| search_at(&entries, &q(query), now, 0);
    let r = at("dm:lastweek");
    assert_eq!(r.entries.len(), 1, "lastweek = rolling 7d");
    assert_eq!(r.entries[0].path, r"B:\p\now.txt");
    let r = at("dm:pastweek");
    assert_eq!(r.entries.len(), 1, "pastweek = rolling 7d");
    let r = at("dm:lastmonth");
    assert_eq!(r.entries.len(), 2, "lastmonth = rolling 31d (now + 10d)");
    let r = at("dm:prevmonth");
    assert_eq!(r.entries.len(), 1, "prevmonth = calendar previous month");
    assert_eq!(r.entries[0].path, r"B:\p\ten.txt");
}

#[test]
fn date_prev_nd_is_trailing_not_rolling() {
    let now = 1_785_600_000 + 5 * 3600;
    let today = start_of_day(now);
    let cases = [
        ("last7days", now - 2 * 3600, true, "rolling: earlier today"),
        ("prev7days", now - 2 * 3600, false, "trailing: earlier today >= today_start"),
        ("last7days", today - 2 * 86400, true, "rolling: 2d before today"),
        ("prev7days", today - 2 * 86400, true, "trailing: 2d before today"),
        ("last7days", now - 30 * 86400, false, "rolling: 30d ago"),
        ("prev7days", now - 30 * 86400, false, "trailing: 30d ago"),
    ];
    for (token, ts, expect, why) in cases {
        let (start, end) = parse_relative_span_at(&chars(token), now).unwrap();
        let got = ts >= start && ts < end;
        assert_eq!(got, expect, "{token} @ {ts}: {why} (window {start}..{end})");
    }
}

#[test]
fn relative_date_spans() {
    let now = now_unix();
    let entry_mod = |path: &str, ts: i64| {
        let mut e = entry(path, false, ts);
        e.modified = ft(ts);
        e
    };
    let entries = vec![
        entry_mod(r"B:\p\today.txt", now),
        entry_mod(r"B:\p\two.txt", now - 2 * 86400),
        entry_mod(r"B:\p\ten.txt", now - 10 * 86400),
    ];
    let r = search(&entries, &q("dm:last7days"));
    let paths: Vec<&str> = r.entries.iter().map(|e| e.path.as_str()).collect();
    assert_eq!(paths, vec![r"B:\p\today.txt", r"B:\p\two.txt"]);
    let r = search(&entries, &q("dm:7days"));
    assert_eq!(r.entries.len(), 2);
    let r = search(&entries, &q("dm:yesterday"));
    assert_eq!(r.entries.len(), 0);
}

#[test]
fn aggregate_largest_ext_and_size() {
    let noon = aug1_noon();
    let mut e1 = entry(r"B:\p\big.zip", false, noon);
    e1.size = 5_000;
    let mut e2 = entry(r"B:\p\med.zip", false, noon);
    e2.size = 3_000;
    let mut e3 = entry(r"B:\p\small.txt", false, noon);
    e3.size = 1_000;
    let mut e4 = entry(r"B:\p\tiny.txt", false, noon);
    e4.size = 500;
    let d = entry(r"B:\p\folder", true, noon);
    let entries = vec![e1, e2, e3, e4, d];
    let opts = AggregateOptions { query: "file:".to_string(), top: 3, ..Default::default() };
    let a = aggregate(&entries, &opts);
    assert_eq!(a.total, 4);
    assert_eq!(a.files, 4);
    assert_eq!(a.folders, 0);
    assert_eq!(a.total_size, 9_500);
    let largest: Vec<(u64, &str)> = a.largest.iter().map(|l| (l.size, l.path.as_str())).collect();
    assert_eq!(
        largest,
        vec![(5_000, r"B:\p\big.zip"), (3_000, r"B:\p\med.zip"), (1_000, r"B:\p\small.txt")]
    );
    let mut by_ext: Vec<(&str, usize, u64)> =
        a.by_extension.iter().map(|e| (e.extension.as_str(), e.count, e.size)).collect();
    by_ext.sort_by_key(|(ext, _, _)| ext.to_string());
    assert_eq!(by_ext, vec![("txt", 2, 1_500), ("zip", 2, 8_000)]);
}

#[test]
fn extension_counts_add_up_to_files() {
    let noon = aug1_noon();
    let entries = vec![
        entry(r"B:\q\a.RS", false, noon),
        entry(r"B:\q\b.rs", false, noon),
        entry(r"B:\q\c.md", false, noon),
        entry(r"B:\q\README", false, noon),
        entry(r"B:\q\sub", true, noon),
    ];
    let a = aggregate(&entries, &AggregateOptions::default());
    assert_eq!(a.total, 5);
    assert_eq!(a.files + a.folders, a.total);
    let sum: usize = a.by_extension.iter().map(|e| e.count).sum();
    assert_eq!(sum, a.files);
    assert_eq!(a.files, 4);
    assert_eq!(a.by_extension[0].extension, "rs");
    assert_eq!(a.by_extension[0].count, 2);
}

#[test]
fn sort_and_page() {
    let mut a = entry(r"B:\p\a.txt", false, 1_700_000_000);
    a.size = 3;
    let mut b = entry(r"B:\p\b.txt", false, 1_700_000_000);
    b.size = 1;
    let mut c = entry(r"B:\p\c.txt", false, 1_700_000_000);
    c.size = 2;
    let entries = vec![a, b, c];
    let opts = QueryOptions {
        query: "*.txt".to_string(),
        sort: Some("size".to_string()),
        max_results: 2,
        ..Default::default()
    };
    let r = search(&entries, &opts);
    assert_eq!(r.total, 3);
    let got: Vec<&str> = r.entries.iter().map(|e| e.name.as_str()).collect();
    assert_eq!(got, vec!["a.txt", "c.txt"]);
    let opts = QueryOptions { offset: 2, ..opts };
    let r = search(&entries, &opts);
    let got: Vec<&str> = r.entries.iter().map(|e| e.name.as_str()).collect();
    assert_eq!(got, vec!["b.txt"]);
}

#[test]
fn absolute_date_uses_local_midnight() {
    // A zone four hours west of UTC: wall clock = stored UTC time - 4 h.
    let offset = -4 * 3600;
    let aug1 = parse_date(&chars("2026-08-01"), now_unix()).unwrap(); // wall-clock midnight Aug 1
    let utc_side = aug1 + 30 * 60; // UTC Aug 1 00:30 -> wall-clock Jul 31 20:30
    let local_side = aug1 + 30 * 60 - offset; // wall-clock Aug 1 00:30
    let entries = vec![
        entry(r"B:\p\utc-side.txt", false, utc_side),
        entry(r"B:\p\local-side.txt", false, local_side),
    ];
    let r = search_at(&entries, &q("dm:2026-08-01"), now_unix(), offset);
    let paths: Vec<&str> = r.entries.iter().map(|e| e.path.as_str()).collect();
    assert_eq!(paths, vec![r"B:\p\local-side.txt"]);
}

#[test]
fn invalid_filters_match_nothing() {
    let entries = vec![IndexedFile::new(r"B:\p\a.txt".to_string(), 5, 0, 0, 0, false, 0)];
    for query in ["size:garbage", "ext:", "dm:garbage", "attrib:q", "a.txt size:>zz"] {
        assert_eq!(search(&entries, &q(query)).total, 0, "{query}");
    }
    assert_eq!(search(&entries, &q("size:5")).total, 1);
    assert_eq!(search(&entries, &q("ext:txt")).total, 1);
}

#[test]
fn aggregate_honours_the_content_allow_list() {
    let entries = vec![IndexedFile::new(r"B:\p\a.txt".to_string(), 5, 0, 0, 0, false, 0)];
    let none = AggregateOptions { content_paths: Some(vec![]), ..Default::default() };
    assert_eq!(aggregate(&entries, &none).total, 0);
    let listed = AggregateOptions { content_paths: Some(vec![r"b:\p\a.txt".to_string()]), ..Default::default() };
    assert_eq!(aggregate(&entries, &listed).total, 1);
    assert_eq!(aggregate(&entries, &AggregateOptions::default()).total, 1);
}

#[test]
fn previous_n_days_is_prev_n_days() {
    let now = 1_785_600_000 + 5 * 3600;
    let prev = parse_relative_span_at(&chars("prev7days"), now);
    assert_eq!(prev, Some((start_of_day(now) - 7 * 86400, start_of_day(now))));
    assert_eq!(parse_relative_span_at(&chars("previous7days"), now), prev);
    let weeks = parse_relative_span_at(&chars("prev2weeks"), now);
    assert_eq!(weeks, Some((start_of_day(now) - 14 * 86400, start_of_day(now))));
    assert_eq!(parse_relative_span_at(&chars("previous2weeks"), now), weeks);
    assert_eq!(parse_relative_span_at(&chars("previous0days"), now), None);
    assert_eq!(parse_relative_span_at(&chars("prev0days"), now), None);
}
