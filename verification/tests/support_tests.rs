use instant_file_search::benchmark::{
    bench_config, benchmark_args, benchmark_corpus, benchmark_probes, benchmark_queries,
    parse_named, synthetic_entries, BenchError, BenchFlag,
};
use instant_file_search::index::FileIndex;
use instant_file_search::native::{
    count, options_from_aggregate, options_from_count, options_from_recent, options_from_recent_at,
    options_from_search,
    search as native_search, split_path, NativeEntry, NativeError,
};
use instant_file_search::platform::{unix, windows};
use instant_file_search::results::ns100_to_iso_string;
use instant_file_search::scan::{build_index, scan_all_volumes};
use instant_file_search::sector_reader::{SectorReader, SeekTarget};
use instant_file_search::tools::{AggregateParams, CountParams, RecentChangesParams, SearchParams, SortOrder};
use instant_file_search::types::IndexedFile;

fn args(v: &[&str]) -> Vec<String> {
    v.iter().map(|s| s.to_string()).collect()
}

#[test]
fn named_benchmark_options() {
    let c = parse_named(&args(&["--mode", "disk", "--entries", "1000", "--runs", "3", "--json"])).ok().unwrap();
    assert_eq!(c.mode, "disk");
    assert_eq!(c.entries, 1000);
    assert_eq!(c.runs, 3);
    assert!(c.json);
    let d = parse_named(&[]).ok().unwrap();
    assert_eq!((d.mode.as_str(), d.entries, d.runs, d.json), ("memory", 250_000, 5, false));
    assert!(matches!(parse_named(&args(&["--runs"])), Err(BenchError::MissingValue(BenchFlag::Runs))));
    assert!(matches!(parse_named(&args(&["--entries", "x"])), Err(BenchError::BadNumber(BenchFlag::Entries))));
    match parse_named(&args(&["--fast"])) {
        Err(BenchError::UnknownOption(o)) => assert_eq!(o, "--fast"),
        _ => panic!("unknown option expected"),
    }
}

#[test]
fn benchmark_command_lines() {
    let c = bench_config(&args(&["synthetic", "--entries", "10", "--runs", "2"])).ok().unwrap();
    assert_eq!((c.mode.as_str(), c.entries, c.runs, c.json), ("memory", 10, 2, false));
    let c = bench_config(&args(&["disk", "500"])).ok().unwrap();
    assert_eq!((c.mode.as_str(), c.entries, c.runs, c.json), ("disk", 500, 1, true));
    let c = bench_config(&args(&["2000"])).ok().unwrap();
    assert_eq!((c.mode.as_str(), c.entries, c.runs), ("memory", 2000, 1));
    let c = bench_config(&[]).ok().unwrap();
    assert_eq!((c.mode.as_str(), c.entries), ("memory", 250_000));
    assert!(matches!(bench_config(&args(&["fast"])), Err(BenchError::BadFirst)));
    assert!(matches!(bench_config(&args(&["0"])), Err(BenchError::ZeroEntries)));
    assert!(matches!(bench_config(&args(&["synthetic", "--runs", "0"])), Err(BenchError::ZeroRuns)));
    match bench_config(&args(&["synthetic", "--mode", "cloud"])) {
        Err(BenchError::BadMode(m)) => assert_eq!(m, "cloud"),
        _ => panic!("bad mode expected"),
    }
}

#[test]
fn daemon_benchmark_command() {
    let c = benchmark_args(&[]).ok().unwrap();
    assert_eq!((c.mode.as_str(), c.entries, c.runs, c.json), ("memory", 250_000, 1, true));
    let c = benchmark_args(&args(&["disk", "1200"])).ok().unwrap();
    assert_eq!((c.mode.as_str(), c.entries), ("disk", 1200));
    let c = benchmark_args(&args(&["memory"])).ok().unwrap();
    assert_eq!(c.entries, 250_000);
    assert!(matches!(benchmark_args(&args(&["memory", "lots"])), Err(BenchError::BadNumber(BenchFlag::Entries))));
    assert!(matches!(benchmark_args(&args(&["memory", "0"])), Err(BenchError::ZeroEntries)));
    assert_eq!(benchmark_probes(), vec!["file-00000123", "*.rs", "module-0042"]);
    let v = benchmark_corpus(12_346);
    assert_eq!(v.len(), 12_346);
    assert_eq!(v[0].path, r"C:\benchmark\workspace-000\src\module-0000\file-00000000.rs");
    assert_eq!(v[12_345].path, r"C:\benchmark\workspace-345\src\module-2345\file-00012345.rs");
    assert_eq!(v[12_345].size, 12_345);
    assert_eq!((v[7].created, v[7].modified, v[7].file_ref), (7, 7, 7));
    assert_eq!(v[7].attributes, 0x80);
    assert!(!v[7].is_dir);
    assert_eq!(v[7].name, "file-00000007.rs");
    let mut index = FileIndex::new();
    index.replace(v);
    let r = index.search(&instant_file_search::query::QueryOptions {
        query: "file-00000123".to_string(),
        max_results: 100,
        ..Default::default()
    });
    assert_eq!(r.total, 1);
}

#[test]
fn synthetic_corpus_shape() {
    assert_eq!(benchmark_queries().len(), 6);
    assert_eq!(benchmark_queries()[1], "*.rs");
    let v = synthetic_entries(200);
    assert_eq!(v.len(), 200);
    assert_eq!(v[0].path, r"C:\benchmark\workspace-000\node_modules\module-0000");
    assert!(v[0].is_dir);
    assert_eq!(v[1].path, r"C:\benchmark\workspace-001\src\module-0001\file-00000001.txt");
    assert_eq!(v[1].size, 131);
    assert_eq!(v[1].attributes, 0x80);
    assert_eq!(v[19].attributes, 0x2);
    assert_eq!(v[101].path, r"C:\benchmark\workspace-001\src\module-0101\café-00000101.txt");
    assert_eq!(v[1].name, "file-00000001.txt");
    assert_eq!(v[1].extension.as_deref(), Some("txt"));
}

#[test]
fn sector_reader_aligns_reads() {
    assert!(SectorReader::new(0).is_err());
    assert!(SectorReader::new(500).is_err());
    let mut r = SectorReader::new(512).ok().unwrap();
    assert_eq!(r.align_down(1000), 512);
    assert_eq!(r.align_up(1000), 1024);
    assert_eq!(r.seek(SeekTarget::Start(700)), 700);
    let (start, span) = r.plan_read(100);
    assert_eq!((start, span), (512, 512));
    let (off, n) = r.finish_read(start, span, 100);
    assert_eq!((off, n), (188, 100));
    assert_eq!(r.position_exec(), 800);
    // a short read yields what is there
    let (off, n) = r.finish_read(512, 300, 100);
    assert_eq!((off, n), (288, 12));
    assert_eq!(r.position_exec(), 812);
    assert_eq!(r.seek(SeekTarget::Current(-1000)), 0);
    assert_eq!(r.seek(SeekTarget::End(-10, 4096)), 4086);
}

#[test]
fn scans_build_the_index_and_report() {
    let mut ix = FileIndex::new();
    let a = vec![IndexedFile::new(r"C:\a".to_string(), 1, 0, 0, 0, false, 0)];
    let b = vec![
        IndexedFile::new(r"D:\b".to_string(), 2, 0, 0, 0, false, 0),
        IndexedFile::new(r"D:\c".to_string(), 3, 0, 0, 0, false, 0),
    ];
    assert_eq!(build_index(&mut ix, vec![Some(a), None, Some(b)]), 3);
    assert_eq!(ix.len(), 3);
    assert!(ix.get(r"D:\c").is_some());
    let report = scan_all_volumes(
        &args(&["C:", "E:"]),
        &[Ok(1_234), Err("access denied".to_string())],
    );
    assert_eq!(report, "C:: 1234 entries\nE:: ERROR: access denied\n");
}

fn search_params(query: &str) -> SearchParams {
    SearchParams {
        query: query.to_string(),
        max_results: None,
        offset: None,
        regex: None,
        match_case: Some(true),
        match_whole_word: None,
        match_path: None,
        sort: Some(SortOrder::SizeAsc),
        path: Some(r"C:\src".to_string()),
        fields: None,
        exclude_path: None,
        include_all: None,
    }
}

#[test]
fn native_options_follow_the_tool_parameters() {
    let o = options_from_search(&search_params("*.rs"));
    assert_eq!(o.query, "*.rs");
    assert_eq!(o.max_results, 100);
    assert_eq!(o.offset, 0);
    assert!(o.match_case && !o.regex);
    assert_eq!(o.sort.as_deref(), Some("size_asc"));
    assert_eq!(o.path.as_deref(), Some(r"C:\src"));
    let mut p = search_params("x");
    p.max_results = Some(0);
    assert_eq!(options_from_search(&p).max_results, 100);
    p.max_results = Some(7);
    p.offset = Some(14);
    let o = options_from_search(&p);
    assert_eq!((o.max_results, o.offset), (7, 14));

    let c = options_from_count(&CountParams {
        query: "q".to_string(),
        regex: Some(true),
        match_case: None,
        match_whole_word: None,
        path: None,
        exclude_path: None,
        include_all: Some(true),
    });
    assert!(c.regex && c.include_all && !c.match_path);
    assert_eq!((c.max_results, c.offset, c.sort), (0, 0, None));

    let a = options_from_aggregate(&AggregateParams {
        query: "q".to_string(),
        regex: None,
        match_case: None,
        match_whole_word: None,
        path: None,
        exclude_path: None,
        include_all: None,
        top: None,
    });
    assert_eq!(a.top, 20);
    assert_eq!(options_from_recent(&RecentChangesParams { since: Some(5), hours: None, limit: None }), (5, 100));
    assert_eq!(options_from_recent(&RecentChangesParams { since: None, hours: None, limit: Some(0) }), (0, 0));
    let now = 134_000_000_000_000_000i64;
    assert_eq!(
        options_from_recent_at(&RecentChangesParams { since: Some(5), hours: Some(2), limit: Some(7) }, now),
        (now - 2 * 36_000_000_000, 7)
    );
    assert_eq!(options_from_recent_at(&RecentChangesParams { since: None, hours: Some(1), limit: None }, 10), (0, 100));
}

#[test]
fn native_answers_become_results() {
    let ft = 116_444_736_000_000_000i64 + 86_400 * 10_000_000;
    let entries = vec![NativeEntry {
        path: Some(r"C:\dir\a.txt".to_string()),
        size: Some(9),
        created: None,
        modified: Some(ft),
        accessed: None,
        is_dir: Some(false),
        extension: Some("txt".to_string()),
    }];
    let r = native_search(Some(42), None, &entries, Some(10)).ok().unwrap();
    assert_eq!((r.total, r.returned, r.offset), (42, 1, 10));
    assert_eq!(r.note, "");
    let e = &r.results[0];
    assert_eq!(e.filename, "a.txt");
    assert_eq!(e.path.as_deref(), Some(r"C:\dir"));
    assert_eq!(e.size, Some(9));
    assert_eq!(e.date_modified.as_deref(), Some("1970-01-02T00:00:00Z"));
    assert_eq!(e.date_modified, ns100_to_iso_string(ft as u64));
    assert_eq!(e.attributes, None);
    assert!(matches!(native_search(None, None, &entries, None), Err(NativeError::SearchMissingTotal)));
    assert_eq!(NativeError::SearchMissingTotal.message(), "native search: missing total");
    assert_eq!(count(Some(3), Some("n".to_string())).ok(), Some((3, "n".to_string())));
    assert!(matches!(count(None, None), Err(NativeError::CountMissingTotal)));
    assert_eq!(split_path("plain"), ("plain".to_string(), None));
}

#[test]
fn windows_paths() {
    assert_eq!(windows::normalize_path("C:/a/b"), r"C:\a\b");
    assert_eq!(windows::trim_trailing_sep(r"C:\a\"), r"C:\a");
    assert_eq!(windows::trim_trailing_sep(r"\"), r"\");
    assert!(windows::is_absolute_path(r"C:\x"));
    assert!(windows::is_absolute_path("C:/x"));
    assert!(!windows::is_absolute_path("x:y"));
    assert_eq!(windows::volume_of(r"C:\Windows\x"), "C:");
    assert_eq!(windows::volume_of("plain"), "plain");
    assert_eq!(windows::parent_of("C:/a/b.txt"), Some(r"C:\a".to_string()));
    assert_eq!(windows::parent_of("b.txt"), None);
    assert_eq!(windows::parent_of(r"C:\Windows\System32"), Some(r"C:\Windows".to_string()));
    assert_eq!(windows::parent_of("C:/a/b"), Some(r"C:\a".to_string()));
    assert_eq!(windows::parent_of("C:"), None);
    assert_eq!(windows::parent_of(r"C:\"), None);
    assert_eq!(windows::parent_of("C:/"), None);
}

#[test]
fn unix_paths() {
    assert_eq!(unix::trim_trailing_sep("/a/"), "/a");
    assert_eq!(unix::trim_trailing_sep("/"), "/");
    assert!(unix::is_absolute_path("/usr"));
    assert!(!unix::is_absolute_path("usr"));
    assert_eq!(unix::parent_of("/usr/lib/x"), Some("/usr/lib".to_string()));
}
