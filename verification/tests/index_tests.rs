use instant_file_search::index::FileIndex;
use instant_file_search::types::IndexedFile;

fn e(path: &str) -> IndexedFile {
    IndexedFile::new(path.to_string(), 0, 0, 0, 0, false, 0)
}

fn edir(path: &str, size: u64) -> IndexedFile {
    let mut d = e(path);
    d.is_dir = true;
    d.size = size;
    d
}

fn efile(path: &str, size: u64) -> IndexedFile {
    let mut f = e(path);
    f.size = size;
    f
}

fn build() -> FileIndex {
    let mut ix = FileIndex::new();
    ix.replace(vec![
        e(r"C:\olddir\a.txt"),
        e(r"C:\olddir\sub\b.txt"),
        e(r"C:\other\c.txt"),
        e(r"C:\olddir"),
    ]);
    ix
}

fn size_of(ix: &FileIndex, path: &str) -> u64 {
    ix.get(path).expect("entry present").size
}

#[test]
fn change_log_ring_buffers_and_orders() {
    let mut ix = FileIndex::new();
    ix.record_change(100, "CREATE", r"C:\a.txt", false);
    ix.record_change(200, "RENAME", r"C:\b.txt", false);
    ix.record_change(300, "DELETE", r"C:\a.txt", false);
    let log = ix.recent_changes(0, 0);
    assert_eq!(log.len(), 3);
    assert_eq!(log[0].reason, "CREATE");
    assert_eq!(log[2].reason, "DELETE");
    // since filter: strictly newer than 100 -> last two
    let filtered = ix.recent_changes(100, 0);
    assert_eq!(filtered.len(), 2);
    assert_eq!(filtered[0].timestamp, 200);
    // limit caps
    let capped = ix.recent_changes(0, 2);
    assert_eq!(capped.len(), 2);
    assert_eq!(capped[0].timestamp, 100);
}

#[test]
fn adjust_ancestors_propagates_delta() {
    let mut ix = FileIndex::new();
    ix.replace(vec![
        edir(r"C:", 50),
        edir(r"C:\a", 50),
        edir(r"C:\a\b", 20),
        efile(r"C:\a\b\f.txt", 20),
        efile(r"C:\a\g.txt", 30),
    ]);
    ix.upsert(efile(r"C:\a\b\h.txt", 5));
    assert_eq!(size_of(&ix, r"C:\a\b"), 25);
    assert_eq!(size_of(&ix, r"C:\a"), 55);
    assert_eq!(size_of(&ix, r"C:"), 55);
    ix.remove(r"C:\a\g.txt");
    assert_eq!(size_of(&ix, r"C:\a"), 25);
    assert_eq!(size_of(&ix, r"C:"), 25);
}

#[test]
fn upsert_keeps_dir_recursive_total() {
    let mut ix = FileIndex::new();
    ix.replace(vec![
        edir(r"C:", 100),
        edir(r"C:\a", 100),
        efile(r"C:\a\f.txt", 100),
    ]);
    let mut fresh_stat = edir(r"C:\a", 0);
    fresh_stat.created = 1;
    ix.upsert(fresh_stat);
    assert_eq!(size_of(&ix, r"C:\a"), 100, "dir recursive total must persist");
    let mut ix2 = FileIndex::new();
    ix2.replace(vec![edir(r"C:", 0)]);
    ix2.upsert(edir(r"C:\empty", 0));
    assert_eq!(size_of(&ix2, r"C:\empty"), 0);
}

#[test]
fn remove_prefix_subtracts_recursive_size() {
    let mut ix = FileIndex::new();
    ix.replace(vec![
        edir(r"C:", 140),
        edir(r"C:\a", 120),
        edir(r"C:\a\sub", 100),
        efile(r"C:\a\sub\f.bin", 100),
        edir(r"C:\b", 20),
        efile(r"C:\b\g.bin", 20),
    ]);
    ix.remove_prefix(r"C:\a");
    assert!(!ix.contains(r"C:\a"));
    assert_eq!(size_of(&ix, r"C:"), 20, r"C: loses the C:\a subtree total");
}

#[test]
fn rename_prefix_moves_recursive_size() {
    let mut ix = FileIndex::new();
    ix.replace(vec![
        edir(r"C:", 140),
        edir(r"C:\a", 120),
        edir(r"C:\a\sub", 100),
        efile(r"C:\a\sub\f.bin", 100),
        edir(r"C:\b", 20),
        efile(r"C:\b\g.bin", 20),
    ]);
    ix.rename_prefix(r"C:\a", r"C:\renamed");
    assert_eq!(size_of(&ix, r"C:\renamed"), 120, "dir keeps recursive total");
    assert_eq!(size_of(&ix, r"C:"), 140, "C: total unchanged by rename");
    assert!(!ix.contains(r"C:\a"));
}

#[test]
fn rename_prefix_moves_subtree() {
    let mut ix = build();
    ix.rename_prefix(r"C:\olddir", r"C:\newdir");
    assert!(ix.contains(r"C:\newdir\a.txt"));
    assert!(ix.contains(r"C:\newdir\sub\b.txt"));
    assert!(ix.contains(r"C:\newdir"));
    assert!(ix.contains(r"C:\other\c.txt"));
    assert!(!ix.contains(r"C:\olddir"));
    assert!(ix.len() == 4);
}

#[test]
fn remove_prefix_drops_subtree() {
    let mut ix = build();
    ix.remove_prefix(r"C:\olddir");
    assert!(!ix.contains(r"C:\olddir"));
    assert!(!ix.contains(r"C:\olddir\a.txt"));
    assert!(!ix.contains(r"C:\olddir\sub\b.txt"));
    assert!(ix.contains(r"C:\other\c.txt"));
}

#[test]
fn rename_prefix_does_not_hit_sibling() {
    let mut ix = FileIndex::new();
    ix.replace(vec![e(r"C:\olddir\a.txt"), e(r"C:\olddirX\b.txt")]);
    ix.rename_prefix(r"C:\olddir", r"C:\newdir");
    assert!(ix.contains(r"C:\newdir\a.txt"));
    assert!(ix.contains(r"C:\olddirX\b.txt"));
}

#[test]
fn change_log_keeps_at_most_the_newest_hundred_thousand() {
    let mut ix = FileIndex::new();
    for t in 0..100_005i64 {
        ix.record_change(t, "WRITE", r"C:\x", false);
    }
    let log = ix.recent_changes(0, 0);
    assert_eq!(log.len(), 100_000);
    assert_eq!(log[0].timestamp, 5);
    assert_eq!(log[99_999].timestamp, 100_004);
}

#[test]
fn upsert_then_get_returns_the_entry() {
    let mut ix = FileIndex::new();
    ix.replace(vec![edir(r"C:", 0)]);
    let f = efile(r"C:\note.txt", 42);
    assert!(ix.can_upsert(&f));
    ix.upsert(f);
    let got = ix.get(r"C:\note.txt").unwrap();
    assert_eq!(got.size, 42);
    assert_eq!(got.name, "note.txt");
    assert_eq!(size_of(&ix, r"C:"), 42);
}

#[test]
fn path_by_ref_follows_upsert_and_rename() {
    let mut ix = FileIndex::new();
    let mut d = edir(r"C:\dir", 0);
    d.file_ref = 7;
    ix.replace(vec![d]);
    assert_eq!(ix.path_by_ref(7).as_deref(), Some(r"C:\dir"));
    ix.rename_prefix(r"C:\dir", r"C:\moved");
    assert_eq!(ix.path_by_ref(7).as_deref(), Some(r"C:\moved"));
    assert!(ix.path_by_ref(8).is_none());
}

#[test]
fn replace_volume_keeps_other_volumes() {
    let mut ix = FileIndex::new();
    ix.replace(vec![e(r"C:\a.txt"), e(r"D:\b.txt")]);
    let n = ix.replace_volume("C:\\", vec![e(r"C:\c.txt")]);
    assert_eq!(n, 2);
    assert!(ix.contains(r"D:\b.txt"));
    assert!(ix.contains(r"C:\c.txt"));
    assert!(!ix.contains(r"C:\a.txt"));
}

#[test]
fn index_reads_dates_in_its_time_zone() {
    let aug1_midnight_utc = 1_785_542_400i64; // 2026-08-01T00:00:00Z
    let ft = (aug1_midnight_utc + 30 * 60 + 11_644_473_600) * 10_000_000;
    let mut f = e(r"C:\late.txt");
    f.modified = ft;
    let mut ix = FileIndex::new();
    ix.replace(vec![f]);
    let q = instant_file_search::query::QueryOptions {
        query: "dm:2026-08-01".to_string(),
        ..Default::default()
    };
    assert_eq!(ix.utc_offset(), 0);
    assert_eq!(ix.search(&q).total, 1);
    ix.set_utc_offset(-4 * 3600);
    assert_eq!(ix.utc_offset(), -4 * 3600);
    assert_eq!(ix.search(&q).total, 0, "00:30 UTC is the evening before, four hours west");
    let q31 = instant_file_search::query::QueryOptions {
        query: "dm:2026-07-31".to_string(),
        ..Default::default()
    };
    assert_eq!(ix.search(&q31).total, 1);
}

#[test]
fn removing_a_file_subtracts_it_from_every_ancestor() {
    let mut ix = FileIndex::new();
    ix.replace(vec![
        edir(r"C:", 30),
        edir(r"C:\a", 30),
        efile(r"C:\a\x.bin", 10),
        efile(r"C:\a\y.bin", 20),
    ]);
    ix.remove(r"C:\a\x.bin");
    assert_eq!(size_of(&ix, r"C:\a"), 20);
    assert_eq!(size_of(&ix, r"C:"), 20);
    assert!(ix.get(r"C:\a\x.bin").is_none());
    ix.upsert(efile(r"C:\a\y.bin", 5));
    assert_eq!(size_of(&ix, r"C:\a"), 5);
    assert_eq!(size_of(&ix, r"C:"), 5);
}

#[test]
fn moving_a_subtree_keeps_every_directory_total() {
    let mut ix = FileIndex::new();
    ix.replace(vec![
        edir(r"C:", 120),
        edir(r"C:\a", 100),
        edir(r"C:\a\sub", 100),
        efile(r"C:\a\sub\f.bin", 100),
        edir(r"C:\b", 20),
        efile(r"C:\b\g.bin", 20),
    ]);
    ix.rename_prefix(r"C:\a\sub", r"C:\b\sub");
    assert_eq!(size_of(&ix, r"C:\a"), 0);
    assert_eq!(size_of(&ix, r"C:\b"), 120);
    assert_eq!(size_of(&ix, r"C:\b\sub"), 100);
    assert_eq!(size_of(&ix, r"C:"), 120);
    ix.remove_prefix(r"C:\b\sub");
    assert_eq!(size_of(&ix, r"C:\b"), 20);
    assert_eq!(size_of(&ix, r"C:"), 20);
}

#[test]
fn upsert_leaves_other_files_alone() {
    let mut ix = FileIndex::new();
    ix.replace(vec![
        edir("C:", 12),
        edir(r"C:\a", 12),
        efile(r"C:\a\x.txt", 5),
        efile(r"C:\a\y.txt", 7),
    ]);
    ix.upsert(efile(r"C:\a\x.txt", 9));
    assert_eq!(ix.len(), 4);
    assert_eq!(size_of(&ix, r"C:\a\x.txt"), 9);
    assert_eq!(size_of(&ix, r"C:\a\y.txt"), 7);
    assert_eq!(size_of(&ix, r"C:\a"), 16);
    assert_eq!(size_of(&ix, "C:"), 16);
    ix.upsert(efile(r"C:\a\z.txt", 1));
    assert_eq!(ix.len(), 5);
    assert_eq!(size_of(&ix, r"C:\a\y.txt"), 7);
    assert_eq!(size_of(&ix, "C:"), 17);
}
