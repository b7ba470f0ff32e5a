use instant_file_search::content::{ContentStore, TOTAL_BUDGET};

#[test]
fn eligibility() {
    assert!(ContentStore::should_index(r"C:\a\b.rs", 100));
    assert!(ContentStore::should_index(r"C:\a\b.py", 100));
    assert!(ContentStore::should_index(r"C:\a\README", 100));
    assert!(ContentStore::should_index(r"C:\a\Dockerfile", 100));
    assert!(!ContentStore::should_index(r"C:\a\b.exe", 100));
    assert!(!ContentStore::should_index(r"C:\a\b.rs", 0));
    assert!(!ContentStore::should_index(r"C:\a\b.rs", 300 * 1024));
    assert!(!ContentStore::should_index(r"C:\node_modules\x.rs", 100));
    assert!(!ContentStore::should_index(r"C:\a\.git\x.rs", 100));
}

#[test]
fn insert_and_match() {
    let mut store = ContentStore::new();
    store.insert(r"C:\a\hello.rs", b"fn main() { println!(\"HELLO WORLD\"); }");
    store.insert(r"C:\a\other.md", b"nothing here");
    assert_eq!(store.len(), 2);

    let hits = store.matching_paths(&["hello".into()]);
    assert_eq!(hits, vec![r"c:\a\hello.rs"]);
    let hits = store.matching_paths(&["Hello World".into()]);
    assert_eq!(hits, vec![r"c:\a\hello.rs"]);
    let hits = store.matching_paths(&["missing".into()]);
    assert!(hits.is_empty());

    assert!(store.contains(r"C:\A\HELLO.RS", "world"));
    assert!(!store.contains(r"C:\a\other.md", "hello"));

    store.remove(r"C:\a\hello.rs");
    assert_eq!(store.len(), 1);
    assert!(store.matching_paths(&["hello".into()]).is_empty());
}

#[test]
fn multiple_needles_all() {
    let mut store = ContentStore::new();
    store.insert(r"C:\a\x.txt", b"alpha beta gamma");
    store.insert(r"C:\a\y.txt", b"alpha only");
    let hits = store.matching_paths(&["alpha".into(), "gamma".into()]);
    assert_eq!(hits, vec![r"c:\a\x.txt"]);
}

#[test]
fn budget_refuses_new() {
    let mut store = ContentStore::new();
    store.insert(r"C:\a\big.txt", &vec![b'a'; TOTAL_BUDGET]);
    assert_eq!(store.len(), 1);
    store.insert(r"C:\a\small.txt", b"hello");
    assert_eq!(store.len(), 1, "budget-exhausted store must refuse new files");
    assert!(store.matching_paths(&["hello".into()]).is_empty());
}

#[test]
fn disabled_store_keeps_nothing() {
    let mut store = ContentStore::disabled();
    store.insert(r"C:\a\x.txt", b"alpha");
    assert_eq!(store.len(), 0);
    assert!(!store.is_enabled());
}

#[test]
fn reinsert_replaces_content_and_total() {
    let mut store = ContentStore::new();
    store.insert(r"C:\a\x.txt", b"alpha");
    store.insert(r"C:\A\X.TXT", b"beta!!");
    assert_eq!(store.len(), 1);
    assert_eq!(store.total_bytes(), 6);
    assert!(store.contains(r"c:\a\x.txt", "BETA"));
    assert!(!store.contains(r"c:\a\x.txt", "alpha"));
}

#[test]
fn empty_needle_matches_nothing() {
    let mut store = ContentStore::new();
    store.insert(r"C:\a\x.txt", b"alpha");
    assert!(store.matching_paths(&["".into()]).is_empty());
    assert!(store.matching_paths(&[]).is_empty());
    assert!(!store.contains(r"C:\a\x.txt", ""));
}
