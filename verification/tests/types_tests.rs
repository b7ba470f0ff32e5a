use instant_file_search::types::{is_default_excluded, IndexedFile};

#[test]
fn separator_agnostic_name_and_extension() {
    let w = IndexedFile::new(r"C:\dir\file.TXT".to_string(), 0, 0, 0, 0, false, 0);
    assert_eq!(w.name, "file.TXT");
    assert_eq!(w.extension.as_deref(), Some("txt"));

    let l = IndexedFile::new("/home/user/file.TXT".to_string(), 0, 0, 0, 0, false, 0);
    assert_eq!(l.name, "file.TXT");
    assert_eq!(l.extension.as_deref(), Some("txt"));

    let ld = IndexedFile::new("/home/user/data.dir/f".to_string(), 0, 0, 0, 0, false, 0);
    assert_eq!(ld.extension.as_deref(), None);
    let ld2 = IndexedFile::new("/home/user/a.dir/b".to_string(), 0, 0, 0, 0, false, 0);
    assert_eq!(ld2.extension.as_deref(), None);
}

#[test]
fn is_default_excluded_both_separators() {
    assert!(is_default_excluded(r"c:\node_modules\pkg\index.js"));
    assert!(is_default_excluded("/usr/share/node_modules/pkg/index.js"));
    assert!(is_default_excluded(r"c:\$Recycle.Bin\foo"));
    assert!(is_default_excluded("/mnt/c/System Volume Information/foo"));
    assert!(!is_default_excluded("/home/user/windows-like/thing"));
    assert!(!is_default_excluded("/home/user/program.exe"));
    assert!(!is_default_excluded(r"c:\windows\system32\foo.dll"));
}

#[test]
fn set_path_recomputes_derived_fields() {
    let mut f = IndexedFile::new(r"C:\a\b.rs".to_string(), 7, 1, 2, 3, false, 9);
    f.set_path(r"C:\node_modules\X.MD".to_string());
    assert_eq!(f.name, "X.MD");
    assert_eq!(f.lower_path, r"c:\node_modules\x.md");
    assert_eq!(f.extension.as_deref(), Some("md"));
    assert!(f.excluded);
    assert_eq!(f.size, 7);
    assert_eq!(f.file_ref, 9);
}
