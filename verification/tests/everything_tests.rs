use instant_file_search::everything::{
    build_search_query, format_attributes, no_engine_message, parse_fields, parse_sort, result_item,
    status, EngineSource, EverythingSort, FIELD_DATE_MODIFIED, FIELD_EXTENSION, FIELD_FILE_NAME,
    FIELD_PATH, FIELD_SIZE,
};
use instant_file_search::results::{ns100_to_iso_string, unix_timestamp_to_rfc3339};

#[test]
fn everything_test_format_attributes() {
    assert_eq!(format_attributes(0x0020), "A");
    assert_eq!(format_attributes(0x0001), "R");
    assert_eq!(format_attributes(0x0021), "AR");
    assert_eq!(format_attributes(0x0000), "-");
}

#[test]
fn everything_test_unix_timestamp_to_rfc3339() {
    assert_eq!(unix_timestamp_to_rfc3339(0), "1970-01-01T00:00:00Z");
    let s = unix_timestamp_to_rfc3339(1_705_305_600);
    assert!(s.starts_with("2024-01-15"));
    assert!(s.ends_with("Z"));
}

#[test]
fn everything_test_ns100_to_iso_string() {
    assert!(ns100_to_iso_string(0).is_none());
    assert!(ns100_to_iso_string(1_000).is_none());
    let r = ns100_to_iso_string(116_444_736_000_000_000);
    assert_eq!(r.as_deref(), Some("1970-01-01T00:00:00Z"));
}

#[test]
fn test_parse_sort() {
    assert_eq!(parse_sort("name"), Some(EverythingSort::NameAscending));
    assert_eq!(parse_sort("size"), Some(EverythingSort::SizeDescending));
    assert_eq!(parse_sort("date_modified"), Some(EverythingSort::DateModifiedDescending));
    assert_eq!(parse_sort("bogus"), None);
}

#[test]
fn test_parse_fields() {
    let flags = parse_fields(Some("filename,size,path"));
    assert!(flags.contains(FIELD_FILE_NAME));
    assert!(flags.contains(FIELD_SIZE));
    assert!(flags.contains(FIELD_PATH));
    assert!(!flags.contains(FIELD_DATE_MODIFIED));
    let all = parse_fields(None);
    assert!(all.contains(FIELD_FILE_NAME));
    assert!(all.contains(FIELD_EXTENSION));
    let empty = parse_fields(Some(""));
    assert_eq!(empty.bits, FIELD_FILE_NAME);
    let spaced = parse_fields(Some(" size , bogus "));
    assert_eq!(spaced.bits, FIELD_SIZE);
}

#[test]
fn search_query_with_defaults_and_exclusions() {
    let (text, note) = build_search_query("*.rs", Some(r"C:\My Projects\"), Some(r" target\ ;;build"), false);
    assert_eq!(
        text,
        r#"*.rs "C:\My Projects" !<node_modules\> !<.git\> !<WinSxS\> !<$Recycle.Bin\> !<System Volume Information\> !<target\> !<build\>"#
    );
    assert_eq!(
        note,
        "Excluded directories: node_modules, .git, WinSxS, $Recycle.Bin, System Volume Information, target, build"
    );
}

#[test]
fn search_query_include_all_has_no_note() {
    let (text, note) = build_search_query("foo", Some(""), None, true);
    assert_eq!(text, "foo");
    assert_eq!(note, "");
}

#[test]
fn status_connected_only_with_engine_and_loaded_db() {
    let s = status(EngineSource::Existing, Some((true, true)), false, true);
    assert!(s.connected && s.window_found && s.installed_available);
    let s = status(EngineSource::Unavailable, Some((true, true)), false, false);
    assert!(!s.connected);
    let s = status(EngineSource::Bundled, None, true, false);
    assert!(!s.connected && !s.window_found && !s.ipc_available);
    assert_eq!(EngineSource::default(), EngineSource::Unavailable);
}

#[test]
fn no_engine_message_names_what_is_missing() {
    assert_eq!(
        no_engine_message(false, false),
        "no Everything engine available: no reachable Everything window found, no installed Everything, and no bundled portable Everything. Run `search_status` for diagnostics."
    );
    assert_eq!(
        no_engine_message(true, true),
        "no Everything engine available: no reachable Everything window foundand launching available engines failed or timed out. Run `search_status` for diagnostics."
    );
}

#[test]
fn result_item_converts_fields() {
    let r = result_item(
        None,
        Some(r"C:\x".to_string()),
        Some(u64::MAX),
        Some(116_444_736_000_000_000),
        Some(0),
        None,
        Some(0x21),
        Some("txt".to_string()),
        Some(3),
        None,
    );
    assert_eq!(r.filename, "");
    assert_eq!(r.size, None);
    assert_eq!(r.date_modified.as_deref(), Some("1970-01-01T00:00:00Z"));
    assert_eq!(r.date_created, None);
    assert_eq!(r.attributes.as_deref(), Some("AR"));
    assert_eq!(r.run_count, Some(3));
}
