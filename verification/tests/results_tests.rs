use instant_file_search::results::{format_attributes, ns100_to_iso_string, unix_timestamp_to_rfc3339};

#[test]
fn results_test_format_attributes() {
    assert_eq!(format_attributes(0x0020), "A");
    assert_eq!(format_attributes(0x0001), "R");
    assert_eq!(format_attributes(0x0021), "AR");
    assert_eq!(format_attributes(0x0000), "-");
}

#[test]
fn results_test_unix_timestamp_to_rfc3339() {
    assert_eq!(unix_timestamp_to_rfc3339(0), "1970-01-01T00:00:00Z");
    let s = unix_timestamp_to_rfc3339(1_705_305_600);
    assert!(s.starts_with("2024-01-15"));
    assert!(s.ends_with("Z"));
}

#[test]
fn results_test_ns100_to_iso_string() {
    assert!(ns100_to_iso_string(0).is_none());
    assert!(ns100_to_iso_string(1_000).is_none());
    let r = ns100_to_iso_string(116_444_736_000_000_000);
    assert_eq!(r.as_deref(), Some("1970-01-01T00:00:00Z"));
}

#[test]
fn rfc3339_exact_values() {
    assert_eq!(unix_timestamp_to_rfc3339(1_705_314_600), "2024-01-15T10:30:00Z");
    // Leap day.
    assert_eq!(unix_timestamp_to_rfc3339(951_782_400), "2000-02-29T00:00:00Z");
    assert_eq!(unix_timestamp_to_rfc3339(86_399), "1970-01-01T23:59:59Z");
}

#[test]
fn format_attributes_all_letters_in_order() {
    assert_eq!(format_attributes(0x7D37), "ARHSDTPCOIE");
    assert_eq!(format_attributes(0x80), "-");
}
