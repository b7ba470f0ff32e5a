use std::collections::HashMap;

use instant_file_search::mft::{
    chain_ends_within, chains_end, check_file_record, compute_folder_sizes, parse_file_record, resolve_paths,
};
use instant_file_search::types::IndexedFile;

fn put16(b: &mut [u8], at: usize, v: u16) {
    b[at..at + 2].copy_from_slice(&v.to_le_bytes());
}
fn put32(b: &mut [u8], at: usize, v: u32) {
    b[at..at + 4].copy_from_slice(&v.to_le_bytes());
}
fn put64(b: &mut [u8], at: usize, v: u64) {
    b[at..at + 8].copy_from_slice(&v.to_le_bytes());
}

/// A two-sector FILE record naming `name` under record 5, with a resident
/// $DATA of 1234 bytes, update sequence applied.
fn record(name: &str, flags: u16) -> Vec<u8> {
    let mut b = vec![0u8; 1024];
    b[0..4].copy_from_slice(b"FILE");
    put16(&mut b, 4, 48);
    put16(&mut b, 6, 3);
    put16(&mut b, 0x14, 56);
    put16(&mut b, 0x16, flags);
    // $STANDARD_INFORMATION
    let si = 56;
    put32(&mut b, si, 0x10);
    put32(&mut b, si + 4, 96);
    put32(&mut b, si + 16, 48);
    put16(&mut b, si + 20, 24);
    put64(&mut b, si + 24, 111);
    put64(&mut b, si + 32, 222);
    put64(&mut b, si + 48, 333);
    put32(&mut b, si + 56, 0x20);
    // $FILE_NAME
    let fnm = si + 96;
    let units: Vec<u16> = name.encode_utf16().collect();
    put32(&mut b, fnm, 0x30);
    put32(&mut b, fnm + 4, 128);
    put32(&mut b, fnm + 16, (66 + 2 * units.len()) as u32);
    put16(&mut b, fnm + 20, 24);
    let v = fnm + 24;
    put64(&mut b, v, 5 | (3u64 << 48));
    b[v + 64] = units.len() as u8;
    b[v + 65] = 1;
    for (k, u) in units.iter().enumerate() {
        put16(&mut b, v + 66 + 2 * k, *u);
    }
    // resident $DATA
    let d = fnm + 128;
    put32(&mut b, d, 0x80);
    put32(&mut b, d + 4, 24);
    put32(&mut b, d + 16, 1234);
    put32(&mut b, d + 24, 0xFFFF_FFFF);
    // update sequence: save the sector tails, stamp the sequence number
    put16(&mut b, 48, 7);
    let t1 = [b[510], b[511]];
    let t2 = [b[1022], b[1023]];
    b[50] = t1[0];
    b[51] = t1[1];
    b[52] = t2[0];
    b[53] = t2[1];
    put16(&mut b, 510, 7);
    put16(&mut b, 1022, 7);
    b
}

#[test]
fn parses_a_file_record() {
    let b = record("hello.txt", 0x01);
    let (e, links) = parse_file_record(&b, 42).expect("record parses");
    assert_eq!(links, vec![(5u64, "hello.txt".to_string())]);
    assert_eq!(e.size, 1234);
    assert_eq!(e.created, 111);
    assert_eq!(e.modified, 222);
    assert_eq!(e.accessed, 333);
    assert_eq!(e.attributes, 0x20);
    assert_eq!(e.file_ref, 42);
    assert!(!e.is_dir);
    assert_eq!(e.path, "");
}

#[test]
fn directory_flag_and_unused_records() {
    let b = record("dir", 0x03);
    let (e, _) = parse_file_record(&b, 1).unwrap();
    assert!(e.is_dir);
    assert!(parse_file_record(&record("gone", 0x00), 1).is_none());
    let mut bad = record("x", 0x01);
    bad[0] = b'B';
    assert!(parse_file_record(&bad, 1).is_none());
    assert!(parse_file_record(&b[..40], 1).is_none());
}

#[test]
fn win32_name_beats_dos_alias() {
    let mut b = record("LONGNA~1.TXT", 0x01);
    // Turn the data attribute into a second FILE_NAME with a lower namespace.
    let fnm2 = 56 + 96 + 128;
    let units: Vec<u16> = "long name.txt".encode_utf16().collect();
    // undo fixup stamps before editing
    b[510] = b[50];
    b[511] = b[51];
    put32(&mut b, fnm2, 0x30);
    put32(&mut b, fnm2 + 4, 128);
    put32(&mut b, fnm2 + 16, (66 + 2 * units.len()) as u32);
    put16(&mut b, fnm2 + 20, 24);
    let v = fnm2 + 24;
    put64(&mut b, v, 5);
    b[v + 64] = units.len() as u8;
    b[v + 65] = 0;
    for (k, u) in units.iter().enumerate() {
        put16(&mut b, v + 66 + 2 * k, *u);
    }
    put32(&mut b, fnm2 + 128, 0xFFFF_FFFF);
    let t1 = [b[510], b[511]];
    b[50] = t1[0];
    b[51] = t1[1];
    put16(&mut b, 510, 7);
    let (_, links) = parse_file_record(&b, 9).unwrap();
    assert_eq!(links, vec![(5u64, "long name.txt".to_string())]);
}

#[test]
fn out_of_bounds_update_sequence_is_reported() {
    let mut b = record("x", 0x01);
    put16(&mut b, 4, 1023);
    assert!(check_file_record(&b, 1).is_err());
}

fn linked(file_ref: u64, parent: u64, name: &str, is_dir: bool) -> IndexedFile {
    let mut e = IndexedFile::new(String::new(), 0, 0, 0, 0, is_dir, file_ref);
    e.parent_ref = parent;
    e.own_name = name.to_string();
    e
}

#[test]
fn resolve_paths_walks_parents() {
    let mut entries = vec![
        linked(5, 5, ".", true),
        linked(10, 5, "a", true),
        linked(11, 10, "f.txt", false),
        linked(12, 99, "lost.txt", false),
    ];
    let mut names: HashMap<u64, (u64, String)> = HashMap::new();
    names.insert(5, (5, ".".to_string()));
    names.insert(10, (5, "a".to_string()));
    names.insert(11, (10, "f.txt".to_string()));
    names.insert(12, (99, "lost.txt".to_string()));
    resolve_paths(&mut entries, &names, "C:\\");
    let paths: Vec<&str> = entries.iter().map(|e| e.path.as_str()).collect();
    assert_eq!(paths, vec!["C:", r"C:\a", r"C:\a\f.txt", ""]);
    assert_eq!(entries[2].name, "f.txt");
}

#[test]
fn folder_sizes_sum_descendants() {
    let mk = |p: &str, dir: bool, size: u64| {
        let mut e = IndexedFile::new(p.to_string(), size, 0, 0, 0, dir, 0);
        e.size = size;
        e
    };
    let mut entries = vec![
        mk("C:", true, 0),
        mk(r"C:\a", true, 0),
        mk(r"C:\a\f.txt", false, 10),
        mk(r"C:\g.txt", false, 5),
        mk(r"C:\a\b", true, 0),
        mk(r"C:\a\b\h.bin", false, 7),
    ];
    compute_folder_sizes(&mut entries);
    let got: Vec<(&str, u64)> = entries.iter().map(|e| (e.path.as_str(), e.size)).collect();
    assert_eq!(
        got,
        vec![
            (r"C:\a\b\h.bin", 7),
            (r"C:\a\f.txt", 10),
            (r"C:\a\b", 7),
            (r"C:\a", 17),
            (r"C:\g.txt", 5),
            ("C:", 22),
        ]
    );
}

#[test]
fn parent_chains_are_checked_before_resolving() {
    let mut cyclic: HashMap<u64, (u64, String)> = HashMap::new();
    cyclic.insert(7, (8, "a".to_string()));
    cyclic.insert(8, (7, "b".to_string()));
    assert!(!chain_ends_within(&cyclic, 7, 100));
    let mut fine: HashMap<u64, (u64, String)> = HashMap::new();
    fine.insert(7, (5, "a".to_string()));
    assert!(chain_ends_within(&fine, 7, 1));
    assert!(!chain_ends_within(&fine, 7, 0));
    assert!(chain_ends_within(&fine, 99, 0), "a record missing from the table ends the chain");
    let mut e = IndexedFile::new(String::new(), 0, 0, 0, 0, false, 9);
    e.parent_ref = 7;
    assert!(chains_end(&vec![e.duplicate()], &fine, 2));
    assert!(!chains_end(&vec![e], &cyclic, 50));
}
