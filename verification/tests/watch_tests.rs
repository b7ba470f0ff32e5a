use instant_file_search::fanotify::{join_child, journal_tails, parse_events, parse_handle, FanRecord};
use instant_file_search::index::FileIndex;
use instant_file_search::types::IndexedFile;
use instant_file_search::usn::{parse_records, path_of};
use instant_file_search::watch::{
    decide, fanotify_kind, usn_kind, ChangeKind, PendingRenames, WatchAction, FAN_ATTRIB,
    FAN_CLOSE_WRITE, FAN_CREATE, FAN_DELETE, FAN_MODIFY, FAN_MOVED_FROM, FAN_MOVED_TO,
    FAN_ONDIR, USN_REASON_CLOSE, USN_REASON_CREATE, USN_REASON_DELETE,
    USN_REASON_HARD_LINK_CHANGE, USN_REASON_RENAME_NEW, USN_REASON_RENAME_OLD,
};

fn describe(a: &WatchAction) -> String {
    match a {
        WatchAction::RemovePrefix(p) => format!("remove_prefix {p}"),
        WatchAction::Remove(p) => format!("remove {p}"),
        WatchAction::RenamePrefix(f, t) => format!("rename {f} -> {t}"),
        WatchAction::Record(r, p, d) => format!("record {r} {p} {d}"),
        WatchAction::DropContent(p) => format!("drop {p}"),
        WatchAction::Restat(p, d) => format!("restat {p} {d}"),
    }
}

fn steps(v: &[WatchAction]) -> Vec<String> {
    v.iter().map(describe).collect()
}

#[test]
fn usn_reasons_classify_in_priority_order() {
    assert_eq!(usn_kind(USN_REASON_DELETE | USN_REASON_CLOSE), ChangeKind::Delete);
    assert_eq!(usn_kind(USN_REASON_RENAME_OLD | USN_REASON_RENAME_NEW), ChangeKind::RenameOld);
    assert_eq!(usn_kind(USN_REASON_RENAME_NEW | USN_REASON_CLOSE), ChangeKind::RenameNew);
    assert_eq!(usn_kind(USN_REASON_CLOSE), ChangeKind::Write);
    assert_eq!(usn_kind(USN_REASON_CREATE), ChangeKind::Write);
    assert_eq!(usn_kind(USN_REASON_HARD_LINK_CHANGE), ChangeKind::Write);
    assert_eq!(usn_kind(0x0000_0001), ChangeKind::Ignore);
}

#[test]
fn fanotify_masks_classify_in_priority_order() {
    assert_eq!(fanotify_kind(FAN_DELETE | FAN_ONDIR), ChangeKind::Delete);
    assert_eq!(fanotify_kind(FAN_MOVED_FROM), ChangeKind::RenameOld);
    assert_eq!(fanotify_kind(FAN_MOVED_TO), ChangeKind::RenameNew);
    for m in [FAN_CREATE, FAN_MODIFY, FAN_ATTRIB, FAN_CLOSE_WRITE] {
        assert_eq!(fanotify_kind(m), ChangeKind::Write);
    }
    assert_eq!(fanotify_kind(0x20), ChangeKind::Ignore);
}

#[test]
fn pending_renames_pair_by_key() {
    let mut p = PendingRenames::new();
    p.insert(b"k1", "/a/old");
    p.insert(b"k2", "/b/old");
    p.insert(b"k1", "/a/older");
    assert_eq!(p.take(b"k1"), Some("/a/older".to_string()));
    assert_eq!(p.take(b"k1"), None);
    assert_eq!(p.take(b"k2"), Some("/b/old".to_string()));
}

#[test]
fn delete_of_a_directory_drops_its_subtree() {
    let mut p = PendingRenames::new();
    let a = decide(ChangeKind::Delete, true, "/d", None, false, &mut p);
    assert_eq!(steps(&a), vec!["remove_prefix /d", "record DELETE /d true", "drop /d"]);
    let a = decide(ChangeKind::Delete, false, "/f", None, false, &mut p);
    assert_eq!(steps(&a), vec!["remove /f", "record DELETE /f false", "drop /f"]);
}

#[test]
fn directory_rename_moves_the_subtree() {
    let mut p = PendingRenames::new();
    let a = decide(ChangeKind::RenameOld, true, "/old", Some(&b"h"[..]), false, &mut p);
    assert_eq!(steps(&a), vec!["record RENAME /old true", "drop /old"]);
    let a = decide(ChangeKind::RenameNew, true, "/new", Some(&b"h"[..]), false, &mut p);
    assert_eq!(
        steps(&a),
        vec!["rename /old -> /new", "record RENAME_NEW /new true", "drop /new", "restat /new true"]
    );
    assert_eq!(p.take(b"h"), None);
}

#[test]
fn file_rename_removes_old_and_restats_new() {
    let mut p = PendingRenames::new();
    let a = decide(ChangeKind::RenameOld, false, "/x.txt", Some(&b"f"[..]), false, &mut p);
    assert_eq!(steps(&a), vec!["remove /x.txt", "record RENAME /x.txt false", "drop /x.txt"]);
    let a = decide(ChangeKind::RenameNew, false, "/y.txt", Some(&b"f"[..]), false, &mut p);
    assert_eq!(
        steps(&a),
        vec!["record RENAME_NEW /y.txt false", "drop /y.txt", "restat /y.txt false"]
    );
}

#[test]
fn delete_may_forget_a_pending_rename() {
    let mut p = PendingRenames::new();
    decide(ChangeKind::RenameOld, true, "/old", Some(&b"h"[..]), false, &mut p);
    decide(ChangeKind::Delete, true, "/old", Some(&b"h"[..]), true, &mut p);
    assert_eq!(p.take(b"h"), None);
    let mut q = PendingRenames::new();
    decide(ChangeKind::RenameOld, true, "/old", Some(&b"h"[..]), false, &mut q);
    decide(ChangeKind::Delete, true, "/old", Some(&b"h"[..]), false, &mut q);
    assert_eq!(q.take(b"h"), Some("/old".to_string()));
}

#[test]
fn writes_restat_and_ignored_do_nothing() {
    let mut p = PendingRenames::new();
    let a = decide(ChangeKind::Write, false, "/w", None, false, &mut p);
    assert_eq!(steps(&a), vec!["record WRITE /w false", "restat /w false"]);
    assert!(decide(ChangeKind::Ignore, false, "/w", None, false, &mut p).is_empty());
}

fn usn_record(file_ref: u64, parent_ref: u64, ts: i64, reason: u32, attrs: u32, name: &str) -> Vec<u8> {
    let units: Vec<u16> = name.encode_utf16().collect();
    let raw_len = 60 + 2 * units.len();
    let len = (raw_len + 7) / 8 * 8;
    let mut b = vec![0u8; len];
    b[0..4].copy_from_slice(&(len as u32).to_le_bytes());
    b[4..6].copy_from_slice(&2u16.to_le_bytes());
    b[8..16].copy_from_slice(&file_ref.to_le_bytes());
    b[16..24].copy_from_slice(&parent_ref.to_le_bytes());
    b[32..40].copy_from_slice(&ts.to_le_bytes());
    b[40..44].copy_from_slice(&reason.to_le_bytes());
    b[52..56].copy_from_slice(&attrs.to_le_bytes());
    b[56..58].copy_from_slice(&((2 * units.len()) as u16).to_le_bytes());
    b[58..60].copy_from_slice(&60u16.to_le_bytes());
    for (k, u) in units.iter().enumerate() {
        b[60 + 2 * k..62 + 2 * k].copy_from_slice(&u.to_le_bytes());
    }
    b
}

#[test]
fn usn_buffer_yields_its_records() {
    let mut buf = usn_record(0xABCD_0000_0000_0007, 0x0001_0000_0000_0005, 99, USN_REASON_CLOSE, 0x20, "a.txt");
    buf.extend(usn_record(8, 5, 100, USN_REASON_DELETE, 0x10, "dir"));
    let recs = parse_records(&buf);
    assert_eq!(recs.len(), 2);
    assert_eq!(recs[0].file_ref, 7, "file reference keeps its low 48 bits");
    assert_eq!(recs[0].parent_ref, 0x0001_0000_0000_0005);
    assert_eq!(recs[0].timestamp, 99);
    assert_eq!(recs[0].reason, USN_REASON_CLOSE);
    assert_eq!(recs[0].attributes, 0x20);
    assert_eq!(recs[0].name, "a.txt");
    assert_eq!(recs[1].name, "dir");
    // a zero length ends the walk
    let mut cut = usn_record(1, 5, 1, USN_REASON_CLOSE, 0, "x");
    cut.extend(vec![0u8; 64]);
    cut.extend(usn_record(2, 5, 1, USN_REASON_CLOSE, 0, "y"));
    assert_eq!(parse_records(&cut).len(), 1);
    assert!(parse_records(&[0u8; 10]).is_empty());
}

#[test]
fn usn_path_joins_parent_or_volume_root() {
    let mut ix = FileIndex::new();
    let mut dir = IndexedFile::new(r"C:\docs".to_string(), 0, 0, 0, 0, true, 0x10);
    dir.file_ref = 5;
    ix.replace(vec![dir]);
    let recs = parse_records(&usn_record(9, 0x0003_0000_0000_0005, 0, USN_REASON_CLOSE, 0, "n.txt"));
    assert_eq!(path_of(&ix, r"C:\", &recs[0]), r"C:\docs\n.txt");
    let orphan = parse_records(&usn_record(9, 77, 0, USN_REASON_CLOSE, 0, "n.txt"));
    assert_eq!(path_of(&ix, r"C:\", &orphan[0]), r"C:\n.txt");
}

fn info(kind: u8, handle: &[u8], name: Option<&str>) -> Vec<u8> {
    let mut body = vec![0u8; 8]; // fsid
    body.extend((handle.len() as u32).to_le_bytes());
    body.extend(1i32.to_le_bytes());
    body.extend_from_slice(handle);
    if let Some(n) = name {
        body.extend_from_slice(n.as_bytes());
        body.push(0);
    }
    let len = 4 + body.len();
    let mut r = vec![kind, 0];
    r.extend((len as u16).to_le_bytes());
    r.extend(body);
    r
}

fn event(mask: u64, infos: &[Vec<u8>]) -> Vec<u8> {
    let body: Vec<u8> = infos.concat();
    let len = 24 + body.len();
    let mut e = Vec::new();
    e.extend((len as u32).to_le_bytes());
    e.push(3);
    e.push(0);
    e.extend(24u16.to_le_bytes());
    e.extend(mask.to_le_bytes());
    e.extend((-1i32).to_le_bytes());
    e.extend(1234i32.to_le_bytes());
    e.extend(body);
    e
}

#[test]
fn fanotify_buffer_yields_events() {
    let mut buf = event(FAN_CREATE, &[info(2, &[1, 2, 3, 4], Some("new.txt"))]);
    buf.extend(event(0x4000, &[]));
    buf.extend(event(FAN_MOVED_TO, &[info(12, &[9, 9], Some("b")), info(1, &[7], None)]));
    let evs = parse_events(&buf);
    assert_eq!(evs.len(), 3);
    match &evs[0] {
        FanRecord::Event { mask, parent, name, target } => {
            assert_eq!(*mask, FAN_CREATE);
            let p = parent.as_ref().expect("directory handle");
            assert_eq!(p.handle_bytes, 4);
            assert_eq!(p.handle_type, 1);
            assert_eq!(p.data, vec![1, 2, 3, 4]);
            assert_eq!(name.as_deref(), Some("new.txt"));
            assert!(target.is_none());
        }
        FanRecord::Overflow => panic!("event expected"),
    }
    assert!(matches!(evs[1], FanRecord::Overflow));
    match &evs[2] {
        FanRecord::Event { name, target, parent, .. } => {
            assert_eq!(name.as_deref(), Some("b"));
            assert_eq!(parent.as_ref().unwrap().data, vec![9, 9]);
            assert_eq!(target.as_ref().unwrap().data, vec![7]);
        }
        FanRecord::Overflow => panic!("event expected"),
    }
}

#[test]
fn file_handles_must_fit() {
    let mut b = Vec::new();
    b.extend(3u32.to_le_bytes());
    b.extend((-2i32).to_le_bytes());
    b.extend([5u8, 6, 7]);
    let h = parse_handle(&b, 0, b.len()).unwrap();
    assert_eq!(h.handle_type, -2);
    assert_eq!(h.data, vec![5, 6, 7]);
    assert!(parse_handle(&b, 0, b.len() - 1).is_none());
    assert!(parse_handle(&b, 4, b.len()).is_none());
}

#[test]
fn child_paths_join_with_one_separator() {
    assert_eq!(join_child("/home/u", Some("f.txt")), "/home/u/f.txt");
    assert_eq!(join_child("/", Some("etc")), "/etc");
    assert_eq!(join_child("/home/u/", Some("f")), "/home/u/f");
    assert_eq!(join_child("/home/u", Some("")), "/home/u");
    assert_eq!(join_child("/home/u", None), "/home/u");
    assert!(journal_tails(&["/".to_string()]).is_empty());
}
