use instant_file_search::walk::{
    entry_from_stat, stat_is_dir, walk_step, StatTimes, WalkStep,
    mount_candidates, pick_mounts, synthesize_attributes, to_filetime, volume_of_with,
    FILE_ATTRIBUTE_ARCHIVE, FILE_ATTRIBUTE_DIRECTORY, FILE_ATTRIBUTE_HIDDEN, FILE_ATTRIBUTE_READONLY,
};

const SAMPLE_MOUNTS: &str = "sysfs /sys sysfs rw,nosuid 0 0\n\
proc /proc proc rw 0 0\n\
/dev/sda1 / ext4 rw,relatime 0 0\n\
/dev/sda2 /home ext4 rw 0 0\n\
tmpfs /run tmpfs rw 0 0\n\
/dev/sdb1 /mnt/my\\040disk xfs rw 0 0\n";

/// Mount points as the daemon derives them: candidates from the mount table,
/// each paired with its device number, then one mount per device.
fn discover_volumes() -> Vec<String> {
    let cands: Vec<(u64, String)> = mount_candidates(SAMPLE_MOUNTS)
        .into_iter()
        .enumerate()
        .map(|(i, m)| (i as u64 + 1, m))
        .collect();
    pick_mounts(&cands)
}

#[test]
fn discover_volumes_returns_mount_points() {
    let vols = discover_volumes();
    assert!(!vols.is_empty(), "discover_volumes should return at least /");
    for v in &vols {
        assert!(v.starts_with('/'), "mount point should start with /: {v}");
    }
    assert!(vols.contains(&"/".to_string()));
    assert!(vols.contains(&"/home".to_string()));
    assert!(vols.contains(&"/mnt/my disk".to_string()));
    assert!(!vols.contains(&"/proc".to_string()));
}

#[test]
fn volume_of_longest_mount() {
    let mounts = vec!["/".to_string(), "/home".to_string()];
    assert_eq!(volume_of_with(&mounts, "/home/user/x"), "/home");
    assert_eq!(volume_of_with(&mounts, "/etc/passwd"), "/");
    assert_eq!(volume_of_with(&mounts, "/home"), "/home");
    assert_eq!(volume_of_with(&mounts, "/"), "/");
    assert_eq!(volume_of_with(&mounts, "foo"), "foo");
    assert_eq!(volume_of_with(&mounts, "/opt/foo"), "/");
}

#[test]
fn to_filetime_epoch() {
    assert_eq!(to_filetime(0, 0), 0);
    assert_eq!(to_filetime(1, 500), 116_444_736_010_000_005);
}

#[test]
fn synthesize_attributes_hidden_dir() {
    let mode = 0o040755;
    let attrs = synthesize_attributes(mode, true, ".hidden_dir");
    assert_ne!(attrs & FILE_ATTRIBUTE_DIRECTORY, 0);
    assert_ne!(attrs & FILE_ATTRIBUTE_HIDDEN, 0);
    assert_eq!(attrs & FILE_ATTRIBUTE_READONLY, 0, "should not be readonly (has write bits)");
}

#[test]
fn synthesize_attributes_readonly() {
    let mode = 0o100444;
    let attrs = synthesize_attributes(mode, false, "readonly.txt");
    assert_ne!(attrs & FILE_ATTRIBUTE_READONLY, 0);
    assert_eq!(attrs & FILE_ATTRIBUTE_DIRECTORY, 0);
    assert_ne!(attrs & FILE_ATTRIBUTE_ARCHIVE, 0);
}

#[test]
fn mount_table_keeps_disk_filesystems() {
    let table = "proc /proc proc rw 0 0\n/dev/sda1 / ext4 rw 0 0\n  \n/dev/sdb1 /mnt/my\\040disk xfs rw 0 0\ntmpfs /tmp tmpfs rw 0 0\nshort line\n";
    assert_eq!(mount_candidates(table), vec!["/".to_string(), "/mnt/my disk".to_string()]);
}

#[test]
fn pick_mounts_longest_per_device_sorted_root_first() {
    let cands = vec![
        (1u64, "/".to_string()),
        (2, "/zeta".to_string()),
        (2, "/zeta/inner".to_string()),
        (3, "/alpha".to_string()),
    ];
    assert_eq!(pick_mounts(&cands), vec!["/", "/alpha", "/zeta/inner"]);
    assert_eq!(pick_mounts(&vec![]), vec!["/"]);
}

#[test]
fn walk_steps_skip_links_and_other_devices() {
    assert_eq!(walk_step(true, false, 1, 1), WalkStep::Skip);
    assert_eq!(walk_step(true, true, 1, 1), WalkStep::Skip);
    assert_eq!(walk_step(false, true, 2, 1), WalkStep::Skip);
    assert_eq!(walk_step(false, true, 1, 1), WalkStep::IndexAndDescend);
    assert_eq!(walk_step(false, false, 2, 1), WalkStep::Index);
}

#[test]
fn stat_entries_follow_the_walk_rules() {
    let t = StatTimes { btime: Some((0, 0)), ctime: (5, 0), mtime: (7, 300), atime: (9, 0) };
    let f = entry_from_stat("/d/x.txt".to_string(), "x.txt", false, 42, 0o100644, 77, t);
    assert_eq!(f.file_ref, 77);
    assert_eq!(f.size, 42);
    assert_eq!(f.created, to_filetime(5, 0), "a zero birth time falls back to ctime");
    assert_eq!(f.modified, to_filetime(7, 300));
    assert_eq!(f.accessed, to_filetime(9, 0));
    assert_eq!(f.attributes, FILE_ATTRIBUTE_ARCHIVE);
    assert_eq!(f.name, "x.txt");
    let t = StatTimes { btime: Some((3, 0)), ctime: (5, 0), mtime: (7, 0), atime: (9, 0) };
    let d = entry_from_stat("/d/.sub".to_string(), ".sub", true, 4096, 0o040555, 8, t);
    assert_eq!(d.size, 0);
    assert_eq!(d.created, to_filetime(3, 0));
    assert_eq!(d.attributes, FILE_ATTRIBUTE_DIRECTORY | FILE_ATTRIBUTE_HIDDEN | FILE_ATTRIBUTE_READONLY);
    let t = StatTimes { btime: None, ctime: (0, 0), mtime: (7, 0), atime: (9, 0) };
    let g = entry_from_stat("/g".to_string(), "g", false, 1, 0o100644, 1, t);
    assert_eq!(g.created, to_filetime(7, 0));
    assert!(stat_is_dir(0o040755, false));
    assert!(!stat_is_dir(0o100644, true));
    assert!(stat_is_dir(0o120777, true));
    assert!(!stat_is_dir(0o120777, false));
}
