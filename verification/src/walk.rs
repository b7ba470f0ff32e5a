//! The decisions of the Linux directory-walk backend: Windows-style
//! attributes and FILETIMEs synthesized from `statx` fields, the mount a path
//! lives under, and the real-disk mounts listed in `/proc/self/mounts`.
use vstd::prelude::*;
use crate::seqs::has_prefix;
use crate::types::IndexedFile;
use crate::text::{chars_of, is_white, string_from_chars};
use crate::query::strings_view;
use crate::sort::{lex_order, lex_order_exec, lemma_lex_antisym, lemma_lex_trans};
use vstd::utf8::encode_utf8;

verus! {

/// `FILE_ATTRIBUTE_READONLY`.
pub const FILE_ATTRIBUTE_READONLY: u32 = 0x0001;
/// `FILE_ATTRIBUTE_HIDDEN`.
pub const FILE_ATTRIBUTE_HIDDEN: u32 = 0x0002;
/// `FILE_ATTRIBUTE_DIRECTORY`.
pub const FILE_ATTRIBUTE_DIRECTORY: u32 = 0x0010;
/// `FILE_ATTRIBUTE_ARCHIVE`.
pub const FILE_ATTRIBUTE_ARCHIVE: u32 = 0x0020;

/// File-type bits of a `statx` mode.
pub const S_IFMT: u16 = 0o170000;
/// Regular-file type of a `statx` mode.
pub const S_IFREG: u16 = 0o100000;

/// Seconds from 1601-01-01 to 1970-01-01.
pub const FILETIME_EPOCH_OFFSET: i64 = 11_644_473_600;

/// The FILETIME (100 ns since 1601) of a `statx` timestamp; 0 where the
/// seconds are 0 (timestamp unavailable).
pub open spec fn spec_filetime(sec: i64, nsec: u32) -> int {
    if sec == 0 {
        0
    } else {
        (sec + 11_644_473_600) * 10_000_000 + nsec / 100
    }
}

/// The timestamps whose FILETIME fits an `i64`.
pub open spec fn filetime_fits(sec: i64, nsec: u32) -> bool {
    i64::MIN <= spec_filetime(sec, nsec) <= i64::MAX && i64::MIN <= (sec + 11_644_473_600)
        * 10_000_000 <= i64::MAX
}

pub fn to_filetime(sec: i64, nsec: u32) -> (r: i64)
    requires
        sec == 0 || filetime_fits(sec, nsec),
    ensures
        r == spec_filetime(sec, nsec),
{
    if sec == 0 {
        return 0;
    }
    (sec + FILETIME_EPOCH_OFFSET) * 10_000_000 + (nsec as i64) / 100
}

/// The timestamps of a `statx` answer, each as seconds and nanoseconds since
/// 1970; the birth time only where the file system reports one.
pub struct StatTimes {
    pub btime: Option<(i64, u32)>,
    pub ctime: (i64, u32),
    pub mtime: (i64, u32),
    pub atime: (i64, u32),
}

/// A timestamp that [`to_filetime`] takes.
pub open spec fn time_ok(t: (i64, u32)) -> bool {
    t.0 == 0 || filetime_fits(t.0, t.1)
}

/// The creation FILETIME: the birth time where it is reported and its
/// seconds are not 0, else the change time where its seconds are not 0,
/// else the modification time.
pub open spec fn spec_created(t: StatTimes) -> int {
    match t.btime {
        Some(b) if b.0 != 0 => spec_filetime(b.0, b.1),
        _ => if t.ctime.0 != 0 {
            spec_filetime(t.ctime.0, t.ctime.1)
        } else {
            spec_filetime(t.mtime.0, t.mtime.1)
        },
    }
}

/// What the walk does with a directory entry: symlinks and directories on
/// another device are skipped, other directories are indexed and entered,
/// everything else is indexed.
#[derive(Debug, Clone, Copy, PartialEq, Eq, Structural)]
pub enum WalkStep {
    Skip,
    Index,
    IndexAndDescend,
}

pub fn walk_step(is_symlink: bool, is_dir: bool, dev: u64, root_dev: u64) -> (r: WalkStep)
    ensures
        r == (if is_symlink || (is_dir && dev != root_dev) {
            WalkStep::Skip
        } else if is_dir {
            WalkStep::IndexAndDescend
        } else {
            WalkStep::Index
        }),
{
    if is_symlink || (is_dir && dev != root_dev) {
        WalkStep::Skip
    } else if is_dir {
        WalkStep::IndexAndDescend
    } else {
        WalkStep::Index
    }
}

/// Whether a `stat`ed path is a directory: by the mode's file type where it
/// is a directory or a regular file, else as the caller's hint says.
pub fn stat_is_dir(mode: u16, hint: bool) -> (r: bool)
    ensures
        r == (if mode & 0o170000u16 == 0o040000u16 {
            true
        } else if mode & 0o170000u16 == 0o100000u16 {
            false
        } else {
            hint
        }),
{
    if mode & S_IFMT == 0o040000 {
        true
    } else if mode & S_IFMT == S_IFREG {
        false
    } else {
        hint
    }
}

/// The index entry of a walked or `stat`ed path: the inode is the file
/// reference, a directory has size 0, times are FILETIMEs (creation as
/// [`spec_created`]), attributes synthesized from the mode and the name.
pub fn entry_from_stat(
    path: String,
    name: &str,
    is_dir: bool,
    size: u64,
    mode: u16,
    ino: u64,
    t: StatTimes,
) -> (r: IndexedFile)
    requires
        t.btime matches Some(b) ==> time_ok(b),
        time_ok(t.ctime),
        time_ok(t.mtime),
        time_ok(t.atime),
    ensures
        r.derived_ok(),
        r.path@ == path@,
        r.file_ref == ino,
        r.is_dir == is_dir,
        r.size == (if is_dir {
            0
        } else {
            size
        }),
        r.created == spec_created(t),
        r.modified == spec_filetime(t.mtime.0, t.mtime.1),
        r.accessed == spec_filetime(t.atime.0, t.atime.1),
        r.attributes == spec_attributes(mode, is_dir, name@),
        r.parent_ref == 0,
        r.own_name@ == Seq::<char>::empty(),
{
    let created = match t.btime {
        Some(b) if b.0 != 0 => to_filetime(b.0, b.1),
        _ => if t.ctime.0 != 0 {
            to_filetime(t.ctime.0, t.ctime.1)
        } else {
            to_filetime(t.mtime.0, t.mtime.1)
        },
    };
    let modified = to_filetime(t.mtime.0, t.mtime.1);
    let accessed = to_filetime(t.atime.0, t.atime.1);
    let mut f = IndexedFile::new(
        path,
        if is_dir {
            0
        } else {
            size
        },
        created,
        modified,
        accessed,
        is_dir,
        ino,
    );
    f.attributes = synthesize_attributes(mode, is_dir, name);
    f
}

/// Windows attribute flags for a `statx` mode and file name: DIRECTORY for
/// directories, HIDDEN for dot-names, READONLY without any write bit,
/// ARCHIVE for regular files.
pub open spec fn spec_attributes(mode: u16, is_dir: bool, name: Seq<char>) -> u32 {
    ((if is_dir {
        0x10int
    } else {
        0
    }) + (if name.len() > 0 && name[0] == '.' {
        0x2int
    } else {
        0
    }) + (if mode & 0o222u16 == 0 {
        0x1int
    } else {
        0
    }) + (if mode & 0o170000u16 == 0o100000u16 {
        0x20int
    } else {
        0
    })) as u32
}

pub fn synthesize_attributes(mode: u16, is_dir: bool, name: &str) -> (r: u32)
    ensures
        r == spec_attributes(mode, is_dir, name@),
{
    let mut attrs: u32 = 0;
    if is_dir {
        attrs = attrs + FILE_ATTRIBUTE_DIRECTORY;
    }
    let v = chars_of(name);
    if v.len() > 0 && v[0] == '.' {
        attrs = attrs + FILE_ATTRIBUTE_HIDDEN;
    }
    if mode & 0o222 == 0 {
        attrs = attrs + FILE_ATTRIBUTE_READONLY;
    }
    if (mode & S_IFMT) == S_IFREG {
        attrs = attrs + FILE_ATTRIBUTE_ARCHIVE;
    }
    attrs
}

// ---------------------------------------------------------------------------
// Mounts
// ---------------------------------------------------------------------------

/// `path` is mount point `m` or lies under it.
pub open spec fn under_mount(path: Seq<char>, m: Seq<char>) -> bool {
    path == m || (has_prefix(path, m) && (path.len() == m.len() || path[m.len() as int] == '/'))
}

/// The longest mount in `mounts` that `path` lies under (the first of equal
/// length).
pub open spec fn best_mount(mounts: Seq<Seq<char>>, path: Seq<char>) -> Option<Seq<char>>
    decreases mounts.len(),
{
    if mounts.len() == 0 {
        None
    } else {
        let prev = best_mount(mounts.drop_last(), path);
        let m = mounts.last();
        if under_mount(path, m) && (match prev {
            Some(p) => p.len() < m.len(),
            None => true,
        }) {
            Some(m)
        } else {
            prev
        }
    }
}

/// Everything before the first `/` (the whole path without one).
pub open spec fn first_component(s: Seq<char>) -> Seq<char>
    decreases s.len(),
{
    if s.len() == 0 || s[0] == '/' {
        Seq::empty()
    } else {
        seq![s[0]] + first_component(s.skip(1))
    }
}

/// The volume of `path` given the mount table: the longest mount it lies
/// under; else `/` for an absolute path, or its first component.
pub open spec fn spec_volume_of(mounts: Seq<Seq<char>>, path: Seq<char>) -> Seq<char> {
    match best_mount(mounts, path) {
        Some(m) => m,
        None => if path.len() > 0 && path[0] == '/' {
            "/"@
        } else {
            first_component(path)
        },
    }
}

/// The volume of a path that lies under some mount is the longest mount it
/// lies under, and is one of the mounts; a path under no mount gets `/`
/// when absolute, else its first component.
pub proof fn law_volume_is_longest_mount(mounts: Seq<Seq<char>>, path: Seq<char>)
    ensures
        (exists|k: int| 0 <= k < mounts.len() && under_mount(path, #[trigger] mounts[k])) ==> {
            let v = spec_volume_of(mounts, path);
            &&& mounts.contains(v)
            &&& under_mount(path, v)
            &&& forall|k: int|
                0 <= k < mounts.len() && under_mount(path, #[trigger] mounts[k]) ==> mounts[k].len()
                    <= v.len()
        },
        (forall|k: int| 0 <= k < mounts.len() ==> !under_mount(path, #[trigger] mounts[k]))
            ==> spec_volume_of(mounts, path) == (if path.len() > 0 && path[0] == '/' {
            "/"@
        } else {
            first_component(path)
        }),
{
    lemma_best_mount(mounts, path);
    if exists|k: int| 0 <= k < mounts.len() && under_mount(path, #[trigger] mounts[k]) {
        let k = choose|k: int| 0 <= k < mounts.len() && under_mount(path, #[trigger] mounts[k]);
        assert(best_mount(mounts, path) is Some);
    }
}

proof fn lemma_best_mount(mounts: Seq<Seq<char>>, path: Seq<char>)
    ensures
        match best_mount(mounts, path) {
            Some(m) => {
                &&& mounts.contains(m)
                &&& under_mount(path, m)
                &&& forall|k: int|
                    0 <= k < mounts.len() && under_mount(path, #[trigger] mounts[k])
                        ==> mounts[k].len() <= m.len()
            },
            None => forall|k: int| 0 <= k < mounts.len() ==> !under_mount(path, #[trigger] mounts[k]),
        },
    decreases mounts.len(),
{
    if mounts.len() > 0 {
        let pre = mounts.drop_last();
        lemma_best_mount(pre, path);
        let last = mounts.len() - 1;
        assert forall|k: int| 0 <= k < pre.len() implies #[trigger] mounts[k] == pre[k] by {}
        match best_mount(mounts, path) {
            Some(m) => {
                if m == mounts[last] {
                    assert(mounts.contains(m)) by {
                        assert(mounts[last] == m);
                    }
                } else {
                    let j = choose|j: int| 0 <= j < pre.len() && pre[j] == m;
                    assert(mounts[j] == m);
                }
                assert forall|k: int| 0 <= k < mounts.len() && under_mount(path, #[trigger] mounts[k])
                    implies mounts[k].len() <= m.len() by {
                    if k < last {
                        assert(mounts[k] == pre[k]);
                    }
                }
            },
            None => {
                assert forall|k: int| 0 <= k < mounts.len() implies !under_mount(path, #[trigger] mounts[k]) by {
                    if k < last {
                        assert(mounts[k] == pre[k]);
                    }
                }
            },
        }
    }
}

fn under_mount_exec(path: &[char], m: &[char]) -> (r: bool)
    ensures
        r == under_mount(path@, m@),
{
    if crate::text::chars_eq(path, m) {
        return true;
    }
    if !crate::text::starts_with_chars(path, m) {
        return false;
    }
    path.len() == m.len() || path[m.len()] == '/'
}

/// The mount `path` lives under, by longest matching mount point.
pub fn volume_of_with(mounts: &[String], path: &str) -> (r: String)
    ensures
        r@ == spec_volume_of(strings_view(mounts@), path@),
{
    let p = chars_of(path);
    let mut best: Option<Vec<char>> = None;
    let mut i: usize = 0;
    proof {
        assert(strings_view(mounts@).take(0) =~= Seq::<Seq<char>>::empty());
    }
    while i < mounts.len()
        invariant
            i <= mounts@.len(),
            p@ == path@,
            match best_mount(strings_view(mounts@).take(i as int), path@) {
                Some(b) => (best matches Some(v) && v@ == b),
                None => best is None,
            },
        decreases mounts@.len() - i,
    {
        proof {
            assert(strings_view(mounts@).take(i as int + 1).drop_last() =~= strings_view(
                mounts@,
            ).take(i as int));
            assert(strings_view(mounts@).take(i as int + 1).last() == mounts@[i as int]@);
        }
        let m = chars_of(mounts[i].as_str());
        if under_mount_exec(&p, &m) {
            let better = match &best {
                Some(b) => b.len() < m.len(),
                None => true,
            };
            if better {
                best = Some(m);
            }
        }
        i += 1;
    }
    proof {
        assert(strings_view(mounts@).take(mounts@.len() as int) =~= strings_view(mounts@));
    }
    match best {
        Some(b) => string_from_chars(&b),
        None => {
            if p.len() > 0 && p[0] == '/' {
                "/".to_owned()
            } else {
                let mut k: usize = 0;
                proof {
                    assert(p@.skip(0) =~= p@);
                }
                while k < p.len() && p[k] != '/'
                    invariant
                        k <= p@.len(),
                        first_component(p@) == p@.take(k as int) + first_component(
                            p@.skip(k as int),
                        ),
                    decreases p@.len() - k,
                {
                    proof {
                        assert(p@.skip(k as int).skip(1) =~= p@.skip(k as int + 1));
                        assert(p@.take(k as int + 1) =~= p@.take(k as int) + seq![p@[k as int]]);
                    }
                    k += 1;
                }
                proof {
                    assert(p@.take(k as int) + Seq::<char>::empty() =~= p@.take(k as int));
                }
                let head = crate::text::slice_chars(&p, 0, k);
                proof {
                    assert(head@ =~= p@.take(k as int));
                }
                string_from_chars(&head)
            }
        },
    }
}


/// Filesystem types counted as real-disk volumes.
pub open spec fn disk_fstypes() -> Seq<Seq<char>> {
    seq![
        "ext2"@,
        "ext3"@,
        "ext4"@,
        "xfs"@,
        "btrfs"@,
        "f2fs"@,
        "vfat"@,
        "exfat"@,
        "ntfs"@,
        "ntfs3"@,
        "fuseblk"@,
        "zfs"@,
    ]
}

fn disk_fstype(k: usize) -> (r: &'static str)
    requires
        k < 12,
    ensures
        r@ == disk_fstypes()[k as int],
{
    if k == 0 {
        "ext2"
    } else if k == 1 {
        "ext3"
    } else if k == 2 {
        "ext4"
    } else if k == 3 {
        "xfs"
    } else if k == 4 {
        "btrfs"
    } else if k == 5 {
        "f2fs"
    } else if k == 6 {
        "vfat"
    } else if k == 7 {
        "exfat"
    } else if k == 8 {
        "ntfs"
    } else if k == 9 {
        "ntfs3"
    } else if k == 10 {
        "fuseblk"
    } else {
        "zfs"
    }
}

fn is_disk_fstype(s: &[char]) -> (r: bool)
    ensures
        r == disk_fstypes().contains(s@),
{
    let mut k: usize = 0;
    while k < 12
        invariant
            k <= 12,
            forall|j: int| 0 <= j < k ==> disk_fstypes()[j] != s@,
        decreases 12 - k,
    {
        if crate::seqs::eq_lit(s, disk_fstype(k)) {
            proof {
                assert(disk_fstypes()[k as int] == s@);
            }
            return true;
        }
        k += 1;
    }
    proof {
        if disk_fstypes().contains(s@) {
            let j = choose|j: int| 0 <= j < disk_fstypes().len() && disk_fstypes()[j] == s@;
            assert(disk_fstypes()[j] != s@);
        }
    }
    false
}

/// The words of `s`: maximal runs of non-whitespace (`split_whitespace`).
pub open spec fn ws_state(s: Seq<char>) -> (Seq<Seq<char>>, Seq<char>)
    decreases s.len(),
{
    if s.len() == 0 {
        (Seq::empty(), Seq::empty())
    } else {
        let (words, cur) = ws_state(s.drop_last());
        if is_white(s.last()) {
            (if cur.len() > 0 {
                words.push(cur)
            } else {
                words
            }, Seq::empty())
        } else {
            (words, cur.push(s.last()))
        }
    }
}

pub open spec fn ws_words(s: Seq<char>) -> Seq<Seq<char>> {
    let (words, cur) = ws_state(s);
    if cur.len() > 0 {
        words.push(cur)
    } else {
        words
    }
}

/// `s` with every `\040` (the escaped space of the mount table) turned into
/// a space, scanning left to right.
pub open spec fn unescape_space(s: Seq<char>) -> Seq<char>
    decreases s.len(),
{
    if s.len() == 0 {
        Seq::empty()
    } else if s.len() >= 4 && s.take(4) == "\\040"@ {
        seq![' '] + unescape_space(s.skip(4))
    } else {
        seq![s[0]] + unescape_space(s.skip(1))
    }
}

/// The mount point a table line names, where its filesystem type is a
/// real-disk one.
pub open spec fn line_mount(line: Seq<char>) -> Option<Seq<char>> {
    let w = ws_words(crate::text::trim(line));
    if w.len() >= 3 && disk_fstypes().contains(w[2]) {
        Some(unescape_space(w[1]))
    } else {
        None
    }
}

/// The real-disk mount points of a mount table, in table order.
pub open spec fn table_mounts(lines: Seq<Seq<char>>) -> Seq<Seq<char>>
    decreases lines.len(),
{
    if lines.len() == 0 {
        Seq::empty()
    } else {
        let r = table_mounts(lines.drop_last());
        match line_mount(lines.last()) {
            Some(m) => r.push(m),
            None => r,
        }
    }
}

fn ws_words_exec(s: &[char]) -> (r: Vec<Vec<char>>)
    ensures
        crate::everything::vviews(r@) == ws_words(s@),
{
    let mut words: Vec<Vec<char>> = Vec::new();
    let mut cur: Vec<char> = Vec::new();
    let mut i: usize = 0;
    proof {
        assert(s@.take(0) =~= Seq::<char>::empty());
        assert(crate::everything::vviews(words@) =~= Seq::<Seq<char>>::empty());
    }
    while i < s.len()
        invariant
            i <= s@.len(),
            ws_state(s@.take(i as int)) == (crate::everything::vviews(words@), cur@),
        decreases s@.len() - i,
    {
        proof {
            assert(s@.take(i as int + 1).drop_last() =~= s@.take(i as int));
        }
        let c = s[i];
        if crate::text::is_whitespace(c) {
            if cur.len() > 0 {
                let ghost before = crate::everything::vviews(words@);
                let done = cur;
                words.push(done);
                proof {
                    assert(crate::everything::vviews(words@) =~= before.push(done@));
                }
            }
            cur = Vec::new();
        } else {
            cur.push(c);
        }
        i += 1;
    }
    proof {
        assert(s@.take(s@.len() as int) =~= s@);
    }
    if cur.len() > 0 {
        let ghost before = crate::everything::vviews(words@);
        let done = cur;
        words.push(done);
        proof {
            assert(crate::everything::vviews(words@) =~= before.push(done@));
        }
    }
    words
}

fn unescape_space_exec(s: &[char]) -> (r: Vec<char>)
    ensures
        r@ == unescape_space(s@),
{
    let mut out: Vec<char> = Vec::new();
    let mut i: usize = 0;
    proof {
        assert(s@.skip(0) =~= s@);
    }
    while i < s.len()
        invariant
            i <= s@.len(),
            out@ + unescape_space(s@.skip(i as int)) == unescape_space(s@),
        decreases s@.len() - i,
    {
        let ghost rest = s@.skip(i as int);
        if s.len() - i >= 4 && s[i] == '\\' && s[i + 1] == '0' && s[i + 2] == '4' && s[i + 3]
            == '0' {
            proof {
                reveal_strlit("\\040");
                assert(rest.take(4) =~= "\\040"@);
                assert(rest.skip(4) =~= s@.skip(i as int + 4));
                assert(out@.push(' ') + unescape_space(s@.skip(i as int + 4)) =~= out@ + (seq![' ']
                    + unescape_space(rest.skip(4))));
            }
            out.push(' ');
            i += 4;
        } else {
            proof {
                reveal_strlit("\\040");
                if rest.len() >= 4 {
                    assert(rest.take(4) != "\\040"@) by {
                        if rest.take(4) == "\\040"@ {
                            assert(rest.take(4)[0] == '\\');
                            assert(rest.take(4)[1] == '0');
                            assert(rest.take(4)[2] == '4');
                            assert(rest.take(4)[3] == '0');
                        }
                    }
                }
                assert(rest.skip(1) =~= s@.skip(i as int + 1));
                assert(out@.push(s@[i as int]) + unescape_space(s@.skip(i as int + 1)) =~= out@ + (
                seq![rest[0]] + unescape_space(rest.skip(1))));
            }
            out.push(s[i]);
            i += 1;
        }
    }
    proof {
        assert(out@ + Seq::<char>::empty() =~= out@);
    }
    out
}

fn line_mount_exec(line: &[char]) -> (r: Option<Vec<char>>)
    ensures
        match line_mount(line@) {
            Some(m) => (r matches Some(v) && v@ == m),
            None => r is None,
        },
{
    let t = crate::text::trim_vec(line);
    let w = ws_words_exec(&t);
    proof {
        assert(crate::everything::vviews(w@).len() == w@.len());
    }
    if w.len() >= 3 {
        proof {
            assert(crate::everything::vviews(w@)[2] == w@[2]@);
            assert(crate::everything::vviews(w@)[1] == w@[1]@);
        }
        if is_disk_fstype(&w[2]) {
            return Some(unescape_space_exec(&w[1]));
        }
    }
    None
}

/// The real-disk mount points named by a mount table (such as the text of
/// `/proc/self/mounts`), in table order, with `\040` read as a space.
pub fn mount_candidates(content: &str) -> (r: Vec<String>)
    ensures
        strings_view(r@) == table_mounts(crate::tokenize::split_char(content@, '\n')),
{
    let s = chars_of(content);
    let mut out: Vec<String> = Vec::new();
    let mut cur: Vec<char> = Vec::new();
    let ghost mut done: Seq<Seq<char>> = Seq::empty();
    let mut i: usize = 0;
    proof {
        assert(s@.take(0) =~= Seq::<char>::empty());
        assert(strings_view(out@) =~= Seq::<Seq<char>>::empty());
    }
    while i < s.len()
        invariant
            i <= s@.len(),
            s@ == content@,
            crate::tokenize::split_char(s@.take(i as int), '\n') == done.push(cur@),
            strings_view(out@) == table_mounts(done),
        decreases s@.len() - i,
    {
        proof {
            assert(s@.take(i as int + 1).drop_last() =~= s@.take(i as int));
        }
        if s[i] == '\n' {
            match line_mount_exec(&cur) {
                Some(m) => {
                    let ghost before = strings_view(out@);
                    let ms = string_from_chars(&m);
                    out.push(ms);
                    proof {
                        assert(strings_view(out@) =~= before.push(m@));
                    }
                },
                None => {},
            }
            proof {
                assert(done.push(cur@).drop_last() =~= done);
                done = done.push(cur@);
            }
            cur = Vec::new();
            proof {
                assert(crate::tokenize::split_char(s@.take(i as int + 1), '\n') =~= done.push(cur@));
            }
        } else {
            let ghost old_cur = cur@;
            cur.push(s[i]);
            proof {
                assert(done.push(old_cur).update(done.len() as int, old_cur.push(s@[i as int]))
                    =~= done.push(cur@));
            }
        }
        i += 1;
    }
    proof {
        assert(s@.take(s@.len() as int) =~= s@);
        assert(done.push(cur@).drop_last() =~= done);
    }
    match line_mount_exec(&cur) {
        Some(m) => {
            let ghost before = strings_view(out@);
            let ms = string_from_chars(&m);
            out.push(ms);
            proof {
                assert(strings_view(out@) =~= before.push(m@));
            }
        },
        None => {},
    }
    out
}


/// Byte length of a string's UTF-8 form.
pub open spec fn byte_len(s: Seq<char>) -> nat {
    encode_utf8(s).len()
}

/// Index of the pair of device `d`, or -1.
pub open spec fn find_dev(bp: Seq<(u64, Seq<char>)>, d: u64) -> int
    decreases bp.len(),
{
    if bp.len() == 0 {
        -1
    } else {
        let r = find_dev(bp.drop_last(), d);
        if r >= 0 {
            r
        } else if bp.last().0 == d {
            bp.len() - 1
        } else {
            -1
        }
    }
}

/// Per device, the first of the longest (in bytes) mount points, in order
/// of each device's first appearance.
pub open spec fn best_by_dev(c: Seq<(u64, Seq<char>)>) -> Seq<(u64, Seq<char>)>
    decreases c.len(),
{
    if c.len() == 0 {
        Seq::empty()
    } else {
        let bp = best_by_dev(c.drop_last());
        let x = c.last();
        let j = find_dev(bp, x.0);
        if j < 0 {
            bp.push(x)
        } else if byte_len(bp[j].1) >= byte_len(x.1) {
            bp
        } else {
            bp.update(j, x)
        }
    }
}

/// The mount points other than `/`.
pub open spec fn non_root(ms: Seq<Seq<char>>) -> Seq<Seq<char>>
    decreases ms.len(),
{
    if ms.len() == 0 {
        Seq::empty()
    } else {
        let r = non_root(ms.drop_last());
        if ms.last() == "/"@ {
            r
        } else {
            r.push(ms.last())
        }
    }
}

/// Strings in byte order (the order of `String`'s `Ord`).
pub open spec fn str_le(a: Seq<char>, b: Seq<char>) -> bool {
    lex_order(encode_utf8(a), encode_utf8(b)) <= 0
}

pub open spec fn str_sorted(s: Seq<Seq<char>>) -> bool {
    forall|p: int, q: int| 0 <= p < q < s.len() ==> str_le(#[trigger] s[p], #[trigger] s[q])
}

proof fn lemma_find_dev(bp: Seq<(u64, Seq<char>)>, d: u64)
    ensures
        -1 <= find_dev(bp, d) < bp.len(),
        find_dev(bp, d) >= 0 ==> bp[find_dev(bp, d)].0 == d,
        forall|k: int| 0 <= k < bp.len() && (find_dev(bp, d) < 0 || k < find_dev(bp, d)) ==> (
        #[trigger] bp[k]).0 != d,
    decreases bp.len(),
{
    if bp.len() > 0 {
        lemma_find_dev(bp.drop_last(), d);
        assert forall|k: int|
            0 <= k < bp.len() && (find_dev(bp, d) < 0 || k < find_dev(bp, d)) implies (
        #[trigger] bp[k]).0 != d by {
            if k < bp.len() - 1 {
                assert(bp.drop_last()[k] == bp[k]);
            }
        }
        if find_dev(bp.drop_last(), d) >= 0 {
            assert(bp.drop_last()[find_dev(bp.drop_last(), d)] == bp[find_dev(bp, d)]);
        }
    }
}

pub open spec fn pairs_view(v: Seq<(u64, String)>) -> Seq<(u64, Seq<char>)> {
    v.map_values(|x: (u64, String)| (x.0, x.1@))
}

fn find_dev_exec(bp: &Vec<(u64, String)>, d: u64) -> (r: Option<usize>)
    ensures
        match r {
            Some(j) => find_dev(pairs_view(bp@), d) == j && j < bp@.len(),
            None => find_dev(pairs_view(bp@), d) == -1,
        },
{
    let ghost pv = pairs_view(bp@);
    let mut k: usize = 0;
    while k < bp.len()
        invariant
            k <= bp@.len(),
            pv == pairs_view(bp@),
            forall|q: int| 0 <= q < k ==> (#[trigger] bp@[q]).0 != d,
        decreases bp@.len() - k,
    {
        if bp[k].0 == d {
            proof {
                lemma_find_dev(pv, d);
                let f = find_dev(pv, d);
                assert(pv[k as int] == (bp@[k as int].0, bp@[k as int].1@));
                if 0 <= f < k {
                    assert(pv[f] == (bp@[f].0, bp@[f].1@));
                }
            }
            return Some(k);
        }
        k += 1;
    }
    proof {
        lemma_find_dev(pv, d);
        let f = find_dev(pv, d);
        if f >= 0 {
            assert(pv[f] == (bp@[f].0, bp@[f].1@));
        }
    }
    None
}

fn str_le_exec(a: &String, b: &String) -> (r: bool)
    ensures
        r == str_le(a@, b@),
{
    lex_order_exec(a.as_str().as_bytes(), b.as_str().as_bytes()) <= 0
}

/// Insert `x` into the sorted `v`, keeping it sorted.
fn insert_sorted(v: &mut Vec<String>, x: String)
    requires
        str_sorted(strings_view(old(v)@)),
    ensures
        str_sorted(strings_view(final(v)@)),
        strings_view(final(v)@).to_multiset() == strings_view(old(v)@).to_multiset().insert(x@),
{
    let ghost s0 = strings_view(v@);
    let mut k: usize = 0;
    while k < v.len() && str_le_exec(&v[k], &x)
        invariant
            k <= v@.len(),
            s0 == strings_view(v@),
            str_sorted(s0),
            forall|p: int| 0 <= p < k ==> str_le(#[trigger] s0[p], x@),
        decreases v@.len() - k,
    {
        k += 1;
    }
    proof {
        if k < v@.len() {
            lemma_lex_antisym(encode_utf8(s0[k as int]), encode_utf8(x@));
        }
    }
    let ghost xv = x@;
    v.insert(k, x);
    proof {
        let s1 = strings_view(v@);
        assert(s1 =~= s0.insert(k as int, xv));
        assert forall|p: int, q: int| 0 <= p < q < s1.len() implies str_le(
            #[trigger] s1[p],
            #[trigger] s1[q],
        ) by {
            if q < k {
                assert(s1[p] == s0[p] && s1[q] == s0[q]);
            } else if q == k {
                assert(s1[p] == s0[p]);
            } else if p == k {
                assert(s1[q] == s0[q - 1]);
                if q - 1 == k {
                    crate::sort::lemma_lex_eq(encode_utf8(s0[k as int]), encode_utf8(s0[k as int]));
                }
                assert(str_le(s0[k as int], s0[q - 1]));
                lemma_lex_trans(encode_utf8(xv), encode_utf8(s0[k as int]), encode_utf8(s0[q - 1]));
            } else if p < k {
                assert(s1[p] == s0[p] && s1[q] == s0[q - 1]);
            } else {
                assert(s1[p] == s0[p - 1] && s1[q] == s0[q - 1]);
            }
        }
        assert(s1.remove(k as int) =~= s0);
        s1.to_multiset_ensures();
        assert(s1.to_multiset().remove(xv) =~= s0.to_multiset());
        assert(s1.to_multiset().count(xv) > 0);
        assert(s1.to_multiset() =~= s0.to_multiset().insert(xv));
    }
}

/// The volume list from mount candidates `(device, mount point)`: per device
/// the longest mount point, `/` first, the rest in byte order.
pub fn pick_mounts(cands: &Vec<(u64, String)>) -> (r: Vec<String>)
    ensures
        r@.len() >= 1,
        r@[0]@ == "/"@,
        str_sorted(strings_view(r@).drop_first()),
        strings_view(r@).drop_first().to_multiset() == non_root(
            best_by_dev(pairs_view(cands@)).map_values(|x: (u64, Seq<char>)| x.1),
        ).to_multiset(),
{
    // Longest mount point per device.
    let mut bp: Vec<(u64, String)> = Vec::new();
    let mut i: usize = 0;
    proof {
        assert(pairs_view(cands@).take(0) =~= Seq::<(u64, Seq<char>)>::empty());
        assert(pairs_view(bp@) =~= Seq::<(u64, Seq<char>)>::empty());
    }
    while i < cands.len()
        invariant
            i <= cands@.len(),
            pairs_view(bp@) == best_by_dev(pairs_view(cands@).take(i as int)),
        decreases cands@.len() - i,
    {
        proof {
            assert(pairs_view(cands@).take(i as int + 1).drop_last() =~= pairs_view(cands@).take(
                i as int,
            ));
            assert(pairs_view(cands@).take(i as int + 1).last() == (
                cands@[i as int].0,
                cands@[i as int].1@,
            ));
        }
        let d = cands[i].0;
        let ghost before = pairs_view(bp@);
        match find_dev_exec(&bp, d) {
            None => {
                bp.push((d, cands[i].1.clone()));
                proof {
                    assert(pairs_view(bp@) =~= before.push((d, cands@[i as int].1@)));
                }
            },
            Some(j) => {
                proof {
                    assert(before[j as int] == (bp@[j as int].0, bp@[j as int].1@));
                }
                if bp[j].1.as_str().as_bytes().len() < cands[i].1.as_str().as_bytes().len() {
                    bp.set(j, (d, cands[i].1.clone()));
                    proof {
                        assert(pairs_view(bp@) =~= before.update(
                            j as int,
                            (d, cands@[i as int].1@),
                        ));
                    }
                }
            },
        }
        i += 1;
    }
    proof {
        assert(pairs_view(cands@).take(cands@.len() as int) =~= pairs_view(cands@));
    }
    let ghost vals = best_by_dev(pairs_view(cands@)).map_values(|x: (u64, Seq<char>)| x.1);
    // Sorted, without the root.
    let mut sorted: Vec<String> = Vec::new();
    let mut k: usize = 0;
    proof {
        assert(vals.take(0) =~= Seq::<Seq<char>>::empty());
        assert(strings_view(sorted@) =~= Seq::<Seq<char>>::empty());
    }
    while k < bp.len()
        invariant
            k <= bp@.len(),
            vals.len() == bp@.len(),
            forall|q: int| 0 <= q < bp@.len() ==> #[trigger] vals[q] == bp@[q].1@,
            str_sorted(strings_view(sorted@)),
            strings_view(sorted@).to_multiset() == non_root(vals.take(k as int)).to_multiset(),
        decreases bp@.len() - k,
    {
        proof {
            assert(vals.take(k as int + 1).drop_last() =~= vals.take(k as int));
            assert(vals.take(k as int + 1).last() == vals[k as int]);
        }
        let m = bp[k].1.clone();
        let is_root = crate::seqs::eq_lit(&chars_of(m.as_str()), "/");
        if !is_root {
            let ghost before = non_root(vals.take(k as int));
            insert_sorted(&mut sorted, m);
            proof {
                before.to_multiset_ensures();
                assert(non_root(vals.take(k as int + 1)) == before.push(vals[k as int]));
            }
        }
        k += 1;
    }
    proof {
        assert(vals.take(bp@.len() as int) =~= vals);
    }
    let mut out: Vec<String> = Vec::new();
    out.push("/".to_owned());
    let ghost head = strings_view(out@);
    let mut j: usize = 0;
    while j < sorted.len()
        invariant
            j <= sorted@.len(),
            out@.len() == j + 1,
            out@[0]@ == "/"@,
            strings_view(out@).drop_first() == strings_view(sorted@).take(j as int),
        decreases sorted@.len() - j,
    {
        let ghost before = strings_view(out@);
        out.push(sorted[j].clone());
        j += 1;
        proof {
            assert(strings_view(out@) =~= before.push(sorted@[j - 1]@));
            assert(strings_view(out@).drop_first() =~= strings_view(sorted@).take(j as int));
        }
    }
    proof {
        assert(strings_view(sorted@).take(sorted@.len() as int) =~= strings_view(sorted@));
    }
    out
}


/// Whether two byte strings are equal.
pub fn bytes_eq(a: &[u8], b: &[u8]) -> (r: bool)
    ensures
        r == (a@ == b@),
{
    if a.len() != b.len() {
        return false;
    }
    let mut i: usize = 0;
    while i < a.len()
        invariant
            i <= a@.len(),
            a@.len() == b@.len(),
            forall|q: int| 0 <= q < i ==> a@[q] == b@[q],
        decreases a@.len() - i,
    {
        if a[i] != b[i] {
            return false;
        }
        i += 1;
    }
    proof {
        assert(a@ =~= b@);
    }
    true
}

} // verus!
