//! Parsing of raw NTFS `FILE` records, the way the volume scanner reads the
//! `$MFT` data stream: signature check, update-sequence-array fixup, then a
//! walk over the record's attributes collecting `$STANDARD_INFORMATION`
//! times and flags, every `$FILE_NAME` link and the `$DATA` size.
use vstd::prelude::*;
use std::collections::HashMap;
use vstd::hash_map::StringHashMap;
use crate::types::{IndexedFile, rfind_char, rfind_char_exec};
use crate::index::with_size;
use crate::text::{chars_of, string_from_chars};
use crate::tokenize::{trim_end_char, trim_end_char_exec};

verus! {

/// `$STANDARD_INFORMATION` attribute type.
pub const ATTR_STD_INFO: u32 = 0x10;
/// `$FILE_NAME` attribute type.
pub const ATTR_FILE_NAME: u32 = 0x30;
/// `$DATA` attribute type.
pub const ATTR_DATA: u32 = 0x80;
/// End-of-attributes marker.
pub const ATTR_END: u32 = 0xFFFF_FFFF;

// ---------------------------------------------------------------------------
// Little-endian fields
// ---------------------------------------------------------------------------

pub open spec fn u16_at(b: Seq<u8>, i: int) -> int {
    b[i] as int + 256 * (b[i + 1] as int)
}

pub open spec fn u32_at(b: Seq<u8>, i: int) -> int {
    u16_at(b, i) + 65536 * u16_at(b, i + 2)
}

pub open spec fn u64_at(b: Seq<u8>, i: int) -> int {
    u32_at(b, i) + 4294967296 * u32_at(b, i + 4)
}

/// Two's-complement reading of the eight bytes at `i`.
pub open spec fn i64_at(b: Seq<u8>, i: int) -> int {
    let u = u64_at(b, i);
    if u < 0x8000_0000_0000_0000 {
        u
    } else {
        u - 0x1_0000_0000_0000_0000
    }
}

/// Two's-complement reading of one byte.
pub open spec fn i8_of(x: u8) -> i8 {
    if x < 128 {
        x as i8
    } else {
        (x - 256) as i8
    }
}

pub fn read_u16(b: &[u8], i: usize) -> (r: u16)
    requires
        i + 2 <= b@.len(),
    ensures
        r == u16_at(b@, i as int),
{
    (b[i] as u16) + (b[i + 1] as u16) * 256
}

pub fn read_u32(b: &[u8], i: usize) -> (r: u32)
    requires
        i + 4 <= b@.len(),
    ensures
        r == u32_at(b@, i as int),
{
    let _n = b.len();
    let lo = read_u16(b, i);
    let hi = read_u16(b, i + 2);
    (lo as u32) + (hi as u32) * 65536
}

pub fn read_u64(b: &[u8], i: usize) -> (r: u64)
    requires
        i + 8 <= b@.len(),
    ensures
        r == u64_at(b@, i as int),
{
    let _n = b.len();
    let lo = read_u32(b, i);
    let hi = read_u32(b, i + 4);
    (lo as u64) + (hi as u64) * 4294967296
}

pub fn read_i64(b: &[u8], i: usize) -> (r: i64)
    requires
        i + 8 <= b@.len(),
    ensures
        r == i64_at(b@, i as int),
{
    let u = read_u64(b, i);
    if u < 0x8000_0000_0000_0000 {
        u as i64
    } else {
        ((u - 0x8000_0000_0000_0000) as i64) - 0x7FFF_FFFF_FFFF_FFFF - 1
    }
}

fn byte_as_i8(x: u8) -> (r: i8)
    ensures
        r == i8_of(x),
{
    if x < 128 {
        x as i8
    } else {
        ((x as i16) - 256) as i8
    }
}

// ---------------------------------------------------------------------------
// UTF-16 names
// ---------------------------------------------------------------------------

/// UTF-16 decoding with every unpaired surrogate replaced by U+FFFD.
pub open spec fn utf16_lossy(u: Seq<u16>) -> Seq<char>
    decreases u.len(),
{
    if u.len() == 0 {
        Seq::empty()
    } else {
        let a = u[0] as int;
        if a < 0xD800 || a > 0xDFFF {
            seq![a as char] + utf16_lossy(u.skip(1))
        } else if a <= 0xDBFF && u.len() >= 2 && 0xDC00 <= u[1] <= 0xDFFF {
            seq![(0x10000 + (a - 0xD800) * 0x400 + (u[1] - 0xDC00)) as char] + utf16_lossy(
                u.skip(2),
            )
        } else {
            seq!['\u{FFFD}'] + utf16_lossy(u.skip(1))
        }
    }
}

/// `String::from_utf16_lossy`: decodes UTF-16, each unpaired surrogate
/// becoming U+FFFD.
#[verifier::external_body]
pub(crate) fn decode_utf16_lossy(units: &[u16]) -> (r: String)
    ensures
        r@ == utf16_lossy(units@),
{
    String::from_utf16_lossy(units)
}

// ---------------------------------------------------------------------------
// The attribute walk
// ---------------------------------------------------------------------------

/// What the attribute walk gathers from one record.
pub struct ScanV {
    /// `(parent record, name, namespace)` of every resident `$FILE_NAME`.
    pub names: Seq<(u64, Seq<char>, i8)>,
    pub created: i64,
    pub modified: i64,
    pub accessed: i64,
    pub size: u64,
    pub data_seen: bool,
    pub attributes: u32,
}

pub open spec fn init_scan() -> ScanV {
    ScanV {
        names: Seq::empty(),
        created: 0,
        modified: 0,
        accessed: 0,
        size: 0,
        data_seen: false,
        attributes: 0,
    }
}

/// Start of the resident value of the attribute at `off`.
pub open spec fn value_start(b: Seq<u8>, off: int) -> int {
    off + u16_at(b, off + 20)
}

/// End of the resident value of the attribute at `off`, clipped to the record.
pub open spec fn value_end(b: Seq<u8>, off: int) -> int {
    let e = value_start(b, off) + u32_at(b, off + 16);
    if e < b.len() {
        e
    } else {
        b.len() as int
    }
}

pub open spec fn std_info_step(v: Seq<u8>, st: ScanV) -> ScanV {
    let st1 = if v.len() >= 32 {
        ScanV {
            created: i64_at(v, 0) as i64,
            modified: i64_at(v, 8) as i64,
            accessed: i64_at(v, 24) as i64,
            ..st
        }
    } else {
        st
    };
    if v.len() >= 36 {
        ScanV { attributes: u32_at(v, 32) as u32, ..st1 }
    } else {
        st1
    }
}

pub open spec fn name_units(v: Seq<u8>, n: int) -> Seq<u16> {
    Seq::new(n as nat, |k: int| u16_at(v, 66 + 2 * k) as u16)
}

pub open spec fn file_name_step(v: Seq<u8>, st: ScanV) -> ScanV {
    if v.len() >= 66 {
        let p = (u64_at(v, 0) % 0x1_0000_0000_0000) as u64;
        let n = v[64] as int;
        if n > 0 && v.len() >= 66 + 2 * n {
            ScanV { names: st.names.push((p, utf16_lossy(name_units(v, n)), i8_of(v[65]))), ..st }
        } else {
            st
        }
    } else {
        st
    }
}

pub open spec fn data_step(b: Seq<u8>, off: int, st: ScanV) -> ScanV {
    if b[off + 8] != 0 {
        if !st.data_seen && off + 56 <= b.len() {
            ScanV { size: u64_at(b, off + 48) as u64, data_seen: true, ..st }
        } else {
            st
        }
    } else if !st.data_seen {
        ScanV { size: u32_at(b, off + 16) as u64, data_seen: true, ..st }
    } else {
        st
    }
}

/// One attribute's contribution; `None` where its value offset points past
/// the record.
pub open spec fn attr_step(b: Seq<u8>, off: int, st: ScanV) -> Option<ScanV> {
    let atype = u32_at(b, off);
    let resident = b[off + 8] == 0;
    if (atype == 0x10 || atype == 0x30) && resident {
        if value_start(b, off) > b.len() {
            None
        } else {
            let v = b.subrange(value_start(b, off), value_end(b, off));
            if atype == 0x10 {
                Some(std_info_step(v, st))
            } else {
                Some(file_name_step(v, st))
            }
        }
    } else if atype == 0x80 {
        Some(data_step(b, off, st))
    } else {
        Some(st)
    }
}

/// Walk the attributes from `off` to the end marker, the end of the record or
/// the first malformed length; `None` where a value offset points past the
/// record.
pub open spec fn walk_attrs(b: Seq<u8>, off: int, st: ScanV) -> Option<ScanV>
    decreases b.len() - off,
{
    if off < 0 || off + 8 > b.len() || u32_at(b, off) == 0xFFFF_FFFF {
        Some(st)
    } else {
        let alen = u32_at(b, off + 4);
        if alen < 24 || off + alen > b.len() {
            Some(st)
        } else {
            match attr_step(b, off, st) {
                Some(s2) => walk_attrs(b, off + alen, s2),
                None => None,
            }
        }
    }
}

// ---------------------------------------------------------------------------
// Choosing the links
// ---------------------------------------------------------------------------

/// Index of the first name recorded for parent `p`, or -1.
pub open spec fn find_parent(bp: Seq<(u64, Seq<char>, i8)>, p: u64) -> int
    decreases bp.len(),
{
    if bp.len() == 0 {
        -1
    } else {
        let r = find_parent(bp.drop_last(), p);
        if r >= 0 {
            r
        } else if bp.last().0 == p {
            bp.len() - 1
        } else {
            -1
        }
    }
}

/// Add one name: per parent the lowest namespace wins (Win32 over DOS 8.3);
/// a different name in the same namespace is a further link.
pub open spec fn place_name(bp: Seq<(u64, Seq<char>, i8)>, x: (u64, Seq<char>, i8)) -> Seq<
    (u64, Seq<char>, i8),
> {
    let j = find_parent(bp, x.0);
    if j < 0 {
        bp.push(x)
    } else if x.2 < bp[j].2 {
        bp.update(j, x)
    } else if x.2 == bp[j].2 && bp[j].1 != x.1 {
        bp.push(x)
    } else {
        bp
    }
}

pub open spec fn keep_names(names: Seq<(u64, Seq<char>, i8)>) -> Seq<(u64, Seq<char>, i8)>
    decreases names.len(),
{
    if names.len() == 0 {
        Seq::empty()
    } else {
        place_name(keep_names(names.drop_last()), names.last())
    }
}

pub open spec fn link_of(x: (u64, Seq<char>, i8)) -> (u64, Seq<char>) {
    (x.0, x.1)
}

// ---------------------------------------------------------------------------
// Whole records
// ---------------------------------------------------------------------------

/// What a record yields.
pub struct RecordV {
    pub size: u64,
    pub created: i64,
    pub modified: i64,
    pub accessed: i64,
    pub is_dir: bool,
    pub attributes: u32,
    /// `(parent record, name)` of every directory entry naming the file.
    pub links: Seq<(u64, Seq<char>)>,
}

pub enum RecordOutcome {
    /// Not an in-use `FILE` record, or one without a name.
    Skipped,
    Parsed(RecordV),
    /// An offset in the record points past its end.
    OutOfBounds,
}

/// The record body parsed from its first-attribute offset.
pub open spec fn record_body(b: Seq<u8>, is_dir: bool) -> RecordOutcome {
    match walk_attrs(b, u16_at(b, 0x14), init_scan()) {
        None => RecordOutcome::OutOfBounds,
        Some(st) => {
            let kept = keep_names(st.names);
            if kept.len() == 0 {
                RecordOutcome::Skipped
            } else {
                RecordOutcome::Parsed(
                    RecordV {
                        size: st.size,
                        created: st.created,
                        modified: st.modified,
                        accessed: st.accessed,
                        is_dir,
                        attributes: st.attributes,
                        links: kept.map_values(|x: (u64, Seq<char>, i8)| link_of(x)),
                    },
                )
            }
        },
    }
}

pub open spec fn usa_offset(b: Seq<u8>) -> int {
    u16_at(b, 4)
}

pub open spec fn usa_count(b: Seq<u8>) -> int {
    u16_at(b, 6)
}

/// Sector `i` (counting from 1) lies in the record and ends with the update
/// sequence number.
pub open spec fn sector_ok(b: Seq<u8>, i: int) -> bool {
    i * 512 <= b.len() && u16_at(b, i * 512 - 2) == u16_at(b, usa_offset(b))
}

/// The record is whole sectors, holds its update sequence array, and every
/// sector ends with the update sequence number.
pub open spec fn usa_consistent(b: Seq<u8>) -> bool {
    let uo = usa_offset(b);
    let uc = usa_count(b);
    &&& b.len() >= uo + 2 * uc
    &&& b.len() % 512 == 0
    &&& forall|i: int| 1 <= i < uc ==> #[trigger] sector_ok(b, i)
}

/// Restore the saved bytes at the end of sectors `i..n`.
pub open spec fn fixup(b: Seq<u8>, uo: int, i: int, n: int) -> Seq<u8>
    decreases n - i,
{
    if i >= n {
        b
    } else {
        let se = i * 512;
        let src = uo + 2 * i;
        fixup(b.update(se - 2, b[src]).update(se - 1, b[src + 1]), uo, i + 1, n)
    }
}

pub open spec fn is_file_sig(b: Seq<u8>) -> bool {
    b[0] == 0x46u8 && b[1] == 0x49u8 && b[2] == 0x4Cu8 && b[3] == 0x45u8
}

/// What one raw record yields.
pub open spec fn spec_file_record(b: Seq<u8>) -> RecordOutcome {
    if b.len() < 56 || !is_file_sig(b) {
        RecordOutcome::Skipped
    } else {
        let flags = u16_at(b, 0x16);
        if flags % 2 == 0 {
            RecordOutcome::Skipped
        } else {
            let is_dir = (flags / 2) % 2 == 1;
            let uo = usa_offset(b);
            let uc = usa_count(b);
            if uo > 0 && uc >= 2 {
                if uo + 2 > b.len() {
                    RecordOutcome::OutOfBounds
                } else if usa_consistent(b) {
                    record_body(fixup(b, uo, 1, uc), is_dir)
                } else {
                    record_body(b, is_dir)
                }
            } else {
                record_body(b, is_dir)
            }
        }
    }
}

/// The index entry and links produced for a parsed record.
pub open spec fn record_matches(e: IndexedFile, links: Seq<(u64, String)>, rv: RecordV, rn: u64) -> bool {
    &&& e.derived_ok()
    &&& e.path@ == Seq::<char>::empty()
    &&& e.size == rv.size
    &&& e.created == rv.created
    &&& e.modified == rv.modified
    &&& e.accessed == rv.accessed
    &&& e.is_dir == rv.is_dir
    &&& e.attributes == rv.attributes
    &&& e.file_ref == rn
    &&& e.parent_ref == 0
    &&& e.own_name@ == Seq::<char>::empty()
    &&& links.len() == rv.links.len()
    &&& forall|k: int|
        0 <= k < links.len() ==> (#[trigger] links[k]).0 == rv.links[k].0 && links[k].1@
            == rv.links[k].1
}


// ---------------------------------------------------------------------------
// Executable parser
// ---------------------------------------------------------------------------

/// One `$FILE_NAME` link as gathered.
pub struct NameLink {
    pub parent: u64,
    pub name: String,
    pub namespace: i8,
}

pub open spec fn link_view(x: NameLink) -> (u64, Seq<char>, i8) {
    (x.parent, x.name@, x.namespace)
}

pub open spec fn links_view(v: Seq<NameLink>) -> Seq<(u64, Seq<char>, i8)> {
    v.map_values(|x: NameLink| link_view(x))
}

struct AttrScan {
    names: Vec<NameLink>,
    created: i64,
    modified: i64,
    accessed: i64,
    size: u64,
    data_seen: bool,
    attributes: u32,
}

impl AttrScan {
    spec fn scan_view(&self) -> ScanV {
        ScanV {
            names: links_view(self.names@),
            created: self.created,
            modified: self.modified,
            accessed: self.accessed,
            size: self.size,
            data_seen: self.data_seen,
            attributes: self.attributes,
        }
    }
}

/// Fields read inside a sub-range are the fields of the whole record.
proof fn lemma_sub_fields(b: Seq<u8>, s: int, e: int, k: int)
    requires
        0 <= s <= e <= b.len(),
        0 <= k,
        s + k + 8 <= e,
    ensures
        u16_at(b.subrange(s, e), k) == u16_at(b, s + k),
        u32_at(b.subrange(s, e), k) == u32_at(b, s + k),
        u64_at(b.subrange(s, e), k) == u64_at(b, s + k),
        i64_at(b.subrange(s, e), k) == i64_at(b, s + k),
{
    let v = b.subrange(s, e);
    assert(v[k] == b[s + k]);
    assert(v[k + 1] == b[s + k + 1]);
    assert(v[k + 2] == b[s + k + 2]);
    assert(v[k + 3] == b[s + k + 3]);
    assert(v[k + 4] == b[s + k + 4]);
    assert(v[k + 5] == b[s + k + 5]);
    assert(v[k + 6] == b[s + k + 6]);
    assert(v[k + 7] == b[s + k + 7]);
}

proof fn lemma_sub_u16(b: Seq<u8>, s: int, e: int, k: int)
    requires
        0 <= s <= e <= b.len(),
        0 <= k,
        s + k + 2 <= e,
    ensures
        u16_at(b.subrange(s, e), k) == u16_at(b, s + k),
        u32_at(b.subrange(s, e), k) == u32_at(b, s + k) || s + k + 4 > e,
{
    let v = b.subrange(s, e);
    assert(v[k] == b[s + k]);
    assert(v[k + 1] == b[s + k + 1]);
    if s + k + 4 <= e {
        assert(v[k + 2] == b[s + k + 2]);
        assert(v[k + 3] == b[s + k + 3]);
    }
}

fn apply_std_info(b: &[u8], start: usize, end: usize, st: &mut AttrScan)
    requires
        start <= end <= b@.len(),
    ensures
        final(st).scan_view() == std_info_step(b@.subrange(start as int, end as int), old(st).scan_view()),
{
    let len = end - start;
    if len >= 32 {
        st.created = read_i64(b, start);
        st.modified = read_i64(b, start + 8);
        st.accessed = read_i64(b, start + 24);
        proof {
            lemma_sub_fields(b@, start as int, end as int, 0);
            lemma_sub_fields(b@, start as int, end as int, 8);
            lemma_sub_fields(b@, start as int, end as int, 24);
        }
    }
    if len >= 36 {
        st.attributes = read_u32(b, start + 32);
        proof {
            lemma_sub_u16(b@, start as int, end as int, 32);
        }
    }
}

fn apply_file_name(b: &[u8], start: usize, end: usize, st: &mut AttrScan)
    requires
        start <= end <= b@.len(),
    ensures
        final(st).scan_view() == file_name_step(b@.subrange(start as int, end as int), old(st).scan_view()),
{
    let ghost v = b@.subrange(start as int, end as int);
    let len = end - start;
    if len < 66 {
        return;
    }
    let raw = read_u64(b, start);
    let p = raw & 0x0000_FFFF_FFFF_FFFF;
    proof {
        lemma_sub_fields(b@, start as int, end as int, 0);
        assert(raw & 0x0000_FFFF_FFFF_FFFFu64 == raw % 0x1_0000_0000_0000u64) by (bit_vector);
    }
    let nl = b[start + 64] as usize;
    let ns = byte_as_i8(b[start + 65]);
    assert(v[64] == b@[start + 64]);
    assert(v[65] == b@[start + 65]);
    if nl > 0 && len - 66 >= 2 * nl {
        let mut units: Vec<u16> = Vec::new();
        let mut k: usize = 0;
        while k < nl
            invariant
                k <= nl,
                nl == v[64] as int,
                start + 66 + 2 * nl <= end,
                end <= b@.len(),
                v == b@.subrange(start as int, end as int),
                units@ == name_units(v, k as int),
            decreases nl - k,
        {
            let u = read_u16(b, start + 66 + 2 * k);
            proof {
                lemma_sub_u16(b@, start as int, end as int, 66 + 2 * k);
            }
            units.push(u);
            k += 1;
            proof {
                assert(units@ =~= name_units(v, k as int));
            }
        }
        let name = decode_utf16_lossy(units.as_slice());
        let ghost before = st.names@;
        st.names.push(NameLink { parent: p, name, namespace: ns });
        proof {
            assert(links_view(st.names@) =~= links_view(before).push((p, name@, ns)));
        }
    }
}

fn apply_data(b: &[u8], off: usize, st: &mut AttrScan)
    requires
        off + 24 <= b@.len(),
    ensures
        final(st).scan_view() == data_step(b@, off as int, old(st).scan_view()),
{
    let n = b.len();
    if b[off + 8] != 0 {
        if !st.data_seen && n - off >= 56 {
            st.size = read_u64(b, off + 48);
            st.data_seen = true;
        }
    } else if !st.data_seen {
        st.size = read_u32(b, off + 16) as u64;
        st.data_seen = true;
    }
}

/// Walk the attributes of a record from its first-attribute offset.
fn scan_attributes(b: &[u8]) -> (r: Option<AttrScan>)
    requires
        b@.len() >= 56,
    ensures
        match walk_attrs(b@, u16_at(b@, 0x14), init_scan()) {
            None => r is None,
            Some(st) => (r matches Some(s) && s.scan_view() == st),
        },
{
    let n = b.len();
    let first = read_u16(b, 0x14) as usize;
    let mut off = first;
    let mut st = AttrScan {
        names: Vec::new(),
        created: 0,
        modified: 0,
        accessed: 0,
        size: 0,
        data_seen: false,
        attributes: 0,
    };
    proof {
        assert(links_view(st.names@) =~= Seq::<(u64, Seq<char>, i8)>::empty());
    }
    while off < n && n - off >= 8
        invariant
            n == b@.len(),
            walk_attrs(b@, off as int, st.scan_view()) == walk_attrs(
                b@,
                u16_at(b@, 0x14),
                init_scan(),
            ),
        decreases n - off,
    {
        let atype = read_u32(b, off);
        if atype == ATTR_END {
            return Some(st);
        }
        let alen = read_u32(b, off + 4) as usize;
        if alen < 24 || alen > n - off {
            return Some(st);
        }
        let resident = b[off + 8] == 0;
        if (atype == ATTR_STD_INFO || atype == ATTR_FILE_NAME) && resident {
            let voff = read_u16(b, off + 20) as usize;
            let vlen = read_u32(b, off + 16) as usize;
            if voff > n - off {
                return None;
            }
            let start = off + voff;
            let end = if vlen < n - start {
                start + vlen
            } else {
                n
            };
            if atype == ATTR_STD_INFO {
                apply_std_info(b, start, end, &mut st);
            } else {
                apply_file_name(b, start, end, &mut st);
            }
        } else if atype == ATTR_DATA {
            apply_data(b, off, &mut st);
        }
        off = off + alen;
    }
    Some(st)
}


/// `find_parent` is the first index whose parent is `p`.
proof fn lemma_find_parent(bp: Seq<(u64, Seq<char>, i8)>, p: u64)
    ensures
        -1 <= find_parent(bp, p) < bp.len(),
        find_parent(bp, p) >= 0 ==> bp[find_parent(bp, p)].0 == p,
        forall|k: int| 0 <= k < bp.len() && (find_parent(bp, p) < 0 || k < find_parent(bp, p)) ==> (
        #[trigger] bp[k]).0 != p,
    decreases bp.len(),
{
    if bp.len() > 0 {
        lemma_find_parent(bp.drop_last(), p);
        assert forall|k: int|
            0 <= k < bp.len() && (find_parent(bp, p) < 0 || k < find_parent(bp, p)) implies (
        #[trigger] bp[k]).0 != p by {
            if k < bp.len() - 1 {
                assert(bp.drop_last()[k] == bp[k]);
            }
        }
        if find_parent(bp.drop_last(), p) >= 0 {
            assert(bp.drop_last()[find_parent(bp.drop_last(), p)] == bp[find_parent(bp, p)]);
        }
    }
}

fn find_slot(bp: &Vec<NameLink>, p: u64) -> (r: Option<usize>)
    ensures
        match r {
            Some(j) => find_parent(links_view(bp@), p) == j && j < bp@.len(),
            None => find_parent(links_view(bp@), p) == -1,
        },
{
    let ghost lv = links_view(bp@);
    let mut k: usize = 0;
    while k < bp.len()
        invariant
            k <= bp@.len(),
            lv == links_view(bp@),
            forall|q: int| 0 <= q < k ==> (#[trigger] bp@[q]).parent != p,
        decreases bp@.len() - k,
    {
        if bp[k].parent == p {
            proof {
                lemma_find_parent(lv, p);
                let f = find_parent(lv, p);
                assert(lv[k as int] == link_view(bp@[k as int]));
                if 0 <= f < k {
                    assert(lv[f] == link_view(bp@[f]));
                    assert(bp@[f].parent != p);
                }
            }
            return Some(k);
        }
        k += 1;
    }
    proof {
        lemma_find_parent(lv, p);
        let f = find_parent(lv, p);
        if f >= 0 {
            assert(lv[f] == link_view(bp@[f]));
            assert(bp@[f].parent == p);
        }
    }
    None
}

fn dup_link(x: &NameLink) -> (r: NameLink)
    ensures
        link_view(r) == link_view(*x),
{
    NameLink { parent: x.parent, name: x.name.clone(), namespace: x.namespace }
}

/// Keep, per parent, the lowest-namespace name; a different name in the same
/// namespace is a further link.
fn keep_links(names: &Vec<NameLink>) -> (r: Vec<NameLink>)
    ensures
        links_view(r@) == keep_names(links_view(names@)),
{
    let mut bp: Vec<NameLink> = Vec::new();
    let mut i: usize = 0;
    proof {
        assert(links_view(names@).take(0) =~= Seq::<(u64, Seq<char>, i8)>::empty());
        assert(links_view(bp@) =~= Seq::<(u64, Seq<char>, i8)>::empty());
    }
    while i < names.len()
        invariant
            i <= names@.len(),
            links_view(bp@) == keep_names(links_view(names@).take(i as int)),
        decreases names@.len() - i,
    {
        let x = &names[i];
        let ghost before = links_view(bp@);
        proof {
            assert(links_view(names@).take(i as int + 1).drop_last() =~= links_view(names@).take(
                i as int,
            ));
            assert(links_view(names@).take(i as int + 1).last() == link_view(*x));
        }
        match find_slot(&bp, x.parent) {
            None => {
                bp.push(dup_link(x));
                proof {
                    assert(links_view(bp@) =~= before.push(link_view(*x)));
                }
            },
            Some(j) => {
                if x.namespace < bp[j].namespace {
                    bp.set(j, dup_link(x));
                    proof {
                        assert(links_view(bp@) =~= before.update(j as int, link_view(*x)));
                    }
                } else if x.namespace == bp[j].namespace && !(bp[j].name == x.name) {
                    bp.push(dup_link(x));
                    proof {
                        assert(links_view(bp@) =~= before.push(link_view(*x)));
                    }
                }
            },
        }
        i += 1;
    }
    proof {
        assert(links_view(names@).take(names@.len() as int) =~= links_view(names@));
    }
    bp
}

/// Why a record could not be parsed.
#[derive(Debug, Clone, Copy, PartialEq, Eq, Structural)]
pub enum RecordFault {
    /// An offset stored in the record points past its end.
    OutOfBounds,
}

/// What a parse returns for a record number `rn` given the outcome `o`.
pub open spec fn outcome_ok(
    o: RecordOutcome,
    rn: u64,
    r: Result<Option<(IndexedFile, Vec<(u64, String)>)>, RecordFault>,
) -> bool {
    match o {
        RecordOutcome::Skipped => (r matches Ok(x) && x is None),
        RecordOutcome::Parsed(rv) => (r matches Ok(Some(x)) && record_matches(x.0, x.1@, rv, rn)),
        RecordOutcome::OutOfBounds => r is Err,
    }
}

/// Parse a record body (after fixup) from its first-attribute offset.
fn parse_record_body(b: &[u8], rn: u64, is_dir: bool) -> (r: Result<
    Option<(IndexedFile, Vec<(u64, String)>)>,
    RecordFault,
>)
    requires
        b@.len() >= 56,
    ensures
        outcome_ok(record_body(b@, is_dir), rn, r),
{
    let st = match scan_attributes(b) {
        None => {
            return Err(RecordFault::OutOfBounds);
        },
        Some(st) => st,
    };
    let kept = keep_links(&st.names);
    if kept.len() == 0 {
        return Ok(None);
    }
    let mut pairs: Vec<(u64, String)> = Vec::new();
    let mut k: usize = 0;
    let ghost kv = links_view(kept@);
    while k < kept.len()
        invariant
            k <= kept@.len(),
            kv == links_view(kept@),
            pairs@.len() == k,
            forall|q: int|
                0 <= q < k ==> (#[trigger] pairs@[q]).0 == kv[q].0 && pairs@[q].1@ == kv[q].1,
        decreases kept@.len() - k,
    {
        pairs.push((kept[k].parent, kept[k].name.clone()));
        k += 1;
    }
    let mut entry = IndexedFile::new(
        String::new(),
        st.size,
        st.created,
        st.modified,
        st.accessed,
        is_dir,
        rn,
    );
    entry.attributes = st.attributes;
    proof {
        let links = kv.map_values(|x: (u64, Seq<char>, i8)| link_of(x));
        assert forall|q: int| 0 <= q < pairs@.len() implies (#[trigger] pairs@[q]).0 == links[q].0
            && pairs@[q].1@ == links[q].1 by {}
    }
    Ok(Some((entry, pairs)))
}

fn usa_ok(b: &[u8], uo: usize, uc: usize) -> (r: bool)
    requires
        uo == usa_offset(b@),
        uc == usa_count(b@),
        uo + 2 <= b@.len(),
        b@.len() >= 56,
    ensures
        r == usa_consistent(b@),
{
    let n = b.len();
    if n < uo + 2 * uc || n % 512 != 0 {
        return false;
    }
    let first = read_u16(b, uo);
    let mut i: usize = 1;
    while i < uc
        invariant
            1 <= i,
            n == b@.len(),
            uc == usa_count(b@),
            uo == usa_offset(b@),
            first == u16_at(b@, uo as int),
            uc < 65536,
            n >= uo + 2 * uc,
            n % 512 == 0,
            forall|q: int| 1 <= q < i ==> #[trigger] sector_ok(b@, q),
        decreases uc - i,
    {
        let se = i * 512;
        if se > n {
            proof {
                if usa_consistent(b@) {
                    assert(sector_ok(b@, i as int));
                }
            }
            return false;
        }
        if read_u16(b, se - 2) != first {
            proof {
                if usa_consistent(b@) {
                    assert(sector_ok(b@, i as int));
                }
            }
            return false;
        }
        i += 1;
    }
    true
}

fn apply_fixup(b: &[u8], uo: usize, uc: usize) -> (r: Vec<u8>)
    requires
        uo == usa_offset(b@),
        uc == usa_count(b@),
        uc >= 2,
        usa_consistent(b@),
    ensures
        r@ == fixup(b@, uo as int, 1, uc as int),
        r@.len() == b@.len(),
{
    let mut fixed = vstd::slice::slice_to_vec(b);
    let n = b.len();
    let mut i: usize = 1;
    while i < uc
        invariant
            1 <= i <= uc,
            n == b@.len(),
            fixed@.len() == n,
            uc == usa_count(b@),
            uo == usa_offset(b@),
            usa_consistent(b@),
            fixup(fixed@, uo as int, i as int, uc as int) == fixup(b@, uo as int, 1, uc as int),
        decreases uc - i,
    {
        assert(sector_ok(b@, i as int));
        let se = i * 512;
        let src = uo + 2 * i;
        let lo = fixed[src];
        let hi = fixed[src + 1];
        fixed.set(se - 2, lo);
        fixed.set(se - 1, hi);
        i += 1;
    }
    fixed
}

/// Parse one raw `FILE` record of number `rn`, reporting records whose
/// stored offsets point past their end.
pub fn check_file_record(buf: &[u8], rn: u64) -> (r: Result<
    Option<(IndexedFile, Vec<(u64, String)>)>,
    RecordFault,
>)
    ensures
        outcome_ok(spec_file_record(buf@), rn, r),
{
    let n = buf.len();
    if n < 56 || !(buf[0] == 0x46u8 && buf[1] == 0x49u8 && buf[2] == 0x4Cu8 && buf[3] == 0x45u8) {
        return Ok(None);
    }
    let flags = read_u16(buf, 0x16);
    if flags % 2 == 0 {
        return Ok(None);
    }
    let is_dir = (flags / 2) % 2 == 1;
    let uo = read_u16(buf, 4) as usize;
    let uc = read_u16(buf, 6) as usize;
    if uo > 0 && uc >= 2 {
        if uo + 2 > n {
            return Err(RecordFault::OutOfBounds);
        }
        if usa_ok(buf, uo, uc) {
            let fixed = apply_fixup(buf, uo, uc);
            return parse_record_body(fixed.as_slice(), rn, is_dir);
        }
    }
    parse_record_body(buf, rn, is_dir)
}

/// Parse one raw `FILE` record of number `rn`: the index entry (path still
/// empty) and every `(parent record, name)` link, or `None` for a record
/// that is not in use, not a `FILE` record, or names nothing.
pub fn parse_file_record(buf: &[u8], rn: u64) -> (r: Option<(IndexedFile, Vec<(u64, String)>)>)
    requires
        !(spec_file_record(buf@) is OutOfBounds),
    ensures
        match spec_file_record(buf@) {
            RecordOutcome::Parsed(rv) => (r matches Some(x) && record_matches(x.0, x.1@, rv, rn)),
            _ => r is None,
        },
{
    match check_file_record(buf, rn) {
        Ok(x) => x,
        Err(_) => None,
    }
}


// ---------------------------------------------------------------------------
// Path resolution
// ---------------------------------------------------------------------------

/// `ntfs::KnownNtfsFileRecordNumber::RootDirectory`, the record number of the
/// volume's root directory (the crate declares it as 5).
#[verifier::external_body]
fn root_directory_record() -> (r: u64)
    ensures
        r == 5,
{
    ntfs::KnownNtfsFileRecordNumber::RootDirectory as u64
}

/// Following parents from `cur` reaches the root record or a record missing
/// from the name table within `n` steps.
pub open spec fn chain_ends(names: Map<u64, (u64, String)>, cur: u64, n: nat) -> bool
    decreases n,
{
    cur == 5 || !names.contains_key(cur) || (n > 0 && chain_ends(names, names[cur].0, (n - 1) as nat))
}

/// Whether following parents from `start` reaches the root record or a
/// record missing from the name table within `max_hops` steps.
pub fn chain_ends_within(names: &HashMap<u64, (u64, String)>, start: u64, max_hops: u64) -> (r: bool)
    ensures
        r == chain_ends(names@, start, max_hops as nat),
{
    broadcast use vstd::std_specs::hash::group_hash_axioms;

    let mut cur = start;
    let mut k = max_hops;
    loop
        invariant
            chain_ends(names@, start, max_hops as nat) == chain_ends(names@, cur, k as nat),
        decreases k,
    {
        if cur == 5 {
            return true;
        }
        match names.get(&cur) {
            None => {
                return true;
            },
            Some(entry) => {
                if k == 0 {
                    return false;
                }
                cur = entry.0;
                k = k - 1;
            },
        }
    }
}

/// Whether the parent chain of every entry ends within `max_hops` steps, as
/// [`resolve_paths`] requires.
pub fn chains_end(entries: &Vec<IndexedFile>, names: &HashMap<u64, (u64, String)>, max_hops: u64) -> (r: bool)
    ensures
        r == forall|i: int|
            0 <= i < entries@.len() ==> chain_ends(names@, (#[trigger] entries@[i]).parent_ref, max_hops as nat),
        r ==> forall|i: int|
            0 <= i < entries@.len() ==> exists|n: nat| chain_ends(names@, (#[trigger] entries@[i]).parent_ref, n),
{
    let mut i: usize = 0;
    while i < entries.len()
        invariant
            i <= entries@.len(),
            forall|q: int| 0 <= q < i ==> chain_ends(names@, (#[trigger] entries@[q]).parent_ref, max_hops as nat),
        decreases entries@.len() - i,
    {
        if !chain_ends_within(names, entries[i].parent_ref, max_hops) {
            return false;
        }
        i += 1;
    }
    proof {
        assert forall|q: int| 0 <= q < entries@.len() implies exists|n: nat| chain_ends(names@, (#[trigger] entries@[q]).parent_ref, n) by {
            assert(chain_ends(names@, entries@[q].parent_ref, max_hops as nat));
        }
    }
    true
}

/// Path of directory record `cur`: a cached path, the volume root, or its
/// parent's path and its name; `None` where the chain breaks.
pub open spec fn climb(
    names: Map<u64, (u64, String)>,
    cache: Map<u64, Seq<char>>,
    root: Seq<char>,
    cur: u64,
    fuel: nat,
) -> Option<Seq<char>>
    decreases fuel,
{
    if cache.contains_key(cur) {
        Some(cache[cur])
    } else if cur == 5 {
        Some(root)
    } else if names.contains_key(cur) && fuel > 0 {
        match climb(names, cache, root, names[cur].0, (fuel - 1) as nat) {
            Some(p) => Some(p + seq!['\\'] + names[cur].1@),
            None => None,
        }
    } else {
        None
    }
}

/// The names of `refs`, last first, each after a backslash.
pub open spec fn suffix(names: Map<u64, (u64, String)>, refs: Seq<u64>) -> Seq<char>
    decreases refs.len(),
{
    if refs.len() == 0 {
        Seq::empty()
    } else {
        seq!['\\'] + names[refs.last()].1@ + suffix(names, refs.drop_last())
    }
}

/// The path of the link that entry `e` describes, given the directory paths
/// resolved so far.
pub open spec fn link_path(
    names: Map<u64, (u64, String)>,
    cache: Map<u64, Seq<char>>,
    root: Seq<char>,
    e: IndexedFile,
) -> Option<Seq<char>> {
    match climb(names, cache, root, e.parent_ref, choose|n: nat| chain_ends(names, e.parent_ref, n)) {
        None => None,
        Some(p) => Some(
            if e.own_name@.len() > 0 && e.file_ref != 5 {
                p + seq!['\\'] + e.own_name@
            } else {
                p
            },
        ),
    }
}

/// Paths of `es` resolved in order (an empty path where a chain breaks), and
/// the directory paths remembered along the way.
pub open spec fn resolve_all(names: Map<u64, (u64, String)>, root: Seq<char>, es: Seq<IndexedFile>) -> (
    Seq<Seq<char>>,
    Map<u64, Seq<char>>,
)
    decreases es.len(),
{
    if es.len() == 0 {
        (Seq::empty(), Map::empty())
    } else {
        let prev = resolve_all(names, root, es.drop_last());
        let e = es.last();
        match link_path(names, prev.1, root, e) {
            None => (prev.0.push(Seq::empty()), prev.1),
            Some(p) => (
                prev.0.push(p),
                if e.is_dir {
                    prev.1.insert(e.file_ref, p)
                } else {
                    prev.1
                },
            ),
        }
    }
}

pub open spec fn cache_view(c: Map<u64, String>) -> Map<u64, Seq<char>> {
    c.map_values(|s: String| s@)
}

/// Path prefix of directory record `start`, climbing the name table.
fn climb_exec(
    names: &HashMap<u64, (u64, String)>,
    cache: &HashMap<u64, String>,
    root: &Vec<char>,
    root_ref: u64,
    start: u64,
) -> (r: Option<Vec<char>>)
    requires
        root_ref == 5,
        exists|n: nat| chain_ends(names@, start, n),
    ensures
        match climb(
            names@,
            cache_view(cache@),
            root@,
            start,
            choose|n: nat| chain_ends(names@, start, n),
        ) {
            None => r is None,
            Some(p) => (r matches Some(v) && v@ == p),
        },
{
    broadcast use vstd::std_specs::hash::group_hash_axioms;

    let ghost f0: nat = choose|n: nat| chain_ends(names@, start, n);
    let ghost cv = cache_view(cache@);
    let ghost target = climb(names@, cv, root@, start, f0);
    let mut refs: Vec<u64> = Vec::new();
    let mut cur = start;
    let ghost mut fuel: nat = f0;
    proof {
        if target is Some {
            assert(target->0 + suffix(names@, refs@) =~= target->0);
        }
    }
    loop
        invariant
            root_ref == 5,
            cv == cache_view(cache@),
            target == climb(names@, cv, root@, start, choose|n: nat| chain_ends(names@, start, n)),
            chain_ends(names@, cur, fuel),
            forall|k: int| 0 <= k < refs@.len() ==> names@.contains_key(#[trigger] refs@[k]),
            match climb(names@, cv, root@, cur, fuel) {
                None => target is None,
                Some(p) => target == Some(p + suffix(names@, refs@)),
            },
        decreases fuel,
    {
        match cache.get(&cur) {
            Some(c) => {
                let mut v = chars_of(c.as_str());
                append_links(&mut v, names, &refs);
                proof {
                    assert(cache@.contains_key(cur) && cache@[cur] == *c);
                    assert(cv.contains_key(cur));
                    assert(cv[cur] == c@);
                }
                return Some(v);
            },
            None => {},
        }
        if cur == root_ref {
            let mut v = root.clone();
            append_links(&mut v, names, &refs);
            proof {
                assert(!cache@.contains_key(cur));
                assert(!cv.contains_key(cur));
            }
            return Some(v);
        }
        match names.get(&cur) {
            Some(entry) => {
                let ghost old_refs = refs@;
                refs.push(cur);
                proof {
                    assert(refs@.drop_last() =~= old_refs);
                    let m = climb(names@, cv, root@, entry.0, (fuel - 1) as nat);
                    if m is Some {
                        assert(m->0 + seq!['\\'] + names@[cur].1@ + suffix(names@, old_refs) =~= m->0
                            + suffix(names@, refs@));
                    }
                    fuel = (fuel - 1) as nat;
                }
                cur = entry.0;
            },
            None => {
                return None;
            },
        }
    }
}

/// Append `\name` for each of `refs`, last first.
fn append_links(v: &mut Vec<char>, names: &HashMap<u64, (u64, String)>, refs: &Vec<u64>)
    requires
        forall|k: int| 0 <= k < refs@.len() ==> names@.contains_key(#[trigger] refs@[k]),
    ensures
        final(v)@ == old(v)@ + suffix(names@, refs@),
{
    broadcast use vstd::std_specs::hash::group_hash_axioms;

    let mut k = refs.len();
    let ghost v0 = v@;
    proof {
        assert(refs@.take(k as int) =~= refs@);
        assert(v@ + suffix(names@, refs@) =~= v0 + suffix(names@, refs@));
    }
    while k > 0
        invariant
            k <= refs@.len(),
            forall|q: int| 0 <= q < refs@.len() ==> names@.contains_key(#[trigger] refs@[q]),
            v@ + suffix(names@, refs@.take(k as int)) == v0 + suffix(names@, refs@),
        decreases k,
    {
        let r = refs[k - 1];
        let ghost before = v@;
        match names.get(&r) {
            Some(entry) => {
                v.push('\\');
                let nm = chars_of(entry.1.as_str());
                let mut j: usize = 0;
                while j < nm.len()
                    invariant
                        j <= nm@.len(),
                        v@ == before + seq!['\\'] + nm@.take(j as int),
                    decreases nm@.len() - j,
                {
                    v.push(nm[j]);
                    j += 1;
                    proof {
                        assert(nm@.take(j as int) =~= nm@.take(j as int - 1).push(nm@[j - 1]));
                    }
                }
                proof {
                    assert(nm@.take(nm@.len() as int) =~= nm@);
                    assert(refs@.take(k as int).drop_last() =~= refs@.take(k as int - 1));
                    assert(refs@.take(k as int).last() == r);
                    assert(before + suffix(names@, refs@.take(k as int)) =~= before + seq!['\\']
                        + nm@ + suffix(names@, refs@.take(k as int - 1)));
                }
            },
            None => {
                assert(names@.contains_key(refs@[k - 1]));
            },
        }
        k -= 1;
    }
    proof {
        assert(refs@.take(0) =~= Seq::<u64>::empty());
        assert(v@ + Seq::<char>::empty() =~= v@);
    }
}

/// Give every entry its full path by walking parent references through
/// `names` (record -> (parent record, name)). The volume root record resolves
/// to `volume_root` without trailing backslashes; each entry's own link
/// (`parent_ref`, `own_name`) is used for its last step; a broken chain gives
/// an empty path.
pub fn resolve_paths(entries: &mut Vec<IndexedFile>, names: &HashMap<u64, (u64, String)>, volume_root: &str)
    requires
        forall|i: int|
            0 <= i < old(entries)@.len() ==> exists|n: nat|
                chain_ends(names@, (#[trigger] old(entries)@[i]).parent_ref, n),
    ensures
        final(entries)@.len() == old(entries)@.len(),
        forall|i: int|
            0 <= i < final(entries)@.len() ==> {
                let e = #[trigger] final(entries)@[i];
                let o = old(entries)@[i];
                &&& e.derived_ok()
                &&& e.path@ == resolve_all(
                    names@,
                    trim_end_char(volume_root@, '\\'),
                    old(entries)@,
                ).0[i]
                &&& e.size == o.size && e.created == o.created && e.modified == o.modified
                &&& e.accessed == o.accessed && e.is_dir == o.is_dir && e.attributes == o.attributes
                &&& e.file_ref == o.file_ref && e.parent_ref == o.parent_ref && e.own_name == o.own_name
            },
{
    broadcast use vstd::std_specs::hash::group_hash_axioms;

    let ghost es0 = entries@;
    let vr = chars_of(volume_root);
    let root = trim_end_char_exec(&vr, '\\');
    let ghost rv = root@;
    let root_ref = root_directory_record();
    let mut cache: HashMap<u64, String> = HashMap::new();
    let n = entries.len();
    let mut i: usize = 0;
    proof {
        assert(cache_view(cache@) =~= Map::<u64, Seq<char>>::empty());
        assert(es0.take(0) =~= Seq::<IndexedFile>::empty());
    }
    while i < n
        invariant
            i <= n,
            n == es0.len(),
            entries@.len() == n,
            root_ref == 5,
            rv == root@,
            rv == trim_end_char(volume_root@, '\\'),
            forall|k: int|
                0 <= k < es0.len() ==> exists|f: nat| chain_ends(names@, (#[trigger] es0[k]).parent_ref, f),
            forall|k: int| i <= k < n ==> #[trigger] entries@[k] == es0[k],
            cache_view(cache@) == resolve_all(names@, rv, es0.take(i as int)).1,
            resolve_all(names@, rv, es0.take(i as int)).0.len() == i,
            forall|k: int|
                0 <= k < i ==> {
                    let e = #[trigger] entries@[k];
                    let o = es0[k];
                    &&& e.derived_ok()
                    &&& e.path@ == resolve_all(names@, rv, es0.take(i as int)).0[k]
                    &&& e.size == o.size && e.created == o.created && e.modified == o.modified
                    &&& e.accessed == o.accessed && e.is_dir == o.is_dir && e.attributes == o.attributes
                    &&& e.file_ref == o.file_ref && e.parent_ref == o.parent_ref && e.own_name == o.own_name
                },
        decreases n - i,
    {
        let ghost prev = resolve_all(names@, rv, es0.take(i as int));
        proof {
            assert(es0.take(i as int + 1).drop_last() =~= es0.take(i as int));
            assert(es0.take(i as int + 1).last() == es0[i as int]);
            assert(entries@[i as int] == es0[i as int]);
        }
        let mut e = entries[i].duplicate();
        let base = climb_exec(names, &cache, &root, root_ref, e.parent_ref);
        let ghost lp = link_path(names@, prev.1, rv, es0[i as int]);
        match base {
            None => {
                e.set_path(String::new());
                entries.set(i, e);
            },
            Some(mut v) => {
                if !e.own_name.as_str().is_empty() && e.file_ref != root_ref {
                    v.push('\\');
                    let on = chars_of(e.own_name.as_str());
                    let mut j: usize = 0;
                    let ghost before = v@;
                    while j < on.len()
                        invariant
                            j <= on@.len(),
                            v@ == before + on@.take(j as int),
                        decreases on@.len() - j,
                    {
                        v.push(on[j]);
                        j += 1;
                        proof {
                            assert(on@.take(j as int) =~= on@.take(j as int - 1).push(on@[j - 1]));
                        }
                    }
                    proof {
                        assert(on@.take(on@.len() as int) =~= on@);
                    }
                }
                proof {
                    assert(prev.1 == cache_view(cache@));
                    assert(e.parent_ref == es0[i as int].parent_ref);
                    assert(lp == Some(v@));
                }
                let path = string_from_chars(&v);
                if e.is_dir {
                    cache.insert(e.file_ref, path.clone());
                }
                e.set_path(path);
                entries.set(i, e);
            },
        }
        proof {
            let next = resolve_all(names@, rv, es0.take(i as int + 1));
            assert(cache_view(cache@) =~= next.1);
            assert forall|k: int| 0 <= k < i + 1 implies #[trigger] next.0[k] == (if k < i {
                prev.0[k]
            } else {
                next.0[k]
            }) by {}
        }
        i += 1;
    }
    proof {
        assert(es0.take(n as int) =~= es0);
    }
}


// ---------------------------------------------------------------------------
// Recursive folder sizes
// ---------------------------------------------------------------------------

/// Number of backslashes in a path.
pub open spec fn depth(s: Seq<char>) -> nat
    decreases s.len(),
{
    if s.len() == 0 {
        0
    } else {
        depth(s.drop_last()) + if s.last() == '\\' {
            1nat
        } else {
            0nat
        }
    }
}

/// The entries of depth `d`, in order.
pub open spec fn with_depth(es: Seq<IndexedFile>, d: int) -> Seq<IndexedFile>
    decreases es.len(),
{
    if es.len() == 0 {
        Seq::empty()
    } else {
        let r = with_depth(es.drop_last(), d);
        if depth(es.last().path@) == d {
            r.push(es.last())
        } else {
            r
        }
    }
}

/// The entries of depths `hi` down to `lo`, deepest first, each depth in
/// order.
pub open spec fn desc_buckets(es: Seq<IndexedFile>, hi: int, lo: int) -> Seq<IndexedFile>
    decreases hi - lo + 1,
{
    if hi < lo {
        Seq::empty()
    } else {
        desc_buckets(es, hi, lo + 1) + with_depth(es, lo)
    }
}

pub open spec fn max_depth(es: Seq<IndexedFile>) -> nat
    decreases es.len(),
{
    if es.len() == 0 {
        0
    } else {
        let m = max_depth(es.drop_last());
        let d = depth(es.last().path@);
        if d > m {
            d
        } else {
            m
        }
    }
}

/// The entries stably sorted by depth, deepest first.
pub open spec fn deepest_first(es: Seq<IndexedFile>) -> Seq<IndexedFile> {
    desc_buckets(es, max_depth(es) as int, 0)
}

/// The path up to its last backslash.
pub open spec fn parent_path(s: Seq<char>) -> Option<Seq<char>> {
    let k = rfind_char(s, '\\');
    if k < 0 {
        None
    } else {
        Some(s.take(k))
    }
}

pub open spec fn sat_add(a: u64, b: u64) -> u64 {
    if a + b > u64::MAX {
        u64::MAX
    } else {
        (a + b) as u64
    }
}

pub open spec fn acc_get(acc: Map<Seq<char>, u64>, k: Seq<char>) -> u64 {
    if acc.contains_key(k) {
        acc[k]
    } else {
        0
    }
}

/// Walk `es` in order: a directory's size is what its children added to it;
/// every entry adds its size to its parent's total (saturating).
pub open spec fn fold_sizes(es: Seq<IndexedFile>) -> (Seq<u64>, Map<Seq<char>, u64>)
    decreases es.len(),
{
    if es.len() == 0 {
        (Seq::empty(), Map::empty())
    } else {
        let prev = fold_sizes(es.drop_last());
        let e = es.last();
        let total = if e.is_dir {
            acc_get(prev.1, e.path@)
        } else {
            e.size
        };
        let acc = match parent_path(e.path@) {
            Some(p) => prev.1.insert(p, sat_add(acc_get(prev.1, p), total)),
            None => prev.1,
        };
        (prev.0.push(total), acc)
    }
}

/// The entries of `t` with the sizes the in-order walk of [`fold_sizes`]
/// gives them.
pub open spec fn with_folder_sizes(t: Seq<IndexedFile>) -> Seq<IndexedFile> {
    Seq::new(t.len(), |i: int| with_size(t[i], fold_sizes(t).0[i]))
}

fn depth_of(path: &str) -> (r: usize)
    ensures
        r == depth(path@),
{
    let v = chars_of(path);
    let mut d: usize = 0;
    let mut i: usize = 0;
    while i < v.len()
        invariant
            i <= v@.len(),
            d == depth(v@.take(i as int)),
            d <= i,
        decreases v@.len() - i,
    {
        proof {
            assert(v@.take(i as int + 1).drop_last() =~= v@.take(i as int));
        }
        if v[i] == '\\' {
            d += 1;
        }
        i += 1;
    }
    proof {
        assert(v@.take(v@.len() as int) =~= v@);
    }
    d
}

/// `Some` of the path before the last backslash.
fn parent_of(path: &str) -> (r: Option<String>)
    ensures
        match parent_path(path@) {
            Some(p) => (r matches Some(s) && s@ == p),
            None => r is None,
        },
{
    let v = chars_of(path);
    match rfind_char_exec(&v, '\\') {
        Some(k) => {
            let head = crate::text::slice_chars(&v, 0, k);
            proof {
                assert(head@ =~= v@.take(k as int));
            }
            Some(string_from_chars(&head))
        },
        None => None,
    }
}

/// Number of entries whose depth lies in `lo..=hi`.
pub open spec fn count_depths(es: Seq<IndexedFile>, lo: int, hi: int) -> nat
    decreases es.len(),
{
    if es.len() == 0 {
        0
    } else {
        count_depths(es.drop_last(), lo, hi) + if lo <= depth(es.last().path@) <= hi {
            1nat
        } else {
            0nat
        }
    }
}

proof fn lemma_with_depth_len(es: Seq<IndexedFile>, d: int)
    ensures
        with_depth(es, d).len() == count_depths(es, d, d),
    decreases es.len(),
{
    if es.len() > 0 {
        lemma_with_depth_len(es.drop_last(), d);
    }
}

proof fn lemma_count_split(es: Seq<IndexedFile>, lo: int, hi: int)
    requires
        lo <= hi,
    ensures
        count_depths(es, lo, hi) == count_depths(es, lo + 1, hi) + count_depths(es, lo, lo),
    decreases es.len(),
{
    if es.len() > 0 {
        lemma_count_split(es.drop_last(), lo, hi);
    }
}

proof fn lemma_count_empty(es: Seq<IndexedFile>, lo: int, hi: int)
    requires
        hi < lo,
    ensures
        count_depths(es, lo, hi) == 0,
    decreases es.len(),
{
    if es.len() > 0 {
        lemma_count_empty(es.drop_last(), lo, hi);
    }
}

proof fn lemma_buckets_len(es: Seq<IndexedFile>, hi: int, lo: int)
    ensures
        desc_buckets(es, hi, lo).len() == count_depths(es, lo, hi),
    decreases hi - lo + 1,
{
    if hi < lo {
        lemma_count_empty(es, lo, hi);
    } else {
        lemma_buckets_len(es, hi, lo + 1);
        lemma_with_depth_len(es, lo);
        lemma_count_split(es, lo, hi);
    }
}

proof fn lemma_count_all(es: Seq<IndexedFile>, m: int)
    requires
        m >= max_depth(es),
    ensures
        count_depths(es, 0, m) == es.len(),
    decreases es.len(),
{
    if es.len() > 0 {
        lemma_count_all(es.drop_last(), m);
    }
}

/// Give every directory its recursive size: entries are stably ordered
/// deepest first, then each directory takes the total its children added
/// and adds it to its own parent. Sums saturate at `u64::MAX`.
pub fn compute_folder_sizes(entries: &mut Vec<IndexedFile>)
    ensures
        final(entries)@.len() == old(entries)@.len(),
        forall|i: int|
            0 <= i < final(entries)@.len() ==> #[trigger] final(entries)@[i] == with_size(
                deepest_first(old(entries)@)[i],
                fold_sizes(deepest_first(old(entries)@)).0[i],
            ),
        final(entries)@ == with_folder_sizes(deepest_first(old(entries)@)),
{
    let ghost es0 = entries@;
    let n = entries.len();
    let mut depths: Vec<usize> = Vec::new();
    let mut maxd: usize = 0;
    let mut i: usize = 0;
    proof {
        assert(es0.take(0) =~= Seq::<IndexedFile>::empty());
    }
    while i < n
        invariant
            i <= n,
            n == es0.len(),
            entries@ == es0,
            depths@.len() == i,
            forall|k: int| 0 <= k < i ==> #[trigger] depths@[k] == depth(es0[k].path@),
            maxd == max_depth(es0.take(i as int)),
        decreases n - i,
    {
        proof {
            assert(es0.take(i as int + 1).drop_last() =~= es0.take(i as int));
        }
        let d = depth_of(entries[i].path.as_str());
        depths.push(d);
        if d > maxd {
            maxd = d;
        }
        i += 1;
    }
    proof {
        assert(es0.take(n as int) =~= es0);
    }
    // Stable bucket order, deepest first.
    let mut sorted: Vec<IndexedFile> = Vec::new();
    let mut d: usize = maxd;
    let mut more = true;
    proof {
        assert(sorted@ =~= desc_buckets(es0, maxd as int, d as int + 1));
    }
    while more
        invariant
            d <= maxd,
            n == es0.len(),
            entries@ == es0,
            depths@.len() == n,
            forall|k: int| 0 <= k < n ==> #[trigger] depths@[k] == depth(es0[k].path@),
            sorted@ == desc_buckets(
                es0,
                maxd as int,
                if more {
                    d as int + 1
                } else {
                    0
                },
            ),
        decreases d + if more {
            1int
        } else {
            0int
        },
    {
        let mut j: usize = 0;
        let ghost base = sorted@;
        proof {
            assert(es0.take(0) =~= Seq::<IndexedFile>::empty());
            assert(sorted@ =~= base + with_depth(es0.take(0), d as int));
        }
        while j < n
            invariant
                j <= n,
                n == es0.len(),
                entries@ == es0,
                depths@.len() == n,
                forall|k: int| 0 <= k < n ==> #[trigger] depths@[k] == depth(es0[k].path@),
                sorted@ == base + with_depth(es0.take(j as int), d as int),
            decreases n - j,
        {
            proof {
                assert(es0.take(j as int + 1).drop_last() =~= es0.take(j as int));
                assert(es0.take(j as int + 1).last() == es0[j as int]);
            }
            if depths[j] == d {
                let e = entries[j].duplicate();
                sorted.push(e);
                proof {
                    assert(sorted@ =~= base + with_depth(es0.take(j as int + 1), d as int));
                }
            }
            j += 1;
        }
        proof {
            assert(es0.take(n as int) =~= es0);
        }
        if d == 0 {
            more = false;
        } else {
            d -= 1;
        }
    }
    proof {
        assert(sorted@ == deepest_first(es0));
        lemma_buckets_len(es0, maxd as int, 0);
        lemma_count_all(es0, maxd as int);
    }
    let ghost s0 = sorted@;
    // Accumulate sizes bottom-up.
    let mut acc: StringHashMap<u64> = StringHashMap::new();
    let mut out: Vec<IndexedFile> = Vec::new();
    let m = sorted.len();
    let mut k: usize = 0;
    proof {
        assert(s0.take(0) =~= Seq::<IndexedFile>::empty());
    }
    while k < m
        invariant
            k <= m,
            m == s0.len(),
            sorted@ == s0,
            acc@ == fold_sizes(s0.take(k as int)).1,
            fold_sizes(s0.take(k as int)).0.len() == k,
            out@.len() == k,
            forall|q: int|
                0 <= q < k ==> #[trigger] out@[q] == with_size(
                    s0[q],
                    fold_sizes(s0.take(k as int)).0[q],
                ),
        decreases m - k,
    {
        let ghost prev = fold_sizes(s0.take(k as int));
        proof {
            assert(s0.take(k as int + 1).drop_last() =~= s0.take(k as int));
            assert(s0.take(k as int + 1).last() == s0[k as int]);
        }
        let mut e = sorted[k].duplicate();
        let total = if e.is_dir {
            match acc.get(e.path.as_str()) {
                Some(v) => *v,
                None => 0,
            }
        } else {
            e.size
        };
        match parent_of(e.path.as_str()) {
            Some(p) => {
                let cur = match acc.get(p.as_str()) {
                    Some(v) => *v,
                    None => 0,
                };
                acc.insert(p, cur.saturating_add(total));
            },
            None => {},
        }
        e.size = total;
        out.push(e);
        proof {
            let next = fold_sizes(s0.take(k as int + 1));
            assert(next.0 == prev.0.push(total));
            assert forall|q: int| 0 <= q < k + 1 implies #[trigger] out@[q] == with_size(
                s0[q],
                next.0[q],
            ) by {
                if q < k {
                    assert(next.0[q] == prev.0[q]);
                }
            }
        }
        k += 1;
    }
    proof {
        assert(s0.take(m as int) =~= s0);
        assert(out@ =~= with_folder_sizes(s0));
    }
    *entries = out;
}

} // verus!
