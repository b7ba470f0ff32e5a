//! Reading the records of an NTFS USN change-journal buffer, and the path a
//! record names.
use vstd::prelude::*;
use crate::index::FileIndex;
use crate::mft::{decode_utf16_lossy, i64_at, read_i64, read_u16, read_u32, read_u64, u16_at, u32_at, u64_at, utf16_lossy};
use crate::text::{chars_of, string_from_chars};
use crate::tokenize::{trim_end_char, trim_end_char_exec};

verus! {

/// Size of the fixed part of a `USN_RECORD_V2`.
pub const USN_RECORD_SIZE: usize = 64;

/// One change record.
pub struct UsnRecord {
    /// Record number of the changed file (low 48 bits of its reference).
    pub file_ref: u64,
    /// Full reference of the parent directory.
    pub parent_ref: u64,
    /// FILETIME of the change.
    pub timestamp: i64,
    /// `USN_REASON_*` flags.
    pub reason: u32,
    /// `FILE_ATTRIBUTE_*` flags.
    pub attributes: u32,
    /// The file's name.
    pub name: String,
}

/// A record as values.
pub struct RecV {
    pub file_ref: u64,
    pub parent_ref: u64,
    pub timestamp: i64,
    pub reason: u32,
    pub attributes: u32,
    pub name: Seq<char>,
}

pub open spec fn rec_view(r: UsnRecord) -> RecV {
    RecV {
        file_ref: r.file_ref,
        parent_ref: r.parent_ref,
        timestamp: r.timestamp,
        reason: r.reason,
        attributes: r.attributes,
        name: r.name@,
    }
}

pub open spec fn recs_view(v: Seq<UsnRecord>) -> Seq<RecV> {
    v.map_values(|r: UsnRecord| rec_view(r))
}

pub open spec fn name_units_at(d: Seq<u8>, start: int, n: int) -> Seq<u16> {
    Seq::new(n as nat, |k: int| u16_at(d, start + 2 * k) as u16)
}

/// The record at `off`: one of sane length whose name lies in the buffer
/// and is not empty.
pub open spec fn record_at(d: Seq<u8>, off: int) -> Option<RecV> {
    let rl = u32_at(d, off);
    if rl >= 64 && rl <= d.len() - off {
        let nl = u16_at(d, off + 56);
        let ns = off + u16_at(d, off + 58);
        if ns + nl <= d.len() {
            let name = utf16_lossy(name_units_at(d, ns, nl / 2));
            if name.len() > 0 {
                Some(
                    RecV {
                        file_ref: (u64_at(d, off + 8) % 0x1_0000_0000_0000) as u64,
                        parent_ref: u64_at(d, off + 16) as u64,
                        timestamp: i64_at(d, off + 32) as i64,
                        reason: u32_at(d, off + 40) as u32,
                        attributes: u32_at(d, off + 52) as u32,
                        name,
                    },
                )
            } else {
                None
            }
        } else {
            None
        }
    } else {
        None
    }
}

/// The records from `off` on, each record's length leading to the next; a
/// zero length or a buffer too short for another record ends the walk.
pub open spec fn records_from(d: Seq<u8>, off: int) -> Seq<RecV>
    decreases d.len() - off,
{
    if off < 0 || off + 64 > d.len() {
        Seq::empty()
    } else {
        let rl = u32_at(d, off);
        if rl == 0 {
            Seq::empty()
        } else {
            let rest = if off + rl <= d.len() {
                records_from(d, off + rl)
            } else {
                Seq::empty()
            };
            match record_at(d, off) {
                Some(r) => seq![r] + rest,
                None => rest,
            }
        }
    }
}

fn record_at_exec(d: &[u8], off: usize) -> (r: Option<UsnRecord>)
    requires
        off + 64 <= d@.len(),
    ensures
        match record_at(d@, off as int) {
            Some(v) => (r matches Some(x) && rec_view(x) == v),
            None => r is None,
        },
{
    let n = d.len();
    let rl = read_u32(d, off) as usize;
    if rl < 64 || rl > n - off {
        return None;
    }
    let nl = read_u16(d, off + 56) as usize;
    let no = read_u16(d, off + 58) as usize;
    if no > n - off {
        return None;
    }
    let ns = off + no;
    if nl > n - ns {
        return None;
    }
    let mut units: Vec<u16> = Vec::new();
    let mut k: usize = 0;
    while k < nl / 2
        invariant
            k <= nl / 2,
            ns + nl <= n,
            n == d@.len(),
            units@ == name_units_at(d@, ns as int, k as int),
        decreases nl / 2 - k,
    {
        units.push(read_u16(d, ns + 2 * k));
        k += 1;
        proof {
            assert(units@ =~= name_units_at(d@, ns as int, k as int));
        }
    }
    let name = decode_utf16_lossy(units.as_slice());
    if name.as_str().is_empty() {
        return None;
    }
    let raw = read_u64(d, off + 8);
    let file_ref = raw & 0x0000_FFFF_FFFF_FFFF;
    proof {
        assert(raw & 0x0000_FFFF_FFFF_FFFFu64 == raw % 0x1_0000_0000_0000u64) by (bit_vector);
    }
    Some(
        UsnRecord {
            file_ref,
            parent_ref: read_u64(d, off + 16),
            timestamp: read_i64(d, off + 32),
            reason: read_u32(d, off + 40),
            attributes: read_u32(d, off + 52),
            name,
        },
    )
}

/// The change records of a journal read buffer (after its leading 8-byte
/// cursor).
pub fn parse_records(d: &[u8]) -> (r: Vec<UsnRecord>)
    ensures
        recs_view(r@) == records_from(d@, 0),
{
    let n = d.len();
    let mut out: Vec<UsnRecord> = Vec::new();
    let mut off: usize = 0;
    proof {
        assert(recs_view(out@) + records_from(d@, 0) =~= records_from(d@, 0));
    }
    while off <= n && n - off >= USN_RECORD_SIZE
        invariant
            n == d@.len(),
            recs_view(out@) + records_from(d@, off as int) == records_from(d@, 0),
        decreases n - off,
    {
        let rl = read_u32(d, off) as usize;
        if rl == 0 {
            proof {
                assert(recs_view(out@) + Seq::<RecV>::empty() =~= recs_view(out@));
            }
            return out;
        }
        let ghost before = recs_view(out@);
        match record_at_exec(d, off) {
            Some(rec) => {
                out.push(rec);
                proof {
                    assert(recs_view(out@) =~= before.push(rec_view(rec)));
                }
            },
            None => {},
        }
        if rl > n - off {
            proof {
                assert(recs_view(out@) + Seq::<RecV>::empty() =~= recs_view(out@));
            }
            return out;
        }
        off = off + rl;
    }
    proof {
        assert(recs_view(out@) + Seq::<RecV>::empty() =~= recs_view(out@));
    }
    out
}

/// The path a record names: its parent's indexed path (by the parent's
/// 48-bit record number) and its name; the volume root's when the parent is
/// not indexed.
pub open spec fn record_path(refs: Map<u64, String>, volume: Seq<char>, rec: RecV) -> Seq<char> {
    let pr = (rec.parent_ref % 0x1_0000_0000_0000) as u64;
    if refs.contains_key(pr) {
        refs[pr]@ + seq!['\\'] + rec.name
    } else {
        trim_end_char(volume, '\\') + seq!['\\'] + rec.name
    }
}

pub fn path_of(index: &FileIndex, volume: &str, rec: &UsnRecord) -> (r: String)
    requires
        index.wf(),
    ensures
        r@ == record_path(index.refs_view(), volume@, rec_view(*rec)),
{
    let pr = rec.parent_ref & 0x0000_FFFF_FFFF_FFFF;
    proof {
        let raw = rec.parent_ref;
        assert(raw & 0x0000_FFFF_FFFF_FFFFu64 == raw % 0x1_0000_0000_0000u64) by (bit_vector);
    }
    let mut v = match index.path_by_ref(pr) {
        Some(p) => chars_of(p.as_str()),
        None => trim_end_char_exec(&chars_of(volume), '\\'),
    };
    v.push('\\');
    let mut nm = chars_of(rec.name.as_str());
    v.append(&mut nm);
    string_from_chars(&v)
}

} // verus!
