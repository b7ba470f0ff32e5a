//! Reading a fanotify event buffer (FID mode: directory handle and name,
//! target handle), and joining a resolved directory with an entry name.
use vstd::prelude::*;
use crate::mft::{read_u16, read_u32, read_u64, u16_at, u32_at, u64_at};
use crate::text::{chars_of, string_from_chars};
use crate::tokenize::{trim_end_char, trim_end_char_exec};

verus! {

/// Size of `fanotify_event_metadata`.
pub const EVENT_METADATA_SIZE: usize = 24;
/// Size of `fanotify_event_info_header`.
pub const INFO_HEADER_SIZE: usize = 4;

/// `FAN_EVENT_INFO_TYPE_FID`.
pub const INFO_FID: u8 = 1;
/// `FAN_EVENT_INFO_TYPE_DFID_NAME`.
pub const INFO_DFID_NAME: u8 = 2;
/// `FAN_EVENT_INFO_TYPE_DFID`.
pub const INFO_DFID: u8 = 3;
/// `FAN_EVENT_INFO_TYPE_OLD_DFID_NAME`.
pub const INFO_OLD_DFID_NAME: u8 = 10;
/// `FAN_EVENT_INFO_TYPE_NEW_DFID_NAME`.
pub const INFO_NEW_DFID_NAME: u8 = 12;

/// Bytes decoded as UTF-8, invalid sequences becoming U+FFFD
/// (`String::from_utf8_lossy`).
pub uninterp spec fn utf8_lossy(b: Seq<u8>) -> Seq<char>;

/// `String::from_utf8_lossy`: valid UTF-8 is decoded as is; invalid
/// sequences are replaced by U+FFFD (how many replacements, and where, is
/// left to the name `utf8_lossy`).
#[verifier::external_body]
fn decode_utf8_lossy(b: &[u8]) -> (r: String)
    ensures
        r@ == utf8_lossy(b@),
        vstd::utf8::valid_utf8(b@) ==> r@ == vstd::utf8::decode_utf8(b@),
{
    String::from_utf8_lossy(b).into_owned()
}

/// A kernel file handle: its length, type and bytes.
pub struct FileHandle {
    pub handle_bytes: u32,
    pub handle_type: i32,
    pub data: Vec<u8>,
}

pub open spec fn handle_view(h: FileHandle) -> (u32, i32, Seq<u8>) {
    (h.handle_bytes, h.handle_type, h.data@)
}

pub open spec fn opt_handle_view(h: Option<FileHandle>) -> Option<(u32, i32, Seq<u8>)> {
    match h {
        Some(x) => Some(handle_view(x)),
        None => None,
    }
}

pub open spec fn i32_of(u: int) -> i32 {
    if u < 0x8000_0000 {
        u as i32
    } else {
        (u - 0x1_0000_0000) as i32
    }
}

/// The file handle at `start`, if it ends by `limit`.
pub open spec fn spec_handle(buf: Seq<u8>, start: int, limit: int) -> Option<(u32, i32, Seq<u8>)> {
    if start + 8 > limit {
        None
    } else {
        let hb = u32_at(buf, start);
        let data_end = start + 8 + hb;
        if data_end > limit {
            None
        } else {
            Some((hb as u32, i32_of(u32_at(buf, start + 4)), buf.subrange(start + 8, data_end)))
        }
    }
}

/// Parse a `file_handle` (u32 length, i32 type, bytes) at `start`; `None`
/// if it does not end by `limit`.
pub fn parse_handle(buf: &[u8], start: usize, limit: usize) -> (r: Option<FileHandle>)
    requires
        limit <= buf@.len(),
    ensures
        opt_handle_view(r) == spec_handle(buf@, start as int, limit as int),
{
    if start > limit || limit - start < 8 {
        return None;
    }
    let hb = read_u32(buf, start);
    let raw_type = read_u32(buf, start + 4);
    let ht: i32 = if raw_type < 0x8000_0000 {
        raw_type as i32
    } else {
        ((raw_type as i64) - 0x1_0000_0000) as i32
    };
    let data_start = start + 8;
    if hb as usize > limit - data_start {
        return None;
    }
    let data_end = data_start + hb as usize;
    let data = vstd::slice::slice_to_vec(vstd::slice::slice_subrange(buf, data_start, data_end));
    Some(FileHandle { handle_bytes: hb, handle_type: ht, data })
}

/// Directory handle, entry name and target handle gathered from an event's
/// info records.
pub struct InfoV {
    pub parent: Option<(u32, i32, Seq<u8>)>,
    pub name: Option<Seq<char>>,
    pub target: Option<(u32, i32, Seq<u8>)>,
}

/// Position of the first zero byte, or the length.
pub open spec fn nul_pos(b: Seq<u8>) -> int
    decreases b.len(),
{
    if b.len() == 0 {
        0
    } else if b[0] == 0 {
        0
    } else {
        1 + nul_pos(b.skip(1))
    }
}

/// One info record at `off` (its handle after a 4-byte header and an 8-byte
/// filesystem id).
pub open spec fn info_step(buf: Seq<u8>, off: int, end: int, st: InfoV) -> InfoV {
    let hs = off + 12;
    let h = spec_handle(buf, hs, end);
    let t = buf[off];
    if t == 2 || t == 12 {
        let name = match h {
            Some(hv) => {
                let ns = hs + 8 + hv.0;
                if ns < end {
                    let bytes = buf.subrange(ns, end);
                    Some(utf8_lossy(bytes.take(nul_pos(bytes))))
                } else {
                    st.name
                }
            },
            None => st.name,
        };
        InfoV { parent: h, name, target: st.target }
    } else if t == 1 {
        InfoV { target: h, ..st }
    } else if t == 3 || t == 10 {
        InfoV { parent: h, ..st }
    } else {
        st
    }
}

/// The info records from `off` to the event's end.
pub open spec fn info_walk(buf: Seq<u8>, off: int, end: int, st: InfoV) -> InfoV
    decreases end - off,
{
    if off < 0 || off + 4 > end {
        st
    } else {
        let hlen = u16_at(buf, off + 2);
        if hlen < 4 || off + hlen > end {
            st
        } else {
            info_walk(buf, off + hlen, end, info_step(buf, off, end, st))
        }
    }
}

/// One event of the buffer.
pub enum FanRecordV {
    /// The kernel queue overflowed: events were lost.
    Overflow,
    Event { mask: u64, info: InfoV },
}

/// The events from `off` on, each event's length leading to the next.
pub open spec fn events_from(buf: Seq<u8>, off: int) -> Seq<FanRecordV>
    decreases buf.len() - off,
{
    if off < 0 || off + 24 > buf.len() {
        Seq::empty()
    } else {
        let el = u32_at(buf, off);
        if el == 0 || el > buf.len() - off {
            Seq::empty()
        } else {
            let end = off + el;
            let mask = u64_at(buf, off + 8) as u64;
            let rec = if mask & 0x4000u64 != 0 {
                FanRecordV::Overflow
            } else {
                FanRecordV::Event {
                    mask,
                    info: info_walk(
                        buf,
                        off + u16_at(buf, off + 6),
                        end,
                        InfoV { parent: None, name: None, target: None },
                    ),
                }
            };
            seq![rec] + events_from(buf, end)
        }
    }
}

/// One event read from the buffer.
pub enum FanRecord {
    Overflow,
    Event { mask: u64, parent: Option<FileHandle>, name: Option<String>, target: Option<FileHandle> },
}

pub open spec fn opt_text_view(o: Option<String>) -> Option<Seq<char>> {
    match o {
        Some(s) => Some(s@),
        None => None,
    }
}

pub open spec fn record_view(r: FanRecord) -> FanRecordV {
    match r {
        FanRecord::Overflow => FanRecordV::Overflow,
        FanRecord::Event { mask, parent, name, target } => FanRecordV::Event {
            mask,
            info: InfoV {
                parent: opt_handle_view(parent),
                name: opt_text_view(name),
                target: opt_handle_view(target),
            },
        },
    }
}

pub open spec fn records_view(v: Seq<FanRecord>) -> Seq<FanRecordV> {
    v.map_values(|r: FanRecord| record_view(r))
}

fn clone_handle(h: &Option<FileHandle>) -> (r: Option<FileHandle>)
    ensures
        opt_handle_view(r) == opt_handle_view(*h),
{
    match h {
        Some(x) => Some(
            FileHandle {
                handle_bytes: x.handle_bytes,
                handle_type: x.handle_type,
                data: vstd::slice::slice_to_vec(x.data.as_slice()),
            },
        ),
        None => None,
    }
}

fn nul_pos_exec(buf: &[u8], from: usize, to: usize) -> (r: usize)
    requires
        from <= to <= buf@.len(),
    ensures
        r == from + nul_pos(buf@.subrange(from as int, to as int)),
        from <= r <= to,
{
    let mut i = from;
    proof {
        assert(buf@.subrange(from as int, to as int).skip(0) =~= buf@.subrange(from as int, to as int));
    }
    while i < to && buf[i] != 0
        invariant
            from <= i <= to,
            to <= buf@.len(),
            nul_pos(buf@.subrange(from as int, to as int)) == (i - from) + nul_pos(
                buf@.subrange(i as int, to as int),
            ),
        decreases to - i,
    {
        proof {
            assert(buf@.subrange(i as int, to as int).skip(1) =~= buf@.subrange(i as int + 1, to as int));
        }
        i += 1;
    }
    i
}

/// Walk the info records of the event ending at `end`.
fn parse_infos(buf: &[u8], start: usize, end: usize) -> (r: (
    Option<FileHandle>,
    Option<String>,
    Option<FileHandle>,
))
    requires
        end <= buf@.len(),
    ensures
        (InfoV {
            parent: opt_handle_view(r.0),
            name: opt_text_view(r.1),
            target: opt_handle_view(r.2),
        }) == info_walk(buf@, start as int, end as int, InfoV { parent: None, name: None, target: None }),
{
    let mut parent: Option<FileHandle> = None;
    let mut name: Option<String> = None;
    let mut target: Option<FileHandle> = None;
    let mut off = start;
    while off <= end && end - off >= INFO_HEADER_SIZE
        invariant
            end <= buf@.len(),
            info_walk(
                buf@,
                off as int,
                end as int,
                InfoV {
                    parent: opt_handle_view(parent),
                    name: opt_text_view(name),
                    target: opt_handle_view(target),
                },
            ) == info_walk(buf@, start as int, end as int, InfoV { parent: None, name: None, target: None }),
        decreases end - off,
    {
        let hlen = read_u16(buf, off + 2) as usize;
        if hlen < INFO_HEADER_SIZE || hlen > end - off {
            return (parent, name, target);
        }
        let h = if end - off >= 12 {
            parse_handle(buf, off + 12, end)
        } else {
            None
        };
        let t = buf[off];
        if t == INFO_DFID_NAME || t == INFO_NEW_DFID_NAME {
            match &h {
                Some(hv) => {
                    let hs = off + 12;
                    let hb = hv.handle_bytes as usize;
                    if hs + 8 <= end && hb < end - (hs + 8) {
                        let ns = hs + 8 + hb;
                        let stop = nul_pos_exec(buf, ns, end);
                        let bytes = vstd::slice::slice_subrange(buf, ns, stop);
                        proof {
                            assert(bytes@ =~= buf@.subrange(ns as int, end as int).take(
                                nul_pos(buf@.subrange(ns as int, end as int)),
                            ));
                        }
                        name = Some(decode_utf8_lossy(bytes));
                    }
                },
                None => {},
            }
            parent = h;
        } else if t == INFO_FID {
            target = h;
        } else if t == INFO_DFID || t == INFO_OLD_DFID_NAME {
            parent = h;
        }
        off = off + hlen;
    }
    (parent, name, target)
}

/// The events of a fanotify read buffer, in order; an overflow event stands
/// for lost events.
pub fn parse_events(buf: &[u8]) -> (r: Vec<FanRecord>)
    ensures
        records_view(r@) == events_from(buf@, 0),
{
    let n = buf.len();
    let mut out: Vec<FanRecord> = Vec::new();
    let mut off: usize = 0;
    proof {
        assert(records_view(out@) + events_from(buf@, 0) =~= events_from(buf@, 0));
    }
    while off <= n && n - off >= EVENT_METADATA_SIZE
        invariant
            n == buf@.len(),
            records_view(out@) + events_from(buf@, off as int) == events_from(buf@, 0),
        decreases n - off,
    {
        let el = read_u32(buf, off) as usize;
        if el == 0 || el > n - off {
            proof {
                assert(records_view(out@) + Seq::<FanRecordV>::empty() =~= records_view(out@));
            }
            return out;
        }
        let end = off + el;
        let mask = read_u64(buf, off + 8);
        let ghost before = records_view(out@);
        if mask & 0x4000u64 != 0 {
            out.push(FanRecord::Overflow);
        } else {
            let ml = read_u16(buf, off + 6) as usize;
            let (parent, name, target) = if ml <= end - off {
                parse_infos(buf, off + ml, end)
            } else {
                (None, None, None)
            };
            out.push(FanRecord::Event { mask, parent, name, target });
        }
        proof {
            assert(records_view(out@) =~= before.push(record_view(out@.last())));
            assert(before + events_from(buf@, off as int) =~= records_view(out@) + events_from(
                buf@,
                end as int,
            ));
        }
        off = end;
    }
    proof {
        assert(records_view(out@) + Seq::<FanRecordV>::empty() =~= records_view(out@));
    }
    out
}

/// The path of an entry given its directory's resolved path: the directory
/// without trailing slashes, a slash and the name; the directory itself
/// without a (non-empty) name.
pub open spec fn spec_join_child(parent: Seq<char>, name: Option<Seq<char>>) -> Seq<char> {
    match name {
        Some(n) => if n.len() > 0 {
            trim_end_char(parent, '/') + seq!['/'] + n
        } else {
            parent
        },
        None => parent,
    }
}

pub fn join_child(parent: &str, name: Option<&str>) -> (r: String)
    ensures
        r@ == spec_join_child(
            parent@,
            match name {
                Some(n) => Some(n@),
                None => None,
            },
        ),
{
    match name {
        Some(n) => {
            let nv = chars_of(n);
            if nv.len() > 0 {
                let mut v = trim_end_char_exec(&chars_of(parent), '/');
                v.push('/');
                let mut nn = nv;
                v.append(&mut nn);
                string_from_chars(&v)
            } else {
                parent.to_owned()
            }
        },
        None => parent.to_owned(),
    }
}

/// Linux keeps no persistent change journal: no checkpoints.
pub fn journal_tails(volumes: &[String]) -> (r: Vec<(String, u64, i64)>)
    ensures
        r@.len() == 0,
{
    Vec::new()
}

} // verus!
