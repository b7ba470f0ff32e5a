//! The position arithmetic of a sector-aligned reader: raw volume handles
//! accept reads only on sector boundaries, so every read is widened to
//! whole sectors and the requested window copied out. The reads themselves
//! are the application's part.
use vstd::prelude::*;

verus! {

/// A sector size that is not a power of two.
#[derive(Debug, Clone, Copy, PartialEq, Eq, Structural)]
pub struct NotPowerOfTwo;

/// Where a seek goes.
#[derive(Debug, Clone, Copy, PartialEq, Eq, Structural)]
pub enum SeekTarget {
    Start(u64),
    Current(i64),
    /// Relative to the end; the stream's length is given with it.
    End(i64, u64),
}

/// A sector-aligned stream position.
pub struct SectorReader {
    sector_size: usize,
    stream_position: u64,
}

pub open spec fn is_pow2(n: usize) -> bool {
    n > 0 && n & ((n - 1) as usize) == 0
}

impl SectorReader {
    pub closed spec fn sector(&self) -> usize {
        self.sector_size
    }

    pub closed spec fn position(&self) -> u64 {
        self.stream_position
    }

    /// The sector size is a power of two.
    pub closed spec fn wf(&self) -> bool {
        is_pow2(self.sector_size)
    }

    /// A reader at position 0; refused unless `sector_size` is a power of two.
    pub fn new(sector_size: usize) -> (r: Result<Self, NotPowerOfTwo>)
        ensures
            match r {
                Ok(s) => is_pow2(sector_size) && s.wf() && s.sector() == sector_size && s.position()
                    == 0,
                Err(_) => !is_pow2(sector_size),
            },
    {
        if sector_size == 0 || sector_size & (sector_size - 1) != 0 {
            return Err(NotPowerOfTwo);
        }
        Ok(SectorReader { sector_size, stream_position: 0 })
    }

    pub fn position_exec(&self) -> (r: u64)
        ensures
            r == self.position(),
    {
        self.stream_position
    }

    /// `n` rounded down to a sector boundary.
    pub fn align_down(&self, n: u64) -> (r: u64)
        requires
            self.wf(),
        ensures
            r == n / (self.sector() as u64) * (self.sector() as u64),
            r <= n,
    {
        let s = self.sector_size as u64;
        let q = n / s;
        proof {
            assert(q * s <= n) by (nonlinear_arith)
                requires
                    q == n / s,
                    s > 0,
            ;
        }
        q * s
    }

    /// The sector boundary after the one `n` rounds down to.
    pub fn align_up(&self, n: u64) -> (r: u64)
        requires
            self.wf(),
            n / (self.sector() as u64) * (self.sector() as u64) + self.sector() <= u64::MAX,
        ensures
            r == n / (self.sector() as u64) * (self.sector() as u64) + self.sector(),
    {
        self.align_down(n) + self.sector_size as u64
    }

    /// For a read of `len` bytes at the current position: the aligned start
    /// offset and the number of bytes to read there.
    pub fn plan_read(&self, len: usize) -> (r: (u64, usize))
        requires
            self.wf(),
            self.position() + len <= u64::MAX,
            (self.position() + len) / (self.sector() as int) * (self.sector() as int) + self.sector()
                <= u64::MAX,
        ensures
            r.0 == self.position() / (self.sector() as u64) * (self.sector() as u64),
            r.1 == (((self.position() + len) / (self.sector() as int) * (self.sector() as int)
                + self.sector()) - r.0) as usize,
    {
        let start = self.stream_position;
        let end = start + len as u64;
        let a = self.align_down(start);
        let b = self.align_up(end);
        proof {
            let s = self.sector_size as int;
            assert((start as int) / s * s <= (end as int) / s * s) by (nonlinear_arith)
                requires
                    s > 0,
                    start <= end,
            ;
        }
        (a, (b - a) as usize)
    }

    /// After `filled` bytes were read at the aligned start `aligned`, for a
    /// request of `len` bytes: where the window starts in the bytes read and
    /// how many bytes it holds; the position moves past them.
    pub fn finish_read(&mut self, aligned: u64, filled: usize, len: usize) -> (r: (usize, usize))
        requires
            aligned <= old(self).position(),
            old(self).position() - aligned <= usize::MAX,
            old(self).position() + len <= u64::MAX,
        ensures
            r.0 == old(self).position() - aligned,
            r.1 == (if filled > r.0 {
                if filled - r.0 < len {
                    filled - r.0
                } else {
                    len as int
                }
            } else {
                0
            }),
            r.0 + r.1 <= filled || r.1 == 0,
            final(self).position() == old(self).position() + r.1,
            final(self).sector() == old(self).sector(),
    {
        let offset = (self.stream_position - aligned) as usize;
        let available = filled.saturating_sub(offset);
        let to_copy = if available < len {
            available
        } else {
            len
        };
        self.stream_position = self.stream_position + to_copy as u64;
        (offset, to_copy)
    }

    /// Move the position: to an absolute offset, or relative to the current
    /// position or the end, never before 0.
    pub fn seek(&mut self, pos: SeekTarget) -> (r: u64)
        requires
            match pos {
                SeekTarget::Start(_) => true,
                SeekTarget::Current(d) => old(self).position() <= i64::MAX && i64::MIN
                    <= old(self).position() + d <= i64::MAX,
                SeekTarget::End(d, len) => len <= i64::MAX && i64::MIN <= len + d <= i64::MAX,
            },
        ensures
            r == (match pos {
                SeekTarget::Start(n) => n as int,
                SeekTarget::Current(d) => if old(self).position() + d > 0 {
                    old(self).position() + d
                } else {
                    0
                },
                SeekTarget::End(d, len) => if len + d > 0 {
                    len + d
                } else {
                    0
                },
            }),
            final(self).position() == r,
            final(self).sector() == old(self).sector(),
    {
        let new_pos = match pos {
            SeekTarget::Start(n) => n,
            SeekTarget::Current(d) => {
                let t = self.stream_position as i64 + d;
                if t > 0 {
                    t as u64
                } else {
                    0
                }
            },
            SeekTarget::End(d, len) => {
                let t = len as i64 + d;
                if t > 0 {
                    t as u64
                } else {
                    0
                }
            },
        };
        self.stream_position = new_pos;
        new_pos
    }
}

} // verus!
