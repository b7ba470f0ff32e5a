//! Building the index from per-volume scans, and the report of a one-shot
//! scan. The scans themselves are the application's part.
use vstd::prelude::*;
use crate::fmt::{dec, push_dec};
use crate::index::{FileIndex, put_all};
use crate::query::strings_view;
use crate::text::{chars_of, string_from_chars};
use crate::types::IndexedFile;

verus! {

/// The entries of the volumes that scanned, in volume order.
pub open spec fn scanned(scans: Seq<Option<Vec<IndexedFile>>>) -> Seq<IndexedFile>
    decreases scans.len(),
{
    if scans.len() == 0 {
        Seq::empty()
    } else {
        scanned(scans.drop_last()) + match scans.last() {
            Some(v) => v@,
            None => Seq::empty(),
        }
    }
}

/// Replace the index with the entries of every volume that scanned (a
/// failed volume is skipped); returns how many entries it holds.
pub fn build_index(index: &mut FileIndex, scans: Vec<Option<Vec<IndexedFile>>>) -> (r: usize)
    requires
        old(index).wf(),
        scanned(scans@).len() <= usize::MAX,
    ensures
        final(index).wf(),
        r == scanned(scans@).len(),
        final(index).entries_view() == put_all(Seq::empty(), scanned(scans@)),
        final(index).changes_view() == old(index).changes_view(),
{
    let ghost sv = scans@;
    let mut all: Vec<IndexedFile> = Vec::new();
    let mut scans = scans;
    let mut i: usize = 0;
    let n = scans.len();
    proof {
        assert(sv.take(0) =~= Seq::<Option<Vec<IndexedFile>>>::empty());
        assert(sv.skip(0) =~= sv);
    }
    while i < n
        invariant
            i <= n,
            n == sv.len(),
            scans@ == sv.skip(i as int),
            all@ == scanned(sv.take(i as int)),
        decreases n - i,
    {
        proof {
            assert(sv.take(i as int + 1).drop_last() =~= sv.take(i as int));
            assert(sv.take(i as int + 1).last() == sv[i as int]);
        }
        let item = scans.remove(0);
        match item {
            Some(mut v) => {
                all.append(&mut v);
            },
            None => {},
        }
        proof {
            assert(all@ =~= scanned(sv.take(i as int + 1)));
            assert(scans@ =~= sv.skip(i as int + 1));
        }
        i += 1;
    }
    proof {
        assert(sv.take(n as int) =~= sv);
    }
    index.replace(all)
}

/// One report line per volume: `VOLUME: N entries`, or `VOLUME: ERROR: MESSAGE`
/// where its scan failed with MESSAGE.
pub open spec fn report_line(volume: Seq<char>, outcome: Result<usize, Seq<char>>) -> Seq<char> {
    match outcome {
        Ok(n) => volume + ": "@ + dec(n as nat) + " entries\n"@,
        Err(m) => volume + ": ERROR: "@ + m + "\n"@,
    }
}

pub open spec fn report(volumes: Seq<Seq<char>>, outcomes: Seq<Result<usize, Seq<char>>>) -> Seq<char>
    decreases volumes.len(),
{
    if volumes.len() == 0 || outcomes.len() < volumes.len() {
        Seq::empty()
    } else {
        report(volumes.drop_last(), outcomes.take(volumes.len() - 1)) + report_line(
            volumes.last(),
            outcomes[volumes.len() - 1],
        )
    }
}

pub open spec fn outcome_view(o: Result<usize, String>) -> Result<usize, Seq<char>> {
    match o {
        Ok(n) => Ok(n),
        Err(m) => Err(m@),
    }
}

pub open spec fn outcomes_view(v: Seq<Result<usize, String>>) -> Seq<Result<usize, Seq<char>>> {
    v.map_values(|o: Result<usize, String>| outcome_view(o))
}

fn append_str(v: &mut Vec<char>, s: &str)
    ensures
        final(v)@ == old(v)@ + s@,
{
    let mut t = chars_of(s);
    v.append(&mut t);
}

/// The report of a one-shot scan, given each volume's entry count or error.
pub fn scan_all_volumes(volumes: &[String], outcomes: &[Result<usize, String>]) -> (r: String)
    requires
        outcomes@.len() == volumes@.len(),
    ensures
        r@ == report(strings_view(volumes@), outcomes_view(outcomes@)),
{
    let ghost vv = strings_view(volumes@);
    let ghost ov = outcomes_view(outcomes@);
    let mut out: Vec<char> = Vec::new();
    let mut i: usize = 0;
    proof {
        assert(vv.take(0) =~= Seq::<Seq<char>>::empty());
    }
    while i < volumes.len()
        invariant
            i <= volumes@.len(),
            outcomes@.len() == volumes@.len(),
            vv == strings_view(volumes@),
            ov == outcomes_view(outcomes@),
            out@ == report(vv.take(i as int), ov.take(i as int)),
        decreases volumes@.len() - i,
    {
        let ghost before = out@;
        append_str(&mut out, volumes[i].as_str());
        match &outcomes[i] {
            Ok(n) => {
                append_str(&mut out, ": ");
                push_dec(&mut out, *n as u64);
                append_str(&mut out, " entries\n");
            },
            Err(m) => {
                append_str(&mut out, ": ERROR: ");
                append_str(&mut out, m.as_str());
                append_str(&mut out, "\n");
            },
        }
        proof {
            let vt = vv.take(i as int + 1);
            let ot = ov.take(i as int + 1);
            assert(vt.drop_last() =~= vv.take(i as int));
            assert(ot.take(vt.len() - 1) =~= ov.take(i as int));
            assert(vt.last() == volumes@[i as int]@);
            assert(ot[vt.len() - 1] == outcome_view(outcomes@[i as int]));
            assert(out@ =~= before + report_line(vt.last(), ot[vt.len() - 1]));
        }
        i += 1;
    }
    proof {
        assert(vv.take(volumes@.len() as int) =~= vv);
        assert(ov.take(volumes@.len() as int) =~= ov);
    }
    string_from_chars(&out)
}

} // verus!
