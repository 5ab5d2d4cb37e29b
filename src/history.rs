use vstd::prelude::*;
use vstd::multiset::Multiset;
use vstd::seq_lib::group_to_multiset_ensures;
use vstd::string::StringSliceAdditionalSpecFns;

use crate::checksum::{decimal_spec, parse_checksum};
use crate::error::MigrationError;
use crate::timestamp::{parse_rfc3339, rfc3339_reading, Timestamp};

verus! {

broadcast use group_to_multiset_ensures;

/// The persisted record of one applied migration.
#[derive(Debug)]
pub struct HistoryRecord {
    pub version: u64,
    pub name: String,
    pub applied_on: Timestamp,
    pub checksum: u64,
}

/// Builds a record from a stored row whose timestamp has already been read:
/// fails with `CorruptHistory` where the timestamp did not read or the
/// checksum text is not a 64-bit decimal.
pub fn record_from_parts(
    version: u64,
    name: String,
    applied_on: Option<Timestamp>,
    checksum: &str,
) -> (r: Result<HistoryRecord, MigrationError>)
    ensures
        match r {
            Ok(rec) => rec.version == version && rec.name@ == name@ && applied_on == Some(
                rec.applied_on,
            ) && decimal_spec(checksum.spec_bytes()) == Some(rec.checksum),
            Err(e) => e == MigrationError::CorruptHistory(version) && (applied_on is None
                || decimal_spec(checksum.spec_bytes()) is None),
        },
{
    match applied_on {
        None => Err(MigrationError::CorruptHistory(version)),
        Some(t) => match parse_checksum(checksum) {
            None => Err(MigrationError::CorruptHistory(version)),
            Some(c) => Ok(HistoryRecord { version, name, applied_on: t, checksum: c }),
        },
    }
}

/// Reads one stored history row: `applied_on` as RFC 3339 text and `checksum`
/// as decimal text. A field that does not read back gives `CorruptHistory`.
pub fn parse_history_row(version: u64, name: String, applied_on: &str, checksum: &str) -> (r: Result<
    HistoryRecord,
    MigrationError,
>)
    ensures
        match r {
            Ok(rec) => rec.version == version && rec.name@ == name@ && rfc3339_reading(applied_on@)
                == Some(rec.applied_on.parts()) && decimal_spec(checksum.spec_bytes()) == Some(
                rec.checksum,
            ),
            Err(e) => e == MigrationError::CorruptHistory(version) && (rfc3339_reading(applied_on@)
                is None || decimal_spec(checksum.spec_bytes()) is None),
        },
{
    let t = parse_rfc3339(applied_on);
    record_from_parts(version, name, t, checksum)
}

/// Versions ascend weakly along `h`.
pub open spec fn history_sorted(h: Seq<HistoryRecord>) -> bool {
    forall|i: int, j: int| 0 <= i < j < h.len() ==> h[i].version <= h[j].version
}

/// Orders the loaded history by ascending version, keeping every record.
pub fn sort_history(records: Vec<HistoryRecord>) -> (r: Vec<HistoryRecord>)
    ensures
        history_sorted(r@),
        r@.to_multiset() == records@.to_multiset(),
{
    let mut rest = records;
    let mut out: Vec<HistoryRecord> = Vec::new();
    while rest.len() > 0
        invariant
            history_sorted(out@),
            out@.to_multiset().add(rest@.to_multiset()) == records@.to_multiset(),
        decreases rest@.len(),
    {
        let ghost before = rest@;
        let rec = rest.pop().unwrap();
        assert(before == rest@.push(rec));
        let mut pos: usize = 0;
        while pos < out.len() && out[pos].version <= rec.version
            invariant
                pos <= out@.len(),
                forall|j: int| 0 <= j < pos ==> out@[j].version <= rec.version,
            decreases out@.len() - pos,
        {
            pos = pos + 1;
        }
        let ghost prev = out@;
        out.insert(pos, rec);
        assert(out@ == prev.insert(pos as int, rec));
        assert(out@.to_multiset() == prev.to_multiset().insert(rec));
        assert(history_sorted(out@)) by {
            assert forall|i: int, j: int| 0 <= i < j < out@.len() implies out@[i].version
                <= out@[j].version by {
                if j < pos {
                } else if j == pos {
                } else if i < pos {
                    assert(out@[i].version <= rec.version);
                    if pos < prev.len() {
                        assert(rec.version < prev[pos as int].version);
                        assert(prev[pos as int].version <= prev[j - 1].version);
                    }
                } else if i == pos {
                    assert(rec.version < prev[pos as int].version);
                    assert(prev[pos as int].version <= prev[j - 1].version);
                } else {
                    assert(prev[i - 1].version <= prev[j - 1].version);
                }
            }
        }
        assert(out@.to_multiset().add(rest@.to_multiset()) =~= records@.to_multiset());
    }
    assert(rest@.to_multiset() =~= Multiset::empty());
    assert(out@.to_multiset() =~= records@.to_multiset());
    out
}

} // verus!
