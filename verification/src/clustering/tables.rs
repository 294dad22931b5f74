//! The binary column dumps of the abstraction tables: one row per
//! observation for the centroid table, one row per pair key for the
//! distance table, framed like the profile dump. The distance value
//! word carries the metric's fixed-point integer.

use vstd::prelude::*;
use crate::mccfr::persist::spec_be2;
use crate::mccfr::persist::spec_be4;
use crate::mccfr::persist::spec_be8;
use crate::mccfr::persist::spec_header;
use crate::mccfr::persist::push_be2;
use crate::mccfr::persist::push_be4;
use crate::mccfr::persist::push_be8;

verus! {

/// One centroid row: a packed observation and its cluster label.
#[derive(Debug, Clone, Copy, PartialEq, Eq, Structural)]
pub struct CentroidRow {
    pub observation: u64,
    pub abstraction: u64,
}

/// One distance row: an unordered pair key and the distance word.
#[derive(Debug, Clone, Copy, PartialEq, Eq, Structural)]
pub struct DistanceRow {
    pub key: u64,
    pub distance: u32,
}

/// One centroid record: two length-prefixed big-endian words.
pub open spec fn spec_centroid_record(row: CentroidRow) -> Seq<u8> {
    spec_be2(2) + spec_be4(8) + spec_be8(row.observation) + spec_be4(8) + spec_be8(row.abstraction)
}

/// One distance record: the key and the four-byte distance word.
pub open spec fn spec_distance_record(row: DistanceRow) -> Seq<u8> {
    spec_be2(2) + spec_be4(8) + spec_be8(row.key) + spec_be4(4) + spec_be4(row.distance)
}

/// All centroid records, in order.
pub open spec fn spec_centroid_records(rows: Seq<CentroidRow>) -> Seq<u8>
    decreases rows.len(),
{
    if rows.len() == 0 {
        Seq::empty()
    } else {
        spec_centroid_records(rows.drop_last()) + spec_centroid_record(rows.last())
    }
}

/// All distance records, in order.
pub open spec fn spec_distance_records(rows: Seq<DistanceRow>) -> Seq<u8>
    decreases rows.len(),
{
    if rows.len() == 0 {
        Seq::empty()
    } else {
        spec_distance_records(rows.drop_last()) + spec_distance_record(rows.last())
    }
}

/// The whole centroid dump: header, records, terminator.
pub open spec fn spec_centroid_dump(rows: Seq<CentroidRow>) -> Seq<u8> {
    spec_header() + spec_centroid_records(rows) + spec_be2(0xFFFF)
}

/// The whole distance dump: header, records, terminator.
pub open spec fn spec_distance_dump(rows: Seq<DistanceRow>) -> Seq<u8> {
    spec_header() + spec_distance_records(rows) + spec_be2(0xFFFF)
}

/// Serialize the centroid table.
#[verifier::rlimit(60)]
pub fn encode_centroid_rows(rows: &Vec<CentroidRow>) -> (out: Vec<u8>)
    ensures
        out@ == spec_centroid_dump(rows@),
{
    let mut out: Vec<u8> = Vec::new();
    push_header(&mut out);
    let mut k: usize = 0;
    while k < rows.len()
        invariant
            k <= rows@.len(),
            out@ == spec_header() + spec_centroid_records(rows@.take(k as int)),
        decreases rows@.len() - k,
    {
        let row = rows[k];
        push_be2(&mut out, 2);
        push_be4(&mut out, 8);
        push_be8(&mut out, row.observation);
        push_be4(&mut out, 8);
        push_be8(&mut out, row.abstraction);
        proof {
            assert(rows@.take(k as int + 1).drop_last() =~= rows@.take(k as int));
            assert(out@ =~= spec_header() + spec_centroid_records(rows@.take(k as int + 1)));
        }
        k = k + 1;
    }
    proof {
        assert(rows@.take(rows@.len() as int) =~= rows@);
    }
    push_be2(&mut out, 0xFFFF);
    proof {
        assert(out@ =~= spec_centroid_dump(rows@));
    }
    out
}

/// Serialize the distance table.
#[verifier::rlimit(60)]
pub fn encode_distance_rows(rows: &Vec<DistanceRow>) -> (out: Vec<u8>)
    ensures
        out@ == spec_distance_dump(rows@),
{
    let mut out: Vec<u8> = Vec::new();
    push_header(&mut out);
    let mut k: usize = 0;
    while k < rows.len()
        invariant
            k <= rows@.len(),
            out@ == spec_header() + spec_distance_records(rows@.take(k as int)),
        decreases rows@.len() - k,
    {
        let row = rows[k];
        push_be2(&mut out, 2);
        push_be4(&mut out, 8);
        push_be8(&mut out, row.key);
        push_be4(&mut out, 4);
        push_be4(&mut out, row.distance);
        proof {
            assert(rows@.take(k as int + 1).drop_last() =~= rows@.take(k as int));
            assert(out@ =~= spec_header() + spec_distance_records(rows@.take(k as int + 1)));
        }
        k = k + 1;
    }
    proof {
        assert(rows@.take(rows@.len() as int) =~= rows@);
    }
    push_be2(&mut out, 0xFFFF);
    proof {
        assert(out@ =~= spec_distance_dump(rows@));
    }
    out
}

/// Append the 19-byte file header.
fn push_header(out: &mut Vec<u8>)
    requires
        old(out)@.len() == 0,
    ensures
        final(out)@ == spec_header(),
{
    out.push(0x50);
    out.push(0x47);
    out.push(0x43);
    out.push(0x4F);
    out.push(0x50);
    out.push(0x59);
    out.push(0x0A);
    out.push(0xFF);
    out.push(0x0D);
    out.push(0x0A);
    out.push(0x00);
    push_be4(out, 0);
    push_be4(out, 0);
    proof {
        assert(final(out)@ =~= spec_header());
    }
}

} // verus!
