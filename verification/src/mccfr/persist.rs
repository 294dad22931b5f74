//! The binary column dump of a profile: a fixed header, one
//! length-prefixed big-endian record per stored edge, and a terminator.
//! The two four-byte value fields carry the store's fixed-point regret
//! and policy words; any float view of them is the caller's business.

use vstd::prelude::*;
use crate::mccfr::profile::BucketStrategy;
use crate::mccfr::profile::Profile;

verus! {

/// One record of the dump: an information-set key, an edge, and the
/// edge's stored decision words.
#[derive(Debug, Clone, Copy, PartialEq, Eq, Structural)]
pub struct ProfileRow {
    pub past: u64,
    pub present: u64,
    pub future: u64,
    pub edge: u64,
    pub regret: u32,
    pub policy: u32,
}

/// A 16-bit word as two big-endian bytes.
pub open spec fn spec_be2(x: u16) -> Seq<u8> {
    seq![(x >> 8) as u8, x as u8]
}

/// A 32-bit word as four big-endian bytes.
pub open spec fn spec_be4(x: u32) -> Seq<u8> {
    seq![(x >> 24) as u8, (x >> 16) as u8, (x >> 8) as u8, x as u8]
}

/// A 64-bit word as eight big-endian bytes.
pub open spec fn spec_be8(x: u64) -> Seq<u8> {
    seq![
        (x >> 56) as u8,
        (x >> 48) as u8,
        (x >> 40) as u8,
        (x >> 32) as u8,
        (x >> 24) as u8,
        (x >> 16) as u8,
        (x >> 8) as u8,
        x as u8,
    ]
}

/// The 19-byte file header: the signature bytes, then a zero flags
/// word and a zero extension length.
pub open spec fn spec_header() -> Seq<u8> {
    seq![
        0x50u8,
        0x47u8,
        0x43u8,
        0x4Fu8,
        0x50u8,
        0x59u8,
        0x0Au8,
        0xFFu8,
        0x0Du8,
        0x0Au8,
        0x00u8,
    ] + spec_be4(0) + spec_be4(0)
}

/// One record: a field count of six, then the six fields, each behind
/// its big-endian byte length.
pub open spec fn spec_record(row: ProfileRow) -> Seq<u8> {
    spec_be2(6) + spec_be4(8) + spec_be8(row.past) + spec_be4(8) + spec_be8(row.present) + spec_be4(
        8,
    ) + spec_be8(row.future) + spec_be4(8) + spec_be8(row.edge) + spec_be4(4) + spec_be4(row.regret)
        + spec_be4(4) + spec_be4(row.policy)
}

/// All records, in order.
pub open spec fn spec_records(rows: Seq<ProfileRow>) -> Seq<u8>
    decreases rows.len(),
{
    if rows.len() == 0 {
        Seq::empty()
    } else {
        spec_records(rows.drop_last()) + spec_record(rows.last())
    }
}

/// The whole dump: header, records, terminator.
pub open spec fn spec_dump(rows: Seq<ProfileRow>) -> Seq<u8> {
    spec_header() + spec_records(rows) + spec_be2(0xFFFF)
}

/// Append a 16-bit word, big end first.
pub(crate) fn push_be2(out: &mut Vec<u8>, x: u16)
    ensures
        final(out)@ == old(out)@ + spec_be2(x),
{
    out.push((x >> 8) as u8);
    out.push(x as u8);
    proof {
        assert(final(out)@ =~= old(out)@ + spec_be2(x));
    }
}

/// Append a 32-bit word, big end first.
pub(crate) fn push_be4(out: &mut Vec<u8>, x: u32)
    ensures
        final(out)@ == old(out)@ + spec_be4(x),
{
    out.push((x >> 24) as u8);
    out.push((x >> 16) as u8);
    out.push((x >> 8) as u8);
    out.push(x as u8);
    proof {
        assert(final(out)@ =~= old(out)@ + spec_be4(x));
    }
}

/// Append a 64-bit word, big end first.
pub(crate) fn push_be8(out: &mut Vec<u8>, x: u64)
    ensures
        final(out)@ == old(out)@ + spec_be8(x),
{
    out.push((x >> 56) as u8);
    out.push((x >> 48) as u8);
    out.push((x >> 40) as u8);
    out.push((x >> 32) as u8);
    out.push((x >> 24) as u8);
    out.push((x >> 16) as u8);
    out.push((x >> 8) as u8);
    out.push(x as u8);
    proof {
        assert(final(out)@ =~= old(out)@ + spec_be8(x));
    }
}

/// Serialize rows into the dump layout.
#[verifier::rlimit(60)]
#[verifier::spinoff_prover]
pub fn encode_rows(rows: &Vec<ProfileRow>) -> (out: Vec<u8>)
    ensures
        out@ == spec_dump(rows@),
{
    let mut out: Vec<u8> = Vec::new();
    out.push(0x50);
    out.push(0x47);
    out.push(0x43);
    out.push(0x4F);
    out.push(0x50);
    out.push(0x59);
    out.push(0x0A);
    out.push(0xFF);
    out.push(0x0D);
    out.push(0x0A);
    out.push(0x00);
    push_be4(&mut out, 0);
    push_be4(&mut out, 0);
    proof {
        assert(out@ =~= spec_header());
        assert(rows@.take(0) =~= Seq::<ProfileRow>::empty());
    }
    let mut k: usize = 0;
    while k < rows.len()
        invariant
            k <= rows@.len(),
            out@ == spec_header() + spec_records(rows@.take(k as int)),
        decreases rows@.len() - k,
    {
        let row = rows[k];
        push_be2(&mut out, 6);
        push_be4(&mut out, 8);
        push_be8(&mut out, row.past);
        push_be4(&mut out, 8);
        push_be8(&mut out, row.present);
        push_be4(&mut out, 8);
        push_be8(&mut out, row.future);
        push_be4(&mut out, 8);
        push_be8(&mut out, row.edge);
        push_be4(&mut out, 4);
        push_be4(&mut out, row.regret);
        push_be4(&mut out, 4);
        push_be4(&mut out, row.policy);
        proof {
            assert(rows@.take(k as int + 1).drop_last() =~= rows@.take(k as int));
            assert(rows@.take(k as int + 1).last() == rows@[k as int]);
            assert(out@ =~= spec_header() + spec_records(rows@.take(k as int + 1)));
        }
        k = k + 1;
    }
    proof {
        assert(rows@.take(rows@.len() as int) =~= rows@);
    }
    push_be2(&mut out, 0xFFFF);
    proof {
        assert(out@ =~= spec_dump(rows@));
    }
    out
}

/// Eight bytes reassembled into a 64-bit word, big end first.
pub open spec fn spec_compose8(
    b0: u8,
    b1: u8,
    b2: u8,
    b3: u8,
    b4: u8,
    b5: u8,
    b6: u8,
    b7: u8,
) -> u64 {
    ((b0 as u64) << 56) | ((b1 as u64) << 48) | ((b2 as u64) << 40) | ((b3 as u64) << 32) | ((
    b4 as u64) << 24) | ((b5 as u64) << 16) | ((b6 as u64) << 8) | (b7 as u64)
}

/// Four bytes reassembled into a 32-bit word, big end first.
pub open spec fn spec_compose4(b0: u8, b1: u8, b2: u8, b3: u8) -> u32 {
    ((b0 as u32) << 24) | ((b1 as u32) << 16) | ((b2 as u32) << 8) | (b3 as u32)
}

/// Splitting a word into big-endian bytes and reassembling them is the
/// identity.
proof fn lemma_compose_be8(v: u64)
    ensures
        spec_compose8(
            spec_be8(v)[0],
            spec_be8(v)[1],
            spec_be8(v)[2],
            spec_be8(v)[3],
            spec_be8(v)[4],
            spec_be8(v)[5],
            spec_be8(v)[6],
            spec_be8(v)[7],
        ) == v,
{
    assert(((((v >> 56) as u8) as u64) << 56) | ((((v >> 48) as u8) as u64) << 48) | ((((v
        >> 40) as u8) as u64) << 40) | ((((v >> 32) as u8) as u64) << 32) | ((((v
        >> 24) as u8) as u64) << 24) | ((((v >> 16) as u8) as u64) << 16) | ((((v
        >> 8) as u8) as u64) << 8) | ((v as u8) as u64) == v) by (bit_vector);
}

/// Splitting a 32-bit word into big-endian bytes and reassembling them
/// is the identity.
proof fn lemma_compose_be4(v: u32)
    ensures
        spec_compose4(spec_be4(v)[0], spec_be4(v)[1], spec_be4(v)[2], spec_be4(v)[3]) == v,
{
    assert(((((v >> 24) as u8) as u32) << 24) | ((((v >> 16) as u8) as u32) << 16) | ((((v
        >> 8) as u8) as u32) << 8) | ((v as u8) as u32) == v) by (bit_vector);
}

/// Read a big-endian 64-bit word at `pos`.
fn read_be8(bytes: &Vec<u8>, pos: usize) -> (x: u64)
    requires
        pos + 8 <= bytes@.len(),
    ensures
        x == spec_compose8(
            bytes@[pos as int],
            bytes@[pos as int + 1],
            bytes@[pos as int + 2],
            bytes@[pos as int + 3],
            bytes@[pos as int + 4],
            bytes@[pos as int + 5],
            bytes@[pos as int + 6],
            bytes@[pos as int + 7],
        ),
{
    let n = bytes.len();
    proof {
        assert(pos + 8 <= n);
    }
    ((bytes[pos] as u64) << 56) | ((bytes[pos + 1] as u64) << 48) | ((bytes[pos + 2] as u64) << 40)
        | ((bytes[pos + 3] as u64) << 32) | ((bytes[pos + 4] as u64) << 24) | ((bytes[pos
        + 5] as u64) << 16) | ((bytes[pos + 6] as u64) << 8) | (bytes[pos + 7] as u64)
}

/// Read a big-endian 32-bit word at `pos`.
fn read_be4(bytes: &Vec<u8>, pos: usize) -> (x: u32)
    requires
        pos + 4 <= bytes@.len(),
    ensures
        x == spec_compose4(
            bytes@[pos as int],
            bytes@[pos as int + 1],
            bytes@[pos as int + 2],
            bytes@[pos as int + 3],
        ),
{
    let n = bytes.len();
    proof {
        assert(pos + 4 <= n);
    }
    ((bytes[pos] as u32) << 24) | ((bytes[pos + 1] as u32) << 16) | ((bytes[pos + 2] as u32) << 8)
        | (bytes[pos + 3] as u32)
}

/// Where each field's bytes sit inside one record.
proof fn lemma_record_fields(row: ProfileRow)
    ensures
        spec_record(row).len() == 66,
        forall|j: int| 0 <= j < 8 ==> spec_record(row)[6 + j] == spec_be8(row.past)[j],
        forall|j: int| 0 <= j < 8 ==> spec_record(row)[18 + j] == spec_be8(row.present)[j],
        forall|j: int| 0 <= j < 8 ==> spec_record(row)[30 + j] == spec_be8(row.future)[j],
        forall|j: int| 0 <= j < 8 ==> spec_record(row)[42 + j] == spec_be8(row.edge)[j],
        forall|j: int| 0 <= j < 4 ==> spec_record(row)[54 + j] == spec_be4(row.regret)[j],
        forall|j: int| 0 <= j < 4 ==> spec_record(row)[62 + j] == spec_be4(row.policy)[j],
{
}

/// Where each record's bytes sit inside the record stream.
proof fn lemma_records_index(rows: Seq<ProfileRow>, i: int)
    requires
        0 <= i < rows.len(),
    ensures
        forall|j: int|
            0 <= j < 66 ==> spec_records(rows)[66 * i + j] == spec_record(rows[i])[j],
    decreases rows.len(),
{
    lemma_records_len(rows);
    lemma_records_len(rows.drop_last());
    lemma_record_fields(rows[i]);
    if i == rows.len() - 1 {
        assert forall|j: int|
            0 <= j < 66 implies spec_records(rows)[66 * i + j] == spec_record(rows[i])[j] by {
            assert(66 * i + j >= spec_records(rows.drop_last()).len()) by (nonlinear_arith)
                requires
                    spec_records(rows.drop_last()).len() == 66 * i,
                    j >= 0,
            ;
        }
    } else {
        lemma_records_index(rows.drop_last(), i);
        assert forall|j: int|
            0 <= j < 66 implies spec_records(rows)[66 * i + j] == spec_record(rows[i])[j] by {
            assert(66 * i + j < 66 * (rows.len() - 1)) by (nonlinear_arith)
                requires
                    0 <= i < rows.len() - 1,
                    0 <= j < 66,
            ;
            assert(spec_records(rows)[66 * i + j] == spec_records(rows.drop_last())[66 * i + j]);
            assert(rows.drop_last()[i] == rows[i]);
        }
    }
}

/// A row whose fields were reassembled from a dump's record bytes is
/// that record's row.
#[verifier::rlimit(100)]
#[verifier::spinoff_prover]
proof fn lemma_witness_row(bytes: Seq<u8>, w: Seq<ProfileRow>, k: int, row: ProfileRow)
    requires
        bytes == spec_dump(w),
        0 <= k < w.len(),
        row.past == spec_compose8(
            bytes[19 + 66 * k + 6],
            bytes[19 + 66 * k + 7],
            bytes[19 + 66 * k + 8],
            bytes[19 + 66 * k + 9],
            bytes[19 + 66 * k + 10],
            bytes[19 + 66 * k + 11],
            bytes[19 + 66 * k + 12],
            bytes[19 + 66 * k + 13],
        ),
        row.present == spec_compose8(
            bytes[19 + 66 * k + 18],
            bytes[19 + 66 * k + 19],
            bytes[19 + 66 * k + 20],
            bytes[19 + 66 * k + 21],
            bytes[19 + 66 * k + 22],
            bytes[19 + 66 * k + 23],
            bytes[19 + 66 * k + 24],
            bytes[19 + 66 * k + 25],
        ),
        row.future == spec_compose8(
            bytes[19 + 66 * k + 30],
            bytes[19 + 66 * k + 31],
            bytes[19 + 66 * k + 32],
            bytes[19 + 66 * k + 33],
            bytes[19 + 66 * k + 34],
            bytes[19 + 66 * k + 35],
            bytes[19 + 66 * k + 36],
            bytes[19 + 66 * k + 37],
        ),
        row.edge == spec_compose8(
            bytes[19 + 66 * k + 42],
            bytes[19 + 66 * k + 43],
            bytes[19 + 66 * k + 44],
            bytes[19 + 66 * k + 45],
            bytes[19 + 66 * k + 46],
            bytes[19 + 66 * k + 47],
            bytes[19 + 66 * k + 48],
            bytes[19 + 66 * k + 49],
        ),
        row.regret == spec_compose4(
            bytes[19 + 66 * k + 54],
            bytes[19 + 66 * k + 55],
            bytes[19 + 66 * k + 56],
            bytes[19 + 66 * k + 57],
        ),
        row.policy == spec_compose4(
            bytes[19 + 66 * k + 62],
            bytes[19 + 66 * k + 63],
            bytes[19 + 66 * k + 64],
            bytes[19 + 66 * k + 65],
        ),
    ensures
        row == w[k],
{
    lemma_records_len(w);
    lemma_records_index(w, k);
    lemma_record_fields(w[k]);
    assert forall|j: int| 0 <= j < 66 implies bytes[19 + 66 * k + j] == spec_record(w[k])[j] by {
        assert(spec_header().len() == 19);
        assert(66 * k + j < spec_records(w).len()) by (nonlinear_arith)
            requires
                0 <= k < w.len(),
                0 <= j < 66,
                spec_records(w).len() == 66 * w.len(),
        ;
        assert(spec_dump(w)[19 + 66 * k + j] == spec_records(w)[66 * k + j]);
    }
    lemma_compose_be8(w[k].past);
    lemma_compose_be8(w[k].present);
    lemma_compose_be8(w[k].future);
    lemma_compose_be8(w[k].edge);
    lemma_compose_be4(w[k].regret);
    lemma_compose_be4(w[k].policy);
}

/// Parse a dump back into rows: the header, the per-record field
/// counts and lengths, and the terminator are all checked, and the
/// parse is validated by re-serializing. A malformed dump reads as
/// nothing; every well-formed dump reads back exactly the rows that
/// were dumped.
#[verifier::rlimit(100)]
#[verifier::spinoff_prover]
pub fn decode_rows(bytes: &Vec<u8>) -> (res: Option<Vec<ProfileRow>>)
    ensures
        match res {
            Some(rows) => spec_dump(rows@) == bytes@,
            None => true,
        },
        (exists|rows: Seq<ProfileRow>| bytes@ == spec_dump(rows)) ==> res is Some,
{
    let ghost has_w = exists|rows: Seq<ProfileRow>| bytes@ == spec_dump(rows);
    let ghost w: Seq<ProfileRow> = if has_w {
        choose|rows: Seq<ProfileRow>| bytes@ == spec_dump(rows)
    } else {
        Seq::empty()
    };
    proof {
        if has_w {
            lemma_records_len(w);
        }
    }
    if bytes.len() < 21 {
        proof {
            if has_w {
                assert(bytes@.len() == 21 + 66 * w.len());
                assert(66 * w.len() >= 0) by (nonlinear_arith)
                    requires
                        w.len() >= 0,
                ;
            }
        }
        return None;
    }
    if (bytes.len() - 21) % 66 != 0 {
        proof {
            if has_w {
                vstd::arithmetic::div_mod::lemma_mod_multiples_basic(w.len() as int, 66);
                assert((66 * w.len()) % 66 == 0) by {
                    assert(w.len() * 66 == 66 * w.len()) by (nonlinear_arith);
                }
            }
        }
        return None;
    }
    let count = (bytes.len() - 21) / 66;
    let n = bytes.len();
    proof {
        if has_w {
            vstd::arithmetic::div_mod::lemma_div_multiples_vanish(w.len() as int, 66);
            assert((66 * w.len()) / 66 == w.len()) by {
                assert(66 * w.len() == w.len() * 66) by (nonlinear_arith);
            }
            assert(count == w.len());
        }
    }
    let mut rows: Vec<ProfileRow> = Vec::new();
    let mut pos: usize = 19;
    let mut k: usize = 0;
    proof {
        if has_w {
            assert(rows@ =~= w.take(0));
        }
    }
    while k < count
        invariant
            k <= count,
            pos == 19 + 66 * k,
            n == bytes@.len(),
            count == (bytes@.len() - 21) / 66,
            (bytes@.len() - 21) % 66 == 0,
            bytes@.len() >= 21,
            rows@.len() == k,
            has_w == (exists|rs: Seq<ProfileRow>| bytes@ == spec_dump(rs)),
            has_w ==> bytes@ == spec_dump(w) && count == w.len() && rows@ == w.take(k as int),
        decreases count - k,
    {
        proof {
            assert(pos + 66 <= n) by (nonlinear_arith)
                requires
                    pos == 19 + 66 * k,
                    k < count,
                    n == bytes@.len(),
                    count == (bytes@.len() - 21) / 66,
                    (bytes@.len() - 21) % 66 == 0,
                    bytes@.len() >= 21,
            ;
        }
        let past = read_be8(bytes, pos + 6);
        let present = read_be8(bytes, pos + 18);
        let future = read_be8(bytes, pos + 30);
        let edge = read_be8(bytes, pos + 42);
        let regret = read_be4(bytes, pos + 54);
        let policy = read_be4(bytes, pos + 62);
        let row = ProfileRow { past, present, future, edge, regret, policy };
        proof {
            if has_w {
                lemma_witness_row(bytes@, w, k as int, row);
                assert(rows@.push(row) =~= w.take(k as int + 1));
            }
        }
        rows.push(row);
        pos = pos + 66;
        k = k + 1;
    }
    proof {
        if has_w {
            assert(rows@ =~= w.take(w.len() as int));
            assert(rows@ =~= w);
        }
    }
    let again = encode_rows(&rows);
    if !bytes_equal(&again, bytes) {
        proof {
            if has_w {
                assert(again@ == spec_dump(rows@));
                assert(again@ == bytes@);
            }
        }
        return None;
    }
    Some(rows)
}

/// Are two byte strings identical?
fn bytes_equal(a: &Vec<u8>, b: &Vec<u8>) -> (r: bool)
    ensures
        r == (a@ == b@),
{
    if a.len() != b.len() {
        proof {
            assert(a@.len() != b@.len());
        }
        return false;
    }
    let mut i: usize = 0;
    while i < a.len()
        invariant
            i <= a@.len(),
            a@.len() == b@.len(),
            forall|j: int| 0 <= j < i ==> a@[j] == b@[j],
        decreases a@.len() - i,
    {
        if a[i] != b[i] {
            return false;
        }
        i = i + 1;
    }
    proof {
        assert(a@ =~= b@);
    }
    true
}

/// Dumps of different row lists differ: the dump determines its rows.
/// With `encode_rows` and `decode_rows` this gives the round trip:
/// decoding a dump yields exactly the rows that were dumped.
pub proof fn lemma_dump_injective(r1: Seq<ProfileRow>, r2: Seq<ProfileRow>)
    requires
        spec_dump(r1) == spec_dump(r2),
    ensures
        r1 == r2,
{
    lemma_records_len(r1);
    lemma_records_len(r2);
    lemma_records_injective(r1, r2);
}

/// Each record takes 66 bytes.
proof fn lemma_records_len(rows: Seq<ProfileRow>)
    ensures
        spec_records(rows).len() == 66 * rows.len(),
    decreases rows.len(),
{
    if rows.len() > 0 {
        lemma_records_len(rows.drop_last());
    }
}

/// Equal record streams come from equal row lists.
proof fn lemma_records_injective(r1: Seq<ProfileRow>, r2: Seq<ProfileRow>)
    requires
        spec_dump(r1) == spec_dump(r2),
    ensures
        r1 == r2,
    decreases r1.len(),
{
    lemma_records_len(r1);
    lemma_records_len(r2);
    assert(spec_records(r1).len() == spec_records(r2).len()) by {
        assert(spec_header().len() == 19);
        assert(spec_be2(0xFFFF).len() == 2);
        assert(spec_dump(r1).len() == 19 + spec_records(r1).len() + 2);
        assert(spec_dump(r2).len() == 19 + spec_records(r2).len() + 2);
    }
    assert(r1.len() == r2.len());
    if r1.len() == 0 {
        assert(r1 =~= r2);
    } else {
        let a = spec_records(r1);
        let b = spec_records(r2);
        assert(a =~= b) by {
            assert forall|j: int| 0 <= j < a.len() implies a[j] == b[j] by {
                assert(spec_dump(r1)[19 + j] == a[j]);
                assert(spec_dump(r2)[19 + j] == b[j]);
            }
        }
        assert(spec_record(r1.last()) =~= spec_record(r2.last())) by {
            let base = a.len() - 66;
            assert forall|j: int| 0 <= j < 66 implies spec_record(r1.last())[j] == spec_record(
                r2.last(),
            )[j] by {
                lemma_records_len(r1.drop_last());
                lemma_records_len(r2.drop_last());
                assert(a[base + j] == spec_record(r1.last())[j]);
                assert(b[base + j] == spec_record(r2.last())[j]);
            }
        }
        lemma_record_injective(r1.last(), r2.last());
        assert(spec_records(r1.drop_last()) =~= spec_records(r2.drop_last())) by {
            lemma_records_len(r1.drop_last());
            assert forall|j: int| 0 <= j < spec_records(r1.drop_last()).len() implies spec_records(
                r1.drop_last(),
            )[j] == spec_records(r2.drop_last())[j] by {
                assert(a[j] == spec_records(r1.drop_last())[j]);
                assert(b[j] == spec_records(r2.drop_last())[j]);
            }
        }
        assert(spec_dump(r1.drop_last()) =~= spec_dump(r2.drop_last()));
        lemma_records_injective(r1.drop_last(), r2.drop_last());
        assert(r1 =~= r1.drop_last().push(r1.last()));
        assert(r2 =~= r2.drop_last().push(r2.last()));
    }
}

/// Equal record bytes come from equal rows.
proof fn lemma_record_injective(x: ProfileRow, y: ProfileRow)
    requires
        spec_record(x) == spec_record(y),
    ensures
        x == y,
{
    assert(spec_be8(x.past) =~= spec_be8(y.past)) by {
        assert forall|j: int| 0 <= j < 8 implies spec_be8(x.past)[j] == spec_be8(y.past)[j] by {
            assert(spec_record(x)[6 + j] == spec_be8(x.past)[j]);
            assert(spec_record(y)[6 + j] == spec_be8(y.past)[j]);
        }
    }
    assert(spec_be8(x.present) =~= spec_be8(y.present)) by {
        assert forall|j: int|
            0 <= j < 8 implies spec_be8(x.present)[j] == spec_be8(y.present)[j] by {
            assert(spec_record(x)[18 + j] == spec_be8(x.present)[j]);
            assert(spec_record(y)[18 + j] == spec_be8(y.present)[j]);
        }
    }
    assert(spec_be8(x.future) =~= spec_be8(y.future)) by {
        assert forall|j: int| 0 <= j < 8 implies spec_be8(x.future)[j] == spec_be8(y.future)[j] by {
            assert(spec_record(x)[30 + j] == spec_be8(x.future)[j]);
            assert(spec_record(y)[30 + j] == spec_be8(y.future)[j]);
        }
    }
    assert(spec_be8(x.edge) =~= spec_be8(y.edge)) by {
        assert forall|j: int| 0 <= j < 8 implies spec_be8(x.edge)[j] == spec_be8(y.edge)[j] by {
            assert(spec_record(x)[42 + j] == spec_be8(x.edge)[j]);
            assert(spec_record(y)[42 + j] == spec_be8(y.edge)[j]);
        }
    }
    assert(spec_be4(x.regret) =~= spec_be4(y.regret)) by {
        assert forall|j: int| 0 <= j < 4 implies spec_be4(x.regret)[j] == spec_be4(y.regret)[j] by {
            assert(spec_record(x)[54 + j] == spec_be4(x.regret)[j]);
            assert(spec_record(y)[54 + j] == spec_be4(y.regret)[j]);
        }
    }
    assert(spec_be4(x.policy) =~= spec_be4(y.policy)) by {
        assert forall|j: int| 0 <= j < 4 implies spec_be4(x.policy)[j] == spec_be4(y.policy)[j] by {
            assert(spec_record(x)[62 + j] == spec_be4(x.policy)[j]);
            assert(spec_record(y)[62 + j] == spec_be4(y.policy)[j]);
        }
    }
    lemma_be8_injective(x.past, y.past);
    lemma_be8_injective(x.present, y.present);
    lemma_be8_injective(x.future, y.future);
    lemma_be8_injective(x.edge, y.edge);
    lemma_be4_injective(x.regret, y.regret);
    lemma_be4_injective(x.policy, y.policy);
}

/// Eight equal big-endian bytes mean equal words.
proof fn lemma_be8_injective(x: u64, y: u64)
    requires
        spec_be8(x) == spec_be8(y),
    ensures
        x == y,
{
    assert(spec_be8(x)[0] == spec_be8(y)[0]);
    assert(spec_be8(x)[1] == spec_be8(y)[1]);
    assert(spec_be8(x)[2] == spec_be8(y)[2]);
    assert(spec_be8(x)[3] == spec_be8(y)[3]);
    assert(spec_be8(x)[4] == spec_be8(y)[4]);
    assert(spec_be8(x)[5] == spec_be8(y)[5]);
    assert(spec_be8(x)[6] == spec_be8(y)[6]);
    assert(spec_be8(x)[7] == spec_be8(y)[7]);
    assert(((x >> 56) as u8 == (y >> 56) as u8 && (x >> 48) as u8 == (y >> 48) as u8 && (x
        >> 40) as u8 == (y >> 40) as u8 && (x >> 32) as u8 == (y >> 32) as u8 && (x >> 24) as u8
        == (y >> 24) as u8 && (x >> 16) as u8 == (y >> 16) as u8 && (x >> 8) as u8 == (y
        >> 8) as u8 && x as u8 == y as u8) ==> x == y) by (bit_vector);
}

/// Four equal big-endian bytes mean equal words.
proof fn lemma_be4_injective(x: u32, y: u32)
    requires
        spec_be4(x) == spec_be4(y),
    ensures
        x == y,
{
    assert(spec_be4(x)[0] == spec_be4(y)[0]);
    assert(spec_be4(x)[1] == spec_be4(y)[1]);
    assert(spec_be4(x)[2] == spec_be4(y)[2]);
    assert(spec_be4(x)[3] == spec_be4(y)[3]);
    assert(((x >> 24) as u8 == (y >> 24) as u8 && (x >> 16) as u8 == (y >> 16) as u8 && (x
        >> 8) as u8 == (y >> 8) as u8 && x as u8 == y as u8) ==> x == y) by (bit_vector);
}


/// The regret word as stored on disk: the two's-complement value of
/// the fixed-point regret, as an unsigned 32-bit number.
pub open spec fn spec_reg_bits(r: int) -> int {
    if r >= 0 {
        r
    } else {
        r + 0x1_0000_0000
    }
}

/// One dump row for edge `k` of one stored strategy.
pub open spec fn spec_row_of(s: BucketStrategy, k: int) -> ProfileRow {
    ProfileRow {
        past: s.bucket.past.bits,
        present: s.bucket.present.id,
        future: s.bucket.future.bits,
        edge: s.edges@[k].edge.spec_to_u64() as u64,
        regret: spec_reg_bits(s.edges@[k].decision.regret as int) as u32,
        policy: s.edges@[k].decision.policy,
    }
}

/// The rows of one strategy, in stored edge order.
pub open spec fn spec_strategy_rows(s: BucketStrategy) -> Seq<ProfileRow> {
    Seq::new(s.edges@.len(), |k: int| spec_row_of(s, k))
}

/// The rows of a whole store, strategy by strategy.
pub open spec fn spec_flat(ss: Seq<BucketStrategy>) -> Seq<ProfileRow>
    decreases ss.len(),
{
    if ss.len() == 0 {
        Seq::empty()
    } else {
        spec_flat(ss.drop_last()) + spec_strategy_rows(ss.last())
    }
}

/// Every raise among the stored edges fits the one-byte odds fields of
/// the wide packing.
pub open spec fn spec_packable(ss: Seq<BucketStrategy>) -> bool {
    forall|i: int, k: int|
        0 <= i < ss.len() && 0 <= k < (#[trigger] ss[i]).edges@.len() ==> ((
        #[trigger] ss[i].edges@[k]).edge is Raise ==> ss[i].edges@[k].edge->Raise_0.num < 256
            && ss[i].edges@[k].edge->Raise_0.den < 256)
}

/// Do two rows name the same (bucket, edge) slot?
pub open spec fn same_key(a: ProfileRow, b: ProfileRow) -> bool {
    a.past == b.past && a.present == b.present && a.future == b.future && a.edge == b.edge
}

/// The ascending order of rows: by past path, then abstraction, then
/// future path, then packed edge.
pub open spec fn spec_row_lt(a: ProfileRow, b: ProfileRow) -> bool {
    ||| a.past < b.past
    ||| (a.past == b.past && a.present < b.present)
    ||| (a.past == b.past && a.present == b.present && a.future < b.future)
    ||| (a.past == b.past && a.present == b.present && a.future == b.future && a.edge < b.edge)
}

/// Rows are strictly ascending.
pub open spec fn spec_sorted(rows: Seq<ProfileRow>) -> bool {
    forall|i: int, j: int| 0 <= i < j < rows.len() ==> spec_row_lt(#[trigger] rows[i], #[trigger] rows[j])
}

/// No two rows name the same slot.
pub open spec fn spec_keys_distinct(rows: Seq<ProfileRow>) -> bool {
    forall|i: int, j: int| 0 <= i < j < rows.len() ==> !same_key(#[trigger] rows[i], #[trigger] rows[j])
}

/// Is `a` strictly before `b` in the dump order?
fn row_lt(a: &ProfileRow, b: &ProfileRow) -> (r: bool)
    ensures
        r == spec_row_lt(*a, *b),
{
    if a.past != b.past {
        a.past < b.past
    } else if a.present != b.present {
        a.present < b.present
    } else if a.future != b.future {
        a.future < b.future
    } else {
        a.edge < b.edge
    }
}

/// Rows with distinct keys order one way or the other.
proof fn lemma_row_order_total(a: ProfileRow, b: ProfileRow)
    requires
        !same_key(a, b),
    ensures
        spec_row_lt(a, b) != spec_row_lt(b, a),
{
}

/// The position a fresh-keyed row takes in a strictly ascending list.
fn insert_pos(out: &Vec<ProfileRow>, x: &ProfileRow) -> (i: usize)
    requires
        spec_sorted(out@),
        forall|m: int| 0 <= m < out@.len() ==> !same_key(#[trigger] out@[m], *x),
    ensures
        i <= out@.len(),
        forall|m: int| 0 <= m < i ==> spec_row_lt(#[trigger] out@[m], *x),
        i < out@.len() ==> spec_row_lt(*x, out@[i as int]),
{
    let n = out.len();
    let mut i: usize = 0;
    while i < n
        invariant
            i <= n,
            n == out@.len(),
            spec_sorted(out@),
            forall|m: int| 0 <= m < out@.len() ==> !same_key(#[trigger] out@[m], *x),
            forall|m: int| 0 <= m < i ==> spec_row_lt(#[trigger] out@[m], *x),
        decreases n - i,
    {
        if row_lt(x, &out[i]) {
            return i;
        }
        proof {
            lemma_row_order_total(out@[i as int], *x);
        }
        i = i + 1;
    }
    i
}

/// Insert one row into a strictly ascending list with a fresh key.
fn insert_row(out: Vec<ProfileRow>, x: ProfileRow) -> (res: Vec<ProfileRow>)
    requires
        spec_sorted(out@),
        forall|m: int| 0 <= m < out@.len() ==> !same_key(#[trigger] out@[m], x),
    ensures
        res@.len() == out@.len() + 1,
        spec_sorted(res@),
        forall|r: ProfileRow| #[trigger] res@.contains(r) == (out@.contains(r) || r == x),
{
    let n = out.len();
    let i = insert_pos(&out, &x);
    proof {
        assert(forall|m: int| 0 <= m < i ==> spec_row_lt(#[trigger] out@[m], x));
        assert forall|m: int| i <= m < out@.len() implies spec_row_lt(x, #[trigger] out@[m]) by {
            assert(spec_row_lt(x, out@[i as int]));
            if m > i {
                assert(spec_row_lt(out@[i as int], out@[m]));
            }
        }
    }
    let mut res: Vec<ProfileRow> = Vec::new();
    let mut j: usize = 0;
    while j < i
        invariant
            j <= i <= n,
            n == out@.len(),
            res@.len() == j,
            forall|m: int| 0 <= m < j ==> res@[m] == out@[m],
        decreases i - j,
    {
        res.push(out[j]);
        j = j + 1;
    }
    res.push(x);
    let mut j2: usize = i;
    while j2 < n
        invariant
            i <= j2 <= n,
            n == out@.len(),
            res@.len() == 1 + j2,
            forall|m: int| 0 <= m < i ==> res@[m] == out@[m],
            res@[i as int] == x,
            forall|m: int| i < m <= j2 ==> res@[m] == out@[m - 1],
        decreases n - j2,
    {
        res.push(out[j2]);
        j2 = j2 + 1;
    }
    proof {
        assert forall|m1: int, m2: int|
            0 <= m1 < m2 < res@.len() implies spec_row_lt(#[trigger] res@[m1], #[trigger] res@[m2]) by {
            if m2 < i {
            } else if m1 < i && m2 == i {
                assert(spec_row_lt(out@[m1], x));
            } else if m1 < i && m2 > i {
                assert(spec_row_lt(out@[m1], out@[m2 - 1]) || m1 == m2 - 1);
                if m1 == m2 - 1 {
                    assert(spec_row_lt(out@[m1], x));
                    assert(spec_row_lt(x, out@[m2 - 1]));
                }
            } else if m1 == i {
                assert(spec_row_lt(x, out@[m2 - 1]));
            } else {
            }
        }
        assert forall|r: ProfileRow| #[trigger]
            res@.contains(r) == (out@.contains(r) || r == x) by {
            if res@.contains(r) {
                let m = choose|m: int| 0 <= m < res@.len() && res@[m] == r;
                if m < i {
                    assert(out@[m] == r);
                } else if m == i {
                } else {
                    assert(out@[m - 1] == r);
                }
            }
            if out@.contains(r) {
                let m = choose|m: int| 0 <= m < out@.len() && out@[m] == r;
                if m < i {
                    assert(res@[m] == r);
                } else {
                    assert(res@[m + 1] == r);
                }
            }
            if r == x {
                assert(res@[i as int] == r);
            }
        }
    }
    res
}


/// A packed edge fits under twenty bits.
proof fn lemma_edge_pack_bound(e: crate::mccfr::edge::Edge)
    requires
        e is Raise ==> e->Raise_0.num < 256 && e->Raise_0.den < 256,
    ensures
        0 <= e.spec_to_u64() < 0x80000,
{
}

/// A row of the flattened store names its strategy and edge.
pub open spec fn spec_row_origin(ss: Seq<BucketStrategy>, r: ProfileRow, hi_i: int, hi_k: int) -> bool {
    exists|j: int, kk: int|
        0 <= j < ss.len() && 0 <= kk < ss[j].edges@.len() && (j < hi_i || (j == hi_i && kk < hi_k))
            && r == #[trigger] spec_row_of(ss[j], kk)
}

/// Membership in the flattened store is membership in some strategy.
proof fn lemma_flat_membership(ss: Seq<BucketStrategy>, r: ProfileRow)
    ensures
        spec_flat(ss).contains(r) == exists|j: int, kk: int|
            0 <= j < ss.len() && 0 <= kk < ss[j].edges@.len() && r == #[trigger] spec_row_of(
                ss[j],
                kk,
            ),
    decreases ss.len(),
{
    if ss.len() == 0 {
    } else {
        lemma_flat_membership(ss.drop_last(), r);
        let last = ss.last();
        if spec_flat(ss).contains(r) {
            let m = choose|m: int| 0 <= m < spec_flat(ss).len() && spec_flat(ss)[m] == r;
            if m < spec_flat(ss.drop_last()).len() {
                assert(spec_flat(ss.drop_last()).contains(r));
                let (j, kk) = choose|j: int, kk: int|
                    0 <= j < ss.drop_last().len() && 0 <= kk < ss.drop_last()[j].edges@.len() && r
                        == #[trigger] spec_row_of(ss.drop_last()[j], kk);
                assert(ss[j] == ss.drop_last()[j]);
                assert(0 <= j < ss.len() && 0 <= kk < ss[j].edges@.len() && r == spec_row_of(
                    ss[j],
                    kk,
                ));
            } else {
                let kk = m - spec_flat(ss.drop_last()).len();
                assert(spec_strategy_rows(last)[kk] == r);
                assert(r == spec_row_of(ss[ss.len() - 1], kk));
            }
        }
        if exists|j: int, kk: int|
            0 <= j < ss.len() && 0 <= kk < ss[j].edges@.len() && r == #[trigger] spec_row_of(
                ss[j],
                kk,
            ) {
            let (j, kk) = choose|j: int, kk: int|
                0 <= j < ss.len() && 0 <= kk < ss[j].edges@.len() && r == #[trigger] spec_row_of(
                    ss[j],
                    kk,
                );
            if j < ss.len() - 1 {
                assert(ss.drop_last()[j] == ss[j]);
                assert(spec_flat(ss.drop_last()).contains(r));
                let m = choose|m: int|
                    0 <= m < spec_flat(ss.drop_last()).len() && spec_flat(ss.drop_last())[m] == r;
                assert(spec_flat(ss)[m] == r);
            } else {
                assert(spec_strategy_rows(last)[kk] == r);
                assert(spec_flat(ss)[spec_flat(ss.drop_last()).len() + kk] == r);
            }
        }
    }
}

/// The flattened store holds one row per stored edge.
proof fn lemma_flat_len_step(ss: Seq<BucketStrategy>, i: int)
    requires
        0 <= i < ss.len(),
    ensures
        spec_flat(ss.take(i + 1)).len() == spec_flat(ss.take(i)).len() + ss[i].edges@.len(),
{
    assert(ss.take(i + 1).drop_last() =~= ss.take(i));
    assert(ss.take(i + 1).last() == ss[i]);
}

/// The dump rows of a whole profile, in ascending (past, abstraction,
/// future, packed-edge) order: one row per stored edge, each carrying
/// that edge's fixed-point decision words. File I/O and any float view
/// of the value words stay with the caller.
pub fn profile_rows(p: &Profile) -> (rows: Vec<ProfileRow>)
    requires
        p.wf(),
        spec_packable(p.strategies@),
    ensures
        spec_sorted(rows@),
        rows@.len() == spec_flat(p.strategies@).len(),
        forall|r: ProfileRow| #[trigger]
            rows@.contains(r) == spec_flat(p.strategies@).contains(r),
{
    let ghost ss = p.strategies@;
    let mut out: Vec<ProfileRow> = Vec::new();
    let mut i: usize = 0;
    proof {
        assert(ss.take(0) =~= Seq::<BucketStrategy>::empty());
    }
    while i < p.strategies.len()
        invariant
            i <= ss.len(),
            ss == p.strategies@,
            p.wf(),
            spec_packable(ss),
            spec_sorted(out@),
            out@.len() == spec_flat(ss.take(i as int)).len(),
            forall|r: ProfileRow| #[trigger]
                out@.contains(r) ==> spec_row_origin(ss, r, i as int, 0),
            forall|j: int, kk: int|
                0 <= j < i && 0 <= kk < ss[j].edges@.len() ==> out@.contains(
                    #[trigger] spec_row_of(ss[j], kk),
                ),
        decreases ss.len() - i,
    {
        let n_edges = p.strategies[i].edges.len();
        let mut k: usize = 0;
        while k < n_edges
            invariant
                k <= n_edges,
                i < ss.len(),
                n_edges == ss[i as int].edges@.len(),
                ss == p.strategies@,
                p.wf(),
                spec_packable(ss),
                spec_sorted(out@),
                out@.len() == spec_flat(ss.take(i as int)).len() + k,
                forall|r: ProfileRow| #[trigger]
                    out@.contains(r) ==> spec_row_origin(ss, r, i as int, k as int),
                forall|j: int, kk: int|
                    0 <= j < i && 0 <= kk < ss[j].edges@.len() ==> out@.contains(
                        #[trigger] spec_row_of(ss[j], kk),
                    ),
                forall|kk: int|
                    0 <= kk < k ==> out@.contains(#[trigger] spec_row_of(ss[i as int], kk)),
            decreases n_edges - k,
        {
            let entry = p.strategies[i].edges[k];
            proof {
                assert(entry == ss[i as int].edges@[k as int]);
                lemma_edge_pack_bound(entry.edge);
            }
            let packed = entry.edge.to_u64();
            let regret_bits: u32 = if entry.decision.regret >= 0 {
                entry.decision.regret as u32
            } else {
                ((entry.decision.regret as i64) + 0x1_0000_0000i64) as u32
            };
            let row = ProfileRow {
                past: p.strategies[i].bucket.past.bits,
                present: p.strategies[i].bucket.present.id,
                future: p.strategies[i].bucket.future.bits,
                edge: packed,
                regret: regret_bits,
                policy: entry.decision.policy,
            };
            proof {
                assert(row == spec_row_of(ss[i as int], k as int));
                assert forall|m: int| 0 <= m < out@.len() implies !same_key(
                    #[trigger] out@[m],
                    row,
                ) by {
                    assert(out@.contains(out@[m]));
                    let (j, kk) = choose|j: int, kk: int|
                        0 <= j < ss.len() && 0 <= kk < ss[j].edges@.len() && (j < i as int || (j
                            == i as int && kk < k as int)) && out@[m] == #[trigger] spec_row_of(
                            ss[j],
                            kk,
                        );
                    if j < i as int {
                        if same_key(out@[m], row) {
                            assert(ss[j].bucket.past == ss[i as int].bucket.past);
                            assert(ss[j].bucket.present == ss[i as int].bucket.present);
                            assert(ss[j].bucket.future == ss[i as int].bucket.future);
                            assert(ss[j].bucket == ss[i as int].bucket);
                        }
                    } else {
                        if same_key(out@[m], row) {
                            let e1 = ss[i as int].edges@[kk].edge;
                            let e2 = entry.edge;
                            lemma_edge_pack_bound(e1);
                            assert(e1.spec_to_u64() == e2.spec_to_u64());
                            crate::mccfr::edge::lemma_edge_u64_round_trip(e1);
                            assert(e2 == e1);
                        }
                    }
                }
            }
            let ghost before = out@;
            out = insert_row(out, row);
            proof {
                lemma_flat_len_step(ss, i as int);
                assert forall|r: ProfileRow| #[trigger]
                    out@.contains(r) implies spec_row_origin(ss, r, i as int, k as int + 1) by {
                    if r == row {
                        assert((i as int) < ss.len());
                        assert((k as int) < ss[i as int].edges@.len());
                        assert(r == spec_row_of(ss[i as int], k as int));
                    } else {
                        assert(before.contains(r));
                        let (j, kk) = choose|j: int, kk: int|
                            0 <= j < ss.len() && 0 <= kk < ss[j].edges@.len() && (j < i as int || (
                            j == i as int && kk < k as int)) && r == #[trigger] spec_row_of(
                                ss[j],
                                kk,
                            );
                        assert(j < i as int || (j == i as int && kk < k as int + 1));
                    }
                }
            }
            k = k + 1;
        }
        proof {
            lemma_flat_len_step(ss, i as int);
            assert forall|r: ProfileRow| #[trigger]
                out@.contains(r) implies spec_row_origin(ss, r, i as int + 1, 0) by {
                let (j, kk) = choose|j: int, kk: int|
                    0 <= j < ss.len() && 0 <= kk < ss[j].edges@.len() && (j < i as int || (j
                        == i as int && kk < k as int)) && r == #[trigger] spec_row_of(ss[j], kk);
                assert(j < i as int + 1);
            }
        }
        i = i + 1;
    }
    proof {
        assert(ss.take(ss.len() as int) =~= ss);
        assert forall|r: ProfileRow| #[trigger]
            out@.contains(r) == spec_flat(ss).contains(r) by {
            lemma_flat_membership(ss, r);
            if out@.contains(r) {
                let (j, kk) = choose|j: int, kk: int|
                    0 <= j < ss.len() && 0 <= kk < ss[j].edges@.len() && (j < ss.len() as int || (j
                        == ss.len() as int && kk < 0)) && r == #[trigger] spec_row_of(ss[j], kk);
                assert(spec_flat(ss).contains(r));
            }
            if spec_flat(ss).contains(r) {
                let (j, kk) = choose|j: int, kk: int|
                    0 <= j < ss.len() && 0 <= kk < ss[j].edges@.len() && r == #[trigger] spec_row_of(
                        ss[j],
                        kk,
                    );
                assert(out@.contains(spec_row_of(ss[j], kk)));
            }
        }
    }
    out
}


/// The signed regret a stored word decodes to: the two's-complement
/// reading of the unsigned 32-bit value.
pub open spec fn spec_bits_reg(b: int) -> int {
    if b < 0x8000_0000 {
        b
    } else {
        b - 0x1_0000_0000
    }
}

/// Do two rows name the same information set?
pub open spec fn same_triple(a: ProfileRow, b: ProfileRow) -> bool {
    a.past == b.past && a.present == b.present && a.future == b.future
}

/// Is the word a packed edge: some edge with one-byte raise parts
/// packs to it?
pub open spec fn spec_edge_valid(v: u64) -> bool {
    exists|e: crate::mccfr::edge::Edge|
        ((e is Raise ==> e->Raise_0.num < 256 && e->Raise_0.den < 256) && #[trigger] e.spec_to_u64()
            == v as int)
}

/// The arithmetic of the wide raise packing: the tag, the numerator
/// and the denominator all read back from the packed word.
proof fn lemma_raise_pack_arith(n: int, d: int)
    requires
        0 <= n < 256,
        0 <= d < 256,
    ensures
        (4 + n * 8 + d * 2048) % 8 == 4,
        ((4 + n * 8 + d * 2048) / 8) % 256 == n,
        ((4 + n * 8 + d * 2048) / 2048) % 256 == d,
        0 <= 4 + n * 8 + d * 2048 < 0x80000,
{
    let v = 4 + n * 8 + d * 2048;
    vstd::arithmetic::div_mod::lemma_fundamental_div_mod_converse(v, 8, n + 256 * d, 4);
    vstd::arithmetic::div_mod::lemma_fundamental_div_mod_converse(n + 256 * d, 256, d, n);
    vstd::arithmetic::div_mod::lemma_fundamental_div_mod_converse(v, 2048, d, 4 + n * 8);
    vstd::arithmetic::div_mod::lemma_small_mod(d as nat, 256);
}

/// Rows on the same information set sit together under the dump order,
/// and the order only refines the information-set order.
proof fn lemma_row_lt_triple(a: ProfileRow, b: ProfileRow)
    ensures
        spec_row_lt(a, b) && !same_triple(a, b) ==> spec_triple_lt(a, b),
        spec_row_lt(a, b) && same_triple(a, b) ==> a.edge < b.edge,
{
}

/// The dump order on information sets alone.
pub open spec fn spec_triple_lt(a: ProfileRow, b: ProfileRow) -> bool {
    ||| a.past < b.past
    ||| (a.past == b.past && a.present < b.present)
    ||| (a.past == b.past && a.present == b.present && a.future < b.future)
}

/// The first row a strategy was built from.
pub open spec fn spec_head_row(s: BucketStrategy) -> ProfileRow {
    spec_row_of(s, 0)
}

/// Append one decision entry to one stored strategy.
fn push_edge(
    strategies: &mut Vec<BucketStrategy>,
    i: usize,
    entry: crate::mccfr::profile::DecisionEntry,
)
    requires
        i < old(strategies)@.len(),
    ensures
        final(strategies)@.len() == old(strategies)@.len(),
        forall|x: int|
            0 <= x < old(strategies)@.len() && x != i ==> (#[trigger] final(strategies)@[x]) == old(
                strategies,
            )@[x],
        final(strategies)@[i as int].bucket == old(strategies)@[i as int].bucket,
        final(strategies)@[i as int].edges@ == old(strategies)@[i as int].edges@.push(entry),
{
    let src = &strategies[i];
    let mut edges: Vec<crate::mccfr::profile::DecisionEntry> = Vec::new();
    let mut j: usize = 0;
    while j < src.edges.len()
        invariant
            j <= src.edges@.len(),
            src == old(strategies)@[i as int],
            edges@.len() == j,
            forall|a: int| 0 <= a < j ==> edges@[a] == src.edges@[a],
        decreases src.edges@.len() - j,
    {
        edges.push(src.edges[j]);
        j = j + 1;
    }
    edges.push(entry);
    let bucket = strategies[i].bucket;
    vstd::pervasive::VecAdditionalExecFns::set(
        strategies,
        i,
        BucketStrategy { bucket, edges },
    );
    proof {
        assert(final(strategies)@[i as int].edges@ =~= old(strategies)@[i as int].edges@.push(
            entry,
        ));
    }
}

/// Extending the last strategy by one edge appends that edge's row to
/// the flattened store.
proof fn lemma_flat_extend(
    old_ss: Seq<BucketStrategy>,
    new_ss: Seq<BucketStrategy>,
    entry: crate::mccfr::profile::DecisionEntry,
    row: ProfileRow,
)
    requires
        old_ss.len() >= 1,
        new_ss.len() == old_ss.len(),
        forall|x: int| 0 <= x < old_ss.len() - 1 ==> (#[trigger] new_ss[x]) == old_ss[x],
        new_ss.last().bucket == old_ss.last().bucket,
        new_ss.last().edges@ == old_ss.last().edges@.push(entry),
        spec_row_of(new_ss.last(), old_ss.last().edges@.len() as int) == row,
    ensures
        spec_flat(new_ss) == spec_flat(old_ss) + seq![row],
{
    assert(new_ss.drop_last() =~= old_ss.drop_last());
    assert(spec_strategy_rows(new_ss.last()) =~= spec_strategy_rows(old_ss.last()).push(row)) by {
        assert forall|k: int|
            0 <= k < old_ss.last().edges@.len() implies spec_row_of(new_ss.last(), k)
            == spec_row_of(old_ss.last(), k) by {
            assert(new_ss.last().edges@[k] == old_ss.last().edges@[k]);
        }
    }
    assert(spec_flat(new_ss) =~= spec_flat(old_ss) + seq![row]);
}

/// Rebuild a profile's store from sorted dump rows: one strategy per
/// information set, edges in packed order, decision words decoded back
/// to fixed point. The epoch counter is not persisted and restarts at
/// zero. Flattening the result gives back exactly the input rows.
#[verifier::rlimit(100)]
#[verifier::spinoff_prover]
pub fn from_rows(rows: &Vec<ProfileRow>) -> (p: Profile)
    requires
        spec_sorted(rows@),
        forall|m: int| 0 <= m < rows@.len() ==> spec_edge_valid((#[trigger] rows@[m]).edge),
        forall|m: int|
            0 <= m < rows@.len() ==> crate::mccfr::profile::REGRET_MIN <= spec_bits_reg(
                (#[trigger] rows@[m]).regret as int,
            ) <= crate::mccfr::profile::REGRET_MAX,
        forall|m: int|
            0 <= m && m + crate::mccfr::profile::POLICY_SCALE < rows@.len() ==> !same_triple(
                #[trigger] rows@[m],
                rows@[m + crate::mccfr::profile::POLICY_SCALE],
            ),
    ensures
        p.wf(),
        p.iterations == 0,
        spec_flat(p.strategies@) == rows@,
{
    let mut strategies: Vec<BucketStrategy> = Vec::new();
    let mut m: usize = 0;
    let ghost mut group: int = 0;
    proof {
        assert(spec_flat(strategies@) =~= rows@.take(0));
    }
    while m < rows.len()
        invariant
            m <= rows@.len(),
            spec_sorted(rows@),
            forall|mm: int| 0 <= mm < rows@.len() ==> spec_edge_valid((#[trigger] rows@[mm]).edge),
            forall|mm: int|
                0 <= mm < rows@.len() ==> crate::mccfr::profile::REGRET_MIN <= spec_bits_reg(
                    (#[trigger] rows@[mm]).regret as int,
                ) <= crate::mccfr::profile::REGRET_MAX,
            forall|mm: int|
                0 <= mm && mm + crate::mccfr::profile::POLICY_SCALE < rows@.len() ==> !same_triple(
                    #[trigger] rows@[mm],
                    rows@[mm + crate::mccfr::profile::POLICY_SCALE],
                ),
            spec_flat(strategies@) == rows@.take(m as int),
            m == 0 ==> strategies@.len() == 0,
            m > 0 ==> {
                &&& strategies@.len() >= 1
                &&& 0 <= group < m
                &&& strategies@.last().edges@.len() == m - group
                &&& forall|mm: int|
                    group <= mm < m ==> same_triple(#[trigger] rows@[mm], rows@[group])
                &&& strategies@.last().bucket.past.bits == rows@[group].past
                &&& strategies@.last().bucket.present.id == rows@[group].present
                &&& strategies@.last().bucket.future.bits == rows@[group].future
                &&& forall|k: int|
                    0 <= k < m - group ==> #[trigger] spec_row_of(strategies@.last(), k)
                        == rows@[group + k]
            },
            forall|i1: int, i2: int|
                0 <= i1 < i2 < strategies@.len() ==> (#[trigger] strategies@[i1]).bucket != (
                #[trigger] strategies@[i2]).bucket,
            forall|i: int|
                0 <= i < strategies@.len() ==> {
                    let es = (#[trigger] strategies@[i]).edges@;
                    &&& 1 <= es.len() <= crate::mccfr::profile::POLICY_SCALE
                    &&& forall|a: int, b: int|
                        0 <= a < b < es.len() ==> (#[trigger] es[a]).edge != (#[trigger] es[b]).edge
                    &&& forall|a: int|
                        0 <= a < es.len() ==> crate::mccfr::profile::REGRET_MIN <= (
                        #[trigger] es[a]).decision.regret <= crate::mccfr::profile::REGRET_MAX
                },
            forall|i: int|
                0 <= i < strategies@.len() ==> (#[trigger] strategies@[i]).edges@.len() >= 1,
        decreases rows@.len() - m,
    {
        let row = rows[m];
        proof {
            let e = choose|e: crate::mccfr::edge::Edge|
                ((e is Raise ==> e->Raise_0.num < 256 && e->Raise_0.den < 256)
                    && #[trigger] e.spec_to_u64() == row.edge as int);
            match e {
                crate::mccfr::edge::Edge::Raise(o) => {
                    lemma_raise_pack_arith(o.num as int, o.den as int);
                },
                _ => {
                    vstd::arithmetic::div_mod::lemma_small_mod(e.spec_to_u64() as nat, 8);
                },
            }
        }
        let edge = crate::mccfr::edge::Edge::from_u64(row.edge);
        proof {
            let e = choose|e: crate::mccfr::edge::Edge|
                ((e is Raise ==> e->Raise_0.num < 256 && e->Raise_0.den < 256)
                    && #[trigger] e.spec_to_u64() == row.edge as int);
            match e {
                crate::mccfr::edge::Edge::Raise(o) => {
                    lemma_raise_pack_arith(o.num as int, o.den as int);
                    assert(edge == crate::mccfr::edge::Edge::Raise(
                        crate::mccfr::odds::Odds { num: o.num, den: o.den },
                    ));
                },
                _ => {
                    vstd::arithmetic::div_mod::lemma_small_mod(e.spec_to_u64() as nat, 8);
                },
            }
            assert(edge.spec_to_u64() == row.edge as int);
        }
        let regret: i32 = if row.regret < 0x8000_0000 {
            row.regret as i32
        } else {
            ((row.regret as i64) - 0x1_0000_0000i64) as i32
        };
        proof {
            assert(regret as int == spec_bits_reg(row.regret as int));
        }
        let entry = crate::mccfr::profile::DecisionEntry {
            edge,
            decision: crate::mccfr::profile::Decision { regret, policy: row.policy },
        };
        let open_group = if m == 0 {
            false
        } else {
            let last = strategies.len() - 1;
            let b = &strategies[last].bucket;
            b.past.bits == row.past && b.present.id == row.present && b.future.bits == row.future
        };
        if open_group {
            let last = strategies.len() - 1;
            let ghost old_ss = strategies@;
            let ghost old_len = strategies@[last as int].edges@.len() as int;
            proof {
                // the group stays under the edge cap
                if m - group >= crate::mccfr::profile::POLICY_SCALE {
                    assert(same_triple(rows@[group], rows@[group
                        + crate::mccfr::profile::POLICY_SCALE]));
                    assert(false);
                }
                // the new packed edge exceeds every stored one
                assert forall|k: int|
                    0 <= k < old_len implies (#[trigger] old_ss.last().edges@[k]).edge != entry.edge by {
                    assert(spec_row_of(old_ss.last(), k) == rows@[group + k]);
                    assert(spec_row_lt(rows@[group + k], rows@[m as int]));
                    lemma_row_lt_triple(rows@[group + k], rows@[m as int]);
                    assert(same_triple(rows@[group + k], rows@[m as int]));
                    assert(rows@[group + k].edge < row.edge);
                }
            }
            push_edge(&mut strategies, last, entry);
            proof {
                assert(spec_row_of(strategies@.last(), old_len) == row);
                lemma_flat_extend(old_ss, strategies@, entry, row);
                assert(spec_flat(strategies@) =~= rows@.take(m as int + 1));
                assert forall|k: int|
                    0 <= k < m + 1 - group implies #[trigger] spec_row_of(strategies@.last(), k)
                    == rows@[group + k] by {
                    if k < old_len {
                        assert(spec_row_of(old_ss.last(), k) == rows@[group + k]);
                        assert(strategies@.last().edges@[k] == old_ss.last().edges@[k]);
                    }
                }
                assert forall|mm: int|
                    group <= mm < m + 1 implies same_triple(#[trigger] rows@[mm], rows@[group]) by {
                    if mm == m {
                        assert(same_triple(rows@[m as int], rows@[group]));
                    }
                }
            }
        } else {
            let bucket = crate::mccfr::bucket::Bucket::new(
                crate::mccfr::path::Path::from_bits(row.past),
                crate::mccfr::bucket::Abstraction::from_id(row.present),
                crate::mccfr::path::Path::from_bits(row.future),
            );
            let mut edges: Vec<crate::mccfr::profile::DecisionEntry> = Vec::new();
            edges.push(entry);
            let strategy = BucketStrategy { bucket, edges };
            let ghost old_ss = strategies@;
            proof {
                // a fresh group: the new bucket differs from every stored one
                assert(spec_row_of(strategy, 0) == row);
                assert forall|i: int|
                    0 <= i < old_ss.len() implies (#[trigger] old_ss[i]).bucket != strategy.bucket by {
                    if old_ss[i].bucket == strategy.bucket {
                        // every stored bucket heads a row group at or before `group`
                        if i == old_ss.len() - 1 {
                            assert(old_ss[i].bucket.past.bits == rows@[group].past);
                            assert(!same_triple(rows@[group], rows@[m as int]));
                            assert(same_triple(rows@[group], rows@[m as int]));
                        } else {
                            // earlier strategies carry triples strictly below the
                            // current group's, which itself is at most the new row's
                            assert(spec_flat(old_ss).len() == rows@.take(m as int).len());
                            lemma_flat_membership(old_ss, spec_row_of(old_ss[i], 0));
                            assert(spec_flat(old_ss).contains(spec_row_of(old_ss[i], 0)));
                            let mm = choose|mm: int|
                                0 <= mm < rows@.take(m as int).len() && rows@.take(m as int)[mm]
                                    == spec_row_of(old_ss[i], 0);
                            assert(rows@[mm] == spec_row_of(old_ss[i], 0));
                            assert(same_triple(rows@[mm], rows@[m as int]));
                            assert(spec_row_lt(rows@[mm], rows@[m as int]));
                            lemma_row_lt_triple(rows@[mm], rows@[m as int]);
                            assert(rows@[mm].edge < rows@[m as int].edge);
                            assert(false);
                        }
                    }
                }
            }
            strategies.push(strategy);
            proof {
                assert(strategies@.drop_last() =~= old_ss);
                assert(spec_strategy_rows(strategy) =~= seq![row]);
                assert(spec_flat(strategies@) =~= rows@.take(m as int + 1));
                group = m as int;
                assert forall|k: int|
                    0 <= k < m + 1 - group implies #[trigger] spec_row_of(strategies@.last(), k)
                    == rows@[group + k] by {
                    assert(k == 0);
                }
            }
        }
        m = m + 1;
    }
    proof {
        assert(rows@.take(rows@.len() as int) =~= rows@);
    }
    Profile { iterations: 0, strategies }
}

} // verus!
