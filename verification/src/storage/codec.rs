//! The binary encoding shared by the write-ahead log and the segment
//! files: little-endian integers, length-prefixed byte strings, and
//! length-prefixed frames. Every encoder has an exact decoder and the
//! round trip is proved.

use vstd::prelude::*;
use vstd::bytes::{
    lemma_auto_spec_u32_to_from_le_bytes, lemma_auto_spec_u64_to_from_le_bytes,
    spec_u32_from_le_bytes, spec_u32_to_le_bytes, spec_u64_from_le_bytes, spec_u64_to_le_bytes,
    u32_from_le_bytes, u32_to_le_bytes, u64_from_le_bytes, u64_to_le_bytes,
};
use vstd::utf8::{decode_utf8, encode_utf8, encode_utf8_decode_utf8, encode_utf8_valid_utf8,
    valid_utf8};
use vstd::slice::{slice_subrange, slice_to_vec};
use crate::types::{Payload, Row, RowKey, RowV, VersionedRow, VersionedRowV};

verus! {

/// Errors of the binary codec: a value too large for its length prefix,
/// or bytes that do not decode as a record.
#[derive(Clone, Copy, Debug, PartialEq, Eq, Structural)]
pub enum CodecError {
    TooLarge,
    Malformed,
}

// ---------------------------------------------------------------------
// spec: encoders
// ---------------------------------------------------------------------
/// A string on the wire: its UTF-8 length as `u32`, then its UTF-8 bytes.
pub open spec fn enc_str(s: Seq<char>) -> Seq<u8> {
    spec_u32_to_le_bytes(encode_utf8(s).len() as u32) + encode_utf8(s)
}

pub open spec fn str_encodable(s: Seq<char>) -> bool {
    encode_utf8(s).len() <= u32::MAX
}

/// An optional timestamp: a presence byte, then the value if present.
pub open spec fn enc_opt_u64(o: Option<u64>) -> Seq<u8> {
    match o {
        None => seq![0u8],
        Some(x) => seq![1u8] + spec_u64_to_le_bytes(x),
    }
}

/// One payload field: its name, then its value.
pub open spec fn enc_field(f: (Seq<char>, Seq<char>)) -> Seq<u8> {
    enc_str(f.0) + enc_str(f.1)
}

/// Payload fields in order, front first.
pub open spec fn enc_fields(fs: Seq<(Seq<char>, Seq<char>)>) -> Seq<u8>
    decreases fs.len(),
{
    if fs.len() == 0 {
        Seq::empty()
    } else {
        enc_field(fs[0]) + enc_fields(fs.drop_first())
    }
}

/// A payload: its field count as `u32`, then the fields.
pub open spec fn enc_payload(fs: Seq<(Seq<char>, Seq<char>)>) -> Seq<u8> {
    spec_u32_to_le_bytes(fs.len() as u32) + enc_fields(fs)
}

pub open spec fn payload_encodable(fs: Seq<(Seq<char>, Seq<char>)>) -> bool {
    &&& fs.len() <= u32::MAX
    &&& forall|i: int|
        0 <= i < fs.len() ==> str_encodable((#[trigger] fs[i]).0) && str_encodable(fs[i].1)
}

/// A versioned row: begin timestamp, optional end timestamp, transaction
/// id, key, payload.
pub open spec fn enc_vrow(v: VersionedRowV) -> Seq<u8> {
    spec_u64_to_le_bytes(v.begin_ts) + enc_opt_u64(v.end_ts) + spec_u64_to_le_bytes(v.txn_id)
        + enc_str(v.row.key) + enc_payload(v.row.payload)
}

pub open spec fn vrow_encodable(v: VersionedRowV) -> bool {
    str_encodable(v.row.key) && payload_encodable(v.row.payload)
}

/// A frame: the length of the body as a little-endian `u32`, then the body.
pub open spec fn frame(b: Seq<u8>) -> Seq<u8> {
    spec_u32_to_le_bytes(b.len() as u32) + b
}

pub open spec fn frame_encodable(b: Seq<u8>) -> bool {
    b.len() <= u32::MAX
}

// ---------------------------------------------------------------------
// spec: decoders, each returning the value and the next position
// ---------------------------------------------------------------------
pub open spec fn dec_u32_s(b: Seq<u8>, pos: int) -> Option<(u32, int)> {
    if 0 <= pos && pos + 4 <= b.len() {
        Some((spec_u32_from_le_bytes(b.subrange(pos, pos + 4)), pos + 4))
    } else {
        None
    }
}

pub open spec fn dec_u64_s(b: Seq<u8>, pos: int) -> Option<(u64, int)> {
    if 0 <= pos && pos + 8 <= b.len() {
        Some((spec_u64_from_le_bytes(b.subrange(pos, pos + 8)), pos + 8))
    } else {
        None
    }
}

pub open spec fn dec_opt_u64_s(b: Seq<u8>, pos: int) -> Option<(Option<u64>, int)> {
    if 0 <= pos && pos + 1 <= b.len() {
        if b[pos] == 0u8 {
            Some((None, pos + 1))
        } else if b[pos] == 1u8 {
            match dec_u64_s(b, pos + 1) {
                Some((x, p)) => Some((Some(x), p)),
                None => None,
            }
        } else {
            None
        }
    } else {
        None
    }
}

pub open spec fn dec_bytes_s(b: Seq<u8>, pos: int) -> Option<(Seq<u8>, int)> {
    match dec_u32_s(b, pos) {
        Some((n, p)) => if p + n <= b.len() {
            Some((b.subrange(p, p + n), p + n))
        } else {
            None
        },
        None => None,
    }
}

pub open spec fn dec_str_s(b: Seq<u8>, pos: int) -> Option<(Seq<char>, int)> {
    match dec_bytes_s(b, pos) {
        Some((bs, p)) => if valid_utf8(bs) {
            Some((decode_utf8(bs), p))
        } else {
            None
        },
        None => None,
    }
}

pub open spec fn dec_field_s(b: Seq<u8>, pos: int) -> Option<((Seq<char>, Seq<char>), int)> {
    match dec_str_s(b, pos) {
        Some((name, p)) => match dec_str_s(b, p) {
            Some((value, p2)) => Some(((name, value), p2)),
            None => None,
        },
        None => None,
    }
}

pub open spec fn dec_fields_s(b: Seq<u8>, pos: int, n: int) -> Option<(
    Seq<(Seq<char>, Seq<char>)>,
    int,
)>
    decreases n,
{
    if n <= 0 {
        Some((Seq::empty(), pos))
    } else {
        match dec_field_s(b, pos) {
            Some((f, p)) => match dec_fields_s(b, p, n - 1) {
                Some((rest, p2)) => Some((seq![f] + rest, p2)),
                None => None,
            },
            None => None,
        }
    }
}

pub open spec fn dec_payload_s(b: Seq<u8>, pos: int) -> Option<(Seq<(Seq<char>, Seq<char>)>, int)> {
    match dec_u32_s(b, pos) {
        Some((n, p)) => dec_fields_s(b, p, n as int),
        None => None,
    }
}

pub open spec fn dec_vrow_s(b: Seq<u8>, pos: int) -> Option<(VersionedRowV, int)> {
    match dec_u64_s(b, pos) {
        Some((begin_ts, p1)) => match dec_opt_u64_s(b, p1) {
            Some((end_ts, p2)) => match dec_u64_s(b, p2) {
                Some((txn_id, p3)) => match dec_str_s(b, p3) {
                    Some((key, p4)) => match dec_payload_s(b, p4) {
                        Some((payload, p5)) => Some(
                            (
                                VersionedRowV {
                                    begin_ts,
                                    end_ts,
                                    txn_id,
                                    row: RowV { key, payload },
                                },
                                p5,
                            ),
                        ),
                        None => None,
                    },
                    None => None,
                },
                None => None,
            },
            None => None,
        },
        None => None,
    }
}

// ---------------------------------------------------------------------
// round trip: decoding at a position where an encoding sits yields the
// encoded value
// ---------------------------------------------------------------------
pub proof fn lemma_dec_u32_at(b: Seq<u8>, pos: int, x: u32)
    requires
        0 <= pos,
        pos + 4 <= b.len(),
        b.subrange(pos, pos + 4) == spec_u32_to_le_bytes(x),
    ensures
        dec_u32_s(b, pos) == Some((x, pos + 4)),
{
    lemma_auto_spec_u32_to_from_le_bytes();
    assert(spec_u32_to_le_bytes(x).len() == 4);
    assert(spec_u32_from_le_bytes(spec_u32_to_le_bytes(x)) == x);
}

pub proof fn lemma_dec_u64_at(b: Seq<u8>, pos: int, x: u64)
    requires
        0 <= pos,
        pos + 8 <= b.len(),
        b.subrange(pos, pos + 8) == spec_u64_to_le_bytes(x),
    ensures
        dec_u64_s(b, pos) == Some((x, pos + 8)),
{
    lemma_auto_spec_u64_to_from_le_bytes();
}

pub proof fn lemma_dec_opt_u64_at(b: Seq<u8>, pos: int, o: Option<u64>)
    requires
        0 <= pos,
        pos + enc_opt_u64(o).len() <= b.len(),
        b.subrange(pos, pos + enc_opt_u64(o).len() as int) == enc_opt_u64(o),
    ensures
        dec_opt_u64_s(b, pos) == Some((o, pos + enc_opt_u64(o).len())),
{
    lemma_auto_spec_u64_to_from_le_bytes();
    let e = enc_opt_u64(o);
    assert(b[pos] == e[0]);
    match o {
        None => {
        },
        Some(x) => {
            assert(e[0] == 1u8);
            assert(b.subrange(pos + 1, pos + 9) =~= e.subrange(1, 9));
            assert(e.subrange(1, 9) =~= spec_u64_to_le_bytes(x));
            lemma_dec_u64_at(b, pos + 1, x);
        },
    }
}

pub proof fn lemma_dec_str_at(b: Seq<u8>, pos: int, s: Seq<char>)
    requires
        0 <= pos,
        str_encodable(s),
        pos + enc_str(s).len() <= b.len(),
        b.subrange(pos, pos + enc_str(s).len() as int) == enc_str(s),
    ensures
        dec_str_s(b, pos) == Some((s, pos + enc_str(s).len())),
{
    broadcast use encode_utf8_valid_utf8, encode_utf8_decode_utf8;

    lemma_auto_spec_u32_to_from_le_bytes();
    let u = encode_utf8(s);
    let e = enc_str(s);
    let l = u.len() as u32;
    assert(b.subrange(pos, pos + 4) =~= e.subrange(0, 4));
    assert(e.subrange(0, 4) =~= spec_u32_to_le_bytes(l));
    lemma_dec_u32_at(b, pos, l);
    assert(b.subrange(pos + 4, pos + 4 + l as int) =~= e.subrange(4, 4 + l as int));
    assert(e.subrange(4, 4 + l as int) =~= u);
}

pub proof fn lemma_dec_field_at(b: Seq<u8>, pos: int, f: (Seq<char>, Seq<char>))
    requires
        0 <= pos,
        str_encodable(f.0),
        str_encodable(f.1),
        pos + enc_field(f).len() <= b.len(),
        b.subrange(pos, pos + enc_field(f).len() as int) == enc_field(f),
    ensures
        dec_field_s(b, pos) == Some((f, pos + enc_field(f).len())),
{
    lemma_auto_spec_u32_to_from_le_bytes();
    let e0 = enc_str(f.0);
    let e1 = enc_str(f.1);
    assert(b.subrange(pos, pos + e0.len() as int) =~= enc_field(f).subrange(0, e0.len() as int));
    assert(enc_field(f).subrange(0, e0.len() as int) =~= e0);
    lemma_dec_str_at(b, pos, f.0);
    let l0 = e0.len() as int;
    let l1 = e1.len() as int;
    assert(b.subrange(pos + l0, pos + l0 + l1) =~= enc_field(f).subrange(l0, l0 + l1));
    assert(enc_field(f).subrange(l0, l0 + l1) =~= e1);
    lemma_dec_str_at(b, pos + e0.len() as int, f.1);
}

pub proof fn lemma_dec_fields_at(b: Seq<u8>, pos: int, fs: Seq<(Seq<char>, Seq<char>)>)
    requires
        0 <= pos,
        forall|i: int|
            0 <= i < fs.len() ==> str_encodable((#[trigger] fs[i]).0) && str_encodable(fs[i].1),
        pos + enc_fields(fs).len() <= b.len(),
        b.subrange(pos, pos + enc_fields(fs).len() as int) == enc_fields(fs),
    ensures
        dec_fields_s(b, pos, fs.len() as int) == Some((fs, pos + enc_fields(fs).len())),
    decreases fs.len(),
{
    lemma_auto_spec_u32_to_from_le_bytes();
    if fs.len() == 0 {
        assert(fs =~= Seq::<(Seq<char>, Seq<char>)>::empty());
    } else {
        let f = fs[0];
        let rest = fs.drop_first();
        let ef = enc_field(f);
        let er = enc_fields(rest);
        assert(enc_fields(fs) == ef + er);
        assert(b.subrange(pos, pos + ef.len() as int) =~= (ef + er).subrange(0, ef.len() as int));
        assert((ef + er).subrange(0, ef.len() as int) =~= ef);
        lemma_dec_field_at(b, pos, f);
        let lf = ef.len() as int;
        let lr = er.len() as int;
        assert(b.subrange(pos + lf, pos + lf + lr) =~= (ef + er).subrange(lf, lf + lr));
        assert((ef + er).subrange(lf, lf + lr) =~= er);
        assert(forall|i: int|
            0 <= i < rest.len() ==> str_encodable((#[trigger] rest[i]).0) && str_encodable(
                rest[i].1,
            ));
        lemma_dec_fields_at(b, pos + ef.len() as int, rest);
        assert(seq![f] + rest =~= fs);
    }
}

pub proof fn lemma_dec_payload_at(b: Seq<u8>, pos: int, fs: Seq<(Seq<char>, Seq<char>)>)
    requires
        0 <= pos,
        payload_encodable(fs),
        pos + enc_payload(fs).len() <= b.len(),
        b.subrange(pos, pos + enc_payload(fs).len() as int) == enc_payload(fs),
    ensures
        dec_payload_s(b, pos) == Some((fs, pos + enc_payload(fs).len())),
{
    lemma_auto_spec_u32_to_from_le_bytes();
    let e = enc_payload(fs);
    let n = fs.len() as u32;
    assert(b.subrange(pos, pos + 4) =~= e.subrange(0, 4));
    assert(e.subrange(0, 4) =~= spec_u32_to_le_bytes(n));
    lemma_dec_u32_at(b, pos, n);
    let lf = enc_fields(fs).len() as int;
    assert(b.subrange(pos + 4, pos + 4 + lf) =~= e.subrange(4, 4 + lf));
    assert(e.subrange(4, 4 + lf) =~= enc_fields(fs));
    lemma_dec_fields_at(b, pos + 4, fs);
}

pub proof fn lemma_dec_vrow_at(b: Seq<u8>, pos: int, v: VersionedRowV)
    requires
        0 <= pos,
        vrow_encodable(v),
        pos + enc_vrow(v).len() <= b.len(),
        b.subrange(pos, pos + enc_vrow(v).len() as int) == enc_vrow(v),
    ensures
        dec_vrow_s(b, pos) == Some((v, pos + enc_vrow(v).len())),
{
    lemma_auto_spec_u32_to_from_le_bytes();
    lemma_auto_spec_u64_to_from_le_bytes();
    let e = enc_vrow(v);
    let e1 = spec_u64_to_le_bytes(v.begin_ts);
    let e2 = enc_opt_u64(v.end_ts);
    let e3 = spec_u64_to_le_bytes(v.txn_id);
    let e4 = enc_str(v.row.key);
    let e5 = enc_payload(v.row.payload);
    let l1 = e1.len() as int;
    let l2 = e2.len() as int;
    let l3 = e3.len() as int;
    let l4 = e4.len() as int;
    let l5 = e5.len() as int;
    let p1 = pos + l1;
    let p2 = p1 + l2;
    let p3 = p2 + l3;
    let p4 = p3 + l4;
    let p5 = p4 + l5;
    assert(b.subrange(pos, p1) =~= e.subrange(0, l1));
    assert(e.subrange(0, l1) =~= e1);
    lemma_dec_u64_at(b, pos, v.begin_ts);
    assert(b.subrange(p1, p2) =~= e.subrange(l1, l1 + l2));
    assert(e.subrange(l1, l1 + l2) =~= e2);
    lemma_dec_opt_u64_at(b, p1, v.end_ts);
    assert(b.subrange(p2, p3) =~= e.subrange(l1 + l2, l1 + l2 + l3));
    assert(e.subrange(l1 + l2, l1 + l2 + l3) =~= e3);
    lemma_dec_u64_at(b, p2, v.txn_id);
    assert(b.subrange(p3, p4) =~= e.subrange(l1 + l2 + l3, l1 + l2 + l3 + l4));
    assert(e.subrange(l1 + l2 + l3, l1 + l2 + l3 + l4) =~= e4);
    lemma_dec_str_at(b, p3, v.row.key);
    assert(b.subrange(p4, p5) =~= e.subrange(l1 + l2 + l3 + l4, l1 + l2 + l3 + l4 + l5));
    assert(e.subrange(l1 + l2 + l3 + l4, l1 + l2 + l3 + l4 + l5) =~= e5);
    lemma_dec_payload_at(b, p4, v.row.payload);
}


// ---------------------------------------------------------------------
// exec: encoders
// ---------------------------------------------------------------------
/// Relies on std's String::from_utf8: succeeds exactly on valid UTF-8 and
/// decodes the bytes to the characters they encode.
#[verifier::external_body]
fn string_from_utf8(bytes: Vec<u8>) -> (r: Option<String>)
    ensures
        match r {
            Some(s) => valid_utf8(bytes@) && s@ == decode_utf8(bytes@),
            None => !valid_utf8(bytes@),
        },
{
    match String::from_utf8(bytes) {
        Ok(s) => Some(s),
        Err(_) => None,
    }
}

/// Whether the string's UTF-8 form fits a `u32` length prefix.
pub fn str_fits(s: &String) -> (r: bool)
    ensures
        r == str_encodable(s@),
{
    s.as_str().as_bytes().len() <= (u32::MAX as usize)
}

pub(crate) fn put_bytes(out: &mut Vec<u8>, b: &[u8])
    ensures
        final(out)@ == old(out)@ + b@,
{
    let n = b.len();
    let mut i: usize = 0;
    while i < n
        invariant
            i <= n,
            n == b@.len(),
            out@ == old(out)@ + b@.subrange(0, i as int),
        decreases n - i,
    {
        out.push(b[i]);
        i = i + 1;
        proof {
            assert(out@ =~= old(out)@ + b@.subrange(0, i as int));
        }
    }
    proof {
        assert(out@ =~= old(out)@ + b@);
    }
}

pub(crate) fn put_u32(out: &mut Vec<u8>, x: u32)
    ensures
        final(out)@ == old(out)@ + spec_u32_to_le_bytes(x),
{
    let mut b = u32_to_le_bytes(x);
    out.append(&mut b);
}

pub(crate) fn put_u64(out: &mut Vec<u8>, x: u64)
    ensures
        final(out)@ == old(out)@ + spec_u64_to_le_bytes(x),
{
    let mut b = u64_to_le_bytes(x);
    out.append(&mut b);
}

pub(crate) fn put_opt_u64(out: &mut Vec<u8>, o: &Option<u64>)
    ensures
        final(out)@ == old(out)@ + enc_opt_u64(*o),
{
    match o {
        None => {
            out.push(0u8);
            proof {
                assert(out@ =~= old(out)@ + enc_opt_u64(None));
            }
        },
        Some(x) => {
            out.push(1u8);
            put_u64(out, *x);
            proof {
                assert(out@ =~= old(out)@ + enc_opt_u64(Some(*x)));
            }
        },
    }
}

pub(crate) fn put_str(out: &mut Vec<u8>, s: &String)
    requires
        str_encodable(s@),
    ensures
        final(out)@ == old(out)@ + enc_str(s@),
{
    let bs = s.as_str().as_bytes();
    put_u32(out, bs.len() as u32);
    put_bytes(out, bs);
    proof {
        assert(out@ =~= old(out)@ + enc_str(s@));
    }
}

pub(crate) fn put_field(out: &mut Vec<u8>, f: &(String, String))
    requires
        str_encodable(f.0@),
        str_encodable(f.1@),
    ensures
        final(out)@ == old(out)@ + enc_field((f.0@, f.1@)),
{
    put_str(out, &f.0);
    put_str(out, &f.1);
    proof {
        assert(out@ =~= old(out)@ + enc_field((f.0@, f.1@)));
    }
}

pub(crate) fn put_fields_from(out: &mut Vec<u8>, fields: &Vec<(String, String)>, i: usize)
    requires
        i <= fields@.len(),
        forall|j: int|
            0 <= j < fields@.len() ==> str_encodable((#[trigger] fields@[j]).0@) && str_encodable(
                fields@[j].1@,
            ),
    ensures
        final(out)@ == old(out)@ + enc_fields(
            fields@.map_values(|p: (String, String)| (p.0@, p.1@)).skip(i as int),
        ),
    decreases fields@.len() - i,
{
    let ghost fv = fields@.map_values(|p: (String, String)| (p.0@, p.1@));
    if i == fields.len() {
        proof {
            assert(fv.skip(i as int).len() == 0);
            assert(enc_fields(fv.skip(i as int)) =~= Seq::<u8>::empty());
            assert(out@ =~= old(out)@ + enc_fields(fv.skip(i as int)));
        }
    } else {
        put_field(out, &fields[i]);
        put_fields_from(out, fields, i + 1);
        proof {
            assert(fv.skip(i as int)[0] == fv[i as int]);
            assert(fv.skip(i as int).drop_first() =~= fv.skip(i as int + 1));
            assert(enc_fields(fv.skip(i as int)) == enc_field(fv[i as int]) + enc_fields(
                fv.skip(i as int + 1),
            ));
            assert(out@ =~= old(out)@ + enc_fields(fv.skip(i as int)));
        }
    }
}

pub(crate) fn put_payload(out: &mut Vec<u8>, p: &Payload)
    requires
        payload_encodable(p@),
    ensures
        final(out)@ == old(out)@ + enc_payload(p@),
{
    proof {
        assert forall|j: int| 0 <= j < p.0@.len() implies str_encodable(
            (#[trigger] p.0@[j]).0@,
        ) && str_encodable(p.0@[j].1@) by {
            assert(p@[j] == (p.0@[j].0@, p.0@[j].1@));
        }
    }
    put_u32(out, p.0.len() as u32);
    put_fields_from(out, &p.0, 0);
    proof {
        assert(p@.skip(0) =~= p@);
        assert(out@ =~= old(out)@ + enc_payload(p@));
    }
}

/// Append the binary form of one versioned row.
pub fn put_vrow(out: &mut Vec<u8>, v: &VersionedRow)
    requires
        vrow_encodable(v@),
    ensures
        final(out)@ == old(out)@ + enc_vrow(v@),
{
    put_u64(out, v.begin_ts);
    put_opt_u64(out, &v.end_ts);
    put_u64(out, v.txn_id);
    put_str(out, &v.row.key.0);
    put_payload(out, &v.row.payload);
    proof {
        assert(out@ =~= old(out)@ + enc_vrow(v@));
    }
}

/// Whether a versioned row fits the wire format's length prefixes.
pub fn vrow_fits(v: &VersionedRow) -> (r: bool)
    ensures
        r == vrow_encodable(v@),
{
    if !str_fits(&v.row.key.0) {
        return false;
    }
    if v.row.payload.0.len() > (u32::MAX as usize) {
        return false;
    }
    let n = v.row.payload.0.len();
    let mut i: usize = 0;
    while i < n
        invariant
            i <= n,
            n == v.row.payload.0@.len(),
            n <= u32::MAX,
            str_encodable(v@.row.key),
            forall|j: int|
                0 <= j < i ==> str_encodable((#[trigger] v.row.payload@[j]).0) && str_encodable(
                    v.row.payload@[j].1,
                ),
        decreases n - i,
    {
        proof {
            assert(v.row.payload@[i as int] == (v.row.payload.0@[i as int].0@,
            v.row.payload.0@[i as int].1@));
        }
        if !str_fits(&v.row.payload.0[i].0) {
            return false;
        }
        if !str_fits(&v.row.payload.0[i].1) {
            return false;
        }
        i = i + 1;
    }
    true
}

// ---------------------------------------------------------------------
// exec: decoders
// ---------------------------------------------------------------------
pub fn get_u32(b: &Vec<u8>, pos: usize) -> (r: Option<(u32, usize)>)
    ensures
        match r {
            Some((x, p)) => dec_u32_s(b@, pos as int) == Some((x, p as int)) && pos < p <= b@.len(),
            None => dec_u32_s(b@, pos as int) is None,
        },
{
    if pos <= b.len() && b.len() - pos >= 4 {
        let s = slice_subrange(b.as_slice(), pos, pos + 4);
        let x = u32_from_le_bytes(s);
        Some((x, pos + 4))
    } else {
        None
    }
}

pub fn get_u64(b: &Vec<u8>, pos: usize) -> (r: Option<(u64, usize)>)
    ensures
        match r {
            Some((x, p)) => dec_u64_s(b@, pos as int) == Some((x, p as int)) && pos < p <= b@.len(),
            None => dec_u64_s(b@, pos as int) is None,
        },
{
    if pos <= b.len() && b.len() - pos >= 8 {
        let s = slice_subrange(b.as_slice(), pos, pos + 8);
        let x = u64_from_le_bytes(s);
        Some((x, pos + 8))
    } else {
        None
    }
}

pub(crate) fn get_opt_u64(b: &Vec<u8>, pos: usize) -> (r: Option<(Option<u64>, usize)>)
    ensures
        match r {
            Some((o, p)) => dec_opt_u64_s(b@, pos as int) == Some((o, p as int)) && pos < p
                <= b@.len(),
            None => dec_opt_u64_s(b@, pos as int) is None,
        },
{
    if pos < b.len() {
        let tag = b[pos];
        if tag == 0u8 {
            Some((None, pos + 1))
        } else if tag == 1u8 {
            match get_u64(b, pos + 1) {
                Some((x, p)) => Some((Some(x), p)),
                None => None,
            }
        } else {
            None
        }
    } else {
        None
    }
}

pub(crate) fn get_bytes(b: &Vec<u8>, pos: usize) -> (r: Option<(Vec<u8>, usize)>)
    ensures
        match r {
            Some((bs, p)) => dec_bytes_s(b@, pos as int) == Some((bs@, p as int)) && pos < p
                <= b@.len(),
            None => dec_bytes_s(b@, pos as int) is None,
        },
{
    match get_u32(b, pos) {
        Some((n, p)) => {
            if n as usize <= b.len() - p {
                let s = slice_subrange(b.as_slice(), p, p + n as usize);
                let v = slice_to_vec(s);
                Some((v, p + n as usize))
            } else {
                None
            }
        },
        None => None,
    }
}

pub(crate) fn get_str(b: &Vec<u8>, pos: usize) -> (r: Option<(String, usize)>)
    ensures
        match r {
            Some((s, p)) => dec_str_s(b@, pos as int) == Some((s@, p as int)) && pos < p
                <= b@.len(),
            None => dec_str_s(b@, pos as int) is None,
        },
{
    match get_bytes(b, pos) {
        Some((bs, p)) => match string_from_utf8(bs) {
            Some(s) => Some((s, p)),
            None => None,
        },
        None => None,
    }
}

pub(crate) fn get_field(b: &Vec<u8>, pos: usize) -> (r: Option<((String, String), usize)>)
    ensures
        match r {
            Some((f, p)) => dec_field_s(b@, pos as int) == Some(((f.0@, f.1@), p as int)) && pos
                < p <= b@.len(),
            None => dec_field_s(b@, pos as int) is None,
        },
{
    match get_str(b, pos) {
        Some((name, p)) => match get_str(b, p) {
            Some((value, p2)) => Some(((name, value), p2)),
            None => None,
        },
        None => None,
    }
}

pub(crate) fn get_fields(b: &Vec<u8>, pos: usize, n: u32) -> (r: Option<(Vec<(String, String)>, usize)>)
    requires
        pos <= b@.len(),
    ensures
        match r {
            Some((fs, p)) => dec_fields_s(b@, pos as int, n as int) == Some(
                (fs@.map_values(|q: (String, String)| (q.0@, q.1@)), p as int),
            ) && pos <= p <= b@.len(),
            None => dec_fields_s(b@, pos as int, n as int) is None,
        },
    decreases n,
{
    if n == 0 {
        let fs: Vec<(String, String)> = Vec::new();
        proof {
            assert(fs@.map_values(|q: (String, String)| (q.0@, q.1@)) =~= Seq::<(
                Seq<char>,
                Seq<char>,
            )>::empty());
        }
        Some((fs, pos))
    } else {
        match get_field(b, pos) {
            Some((f, p)) => match get_fields(b, p, n - 1) {
                Some((rest, p2)) => {
                    let ghost fv = (f.0@, f.1@);
                    let ghost rest_pre = rest@;
                    let mut rest = rest;
                    rest.insert(0, f);
                    proof {
                        assert(rest@.map_values(|q: (String, String)| (q.0@, q.1@)) =~= seq![fv]
                            + rest_pre.map_values(|q: (String, String)| (q.0@, q.1@)));
                    }
                    Some((rest, p2))
                },
                None => None,
            },
            None => None,
        }
    }
}

/// Decode one payload at `pos`.
pub fn get_payload(b: &Vec<u8>, pos: usize) -> (r: Option<(Payload, usize)>)
    ensures
        match r {
            Some((p, q)) => dec_payload_s(b@, pos as int) == Some((p@, q as int)) && pos <= q
                <= b@.len(),
            None => dec_payload_s(b@, pos as int) is None,
        },
{
    match get_u32(b, pos) {
        Some((n, p)) => match get_fields(b, p, n) {
            Some((fs, p2)) => Some((Payload(fs), p2)),
            None => None,
        },
        None => None,
    }
}

/// Decode one versioned row at `pos`.
pub fn get_vrow(b: &Vec<u8>, pos: usize) -> (r: Option<(VersionedRow, usize)>)
    ensures
        match r {
            Some((v, p)) => dec_vrow_s(b@, pos as int) == Some((v@, p as int)) && pos <= p
                <= b@.len(),
            None => dec_vrow_s(b@, pos as int) is None,
        },
{
    match get_u64(b, pos) {
        Some((begin_ts, p1)) => match get_opt_u64(b, p1) {
            Some((end_ts, p2)) => match get_u64(b, p2) {
                Some((txn_id, p3)) => match get_str(b, p3) {
                    Some((key, p4)) => match get_payload(b, p4) {
                        Some((payload, p5)) => {
                            let v = VersionedRow {
                                begin_ts,
                                end_ts,
                                txn_id,
                                row: Row { key: RowKey(key), payload },
                            };
                            Some((v, p5))
                        },
                        None => None,
                    },
                    None => None,
                },
                None => None,
            },
            None => None,
        },
        None => None,
    }
}

} // verus!
