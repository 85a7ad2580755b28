//! Column segment: a columnar encoding of string columns. Each column
//! holds an offsets array (one entry per row, the byte offset of that
//! row's length-prefixed entry in the blob), the blob itself, and a
//! zone-map summary. A segment serializes as a single length-prefixed
//! frame; writing and reading back is proved to round-trip exactly.

use vstd::prelude::*;
use vstd::bytes::{lemma_auto_spec_u32_to_from_le_bytes, lemma_auto_spec_u64_to_from_le_bytes,
    spec_u32_from_le_bytes, spec_u32_to_le_bytes, spec_u64_to_le_bytes};
use vstd::utf8::encode_utf8;
use crate::storage::codec::{
    dec_opt_u64_s, dec_str_s, dec_u32_s, dec_u64_s, enc_opt_u64, enc_str, frame, get_bytes,
    get_opt_u64, get_str, get_u32, get_u64, lemma_dec_opt_u64_at, lemma_dec_str_at,
    lemma_dec_u32_at, lemma_dec_u64_at, put_bytes, put_opt_u64, put_str, put_u32, put_u64,
    str_encodable, str_fits, CodecError,
};

verus! {

/// Per-column summary statistics: shortest and longest value in bytes,
/// and an optional timestamp range.
#[derive(Clone, Copy, Debug, PartialEq, Eq)]
pub struct ZoneMap {
    pub min_len: u32,
    pub max_len: u32,
    pub min_ts: Option<u64>,
    pub max_ts: Option<u64>,
}

/// One string column: its name, offsets into the blob, the blob of
/// length-prefixed values, and the zone map.
pub struct Column {
    pub name: String,
    pub offsets: Vec<u64>,
    pub blob: Vec<u8>,
    pub zonemap: ZoneMap,
}

/// Ghost image of a column.
pub struct ColumnV {
    pub name: Seq<char>,
    pub offsets: Seq<u64>,
    pub blob: Seq<u8>,
    pub zonemap: ZoneMap,
}

impl View for Column {
    type V = ColumnV;

    open spec fn view(&self) -> ColumnV {
        ColumnV {
            name: self.name@,
            offsets: self.offsets@,
            blob: self.blob@,
            zonemap: self.zonemap,
        }
    }
}

/// A segment: a row count and its columns.
pub struct Segment {
    pub rows: u64,
    pub columns: Vec<Column>,
}

/// Ghost image of a segment.
pub struct SegmentV {
    pub rows: u64,
    pub columns: Seq<ColumnV>,
}

impl View for Segment {
    type V = SegmentV;

    open spec fn view(&self) -> SegmentV {
        SegmentV { rows: self.rows, columns: self.columns@.map_values(|c: Column| c@) }
    }
}

// ---------------------------------------------------------------------
// what add_string_column builds, as functions of the values
// ---------------------------------------------------------------------
/// One blob entry: the value's UTF-8 length, then its UTF-8 bytes.
pub open spec fn blob_entry(s: Seq<char>) -> Seq<u8> {
    spec_u32_to_le_bytes(encode_utf8(s).len() as u32) + encode_utf8(s)
}

/// The whole blob: the entries concatenated in row order.
pub open spec fn blob_of(values: Seq<Seq<char>>) -> Seq<u8>
    decreases values.len(),
{
    if values.len() == 0 {
        Seq::empty()
    } else {
        blob_of(values.drop_last()) + blob_entry(values.last())
    }
}

/// The offsets array: entry `i` is the byte offset of row `i`'s entry.
pub open spec fn offsets_of(values: Seq<Seq<char>>) -> Seq<u64>
    decreases values.len(),
{
    if values.len() == 0 {
        Seq::empty()
    } else {
        offsets_of(values.drop_last()).push(blob_of(values.drop_last()).len() as u64)
    }
}

/// Shortest value in UTF-8 bytes (`u32::MAX` over no values).
pub open spec fn min_len_of(values: Seq<Seq<char>>) -> u32
    decreases values.len(),
{
    if values.len() == 0 {
        u32::MAX
    } else {
        let l = encode_utf8(values.last()).len() as u32;
        let m = min_len_of(values.drop_last());
        if l < m {
            l
        } else {
            m
        }
    }
}

/// Longest value in UTF-8 bytes (zero over no values).
pub open spec fn max_len_of(values: Seq<Seq<char>>) -> u32
    decreases values.len(),
{
    if values.len() == 0 {
        0
    } else {
        let l = encode_utf8(values.last()).len() as u32;
        let m = max_len_of(values.drop_last());
        if l > m {
            l
        } else {
            m
        }
    }
}

/// The column that `add_string_column(name, values)` appends.
pub open spec fn column_of(name: Seq<char>, values: Seq<Seq<char>>) -> ColumnV {
    ColumnV {
        name,
        offsets: offsets_of(values),
        blob: blob_of(values),
        zonemap: ZoneMap {
            min_len: min_len_of(values),
            max_len: max_len_of(values),
            min_ts: None,
            max_ts: None,
        },
    }
}

/// All values fit their length prefixes and the blob fits one frame.
pub open spec fn column_buildable(name: Seq<char>, values: Seq<Seq<char>>) -> bool {
    &&& str_encodable(name)
    &&& values.len() <= u32::MAX
    &&& forall|i: int| 0 <= i < values.len() ==> str_encodable(#[trigger] values[i])
    &&& blob_of(values).len() <= u32::MAX
}

proof fn lemma_blob_prefix_len(values: Seq<Seq<char>>, k: int)
    requires
        0 <= k <= values.len(),
    ensures
        blob_of(values.take(k)).len() <= blob_of(values).len(),
    decreases values.len() - k,
{
    if k < values.len() {
        lemma_blob_prefix_len(values.drop_last(), k);
        assert(values.drop_last().take(k) =~= values.take(k));
    } else {
        assert(values.take(k) =~= values);
    }
}

impl Segment {
    /// An empty segment: no rows, no columns.
    pub fn new() -> (r: Self)
        ensures
            r.rows == 0,
            r@.columns == Seq::<ColumnV>::empty(),
    {
        let r = Segment { rows: 0, columns: Vec::new() };
        proof {
            assert(r@.columns =~= Seq::<ColumnV>::empty());
        }
        r
    }

    /// Build a string column: offsets, a blob of length-prefixed values,
    /// and a zone map of the shortest and longest value, and append it;
    /// the segment's row count becomes the column's. Fails, leaving the
    /// segment unchanged, exactly when a value or the blob outgrows a
    /// `u32` length prefix.
    pub fn add_string_column(&mut self, name: &str, values: &Vec<String>) -> (r: Result<
        (),
        CodecError,
    >)
        ensures
            ({
                let vals = values@.map_values(|s: String| s@);
                match r {
                    Ok(()) => column_buildable(name@, vals) && final(self).rows == values@.len()
                        && final(self)@.columns == old(self)@.columns.push(column_of(name@, vals)),
                    Err(e) => e == CodecError::TooLarge && *final(self) == *old(self)
                        && !column_buildable(name@, vals),
                }
            }),
    {
        let ghost vals = values@.map_values(|s: String| s@);
        if name.as_bytes().len() > (u32::MAX as usize) {
            return Err(CodecError::TooLarge);
        }
        if values.len() > (u32::MAX as usize) {
            return Err(CodecError::TooLarge);
        }
        let n = values.len();
        let mut offsets: Vec<u64> = Vec::new();
        let mut blob: Vec<u8> = Vec::new();
        let mut min_len: u32 = u32::MAX;
        let mut max_len: u32 = 0;
        let mut off: u64 = 0;
        let mut i: usize = 0;
        while i < n
            invariant
                i <= n,
                n == values@.len() <= u32::MAX,
                vals == values@.map_values(|s: String| s@),
                forall|j: int| 0 <= j < i ==> str_encodable(#[trigger] vals[j]),
                offsets@ == offsets_of(vals.take(i as int)),
                blob@ == blob_of(vals.take(i as int)),
                min_len == min_len_of(vals.take(i as int)),
                max_len == max_len_of(vals.take(i as int)),
                off == blob@.len(),
                off <= u32::MAX,
            decreases n - i,
        {
            let bytes = values[i].as_str().as_bytes();
            let blen = bytes.len();
            proof {
                assert(vals[i as int] == values@[i as int]@);
            }
            if blen > (u32::MAX as usize) {
                proof {
                    assert(!str_encodable(vals[i as int]));
                }
                return Err(CodecError::TooLarge);
            }
            if (u32::MAX as u64) - off < 4 + blen as u64 {
                proof {
                    lemma_auto_spec_u32_to_from_le_bytes();
                    assert(vals.take(i as int + 1).drop_last() =~= vals.take(i as int));
                    assert(vals.take(i as int + 1).last() == vals[i as int]);
                    assert(blob_entry(vals[i as int]).len() == 4 + encode_utf8(
                        vals[i as int],
                    ).len());
                    assert(blob_of(vals.take(i as int + 1)).len() > u32::MAX);
                    lemma_blob_prefix_len(vals, i as int + 1);
                }
                return Err(CodecError::TooLarge);
            }
            let l32 = blen as u32;
            if l32 < min_len {
                min_len = l32;
            }
            if l32 > max_len {
                max_len = l32;
            }
            offsets.push(off);
            put_u32(&mut blob, l32);
            put_bytes(&mut blob, bytes);
            off = off + 4 + blen as u64;
            i = i + 1;
            proof {
                lemma_auto_spec_u32_to_from_le_bytes();
                assert(vals.take(i as int).drop_last() =~= vals.take(i as int - 1));
                assert(vals.take(i as int).last() == vals[i as int - 1]);
                assert(blob@ =~= blob_of(vals.take(i as int)));
                assert(offsets@ =~= offsets_of(vals.take(i as int)));
            }
        }
        proof {
            assert(vals.take(n as int) =~= vals);
        }
        let zonemap = ZoneMap { min_len, max_len, min_ts: None, max_ts: None };
        let column = Column { name: name.to_owned(), offsets, blob, zonemap };
        let ghost pre_cols = self@.columns;
        self.rows = n as u64;
        self.columns.push(column);
        proof {
            assert(self@.columns =~= pre_cols.push(column_of(name@, vals)));
        }
        Ok(())
    }
}

// ---------------------------------------------------------------------
// the segment file format
// ---------------------------------------------------------------------
pub open spec fn enc_zonemap(z: ZoneMap) -> Seq<u8> {
    spec_u32_to_le_bytes(z.min_len) + spec_u32_to_le_bytes(z.max_len) + enc_opt_u64(z.min_ts)
        + enc_opt_u64(z.max_ts)
}

pub open spec fn enc_offsets(os: Seq<u64>) -> Seq<u8>
    decreases os.len(),
{
    if os.len() == 0 {
        Seq::empty()
    } else {
        spec_u64_to_le_bytes(os[0]) + enc_offsets(os.drop_first())
    }
}

pub open spec fn enc_column(c: ColumnV) -> Seq<u8> {
    enc_str(c.name) + spec_u32_to_le_bytes(c.offsets.len() as u32) + enc_offsets(c.offsets)
        + spec_u32_to_le_bytes(c.blob.len() as u32) + c.blob + enc_zonemap(c.zonemap)
}

pub open spec fn enc_columns(cs: Seq<ColumnV>) -> Seq<u8>
    decreases cs.len(),
{
    if cs.len() == 0 {
        Seq::empty()
    } else {
        enc_column(cs[0]) + enc_columns(cs.drop_first())
    }
}

/// The body of a segment file: row count, column count, then the columns.
pub open spec fn enc_segment(s: SegmentV) -> Seq<u8> {
    spec_u64_to_le_bytes(s.rows) + spec_u32_to_le_bytes(s.columns.len() as u32) + enc_columns(
        s.columns,
    )
}

pub open spec fn column_encodable(c: ColumnV) -> bool {
    &&& str_encodable(c.name)
    &&& c.offsets.len() <= u32::MAX
    &&& c.blob.len() <= u32::MAX
}

pub open spec fn segment_encodable(s: SegmentV) -> bool {
    &&& s.columns.len() <= u32::MAX
    &&& forall|i: int| 0 <= i < s.columns.len() ==> column_encodable(#[trigger] s.columns[i])
    &&& enc_segment(s).len() <= u32::MAX
}

// spec decoders
pub open spec fn dec_zonemap_s(b: Seq<u8>, pos: int) -> Option<(ZoneMap, int)> {
    match dec_u32_s(b, pos) {
        Some((min_len, p1)) => match dec_u32_s(b, p1) {
            Some((max_len, p2)) => match dec_opt_u64_s(b, p2) {
                Some((min_ts, p3)) => match dec_opt_u64_s(b, p3) {
                    Some((max_ts, p4)) => Some((ZoneMap { min_len, max_len, min_ts, max_ts }, p4)),
                    None => None,
                },
                None => None,
            },
            None => None,
        },
        None => None,
    }
}

pub open spec fn dec_offsets_s(b: Seq<u8>, pos: int, n: int) -> Option<(Seq<u64>, int)>
    decreases n,
{
    if n <= 0 {
        Some((Seq::empty(), pos))
    } else {
        match dec_u64_s(b, pos) {
            Some((x, p)) => match dec_offsets_s(b, p, n - 1) {
                Some((rest, p2)) => Some((seq![x] + rest, p2)),
                None => None,
            },
            None => None,
        }
    }
}

pub open spec fn dec_column_s(b: Seq<u8>, pos: int) -> Option<(ColumnV, int)> {
    match dec_str_s(b, pos) {
        Some((name, p1)) => match dec_u32_s(b, p1) {
            Some((noff, p2)) => match dec_offsets_s(b, p2, noff as int) {
                Some((offsets, p3)) => match dec_u32_s(b, p3) {
                    Some((blen, p4)) => if p4 + blen <= b.len() {
                        let blob = b.subrange(p4, p4 + blen);
                        match dec_zonemap_s(b, p4 + blen) {
                            Some((zonemap, p5)) => Some(
                                (ColumnV { name, offsets, blob, zonemap }, p5),
                            ),
                            None => None,
                        }
                    } else {
                        None
                    },
                    None => None,
                },
                None => None,
            },
            None => None,
        },
        None => None,
    }
}

pub open spec fn dec_columns_s(b: Seq<u8>, pos: int, n: int) -> Option<(Seq<ColumnV>, int)>
    decreases n,
{
    if n <= 0 {
        Some((Seq::empty(), pos))
    } else {
        match dec_column_s(b, pos) {
            Some((c, p)) => match dec_columns_s(b, p, n - 1) {
                Some((rest, p2)) => Some((seq![c] + rest, p2)),
                None => None,
            },
            None => None,
        }
    }
}

pub open spec fn dec_segment_s(b: Seq<u8>, pos: int) -> Option<(SegmentV, int)> {
    match dec_u64_s(b, pos) {
        Some((rows, p1)) => match dec_u32_s(b, p1) {
            Some((ncols, p2)) => match dec_columns_s(b, p2, ncols as int) {
                Some((columns, p3)) => Some((SegmentV { rows, columns }, p3)),
                None => None,
            },
            None => None,
        },
        None => None,
    }
}

/// What `read_from` makes of a file image: one frame wrapping exactly one
/// encoded segment.
pub open spec fn spec_read_segment(b: Seq<u8>) -> Option<SegmentV> {
    if b.len() < 4 {
        None
    } else {
        let n = spec_u32_from_le_bytes(b.subrange(0, 4)) as int;
        if 4 + n > b.len() {
            None
        } else {
            match dec_segment_s(b, 4) {
                Some((s, p)) => if p == 4 + n {
                    Some(s)
                } else {
                    None
                },
                None => None,
            }
        }
    }
}


// ---------------------------------------------------------------------
// exec: writing and reading the segment file image
// ---------------------------------------------------------------------
fn put_zonemap(out: &mut Vec<u8>, z: &ZoneMap)
    ensures
        final(out)@ == old(out)@ + enc_zonemap(*z),
{
    put_u32(out, z.min_len);
    put_u32(out, z.max_len);
    put_opt_u64(out, &z.min_ts);
    put_opt_u64(out, &z.max_ts);
    proof {
        assert(out@ =~= old(out)@ + enc_zonemap(*z));
    }
}

fn put_offsets_from(out: &mut Vec<u8>, os: &Vec<u64>, i: usize)
    requires
        i <= os@.len(),
    ensures
        final(out)@ == old(out)@ + enc_offsets(os@.skip(i as int)),
    decreases os@.len() - i,
{
    if i == os.len() {
        proof {
            assert(enc_offsets(os@.skip(i as int)) =~= Seq::<u8>::empty());
            assert(out@ =~= old(out)@ + enc_offsets(os@.skip(i as int)));
        }
    } else {
        put_u64(out, os[i]);
        put_offsets_from(out, os, i + 1);
        proof {
            assert(os@.skip(i as int)[0] == os@[i as int]);
            assert(os@.skip(i as int).drop_first() =~= os@.skip(i as int + 1));
            assert(out@ =~= old(out)@ + enc_offsets(os@.skip(i as int)));
        }
    }
}

fn put_column(out: &mut Vec<u8>, c: &Column)
    requires
        column_encodable(c@),
    ensures
        final(out)@ == old(out)@ + enc_column(c@),
{
    put_str(out, &c.name);
    put_u32(out, c.offsets.len() as u32);
    put_offsets_from(out, &c.offsets, 0);
    put_u32(out, c.blob.len() as u32);
    put_bytes(out, c.blob.as_slice());
    put_zonemap(out, &c.zonemap);
    proof {
        assert(c.offsets@.skip(0) =~= c.offsets@);
        assert(out@ =~= old(out)@ + enc_column(c@));
    }
}

fn put_columns_from(out: &mut Vec<u8>, cols: &Vec<Column>, i: usize)
    requires
        i <= cols@.len(),
        forall|j: int| 0 <= j < cols@.len() ==> column_encodable((#[trigger] cols@[j])@),
    ensures
        final(out)@ == old(out)@ + enc_columns(cols@.map_values(|c: Column| c@).skip(i as int)),
    decreases cols@.len() - i,
{
    let ghost cv = cols@.map_values(|c: Column| c@);
    if i == cols.len() {
        proof {
            assert(enc_columns(cv.skip(i as int)) =~= Seq::<u8>::empty());
            assert(out@ =~= old(out)@ + enc_columns(cv.skip(i as int)));
        }
    } else {
        put_column(out, &cols[i]);
        put_columns_from(out, cols, i + 1);
        proof {
            assert(cv.skip(i as int)[0] == cv[i as int]);
            assert(cv.skip(i as int).drop_first() =~= cv.skip(i as int + 1));
            assert(out@ =~= old(out)@ + enc_columns(cv.skip(i as int)));
        }
    }
}

impl Segment {
    /// Serialize the whole segment behind one length-prefixed frame: the
    /// returned bytes are the exact file image. Fails, returning nothing,
    /// exactly when some length outgrows its `u32` prefix.
    pub fn write_to(&self) -> (r: Result<Vec<u8>, CodecError>)
        ensures
            match r {
                Ok(bytes) => segment_encodable(self@) && bytes@ == frame(enc_segment(self@)),
                Err(e) => e == CodecError::TooLarge && !segment_encodable(self@),
            },
    {
        let ghost sv = self@;
        if self.columns.len() > (u32::MAX as usize) {
            return Err(CodecError::TooLarge);
        }
        let ncols = self.columns.len();
        let mut i: usize = 0;
        while i < ncols
            invariant
                i <= ncols,
                ncols == self.columns@.len(),
                sv == self@,
                forall|j: int| 0 <= j < i ==> column_encodable((#[trigger] self.columns@[j])@),
            decreases ncols - i,
        {
            proof {
                assert(sv.columns[i as int] == self.columns@[i as int]@);
            }
            if !str_fits(&self.columns[i].name) {
                return Err(CodecError::TooLarge);
            }
            if self.columns[i].offsets.len() > (u32::MAX as usize) {
                return Err(CodecError::TooLarge);
            }
            if self.columns[i].blob.len() > (u32::MAX as usize) {
                return Err(CodecError::TooLarge);
            }
            i = i + 1;
        }
        proof {
            assert forall|j: int| 0 <= j < sv.columns.len() implies column_encodable(
                #[trigger] sv.columns[j],
            ) by {
                assert(sv.columns[j] == self.columns@[j]@);
            }
        }
        let mut body: Vec<u8> = Vec::new();
        put_u64(&mut body, self.rows);
        put_u32(&mut body, ncols as u32);
        put_columns_from(&mut body, &self.columns, 0);
        proof {
            assert(self.columns@.map_values(|c: Column| c@).skip(0) =~= sv.columns);
            assert(body@ =~= enc_segment(sv));
        }
        if body.len() > (u32::MAX as usize) {
            return Err(CodecError::TooLarge);
        }
        let mut out: Vec<u8> = Vec::new();
        put_u32(&mut out, body.len() as u32);
        put_bytes(&mut out, body.as_slice());
        proof {
            assert(out@ =~= frame(enc_segment(sv)));
        }
        Ok(out)
    }

    /// Deserialize a whole segment from the file image: one frame that
    /// must wrap exactly one encoded segment.
    pub fn read_from(data: &Vec<u8>) -> (r: Result<Segment, CodecError>)
        ensures
            match r {
                Ok(seg) => spec_read_segment(data@) == Some(seg@),
                Err(e) => e == CodecError::Malformed && spec_read_segment(data@) is None,
            },
    {
        match get_u32(data, 0) {
            None => Err(CodecError::Malformed),
            Some((n, p)) => {
                if (n as usize) > data.len() - p {
                    Err(CodecError::Malformed)
                } else {
                    match get_segment(data, p) {
                        Some((seg, p2)) => {
                            if p2 == p + n as usize {
                                Ok(seg)
                            } else {
                                Err(CodecError::Malformed)
                            }
                        },
                        None => Err(CodecError::Malformed),
                    }
                }
            },
        }
    }
}

fn get_zonemap(b: &Vec<u8>, pos: usize) -> (r: Option<(ZoneMap, usize)>)
    ensures
        match r {
            Some((z, p)) => dec_zonemap_s(b@, pos as int) == Some((z, p as int)) && pos < p
                <= b@.len(),
            None => dec_zonemap_s(b@, pos as int) is None,
        },
{
    match get_u32(b, pos) {
        Some((min_len, p1)) => match get_u32(b, p1) {
            Some((max_len, p2)) => match get_opt_u64(b, p2) {
                Some((min_ts, p3)) => match get_opt_u64(b, p3) {
                    Some((max_ts, p4)) => Some((ZoneMap { min_len, max_len, min_ts, max_ts }, p4)),
                    None => None,
                },
                None => None,
            },
            None => None,
        },
        None => None,
    }
}

fn get_offsets(b: &Vec<u8>, pos: usize, n: u32) -> (r: Option<(Vec<u64>, usize)>)
    requires
        pos <= b@.len(),
    ensures
        match r {
            Some((os, p)) => dec_offsets_s(b@, pos as int, n as int) == Some((os@, p as int))
                && pos <= p <= b@.len(),
            None => dec_offsets_s(b@, pos as int, n as int) is None,
        },
    decreases n,
{
    if n == 0 {
        let os: Vec<u64> = Vec::new();
        proof {
            assert(os@ =~= Seq::<u64>::empty());
        }
        Some((os, pos))
    } else {
        match get_u64(b, pos) {
            Some((x, p)) => match get_offsets(b, p, n - 1) {
                Some((rest, p2)) => {
                    let ghost rest_pre = rest@;
                    let mut rest = rest;
                    rest.insert(0, x);
                    proof {
                        assert(rest@ =~= seq![x] + rest_pre);
                    }
                    Some((rest, p2))
                },
                None => None,
            },
            None => None,
        }
    }
}

fn get_column(b: &Vec<u8>, pos: usize) -> (r: Option<(Column, usize)>)
    ensures
        match r {
            Some((c, p)) => dec_column_s(b@, pos as int) == Some((c@, p as int)) && pos < p
                <= b@.len(),
            None => dec_column_s(b@, pos as int) is None,
        },
{
    match get_str(b, pos) {
        Some((name, p1)) => match get_u32(b, p1) {
            Some((noff, p2)) => match get_offsets(b, p2, noff) {
                Some((offsets, p3)) => match get_bytes(b, p3) {
                    Some((blob, p4)) => match get_zonemap(b, p4) {
                        Some((zonemap, p5)) => Some((Column { name, offsets, blob, zonemap }, p5)),
                        None => None,
                    },
                    None => None,
                },
                None => None,
            },
            None => None,
        },
        None => None,
    }
}

fn get_columns(b: &Vec<u8>, pos: usize, n: u32) -> (r: Option<(Vec<Column>, usize)>)
    requires
        pos <= b@.len(),
    ensures
        match r {
            Some((cs, p)) => dec_columns_s(b@, pos as int, n as int) == Some(
                (cs@.map_values(|c: Column| c@), p as int),
            ) && pos <= p <= b@.len(),
            None => dec_columns_s(b@, pos as int, n as int) is None,
        },
    decreases n,
{
    if n == 0 {
        let cs: Vec<Column> = Vec::new();
        proof {
            assert(cs@.map_values(|c: Column| c@) =~= Seq::<ColumnV>::empty());
        }
        Some((cs, pos))
    } else {
        match get_column(b, pos) {
            Some((c, p)) => match get_columns(b, p, n - 1) {
                Some((rest, p2)) => {
                    let ghost cv = c@;
                    let ghost rest_pre = rest@;
                    let mut rest = rest;
                    rest.insert(0, c);
                    proof {
                        assert(rest@.map_values(|x: Column| x@) =~= seq![cv]
                            + rest_pre.map_values(|x: Column| x@));
                    }
                    Some((rest, p2))
                },
                None => None,
            },
            None => None,
        }
    }
}

fn get_segment(b: &Vec<u8>, pos: usize) -> (r: Option<(Segment, usize)>)
    ensures
        match r {
            Some((s, p)) => dec_segment_s(b@, pos as int) == Some((s@, p as int)) && pos <= p
                <= b@.len(),
            None => dec_segment_s(b@, pos as int) is None,
        },
{
    match get_u64(b, pos) {
        Some((rows, p1)) => match get_u32(b, p1) {
            Some((ncols, p2)) => match get_columns(b, p2, ncols) {
                Some((columns, p3)) => Some((Segment { rows, columns }, p3)),
                None => None,
            },
            None => None,
        },
        None => None,
    }
}

// ---------------------------------------------------------------------
// round trip
// ---------------------------------------------------------------------
proof fn lemma_dec_zonemap_at(b: Seq<u8>, pos: int, z: ZoneMap)
    requires
        0 <= pos,
        pos + enc_zonemap(z).len() <= b.len(),
        b.subrange(pos, pos + enc_zonemap(z).len() as int) == enc_zonemap(z),
    ensures
        dec_zonemap_s(b, pos) == Some((z, pos + enc_zonemap(z).len())),
{
    lemma_auto_spec_u32_to_from_le_bytes();
    lemma_auto_spec_u64_to_from_le_bytes();
    let e = enc_zonemap(z);
    let e1 = spec_u32_to_le_bytes(z.min_len);
    let e2 = spec_u32_to_le_bytes(z.max_len);
    let e3 = enc_opt_u64(z.min_ts);
    let e4 = enc_opt_u64(z.max_ts);
    let l1 = e1.len() as int;
    let l2 = e2.len() as int;
    let l3 = e3.len() as int;
    let l4 = e4.len() as int;
    let p1 = pos + l1;
    let p2 = p1 + l2;
    let p3 = p2 + l3;
    let p4 = p3 + l4;
    assert(b.subrange(pos, p1) =~= e.subrange(0, l1));
    assert(e.subrange(0, l1) =~= e1);
    lemma_dec_u32_at(b, pos, z.min_len);
    assert(b.subrange(p1, p2) =~= e.subrange(l1, l1 + l2));
    assert(e.subrange(l1, l1 + l2) =~= e2);
    lemma_dec_u32_at(b, p1, z.max_len);
    assert(b.subrange(p2, p3) =~= e.subrange(l1 + l2, l1 + l2 + l3));
    assert(e.subrange(l1 + l2, l1 + l2 + l3) =~= e3);
    lemma_dec_opt_u64_at(b, p2, z.min_ts);
    assert(b.subrange(p3, p4) =~= e.subrange(l1 + l2 + l3, l1 + l2 + l3 + l4));
    assert(e.subrange(l1 + l2 + l3, l1 + l2 + l3 + l4) =~= e4);
    lemma_dec_opt_u64_at(b, p3, z.max_ts);
}

proof fn lemma_dec_offsets_at(b: Seq<u8>, pos: int, os: Seq<u64>)
    requires
        0 <= pos,
        pos + enc_offsets(os).len() <= b.len(),
        b.subrange(pos, pos + enc_offsets(os).len() as int) == enc_offsets(os),
    ensures
        dec_offsets_s(b, pos, os.len() as int) == Some((os, pos + enc_offsets(os).len())),
    decreases os.len(),
{
    lemma_auto_spec_u64_to_from_le_bytes();
    if os.len() == 0 {
        assert(os =~= Seq::<u64>::empty());
    } else {
        let e1 = spec_u64_to_le_bytes(os[0]);
        let rest = os.drop_first();
        let er = enc_offsets(rest);
        assert(enc_offsets(os) == e1 + er);
        let l1 = e1.len() as int;
        let lr = er.len() as int;
        assert(b.subrange(pos, pos + l1) =~= (e1 + er).subrange(0, l1));
        assert((e1 + er).subrange(0, l1) =~= e1);
        lemma_dec_u64_at(b, pos, os[0]);
        assert(b.subrange(pos + l1, pos + l1 + lr) =~= (e1 + er).subrange(l1, l1 + lr));
        assert((e1 + er).subrange(l1, l1 + lr) =~= er);
        lemma_dec_offsets_at(b, pos + l1, rest);
        assert(seq![os[0]] + rest =~= os);
    }
}

proof fn lemma_dec_column_at(b: Seq<u8>, pos: int, c: ColumnV)
    requires
        0 <= pos,
        column_encodable(c),
        pos + enc_column(c).len() <= b.len(),
        b.subrange(pos, pos + enc_column(c).len() as int) == enc_column(c),
    ensures
        dec_column_s(b, pos) == Some((c, pos + enc_column(c).len())),
{
    lemma_auto_spec_u32_to_from_le_bytes();
    lemma_auto_spec_u64_to_from_le_bytes();
    let e = enc_column(c);
    let e1 = enc_str(c.name);
    let e2 = spec_u32_to_le_bytes(c.offsets.len() as u32);
    let e3 = enc_offsets(c.offsets);
    let e4 = spec_u32_to_le_bytes(c.blob.len() as u32);
    let e5 = c.blob;
    let e6 = enc_zonemap(c.zonemap);
    let l1 = e1.len() as int;
    let l2 = e2.len() as int;
    let l3 = e3.len() as int;
    let l4 = e4.len() as int;
    let l5 = e5.len() as int;
    let l6 = e6.len() as int;
    let p1 = pos + l1;
    let p2 = p1 + l2;
    let p3 = p2 + l3;
    let p4 = p3 + l4;
    let p5 = p4 + l5;
    let p6 = p5 + l6;
    assert(b.subrange(pos, p1) =~= e.subrange(0, l1));
    assert(e.subrange(0, l1) =~= e1);
    lemma_dec_str_at(b, pos, c.name);
    assert(b.subrange(p1, p2) =~= e.subrange(l1, l1 + l2));
    assert(e.subrange(l1, l1 + l2) =~= e2);
    lemma_dec_u32_at(b, p1, c.offsets.len() as u32);
    assert(b.subrange(p2, p3) =~= e.subrange(l1 + l2, l1 + l2 + l3));
    assert(e.subrange(l1 + l2, l1 + l2 + l3) =~= e3);
    lemma_dec_offsets_at(b, p2, c.offsets);
    assert(b.subrange(p3, p4) =~= e.subrange(l1 + l2 + l3, l1 + l2 + l3 + l4));
    assert(e.subrange(l1 + l2 + l3, l1 + l2 + l3 + l4) =~= e4);
    lemma_dec_u32_at(b, p3, c.blob.len() as u32);
    assert(b.subrange(p4, p5) =~= e.subrange(l1 + l2 + l3 + l4, l1 + l2 + l3 + l4 + l5));
    assert(e.subrange(l1 + l2 + l3 + l4, l1 + l2 + l3 + l4 + l5) =~= e5);
    assert(b.subrange(p5, p6) =~= e.subrange(
        l1 + l2 + l3 + l4 + l5,
        l1 + l2 + l3 + l4 + l5 + l6,
    ));
    assert(e.subrange(l1 + l2 + l3 + l4 + l5, l1 + l2 + l3 + l4 + l5 + l6) =~= e6);
    lemma_dec_zonemap_at(b, p5, c.zonemap);
}

proof fn lemma_dec_columns_at(b: Seq<u8>, pos: int, cs: Seq<ColumnV>)
    requires
        0 <= pos,
        forall|i: int| 0 <= i < cs.len() ==> column_encodable(#[trigger] cs[i]),
        pos + enc_columns(cs).len() <= b.len(),
        b.subrange(pos, pos + enc_columns(cs).len() as int) == enc_columns(cs),
    ensures
        dec_columns_s(b, pos, cs.len() as int) == Some((cs, pos + enc_columns(cs).len())),
    decreases cs.len(),
{
    if cs.len() == 0 {
        assert(cs =~= Seq::<ColumnV>::empty());
    } else {
        let ec = enc_column(cs[0]);
        let rest = cs.drop_first();
        let er = enc_columns(rest);
        assert(enc_columns(cs) == ec + er);
        let lc = ec.len() as int;
        let lr = er.len() as int;
        assert(b.subrange(pos, pos + lc) =~= (ec + er).subrange(0, lc));
        assert((ec + er).subrange(0, lc) =~= ec);
        lemma_dec_column_at(b, pos, cs[0]);
        assert(b.subrange(pos + lc, pos + lc + lr) =~= (ec + er).subrange(lc, lc + lr));
        assert((ec + er).subrange(lc, lc + lr) =~= er);
        lemma_dec_columns_at(b, pos + lc, rest);
        assert(seq![cs[0]] + rest =~= cs);
    }
}

proof fn lemma_dec_segment_at(b: Seq<u8>, pos: int, s: SegmentV)
    requires
        0 <= pos,
        s.columns.len() <= u32::MAX,
        forall|i: int| 0 <= i < s.columns.len() ==> column_encodable(#[trigger] s.columns[i]),
        pos + enc_segment(s).len() <= b.len(),
        b.subrange(pos, pos + enc_segment(s).len() as int) == enc_segment(s),
    ensures
        dec_segment_s(b, pos) == Some((s, pos + enc_segment(s).len())),
{
    lemma_auto_spec_u32_to_from_le_bytes();
    lemma_auto_spec_u64_to_from_le_bytes();
    let e = enc_segment(s);
    let e1 = spec_u64_to_le_bytes(s.rows);
    let e2 = spec_u32_to_le_bytes(s.columns.len() as u32);
    let e3 = enc_columns(s.columns);
    let l1 = e1.len() as int;
    let l2 = e2.len() as int;
    let l3 = e3.len() as int;
    let p1 = pos + l1;
    let p2 = p1 + l2;
    let p3 = p2 + l3;
    assert(b.subrange(pos, p1) =~= e.subrange(0, l1));
    assert(e.subrange(0, l1) =~= e1);
    lemma_dec_u64_at(b, pos, s.rows);
    assert(b.subrange(p1, p2) =~= e.subrange(l1, l1 + l2));
    assert(e.subrange(l1, l1 + l2) =~= e2);
    lemma_dec_u32_at(b, p1, s.columns.len() as u32);
    assert(b.subrange(p2, p3) =~= e.subrange(l1 + l2, l1 + l2 + l3));
    assert(e.subrange(l1 + l2, l1 + l2 + l3) =~= e3);
    lemma_dec_columns_at(b, p2, s.columns);
}

/// Round trip: a segment written to its file image and read back yields a
/// byte-identical segment — same row count, column names, offsets, blobs
/// and zone maps.
pub proof fn lemma_segment_round_trip(s: SegmentV)
    requires
        segment_encodable(s),
    ensures
        spec_read_segment(frame(enc_segment(s))) == Some(s),
{
    lemma_auto_spec_u32_to_from_le_bytes();
    let body = enc_segment(s);
    let b = frame(body);
    let bl = body.len() as int;
    assert(b.subrange(0, 4) =~= spec_u32_to_le_bytes(body.len() as u32));
    assert(spec_u32_from_le_bytes(b.subrange(0, 4)) as int == bl);
    assert(b.subrange(4, 4 + bl) =~= body);
    lemma_dec_segment_at(b, 4, s);
}

} // verus!
