//! Row segment: the durable, immutable form a memory-table range is
//! flushed into. One leading metadata frame (a record count, currently
//! unmaintained, as in the write-ahead log's framing), then one frame per
//! versioned row. Held as the byte image of its backing file.

use vstd::prelude::*;
use vstd::bytes::{lemma_auto_spec_u32_to_from_le_bytes, lemma_auto_spec_u64_to_from_le_bytes,
    spec_u32_from_le_bytes, spec_u32_to_le_bytes, spec_u64_to_le_bytes};
use crate::storage::codec::{
    enc_vrow, frame, get_u32, lemma_dec_u32_at, put_bytes, put_u32, put_u64, put_vrow,
    vrow_encodable, vrow_fits, CodecError,
};
use crate::storage::wal::{enc_log, lemma_replay_enc_log, log_encodable, replay_from,
    spec_replay_from};
use crate::types::{VersionedRow, VersionedRowV};

verus! {

/// The segment's leading metadata record.
#[derive(Clone, Copy, Debug, PartialEq, Eq, Structural)]
pub struct RowSegmentMeta {
    pub rows: u64,
}

/// The byte image of the metadata frame that `create` writes.
pub open spec fn enc_meta(m: RowSegmentMeta) -> Seq<u8> {
    frame(spec_u64_to_le_bytes(m.rows))
}

/// The byte image of a segment holding exactly these rows after its
/// placeholder metadata.
pub open spec fn enc_segment_rows(rows: Seq<VersionedRowV>) -> Seq<u8> {
    enc_meta(RowSegmentMeta { rows: 0 }) + enc_log(rows)
}

/// An on-disk row segment, held as the bytes of its backing file.
pub struct RowSegment {
    pub data: Vec<u8>,
}

impl RowSegment {
    /// A fresh segment: a placeholder metadata frame (record count zero,
    /// not maintained afterwards) and no rows yet.
    pub fn create() -> (r: Self)
        ensures
            r.data@ == enc_segment_rows(Seq::empty()),
    {
        let mut data: Vec<u8> = Vec::new();
        let mut body: Vec<u8> = Vec::new();
        put_u64(&mut body, 0);
        put_u32(&mut data, body.len() as u32);
        put_bytes(&mut data, body.as_slice());
        proof {
            lemma_auto_spec_u64_to_from_le_bytes();
            assert(data@ =~= enc_segment_rows(Seq::empty()));
        }
        RowSegment { data }
    }

    /// Open a segment over the current byte image of its backing file.
    pub fn open(data: Vec<u8>) -> (r: Self)
        ensures
            r.data@ == data@,
    {
        RowSegment { data }
    }

    /// Append one row as a length-prefixed frame, exactly as the
    /// write-ahead log frames records. Fails only when a length prefix
    /// cannot hold the record, and then leaves the segment unchanged.
    pub fn append(&mut self, row: &VersionedRow) -> (r: Result<(), CodecError>)
        ensures
            match r {
                Ok(()) => vrow_encodable(row@) && enc_vrow(row@).len() <= u32::MAX
                    && final(self).data@ == old(self).data@ + frame(enc_vrow(row@)),
                Err(e) => e == CodecError::TooLarge && final(self).data@ == old(self).data@ && !(
                vrow_encodable(row@) && enc_vrow(row@).len() <= u32::MAX),
            },
    {
        if !vrow_fits(row) {
            return Err(CodecError::TooLarge);
        }
        let mut body: Vec<u8> = Vec::new();
        put_vrow(&mut body, row);
        if body.len() > (u32::MAX as usize) {
            return Err(CodecError::TooLarge);
        }
        put_u32(&mut self.data, body.len() as u32);
        put_bytes(&mut self.data, body.as_slice());
        proof {
            assert(self.data@ =~= old(self).data@ + frame(enc_vrow(row@)));
        }
        Ok(())
    }

    /// Replay the metadata frame, then every row frame, in file order. A
    /// missing or truncated metadata frame is an error; row frames behave
    /// as in the write-ahead log (a truncated trailing frame ends the
    /// iteration silently).
    pub fn iter(&self) -> (r: Result<Vec<VersionedRow>, CodecError>)
        ensures
            match r {
                Ok(rows) => spec_iter_s(self.data@) == Some(
                    rows@.map_values(|v: VersionedRow| v@),
                ),
                Err(e) => e == CodecError::Malformed && spec_iter_s(self.data@) is None,
            },
    {
        match get_u32(&self.data, 0) {
            None => Err(CodecError::Malformed),
            Some((n, p)) => {
                if (n as usize) > self.data.len() - p {
                    Err(CodecError::Malformed)
                } else {
                    replay_from(&self.data, p + n as usize)
                }
            },
        }
    }
}

/// What iterating a segment image yields: skip the metadata frame, then
/// replay the row frames.
pub open spec fn spec_iter_s(b: Seq<u8>) -> Option<Seq<VersionedRowV>> {
    if b.len() < 4 {
        None
    } else {
        let n = spec_u32_from_le_bytes(b.subrange(0, 4)) as int;
        if 4 + n > b.len() {
            None
        } else {
            spec_replay_from(b, 4 + n)
        }
    }
}

/// Round trip: a segment created fresh and appended to frame by frame
/// iterates back to exactly the rows that were appended.
pub proof fn lemma_segment_rows_round_trip(rows: Seq<VersionedRowV>)
    requires
        log_encodable(rows),
    ensures
        spec_iter_s(enc_segment_rows(rows)) == Some(rows),
{
    lemma_auto_spec_u32_to_from_le_bytes();
    lemma_auto_spec_u64_to_from_le_bytes();
    let b = enc_segment_rows(rows);
    let meta = enc_meta(RowSegmentMeta { rows: 0 });
    assert(meta.len() == 12);
    assert(b.subrange(0, 4) =~= spec_u32_to_le_bytes(8u32));
    assert(spec_u32_from_le_bytes(b.subrange(0, 4)) == 8u32);
    assert(b.subrange(12, b.len() as int) =~= enc_log(rows));
    lemma_replay_enc_log(b, 12, rows);
}

} // verus!
