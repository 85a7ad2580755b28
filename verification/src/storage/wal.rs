//! Write-ahead log: an append-only sequence of length-prefixed frames,
//! each framing one encoded versioned row. The log is held as its byte
//! image; the caller persists and reloads those bytes. A truncated
//! trailing frame silently ends replay (a crash mid-frame loses at most
//! the in-flight record); a complete frame that does not hold exactly one
//! record is a decode error. The log is never compacted or truncated here.

use vstd::prelude::*;
use vstd::bytes::{lemma_auto_spec_u32_to_from_le_bytes, spec_u32_from_le_bytes,
    spec_u32_to_le_bytes};
use crate::storage::codec::{
    dec_vrow_s, enc_vrow, frame, get_u32, get_vrow, lemma_dec_u32_at, lemma_dec_vrow_at, put_bytes,
    put_u32, put_vrow, vrow_encodable, vrow_fits, CodecError,
};
use crate::types::{VersionedRow, VersionedRowV};

verus! {

/// What replaying a framed log from `pos` yields: the decoded records, in
/// order, stopping silently at a truncated trailing frame; `None` when a
/// complete frame does not hold exactly one record.
pub open spec fn spec_replay_from(b: Seq<u8>, pos: int) -> Option<Seq<VersionedRowV>>
    decreases b.len() - pos,
{
    if pos < 0 || pos + 4 > b.len() {
        Some(Seq::empty())
    } else {
        let n = spec_u32_from_le_bytes(b.subrange(pos, pos + 4)) as int;
        if pos + 4 + n > b.len() {
            Some(Seq::empty())
        } else {
            match dec_vrow_s(b, pos + 4) {
                Some((v, p)) => if p == pos + 4 + n {
                    match spec_replay_from(b, pos + 4 + n) {
                        Some(rest) => Some(seq![v] + rest),
                        None => None,
                    }
                } else {
                    None
                },
                None => None,
            }
        }
    }
}

/// The byte image of a log holding exactly these records.
pub open spec fn enc_log(rows: Seq<VersionedRowV>) -> Seq<u8>
    decreases rows.len(),
{
    if rows.len() == 0 {
        Seq::empty()
    } else {
        frame(enc_vrow(rows[0])) + enc_log(rows.drop_first())
    }
}

pub open spec fn log_encodable(rows: Seq<VersionedRowV>) -> bool {
    forall|i: int|
        0 <= i < rows.len() ==> vrow_encodable(#[trigger] rows[i]) && enc_vrow(rows[i]).len()
            <= u32::MAX
}

/// Replaying a log that holds exactly the frames of `rows` yields `rows`:
/// the write/replay round trip, stated positionally for the induction.
pub proof fn lemma_replay_enc_log(b: Seq<u8>, pos: int, rows: Seq<VersionedRowV>)
    requires
        0 <= pos <= b.len(),
        log_encodable(rows),
        b.subrange(pos, b.len() as int) == enc_log(rows),
    ensures
        spec_replay_from(b, pos) == Some(rows),
    decreases rows.len(),
{
    lemma_auto_spec_u32_to_from_le_bytes();
    if rows.len() == 0 {
        assert(b.len() - pos == 0);
    } else {
        let v = rows[0];
        let body = enc_vrow(v);
        let fr = frame(body);
        let rest = enc_log(rows.drop_first());
        assert(enc_log(rows) == fr + rest);
        let fl = fr.len() as int;
        let bl = body.len() as int;
        assert(b.len() - pos == fl + rest.len());
        assert(b.subrange(pos, pos + 4) =~= (fr + rest).subrange(0, 4));
        assert((fr + rest).subrange(0, 4) =~= spec_u32_to_le_bytes(body.len() as u32));
        lemma_dec_u32_at(b, pos, body.len() as u32);
        assert(spec_u32_from_le_bytes(b.subrange(pos, pos + 4)) as int == bl);
        assert(b.subrange(pos + 4, pos + 4 + bl) =~= (fr + rest).subrange(4, 4 + bl));
        assert((fr + rest).subrange(4, 4 + bl) =~= body);
        lemma_dec_vrow_at(b, pos + 4, v);
        assert(b.subrange(pos + 4 + bl, b.len() as int) =~= (fr + rest).subrange(
            4 + bl,
            (fr + rest).len() as int,
        ));
        assert((fr + rest).subrange(4 + bl, (fr + rest).len() as int) =~= rest);
        lemma_replay_enc_log(b, pos + 4 + bl, rows.drop_first());
        assert(seq![v] + rows.drop_first() =~= rows);
    }
}

/// The write-ahead log: the bytes of the backing file, append-only.
pub struct Wal {
    pub log: Vec<u8>,
}

impl Wal {
    /// Open a log over the current byte image of its backing file (empty
    /// for a fresh log).
    pub fn open(log: Vec<u8>) -> (r: Self)
        ensures
            r.log@ == log@,
    {
        Wal { log }
    }

    /// Serialize the record, append a 4-byte little-endian length prefix
    /// followed by the payload, and return the log position after the
    /// write. Fails only when a length prefix cannot hold the record, and
    /// then leaves the log unchanged.
    pub fn append(&mut self, rec: &VersionedRow) -> (r: Result<u64, CodecError>)
        ensures
            match r {
                Ok(pos) => vrow_encodable(rec@) && enc_vrow(rec@).len() <= u32::MAX
                    && final(self).log@ == old(self).log@ + frame(enc_vrow(rec@))
                    && pos == final(self).log@.len(),
                Err(e) => e == CodecError::TooLarge && final(self).log@ == old(self).log@ && !(
                vrow_encodable(rec@) && enc_vrow(rec@).len() <= u32::MAX),
            },
    {
        if !vrow_fits(rec) {
            return Err(CodecError::TooLarge);
        }
        let mut body: Vec<u8> = Vec::new();
        put_vrow(&mut body, rec);
        if body.len() > (u32::MAX as usize) {
            return Err(CodecError::TooLarge);
        }
        put_u32(&mut self.log, body.len() as u32);
        put_bytes(&mut self.log, body.as_slice());
        proof {
            assert(self.log@ =~= old(self).log@ + frame(enc_vrow(rec@)));
        }
        Ok(self.log.len() as u64)
    }

    /// Read frame by frame from the start, decoding each frame; a
    /// truncated trailing frame silently ends replay, while a complete
    /// frame that does not decode as one record is an error.
    pub fn replay(&self) -> (r: Result<Vec<VersionedRow>, CodecError>)
        ensures
            match r {
                Ok(rows) => spec_replay_from(self.log@, 0) == Some(
                    rows@.map_values(|v: VersionedRow| v@),
                ),
                Err(e) => e == CodecError::Malformed && spec_replay_from(self.log@, 0) is None,
            },
    {
        replay_from(&self.log, 0)
    }
}

/// Replay the frames of `b` from `pos` on.
pub fn replay_from(b: &Vec<u8>, pos: usize) -> (r: Result<Vec<VersionedRow>, CodecError>)
    requires
        pos <= b@.len(),
    ensures
        match r {
            Ok(rows) => spec_replay_from(b@, pos as int) == Some(
                rows@.map_values(|v: VersionedRow| v@),
            ),
            Err(e) => e == CodecError::Malformed && spec_replay_from(b@, pos as int) is None,
        },
    decreases b@.len() - pos,
{
    match get_u32(b, pos) {
        None => {
            let rows: Vec<VersionedRow> = Vec::new();
            proof {
                assert(rows@.map_values(|v: VersionedRow| v@) =~= Seq::<VersionedRowV>::empty());
            }
            Ok(rows)
        },
        Some((n, p)) => {
            if (n as usize) > b.len() - p {
                let rows: Vec<VersionedRow> = Vec::new();
                proof {
                    assert(rows@.map_values(|v: VersionedRow| v@) =~= Seq::<
                        VersionedRowV,
                    >::empty());
                }
                Ok(rows)
            } else {
                match get_vrow(b, p) {
                    Some((v, p2)) => {
                        if p2 == p + n as usize {
                            match replay_from(b, p2) {
                                Ok(rest) => {
                                    let ghost rest_pre = rest@;
                                    let mut rest = rest;
                                    rest.insert(0, v);
                                    proof {
                                        assert(rest@.map_values(|w: VersionedRow| w@) =~= seq![v@]
                                            + rest_pre.map_values(|w: VersionedRow| w@));
                                    }
                                    Ok(rest)
                                },
                                Err(e) => Err(e),
                            }
                        } else {
                            Err(CodecError::Malformed)
                        }
                    },
                    None => Err(CodecError::Malformed),
                }
            }
        },
    }
}

} // verus!
