//! Decoder for the controller metadata log.  The outer record-batch framing
//! (offsets, CRC, compression) is the protocol library's job; this module
//! decodes each inner record's value bytes into a typed metadata record.

use vstd::prelude::*;

use crate::codec::{be_nat, read_i32, read_u128, read_u16, read_u32, read_u8, read_bytes};
use crate::utf8::is_utf8;
use crate::DecodeError;

verus! {

/// The three leading bytes of every metadata record value.
#[derive(Clone, Copy, PartialEq, Eq, Structural, Debug)]
pub struct Header {
    pub frame_version: u8,
    /// Discriminator: 2 is a topic record, 3 a partition record, 12 a
    /// feature record; everything else is ignored.
    pub record_type: u8,
    pub version: u8,
}

/// A topic record: a name and the topic's 128-bit identifier.
#[derive(PartialEq, Eq, Debug)]
pub struct Topic {
    pub header: Header,
    /// The topic name (UTF-8 bytes).
    pub name: Vec<u8>,
    pub uuid: u128,
}

/// The mathematical value of a topic record.
pub struct TopicM {
    pub header: Header,
    pub name: Seq<u8>,
    pub uuid: u128,
}

impl View for Topic {
    type V = TopicM;

    open spec fn view(&self) -> TopicM {
        TopicM { header: self.header, name: self.name@, uuid: self.uuid }
    }
}

/// A partition record.  The minimal layout holds exactly one replica entry
/// and one in-sync-replica entry beside each declared array length.
#[derive(Clone, Copy, PartialEq, Eq, Structural, Debug)]
pub struct Partition {
    pub header: Header,
    pub partition_id: u32,
    /// Back-reference to the owning topic's identifier.
    pub topic_uuid: u128,
    pub replica_array_len: u8,
    pub replica: i32,
    pub isr_array_len: u8,
    pub isr: i32,
    pub removing_replica_array_len: u8,
    pub adding_replica_array_len: u8,
    pub leader: i32,
    pub leader_epoch: i32,
    pub partition_epoch: u32,
    pub directories_array_len: u8,
    pub directory: u128,
    pub tagged_fields_count: u8,
}

/// A feature record: a feature name and its level.
#[derive(PartialEq, Eq, Debug)]
pub struct Feature {
    pub header: Header,
    pub name: Vec<u8>,
    pub feature_level: u16,
}

/// The mathematical value of a feature record.
pub struct FeatureM {
    pub header: Header,
    pub name: Seq<u8>,
    pub feature_level: u16,
}

impl View for Feature {
    type V = FeatureM;

    open spec fn view(&self) -> FeatureM {
        FeatureM { header: self.header, name: self.name@, feature_level: self.feature_level }
    }
}

/// One decoded metadata record.
#[derive(PartialEq, Eq, Debug)]
pub enum RecordType {
    FeatureValue(Feature),
    TopicValue(Topic),
    PartitionValue(Partition),
    /// A record whose type byte is none of the known discriminators; kept
    /// so that downstream consumers can ignore it.
    Unknown,
}

/// The mathematical value of a decoded metadata record.
pub enum RecordTypeM {
    FeatureValue(FeatureM),
    TopicValue(TopicM),
    PartitionValue(Partition),
    Unknown,
}

impl View for RecordType {
    type V = RecordTypeM;

    open spec fn view(&self) -> RecordTypeM {
        match self {
            RecordType::FeatureValue(f) => RecordTypeM::FeatureValue(f@),
            RecordType::TopicValue(t) => RecordTypeM::TopicValue(t@),
            RecordType::PartitionValue(p) => RecordTypeM::PartitionValue(*p),
            RecordType::Unknown => RecordTypeM::Unknown,
        }
    }
}

// ---------------------------------------------------------------------------
// The record-value layouts
// ---------------------------------------------------------------------------

/// Parses a topic record after its header: a length byte holding name length
/// plus one, the name bytes, then the 128-bit topic identifier.
pub open spec fn sp_topic_record(s: Seq<u8>, h: Header) -> Result<RecordTypeM, DecodeError> {
    if s.len() < 4 {
        Err(DecodeError::Truncated)
    } else if s[3] == 0 {
        Err(DecodeError::InvalidLength)
    } else {
        let n = s[3] - 1;
        if 4 + n + 16 > s.len() {
            Err(DecodeError::Truncated)
        } else {
            let name = s.subrange(4, 4 + n);
            if is_utf8(name) {
                Ok(
                    RecordTypeM::TopicValue(
                        TopicM { header: h, name, uuid: be_nat(s, 4 + n, 16) as u128 },
                    ),
                )
            } else {
                Err(DecodeError::InvalidUtf8)
            }
        }
    }
}

/// Parses a partition record after its header; the layout is fixed at 65
/// bytes in all.
pub open spec fn sp_partition_record(s: Seq<u8>, h: Header) -> Result<RecordTypeM, DecodeError> {
    if s.len() < 65 {
        Err(DecodeError::Truncated)
    } else {
        Ok(
            RecordTypeM::PartitionValue(
                Partition {
                    header: h,
                    partition_id: be_nat(s, 3, 4) as u32,
                    topic_uuid: be_nat(s, 7, 16) as u128,
                    replica_array_len: s[23],
                    replica: crate::codec::signed_of(be_nat(s, 24, 4), 4) as i32,
                    isr_array_len: s[28],
                    isr: crate::codec::signed_of(be_nat(s, 29, 4), 4) as i32,
                    removing_replica_array_len: s[33],
                    adding_replica_array_len: s[34],
                    leader: crate::codec::signed_of(be_nat(s, 35, 4), 4) as i32,
                    leader_epoch: crate::codec::signed_of(be_nat(s, 39, 4), 4) as i32,
                    partition_epoch: be_nat(s, 43, 4) as u32,
                    directories_array_len: s[47],
                    directory: be_nat(s, 48, 16) as u128,
                    tagged_fields_count: s[64],
                },
            ),
        )
    }
}

/// Parses a feature record after its header: a name as in a topic record,
/// the feature level, then a tagged-field count byte.
pub open spec fn sp_feature_record(s: Seq<u8>, h: Header) -> Result<RecordTypeM, DecodeError> {
    if s.len() < 4 {
        Err(DecodeError::Truncated)
    } else if s[3] == 0 {
        Err(DecodeError::InvalidLength)
    } else {
        let n = s[3] - 1;
        if 4 + n + 3 > s.len() {
            Err(DecodeError::Truncated)
        } else {
            let name = s.subrange(4, 4 + n);
            if is_utf8(name) {
                Ok(
                    RecordTypeM::FeatureValue(
                        FeatureM {
                            header: h,
                            name,
                            feature_level: be_nat(s, 4 + n, 2) as u16,
                        },
                    ),
                )
            } else {
                Err(DecodeError::InvalidUtf8)
            }
        }
    }
}

/// Parses one record value: three header bytes, then a layout chosen by the
/// record-type byte.  Unknown record types parse to `Unknown` and are
/// ignored downstream.
pub open spec fn sp_record(s: Seq<u8>) -> Result<RecordTypeM, DecodeError> {
    if s.len() < 3 {
        Err(DecodeError::Truncated)
    } else {
        let h = Header { frame_version: s[0], record_type: s[1], version: s[2] };
        if s[1] == 2 {
            sp_topic_record(s, h)
        } else if s[1] == 3 {
            sp_partition_record(s, h)
        } else if s[1] == 12 {
            sp_feature_record(s, h)
        } else {
            Ok(RecordTypeM::Unknown)
        }
    }
}

/// Reads the three header bytes of a record value.
pub fn get_header(buf: &Vec<u8>, pos: &mut usize) -> (r: Result<Header, DecodeError>)
    requires
        *old(pos) <= buf@.len(),
    ensures
        (match r {
            Ok(h) => *old(pos) + 3 <= buf@.len() && h.frame_version == buf@[*old(pos) as int]
                && h.record_type == buf@[*old(pos) + 1] && h.version == buf@[*old(pos) + 2]
                && *final(pos) == *old(pos) + 3,
            Err(e) => e == DecodeError::Truncated && *old(pos) + 3 > buf@.len(),
        }),
{
    if buf.len() - *pos < 3 {
        return Err(DecodeError::Truncated);
    }
    let frame_version = buf[*pos];
    let record_type = buf[*pos + 1];
    let version = buf[*pos + 2];
    *pos = *pos + 3;
    Ok(Header { frame_version, record_type, version })
}

/// Decodes one metadata record value.
pub fn decode_record_value(value: &Vec<u8>) -> (r: Result<RecordType, DecodeError>)
    ensures
        (match r {
            Ok(rec) => sp_record(value@) == Ok::<RecordTypeM, DecodeError>(rec@),
            Err(e) => sp_record(value@) == Err::<RecordTypeM, DecodeError>(e),
        }),
{
    let mut pos: usize = 0;
    let h = match get_header(value, &mut pos) {
        Ok(h) => h,
        Err(e) => {
            return Err(e);
        },
    };
    if h.record_type == 2 {
        // Topic record
        let lb = match read_u8(value, &mut pos) {
            Ok(b) => b,
            Err(e) => {
                return Err(e);
            },
        };
        if lb == 0 {
            return Err(DecodeError::InvalidLength);
        }
        let n = (lb - 1) as usize;
        if value.len() < 4 || value.len() - 4 < n || value.len() - 4 - n < 16 {
            return Err(DecodeError::Truncated);
        }
        let name = match read_bytes(value, &mut pos, n) {
            Ok(v) => v,
            Err(e) => {
                return Err(e);
            },
        };
        if !crate::utf8::validate_utf8(&name) {
            return Err(DecodeError::InvalidUtf8);
        }
        let uuid = match read_u128(value, &mut pos) {
            Ok(v) => v,
            Err(e) => {
                return Err(e);
            },
        };
        Ok(RecordType::TopicValue(Topic { header: h, name, uuid }))
    } else if h.record_type == 3 {
        // Partition record
        if value.len() < 65 {
            return Err(DecodeError::Truncated);
        }
        let partition_id = match read_u32(value, &mut pos) {
            Ok(v) => v,
            Err(e) => {
                return Err(e);
            },
        };
        let topic_uuid = match read_u128(value, &mut pos) {
            Ok(v) => v,
            Err(e) => {
                return Err(e);
            },
        };
        let replica_array_len = match read_u8(value, &mut pos) {
            Ok(v) => v,
            Err(e) => {
                return Err(e);
            },
        };
        let replica = match read_i32(value, &mut pos) {
            Ok(v) => v,
            Err(e) => {
                return Err(e);
            },
        };
        let isr_array_len = match read_u8(value, &mut pos) {
            Ok(v) => v,
            Err(e) => {
                return Err(e);
            },
        };
        let isr = match read_i32(value, &mut pos) {
            Ok(v) => v,
            Err(e) => {
                return Err(e);
            },
        };
        let removing_replica_array_len = match read_u8(value, &mut pos) {
            Ok(v) => v,
            Err(e) => {
                return Err(e);
            },
        };
        let adding_replica_array_len = match read_u8(value, &mut pos) {
            Ok(v) => v,
            Err(e) => {
                return Err(e);
            },
        };
        let leader = match read_i32(value, &mut pos) {
            Ok(v) => v,
            Err(e) => {
                return Err(e);
            },
        };
        let leader_epoch = match read_i32(value, &mut pos) {
            Ok(v) => v,
            Err(e) => {
                return Err(e);
            },
        };
        let partition_epoch = match read_u32(value, &mut pos) {
            Ok(v) => v,
            Err(e) => {
                return Err(e);
            },
        };
        let directories_array_len = match read_u8(value, &mut pos) {
            Ok(v) => v,
            Err(e) => {
                return Err(e);
            },
        };
        let directory = match read_u128(value, &mut pos) {
            Ok(v) => v,
            Err(e) => {
                return Err(e);
            },
        };
        let tagged_fields_count = match read_u8(value, &mut pos) {
            Ok(v) => v,
            Err(e) => {
                return Err(e);
            },
        };
        proof {
            crate::codec::lemma_pow256_values();
            crate::codec::lemma_be_nat_bound(value@, 24, 4);
            crate::codec::lemma_be_nat_bound(value@, 29, 4);
            crate::codec::lemma_be_nat_bound(value@, 35, 4);
            crate::codec::lemma_be_nat_bound(value@, 39, 4);
        }
        Ok(
            RecordType::PartitionValue(
                Partition {
                    header: h,
                    partition_id,
                    topic_uuid,
                    replica_array_len,
                    replica,
                    isr_array_len,
                    isr,
                    removing_replica_array_len,
                    adding_replica_array_len,
                    leader,
                    leader_epoch,
                    partition_epoch,
                    directories_array_len,
                    directory,
                    tagged_fields_count,
                },
            ),
        )
    } else if h.record_type == 12 {
        // Feature record
        let lb = match read_u8(value, &mut pos) {
            Ok(b) => b,
            Err(e) => {
                return Err(e);
            },
        };
        if lb == 0 {
            return Err(DecodeError::InvalidLength);
        }
        let n = (lb - 1) as usize;
        if value.len() < 4 || value.len() - 4 < n || value.len() - 4 - n < 3 {
            return Err(DecodeError::Truncated);
        }
        let name = match read_bytes(value, &mut pos, n) {
            Ok(v) => v,
            Err(e) => {
                return Err(e);
            },
        };
        if !crate::utf8::validate_utf8(&name) {
            return Err(DecodeError::InvalidUtf8);
        }
        let feature_level = match read_u16(value, &mut pos) {
            Ok(v) => v,
            Err(e) => {
                return Err(e);
            },
        };
        let _tagged_fields_count = match read_u8(value, &mut pos) {
            Ok(v) => v,
            Err(e) => {
                return Err(e);
            },
        };
        Ok(RecordType::FeatureValue(Feature { header: h, name, feature_level }))
    } else {
        Ok(RecordType::Unknown)
    }
}

// ---------------------------------------------------------------------------
// The whole log
// ---------------------------------------------------------------------------

/// The view of a list of byte vectors.
pub open spec fn seqs_view(v: Seq<Vec<u8>>) -> Seq<Seq<u8>> {
    v.map_values(|x: Vec<u8>| x@)
}

/// The view of a list of decoded records.
pub open spec fn records_view(v: Seq<RecordType>) -> Seq<RecordTypeM> {
    v.map_values(|r: RecordType| r@)
}

/// What the protocol library's batch decoder makes of a metadata log: the
/// value bytes of every inner record, in log order, or nothing when the
/// framing is rejected or a record value is null.
pub uninterp spec fn batch_values_of(b: Seq<u8>) -> Option<Seq<Seq<u8>>>;

/// Relies on kafka_protocol's `RecordBatchDecoder::decode_all` for the outer
/// record-batch framing (base offsets, CRC, compression, per-record
/// deltas).  Hands back each inner record's value bytes in order; a framing
/// error or a null record value rejects the whole log.
#[verifier::external_body]
fn decode_record_batches(data: &Vec<u8>) -> (r: Result<Vec<Vec<u8>>, DecodeError>)
    ensures
        (match r {
            Ok(vals) => batch_values_of(data@) == Some(seqs_view(vals@)),
            Err(e) => batch_values_of(data@) is None && e == DecodeError::BadBatch,
        }),
{
    let mut buf = bytes::Bytes::copy_from_slice(data.as_slice());
    let sets = kafka_protocol::records::RecordBatchDecoder::decode_all(&mut buf)
        .map_err(|_| DecodeError::BadBatch)?;
    let mut out: Vec<Vec<u8>> = Vec::new();
    for set in sets {
        for rec in set.records {
            match rec.value {
                Some(v) => out.push(v.to_vec()),
                None => return Err(DecodeError::BadBatch),
            }
        }
    }
    Ok(out)
}

/// The records decoded from the first `n` value byte runs; the earliest
/// malformed record's error wins, as the decoding loop stops there.
pub open spec fn sp_decode_upto(vals: Seq<Seq<u8>>, n: int) -> Result<Seq<RecordTypeM>, DecodeError>
    decreases n,
{
    if n <= 0 {
        Ok(Seq::empty())
    } else {
        match sp_decode_upto(vals, n - 1) {
            Err(e) => Err(e),
            Ok(rs) => match sp_record(vals[n - 1]) {
                Err(e) => Err(e),
                Ok(m) => Ok(rs.push(m)),
            },
        }
    }
}

/// The records decoded from a list of value byte runs.
pub open spec fn sp_decode_records(vals: Seq<Seq<u8>>) -> Result<Seq<RecordTypeM>, DecodeError> {
    sp_decode_upto(vals, vals.len() as int)
}

proof fn lemma_decode_upto_err(vals: Seq<Seq<u8>>, n: int, m: int, e: DecodeError)
    requires
        0 <= n <= m,
        sp_decode_upto(vals, n) == Err::<Seq<RecordTypeM>, DecodeError>(e),
    ensures
        sp_decode_upto(vals, m) == Err::<Seq<RecordTypeM>, DecodeError>(e),
    decreases m,
{
    if n < m {
        lemma_decode_upto_err(vals, n, m - 1, e);
    }
}

/// Decodes a whole metadata log segment: the outer batch framing is the
/// protocol library's, every inner record value is decoded here.  One
/// malformed record fails the whole call; there is no per-record recovery.
#[verifier::rlimit(60)]
pub fn decode(data: &Vec<u8>) -> (r: Result<Vec<RecordType>, DecodeError>)
    ensures
        (match r {
            Ok(recs) => (match batch_values_of(data@) {
                Some(vals) => sp_decode_records(vals) == Ok::<Seq<RecordTypeM>, DecodeError>(
                    records_view(recs@),
                ),
                None => false,
            }),
            Err(e) => (match batch_values_of(data@) {
                Some(vals) => sp_decode_records(vals) == Err::<Seq<RecordTypeM>, DecodeError>(e),
                None => e == DecodeError::BadBatch,
            }),
        }),
{
    let vals = match decode_record_batches(data) {
        Ok(v) => v,
        Err(e) => {
            return Err(e);
        },
    };
    let ghost gvals = seqs_view(vals@);
    let mut out: Vec<RecordType> = Vec::new();
    let mut i: usize = 0;
    proof {
        assert(records_view(out@) =~= Seq::<RecordTypeM>::empty());
    }
    while i < vals.len()
        invariant
            0 <= i <= vals@.len(),
            gvals == seqs_view(vals@),
            gvals.len() == vals@.len(),
            batch_values_of(data@) == Some(gvals),
            sp_decode_upto(gvals, i as int) == Ok::<Seq<RecordTypeM>, DecodeError>(
                records_view(out@),
            ),
        decreases vals@.len() - i,
    {
        let rec = match decode_record_value(&vals[i]) {
            Ok(rec) => rec,
            Err(e) => {
                proof {
                    assert(gvals[i as int] == vals@[i as int]@);
                    assert(sp_record(gvals[i as int]) == Err::<RecordTypeM, DecodeError>(e));
                    assert(sp_decode_upto(gvals, i + 1) == Err::<Seq<RecordTypeM>, DecodeError>(e));
                    lemma_decode_upto_err(gvals, i + 1, gvals.len() as int, e);
                }
                return Err(e);
            },
        };
        let ghost prev = out@;
        out.push(rec);
        i = i + 1;
        proof {
            assert(gvals[i - 1] == vals@[i - 1]@);
            assert(out@ =~= prev.push(rec));
            assert forall|j: int| 0 <= j < out@.len() implies #[trigger] (records_view(out@)[j])
                == records_view(prev).push(rec@)[j] by {
                if j < prev.len() {
                    assert(out@[j] == prev[j]);
                    assert(records_view(prev)[j] == prev[j]@);
                }
            }
            assert(records_view(out@) =~= records_view(prev).push(rec@));
        }
    }
    Ok(out)
}

} // verus!
