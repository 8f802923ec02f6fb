//! Decoders for the request bodies of the supported APIs: topic
//! description (version 0), publish (version 11) and fetch (version 16).
//! Each decoder has a spec-level parser and advances the cursor over
//! exactly the bytes it consumed.

use vstd::prelude::*;

use crate::codec::{
    decode_compact_bytes, decode_compact_string, decode_unsigned_varint, opt_view, read_i16,
    read_i32, read_u128, read_u8, sp_compact_bytes, sp_compact_string, sp_varint,
};
use crate::handlers::{
    ProducePartitionData, ProducePartitionDataM, ProduceTopicData, ProduceTopicDataM,
};
use crate::header::{sp_i16_at, sp_i32_at, sp_tag_buffer, skip_tag_buffer};
use crate::DecodeError;

verus! {

/// The number of elements a compact-array count declares: the raw count
/// minus one, with the raw count 0 (the null array) read as empty.
pub open spec fn compact_count(c: u32) -> nat {
    if c == 0 {
        0
    } else {
        (c - 1) as nat
    }
}

// ---------------------------------------------------------------------------
// Topic description (version 0)
// ---------------------------------------------------------------------------

/// A topic-description request: the requested names in request order, the
/// partition limit, and the optional pagination cursor.
pub struct DescribeTopicPartitionsRequest {
    pub topics: Vec<Vec<u8>>,
    pub response_partition_limit: i32,
    pub cursor: Option<DtpCursor>,
}

/// The pagination cursor of a topic-description request.
pub struct DtpCursor {
    pub topic_name: Vec<u8>,
    pub partition_index: i32,
}

/// The mathematical value of a topic-description request.
pub struct DescribeTopicPartitionsRequestM {
    pub topics: Seq<Seq<u8>>,
    pub response_partition_limit: i32,
    pub cursor: Option<(Seq<u8>, i32)>,
}

impl View for DescribeTopicPartitionsRequest {
    type V = DescribeTopicPartitionsRequestM;

    open spec fn view(&self) -> DescribeTopicPartitionsRequestM {
        DescribeTopicPartitionsRequestM {
            topics: crate::meta::seqs_view(self.topics@),
            response_partition_limit: self.response_partition_limit,
            cursor: (match self.cursor {
                Some(c) => Some((c.topic_name@, c.partition_index)),
                None => None,
            }),
        }
    }
}

/// Parses one requested topic: a non-null compact-string name and a
/// tagged-field section.
pub open spec fn sp_dtp_topic_elem(s: Seq<u8>, pos: int) -> Result<(Seq<u8>, int), DecodeError> {
    match sp_compact_string(s, pos) {
        Err(e) => Err(e),
        Ok((None, _)) => Err(DecodeError::InvalidLength),
        Ok((Some(name), p)) => match sp_tag_buffer(s, p) {
            Err(e) => Err(e),
            Ok(p2) => Ok((name, p2)),
        },
    }
}

/// Parses `n` requested topics, front to back.
pub open spec fn sp_dtp_topics(s: Seq<u8>, pos: int, n: nat) -> Result<
    (Seq<Seq<u8>>, int),
    DecodeError,
>
    decreases n,
{
    if n == 0 {
        Ok((Seq::empty(), pos))
    } else {
        match sp_dtp_topic_elem(s, pos) {
            Err(e) => Err(e),
            Ok((x, p)) => match sp_dtp_topics(s, p, (n - 1) as nat) {
                Err(e) => Err(e),
                Ok((xs, p2)) => Ok((seq![x] + xs, p2)),
            },
        }
    }
}

proof fn lemma_dtp_topics_step(
    s: Seq<u8>,
    start: int,
    total: nat,
    acc: Seq<Seq<u8>>,
    pos: int,
    rem: nat,
    x: Seq<u8>,
    p: int,
)
    requires
        rem >= 1,
        sp_dtp_topic_elem(s, pos) == Ok::<(Seq<u8>, int), DecodeError>((x, p)),
        (match sp_dtp_topics(s, pos, rem) {
            Ok(t) => sp_dtp_topics(s, start, total) == Ok::<(Seq<Seq<u8>>, int), DecodeError>((
                acc + t.0,
                t.1,
            )),
            Err(e) => sp_dtp_topics(s, start, total) == Err::<(Seq<Seq<u8>>, int), DecodeError>(e),
        }),
    ensures
        (match sp_dtp_topics(s, p, (rem - 1) as nat) {
            Ok(t) => sp_dtp_topics(s, start, total) == Ok::<(Seq<Seq<u8>>, int), DecodeError>((
                acc.push(x) + t.0,
                t.1,
            )),
            Err(e) => sp_dtp_topics(s, start, total) == Err::<(Seq<Seq<u8>>, int), DecodeError>(e),
        }),
{
    match sp_dtp_topics(s, p, (rem - 1) as nat) {
        Ok(t) => {
            assert(acc + (seq![x] + t.0) =~= acc.push(x) + t.0);
        },
        Err(_) => {},
    }
}

/// Parses the cursor: the null sentinel byte, or marker byte 1 followed by
/// a non-null topic name, a partition index and a tagged-field section.
pub open spec fn sp_dtp_cursor(s: Seq<u8>, pos: int) -> Result<
    (Option<(Seq<u8>, i32)>, int),
    DecodeError,
> {
    if !(0 <= pos < s.len()) {
        Err(DecodeError::Truncated)
    } else if s[pos] != 1 {
        Ok((None, pos + 1))
    } else {
        match sp_compact_string(s, pos + 1) {
            Err(e) => Err(e),
            Ok((None, _)) => Err(DecodeError::InvalidLength),
            Ok((Some(name), p)) => if p + 4 > s.len() {
                Err(DecodeError::Truncated)
            } else {
                match sp_tag_buffer(s, p + 4) {
                    Err(e) => Err(e),
                    Ok(p2) => Ok((Some((name, sp_i32_at(s, p))), p2)),
                }
            },
        }
    }
}

/// Parses the tail of a topic-description request: the partition limit,
/// the cursor, and the trailing tagged-field section.
pub open spec fn sp_dtp_tail(s: Seq<u8>, pos: int) -> Result<
    ((i32, Option<(Seq<u8>, i32)>), int),
    DecodeError,
> {
    if pos < 0 || pos + 4 > s.len() {
        Err(DecodeError::Truncated)
    } else {
        match sp_dtp_cursor(s, pos + 4) {
            Err(e) => Err(e),
            Ok((cursor, p3)) => match sp_tag_buffer(s, p3) {
                Err(e) => Err(e),
                Ok(p4) => Ok(((sp_i32_at(s, pos), cursor), p4)),
            },
        }
    }
}

/// Parses a topic-description request body at version 0: a compact array
/// of requested topics, the partition limit, the cursor, and a trailing
/// tagged-field section.  A raw array count of 0 (the null array) parses
/// as no topics.
pub open spec fn sp_dtp_request(s: Seq<u8>, pos: int) -> Result<
    (DescribeTopicPartitionsRequestM, int),
    DecodeError,
> {
    match sp_varint(s, pos) {
        Err(e) => Err(e),
        Ok((c, p)) => match sp_dtp_topics(s, p, compact_count(c)) {
            Err(e) => Err(e),
            Ok((names, p2)) => match sp_dtp_tail(s, p2) {
                Err(e) => Err(e),
                Ok(((limit, cursor), p4)) => Ok(
                    (
                        DescribeTopicPartitionsRequestM {
                            topics: names,
                            response_partition_limit: limit,
                            cursor,
                        },
                        p4,
                    ),
                ),
            },
        },
    }
}

/// Decodes the tail of a topic-description request.
fn decode_dtp_tail(buf: &Vec<u8>, pos: &mut usize) -> (r: Result<
    (i32, Option<DtpCursor>),
    DecodeError,
>)
    requires
        *old(pos) <= buf@.len(),
    ensures
        (match r {
            Ok(t) => sp_dtp_tail(buf@, *old(pos) as int) == Ok::<
                ((i32, Option<(Seq<u8>, i32)>), int),
                DecodeError,
            >((
                (
                    t.0,
                    match t.1 {
                        Some(c) => Some((c.topic_name@, c.partition_index)),
                        None => None,
                    },
                ),
                *final(pos) as int,
            )) && *final(pos) <= buf@.len(),
            Err(e) => sp_dtp_tail(buf@, *old(pos) as int) == Err::<
                ((i32, Option<(Seq<u8>, i32)>), int),
                DecodeError,
            >(e),
        }),
{
    proof {
        crate::codec::lemma_pow256_values();
        crate::codec::lemma_be_nat_bound(buf@, *old(pos) as int, 4);
    }
    let limit = match read_i32(buf, pos) {
        Ok(v) => v,
        Err(e) => {
            return Err(e);
        },
    };
    let marker = match read_u8(buf, pos) {
        Ok(v) => v,
        Err(e) => {
            return Err(e);
        },
    };
    let cursor: Option<DtpCursor>;
    if marker != 1 {
        cursor = None;
    } else {
        let topic_name = match decode_compact_string(buf, pos) {
            Ok(Some(v)) => v,
            Ok(None) => {
                return Err(DecodeError::InvalidLength);
            },
            Err(e) => {
                return Err(e);
            },
        };
        proof {
            crate::codec::lemma_pow256_values();
            crate::codec::lemma_be_nat_bound(buf@, *pos as int, 4);
        }
        let partition_index = match read_i32(buf, pos) {
            Ok(v) => v,
            Err(e) => {
                return Err(e);
            },
        };
        match skip_tag_buffer(buf, pos) {
            Ok(_) => (),
            Err(e) => {
                return Err(e);
            },
        };
        cursor = Some(DtpCursor { topic_name, partition_index });
    }
    let ghost pc = *old(pos) as int + 4;
    proof {
        match &cursor {
            Some(c) => {
                assert(sp_dtp_cursor(buf@, pc) == Ok::<(Option<(Seq<u8>, i32)>, int), DecodeError>(
                    (Some((c.topic_name@, c.partition_index)), *pos as int),
                ));
            },
            None => {
                assert(sp_dtp_cursor(buf@, pc) == Ok::<(Option<(Seq<u8>, i32)>, int), DecodeError>(
                    (None, *pos as int),
                ));
            },
        }
    }
    match skip_tag_buffer(buf, pos) {
        Ok(_) => (),
        Err(e) => {
            return Err(e);
        },
    };
    Ok((limit, cursor))
}

/// Decodes a topic-description request body at version 0.
#[verifier::rlimit(100)]
pub fn decode_describe_topic_partitions_request(buf: &Vec<u8>, pos: &mut usize) -> (r: Result<
    DescribeTopicPartitionsRequest,
    DecodeError,
>)
    requires
        *old(pos) <= buf@.len(),
    ensures
        (match r {
            Ok(req) => sp_dtp_request(buf@, *old(pos) as int) == Ok::<
                (DescribeTopicPartitionsRequestM, int),
                DecodeError,
            >((req@, *final(pos) as int)) && *final(pos) <= buf@.len(),
            Err(e) => sp_dtp_request(buf@, *old(pos) as int) == Err::<
                (DescribeTopicPartitionsRequestM, int),
                DecodeError,
            >(e),
        }),
{
    let c = match decode_unsigned_varint(buf, pos) {
        Ok(v) => v,
        Err(e) => {
            return Err(e);
        },
    };
    let n: u32 = if c == 0 {
        0
    } else {
        c - 1
    };
    let ghost pstart = *pos as int;
    let mut topics: Vec<Vec<u8>> = Vec::new();
    let mut k: u32 = 0;
    proof {
        assert(crate::meta::seqs_view(topics@) =~= Seq::<Seq<u8>>::empty());
        assert(Seq::<Seq<u8>>::empty() + Seq::<Seq<u8>>::empty() =~= Seq::<Seq<u8>>::empty());
    }
    while k < n
        invariant
            0 <= k <= n,
            *pos <= buf@.len(),
            sp_varint(buf@, *old(pos) as int) == Ok::<(u32, int), DecodeError>((c, pstart)),
            n as nat == compact_count(c),
            (match sp_dtp_topics(buf@, *pos as int, (n - k) as nat) {
                Ok(t) => sp_dtp_topics(buf@, pstart, n as nat) == Ok::<
                    (Seq<Seq<u8>>, int),
                    DecodeError,
                >((crate::meta::seqs_view(topics@) + t.0, t.1)),
                Err(e) => sp_dtp_topics(buf@, pstart, n as nat) == Err::<
                    (Seq<Seq<u8>>, int),
                    DecodeError,
                >(e),
            }),
        decreases n - k,
    {
        let ghost oldpos = *pos as int;
        let ghost prev = crate::meta::seqs_view(topics@);
        let name = match decode_compact_string(buf, pos) {
            Ok(Some(v)) => v,
            Ok(None) => {
                return Err(DecodeError::InvalidLength);
            },
            Err(e) => {
                return Err(e);
            },
        };
        match skip_tag_buffer(buf, pos) {
            Ok(_) => (),
            Err(e) => {
                return Err(e);
            },
        };
        let ghost namev = name@;
        proof {
            assert(sp_dtp_topic_elem(buf@, oldpos) == Ok::<(Seq<u8>, int), DecodeError>((
                namev,
                *pos as int,
            )));
            lemma_dtp_topics_step(
                buf@,
                pstart,
                n as nat,
                prev,
                oldpos,
                (n - k) as nat,
                namev,
                *pos as int,
            );
        }
        topics.push(name);
        k = k + 1;
        proof {
            let now = crate::meta::seqs_view(topics@);
            assert forall|j: int| 0 <= j < now.len() implies #[trigger] now[j] == prev.push(
                namev,
            )[j] by {
                if j < prev.len() {
                    assert(now[j] == topics@[j]@);
                    assert(prev[j] == topics@[j]@);
                }
            }
            assert(now =~= prev.push(namev));
        }
    }
    proof {
        assert(crate::meta::seqs_view(topics@) + Seq::<Seq<u8>>::empty() =~= crate::meta::seqs_view(
            topics@,
        ));
    }
    let (response_partition_limit, cursor) = match decode_dtp_tail(buf, pos) {
        Ok(t) => t,
        Err(e) => {
            return Err(e);
        },
    };
    Ok(DescribeTopicPartitionsRequest { topics, response_partition_limit, cursor })
}


// ---------------------------------------------------------------------------
// Publish (version 11)
// ---------------------------------------------------------------------------

/// A publish request: the transaction id, acknowledgement mode, timeout,
/// and the per-topic record payloads.
pub struct ProduceRequest {
    pub transactional_id: Option<Vec<u8>>,
    pub acks: i16,
    pub timeout_ms: i32,
    pub topic_data: Vec<ProduceTopicData>,
}

/// The mathematical value of a publish request.
pub struct ProduceRequestM {
    pub transactional_id: Option<Seq<u8>>,
    pub acks: i16,
    pub timeout_ms: i32,
    pub topic_data: Seq<ProduceTopicDataM>,
}

impl View for ProduceRequest {
    type V = ProduceRequestM;

    open spec fn view(&self) -> ProduceRequestM {
        ProduceRequestM {
            transactional_id: opt_view(self.transactional_id),
            acks: self.acks,
            timeout_ms: self.timeout_ms,
            topic_data: produce_topics_view(self.topic_data@),
        }
    }
}


/// The view of a list of publish partition entries.
pub open spec fn produce_parts_view(s: Seq<ProducePartitionData>) -> Seq<ProducePartitionDataM> {
    s.map_values(|p: ProducePartitionData| p@)
}

/// The view of a list of publish topic entries.
pub open spec fn produce_topics_view(s: Seq<ProduceTopicData>) -> Seq<ProduceTopicDataM> {
    s.map_values(|t: ProduceTopicData| t@)
}

/// Parses one partition entry of a publish request: the partition index,
/// the nullable record bytes, and a tagged-field section.
#[verifier::opaque]
pub open spec fn sp_produce_partition_elem(s: Seq<u8>, pos: int) -> Result<
    (ProducePartitionDataM, int),
    DecodeError,
> {
    if pos < 0 || pos + 4 > s.len() {
        Err(DecodeError::Truncated)
    } else {
        match sp_compact_bytes(s, pos + 4) {
            Err(e) => Err(e),
            Ok((records, p)) => match sp_tag_buffer(s, p) {
                Err(e) => Err(e),
                Ok(p2) => Ok((ProducePartitionDataM { index: sp_i32_at(s, pos), records }, p2)),
            },
        }
    }
}

/// Parses `n` publish partition entries, front to back.
pub open spec fn sp_produce_partitions(s: Seq<u8>, pos: int, n: nat) -> Result<
    (Seq<ProducePartitionDataM>, int),
    DecodeError,
>
    decreases n,
{
    if n == 0 {
        Ok((Seq::empty(), pos))
    } else {
        match sp_produce_partition_elem(s, pos) {
            Err(e) => Err(e),
            Ok((x, p)) => match sp_produce_partitions(s, p, (n - 1) as nat) {
                Err(e) => Err(e),
                Ok((xs, p2)) => Ok((seq![x] + xs, p2)),
            },
        }
    }
}

proof fn lemma_produce_partitions_step(
    s: Seq<u8>,
    start: int,
    total: nat,
    acc: Seq<ProducePartitionDataM>,
    pos: int,
    rem: nat,
    x: ProducePartitionDataM,
    p: int,
)
    requires
        rem >= 1,
        sp_produce_partition_elem(s, pos) == Ok::<(ProducePartitionDataM, int), DecodeError>((
            x,
            p,
        )),
        (match sp_produce_partitions(s, pos, rem) {
            Ok(t) => sp_produce_partitions(s, start, total) == Ok::<
                (Seq<ProducePartitionDataM>, int),
                DecodeError,
            >((acc + t.0, t.1)),
            Err(e) => sp_produce_partitions(s, start, total) == Err::<
                (Seq<ProducePartitionDataM>, int),
                DecodeError,
            >(e),
        }),
    ensures
        (match sp_produce_partitions(s, p, (rem - 1) as nat) {
            Ok(t) => sp_produce_partitions(s, start, total) == Ok::<
                (Seq<ProducePartitionDataM>, int),
                DecodeError,
            >((acc.push(x) + t.0, t.1)),
            Err(e) => sp_produce_partitions(s, start, total) == Err::<
                (Seq<ProducePartitionDataM>, int),
                DecodeError,
            >(e),
        }),
{
    match sp_produce_partitions(s, p, (rem - 1) as nat) {
        Ok(t) => {
            assert(acc + (seq![x] + t.0) =~= acc.push(x) + t.0);
        },
        Err(_) => {},
    }
}

/// Parses one topic entry of a publish request: a non-null name, the
/// compact array of partition entries, and a tagged-field section.
#[verifier::opaque]
pub open spec fn sp_produce_topic_elem(s: Seq<u8>, pos: int) -> Result<
    (ProduceTopicDataM, int),
    DecodeError,
> {
    match sp_compact_string(s, pos) {
        Err(e) => Err(e),
        Ok((None, _)) => Err(DecodeError::InvalidLength),
        Ok((Some(name), p)) => match sp_varint(s, p) {
            Err(e) => Err(e),
            Ok((c, p2)) => match sp_produce_partitions(s, p2, compact_count(c)) {
                Err(e) => Err(e),
                Ok((parts, p3)) => match sp_tag_buffer(s, p3) {
                    Err(e) => Err(e),
                    Ok(p4) => Ok((ProduceTopicDataM { name, partitions: parts }, p4)),
                },
            },
        },
    }
}

/// Parses `n` publish topic entries, front to back.
pub open spec fn sp_produce_topics(s: Seq<u8>, pos: int, n: nat) -> Result<
    (Seq<ProduceTopicDataM>, int),
    DecodeError,
>
    decreases n,
{
    if n == 0 {
        Ok((Seq::empty(), pos))
    } else {
        match sp_produce_topic_elem(s, pos) {
            Err(e) => Err(e),
            Ok((x, p)) => match sp_produce_topics(s, p, (n - 1) as nat) {
                Err(e) => Err(e),
                Ok((xs, p2)) => Ok((seq![x] + xs, p2)),
            },
        }
    }
}

proof fn lemma_produce_topics_step(
    s: Seq<u8>,
    start: int,
    total: nat,
    acc: Seq<ProduceTopicDataM>,
    pos: int,
    rem: nat,
    x: ProduceTopicDataM,
    p: int,
)
    requires
        rem >= 1,
        sp_produce_topic_elem(s, pos) == Ok::<(ProduceTopicDataM, int), DecodeError>((x, p)),
        (match sp_produce_topics(s, pos, rem) {
            Ok(t) => sp_produce_topics(s, start, total) == Ok::<
                (Seq<ProduceTopicDataM>, int),
                DecodeError,
            >((acc + t.0, t.1)),
            Err(e) => sp_produce_topics(s, start, total) == Err::<
                (Seq<ProduceTopicDataM>, int),
                DecodeError,
            >(e),
        }),
    ensures
        (match sp_produce_topics(s, p, (rem - 1) as nat) {
            Ok(t) => sp_produce_topics(s, start, total) == Ok::<
                (Seq<ProduceTopicDataM>, int),
                DecodeError,
            >((acc.push(x) + t.0, t.1)),
            Err(e) => sp_produce_topics(s, start, total) == Err::<
                (Seq<ProduceTopicDataM>, int),
                DecodeError,
            >(e),
        }),
{
    match sp_produce_topics(s, p, (rem - 1) as nat) {
        Ok(t) => {
            assert(acc + (seq![x] + t.0) =~= acc.push(x) + t.0);
        },
        Err(_) => {},
    }
}

/// Parses a publish request body at version 11: the nullable transaction
/// id, the acknowledgement mode, the timeout, the compact array of topic
/// entries, and a trailing tagged-field section.
pub open spec fn sp_produce_request(s: Seq<u8>, pos: int) -> Result<
    (ProduceRequestM, int),
    DecodeError,
> {
    match sp_compact_string(s, pos) {
        Err(e) => Err(e),
        Ok((transactional_id, p)) => if p + 6 > s.len() {
            Err(DecodeError::Truncated)
        } else {
            match sp_varint(s, p + 6) {
                Err(e) => Err(e),
                Ok((c, p2)) => match sp_produce_topics(s, p2, compact_count(c)) {
                    Err(e) => Err(e),
                    Ok((tds, p3)) => match sp_tag_buffer(s, p3) {
                        Err(e) => Err(e),
                        Ok(p4) => Ok(
                            (
                                ProduceRequestM {
                                    transactional_id,
                                    acks: sp_i16_at(s, p),
                                    timeout_ms: sp_i32_at(s, p + 2),
                                    topic_data: tds,
                                },
                                p4,
                            ),
                        ),
                    },
                },
            }
        },
    }
}

/// Decodes one partition entry of a publish request.
fn decode_produce_partition(buf: &Vec<u8>, pos: &mut usize) -> (r: Result<
    ProducePartitionData,
    DecodeError,
>)
    requires
        *old(pos) <= buf@.len(),
    ensures
        (match r {
            Ok(pd) => sp_produce_partition_elem(buf@, *old(pos) as int) == Ok::<
                (ProducePartitionDataM, int),
                DecodeError,
            >((pd@, *final(pos) as int)) && *final(pos) <= buf@.len(),
            Err(e) => sp_produce_partition_elem(buf@, *old(pos) as int) == Err::<
                (ProducePartitionDataM, int),
                DecodeError,
            >(e),
        }),
{
    proof {
        reveal(sp_produce_partition_elem);
        crate::codec::lemma_pow256_values();
        crate::codec::lemma_be_nat_bound(buf@, *old(pos) as int, 4);
    }
    let index = match read_i32(buf, pos) {
        Ok(v) => v,
        Err(e) => {
            return Err(e);
        },
    };
    let records = match decode_compact_bytes(buf, pos) {
        Ok(v) => v,
        Err(e) => {
            return Err(e);
        },
    };
    match skip_tag_buffer(buf, pos) {
        Ok(_) => (),
        Err(e) => {
            return Err(e);
        },
    };
    Ok(ProducePartitionData { index, records })
}

/// Decodes one topic entry of a publish request.
#[verifier::rlimit(100)]
fn decode_produce_topic(buf: &Vec<u8>, pos: &mut usize) -> (r: Result<
    ProduceTopicData,
    DecodeError,
>)
    requires
        *old(pos) <= buf@.len(),
    ensures
        (match r {
            Ok(td) => sp_produce_topic_elem(buf@, *old(pos) as int) == Ok::<
                (ProduceTopicDataM, int),
                DecodeError,
            >((td@, *final(pos) as int)) && *final(pos) <= buf@.len(),
            Err(e) => sp_produce_topic_elem(buf@, *old(pos) as int) == Err::<
                (ProduceTopicDataM, int),
                DecodeError,
            >(e),
        }),
{
    proof {
        reveal(sp_produce_topic_elem);
    }
    let name = match decode_compact_string(buf, pos) {
        Ok(Some(v)) => v,
        Ok(None) => {
            return Err(DecodeError::InvalidLength);
        },
        Err(e) => {
            return Err(e);
        },
    };
    let c = match decode_unsigned_varint(buf, pos) {
        Ok(v) => v,
        Err(e) => {
            return Err(e);
        },
    };
    let n: u32 = if c == 0 {
        0
    } else {
        c - 1
    };
    let ghost pstart = *pos as int;
    let mut partitions: Vec<ProducePartitionData> = Vec::new();
    let mut k: u32 = 0;
    proof {
        assert(produce_parts_view(partitions@) =~= Seq::<
            ProducePartitionDataM,
        >::empty());
        assert(Seq::<ProducePartitionDataM>::empty() + Seq::<ProducePartitionDataM>::empty() =~= Seq::<
            ProducePartitionDataM,
        >::empty());
    }
    proof {
        assert((match sp_produce_partitions(buf@, pstart, n as nat) {
            Err(e) => sp_produce_topic_elem(buf@, *old(pos) as int) == Err::<
                (ProduceTopicDataM, int),
                DecodeError,
            >(e),
            Ok(_) => true,
        }));
    }
    while k < n
        invariant
            0 <= k <= n,
            *pos <= buf@.len(),
            (match sp_produce_partitions(buf@, *pos as int, (n - k) as nat) {
                Ok(t) => sp_produce_partitions(buf@, pstart, n as nat) == Ok::<
                    (Seq<ProducePartitionDataM>, int),
                    DecodeError,
                >((produce_parts_view(partitions@) + t.0, t.1)),
                Err(e) => sp_produce_partitions(buf@, pstart, n as nat) == Err::<
                    (Seq<ProducePartitionDataM>, int),
                    DecodeError,
                >(e),
            }),
            (match sp_produce_partitions(buf@, pstart, n as nat) {
                Err(e) => sp_produce_topic_elem(buf@, *old(pos) as int) == Err::<
                    (ProduceTopicDataM, int),
                    DecodeError,
                >(e),
                Ok(_) => true,
            }),
        decreases n - k,
    {
        let ghost oldpos = *pos as int;
        let ghost prev = produce_parts_view(partitions@);
        let pd = match decode_produce_partition(buf, pos) {
            Ok(v) => v,
            Err(e) => {
                return Err(e);
            },
        };
        let ghost pdm = pd@;
        proof {
            lemma_produce_partitions_step(
                buf@,
                pstart,
                n as nat,
                prev,
                oldpos,
                (n - k) as nat,
                pdm,
                *pos as int,
            );
        }
        partitions.push(pd);
        k = k + 1;
        proof {
            let now = produce_parts_view(partitions@);
            assert forall|j: int| 0 <= j < now.len() implies #[trigger] now[j] == prev.push(
                pdm,
            )[j] by {
                if j < prev.len() {
                    assert(now[j] == partitions@[j]@);
                    assert(prev[j] == partitions@[j]@);
                }
            }
            assert(now =~= prev.push(pdm));
        }
    }
    proof {
        assert(produce_parts_view(partitions@) + Seq::<
            ProducePartitionDataM,
        >::empty() =~= produce_parts_view(partitions@));
    }
    match skip_tag_buffer(buf, pos) {
        Ok(_) => (),
        Err(e) => {
            return Err(e);
        },
    };
    Ok(ProduceTopicData { name, partitions })
}

/// Decodes a publish request body at version 11.
#[verifier::rlimit(100)]
pub fn decode_produce_request(buf: &Vec<u8>, pos: &mut usize) -> (r: Result<
    ProduceRequest,
    DecodeError,
>)
    requires
        *old(pos) <= buf@.len(),
    ensures
        (match r {
            Ok(req) => sp_produce_request(buf@, *old(pos) as int) == Ok::<
                (ProduceRequestM, int),
                DecodeError,
            >((req@, *final(pos) as int)) && *final(pos) <= buf@.len(),
            Err(e) => sp_produce_request(buf@, *old(pos) as int) == Err::<
                (ProduceRequestM, int),
                DecodeError,
            >(e),
        }),
{
    let transactional_id = match decode_compact_string(buf, pos) {
        Ok(v) => v,
        Err(e) => {
            return Err(e);
        },
    };
    proof {
        crate::codec::lemma_pow256_values();
        crate::codec::lemma_be_nat_bound(buf@, *pos as int, 2);
        crate::codec::lemma_be_nat_bound(buf@, *pos + 2, 4);
    }
    if buf.len() - *pos < 6 {
        return Err(DecodeError::Truncated);
    }
    let acks = match read_i16(buf, pos) {
        Ok(v) => v,
        Err(e) => {
            return Err(e);
        },
    };
    let timeout_ms = match read_i32(buf, pos) {
        Ok(v) => v,
        Err(e) => {
            return Err(e);
        },
    };
    let c = match decode_unsigned_varint(buf, pos) {
        Ok(v) => v,
        Err(e) => {
            return Err(e);
        },
    };
    let n: u32 = if c == 0 {
        0
    } else {
        c - 1
    };
    let ghost pstart = *pos as int;
    let mut topic_data: Vec<ProduceTopicData> = Vec::new();
    let mut k: u32 = 0;
    proof {
        assert(produce_topics_view(topic_data@) =~= Seq::<
            ProduceTopicDataM,
        >::empty());
        assert(Seq::<ProduceTopicDataM>::empty() + Seq::<ProduceTopicDataM>::empty() =~= Seq::<
            ProduceTopicDataM,
        >::empty());
    }
    proof {
        assert((match sp_produce_topics(buf@, pstart, n as nat) {
            Err(e) => sp_produce_request(buf@, *old(pos) as int) == Err::<
                (ProduceRequestM, int),
                DecodeError,
            >(e),
            Ok(_) => true,
        }));
    }
    while k < n
        invariant
            0 <= k <= n,
            *pos <= buf@.len(),
            (match sp_produce_topics(buf@, *pos as int, (n - k) as nat) {
                Ok(t) => sp_produce_topics(buf@, pstart, n as nat) == Ok::<
                    (Seq<ProduceTopicDataM>, int),
                    DecodeError,
                >((produce_topics_view(topic_data@) + t.0, t.1)),
                Err(e) => sp_produce_topics(buf@, pstart, n as nat) == Err::<
                    (Seq<ProduceTopicDataM>, int),
                    DecodeError,
                >(e),
            }),
            (match sp_produce_topics(buf@, pstart, n as nat) {
                Err(e) => sp_produce_request(buf@, *old(pos) as int) == Err::<
                    (ProduceRequestM, int),
                    DecodeError,
                >(e),
                Ok(_) => true,
            }),
        decreases n - k,
    {
        let ghost oldpos = *pos as int;
        let ghost prev = produce_topics_view(topic_data@);
        let td = match decode_produce_topic(buf, pos) {
            Ok(v) => v,
            Err(e) => {
                return Err(e);
            },
        };
        let ghost tdm = td@;
        proof {
            lemma_produce_topics_step(
                buf@,
                pstart,
                n as nat,
                prev,
                oldpos,
                (n - k) as nat,
                tdm,
                *pos as int,
            );
        }
        topic_data.push(td);
        k = k + 1;
        proof {
            let now = produce_topics_view(topic_data@);
            assert forall|j: int| 0 <= j < now.len() implies #[trigger] now[j] == prev.push(
                tdm,
            )[j] by {
                if j < prev.len() {
                    assert(now[j] == topic_data@[j]@);
                    assert(prev[j] == topic_data@[j]@);
                }
            }
            assert(now =~= prev.push(tdm));
        }
    }
    proof {
        assert(produce_topics_view(topic_data@) + Seq::<
            ProduceTopicDataM,
        >::empty() =~= produce_topics_view(topic_data@));
    }
    match skip_tag_buffer(buf, pos) {
        Ok(_) => (),
        Err(e) => {
            return Err(e);
        },
    };
    Ok(ProduceRequest { transactional_id, acks, timeout_ms, topic_data })
}


// ---------------------------------------------------------------------------
// Fetch (version 16)
// ---------------------------------------------------------------------------

/// A fetch request: the session fields and the requested topic
/// identifiers.  The per-partition read positions are validated and
/// skipped: this broker always serves partition 0's whole log.
pub struct FetchRequest {
    pub max_wait_ms: i32,
    pub min_bytes: i32,
    pub max_bytes: i32,
    pub isolation_level: u8,
    pub session_id: i32,
    pub session_epoch: i32,
    pub topic_ids: Vec<u128>,
    pub rack_id: Option<Vec<u8>>,
}

/// The mathematical value of a fetch request.
pub struct FetchRequestM {
    pub max_wait_ms: i32,
    pub min_bytes: i32,
    pub max_bytes: i32,
    pub isolation_level: u8,
    pub session_id: i32,
    pub session_epoch: i32,
    pub topic_ids: Seq<u128>,
    pub rack_id: Option<Seq<u8>>,
}

impl View for FetchRequest {
    type V = FetchRequestM;

    open spec fn view(&self) -> FetchRequestM {
        FetchRequestM {
            max_wait_ms: self.max_wait_ms,
            min_bytes: self.min_bytes,
            max_bytes: self.max_bytes,
            isolation_level: self.isolation_level,
            session_id: self.session_id,
            session_epoch: self.session_epoch,
            topic_ids: self.topic_ids@,
            rack_id: opt_view(self.rack_id),
        }
    }
}

/// Skips one partition entry of a fetch request: six fixed position and
/// size fields (32 bytes in all) and a tagged-field section.
#[verifier::opaque]
pub open spec fn sp_fetch_partition_skip(s: Seq<u8>, pos: int) -> Result<int, DecodeError> {
    if pos < 0 || pos + 32 > s.len() {
        Err(DecodeError::Truncated)
    } else {
        sp_tag_buffer(s, pos + 32)
    }
}

/// Skips `n` partition entries of a fetch request.
pub open spec fn sp_fetch_partitions_skip(s: Seq<u8>, pos: int, n: nat) -> Result<
    int,
    DecodeError,
>
    decreases n,
{
    if n == 0 {
        Ok(pos)
    } else {
        match sp_fetch_partition_skip(s, pos) {
            Err(e) => Err(e),
            Ok(p) => sp_fetch_partitions_skip(s, p, (n - 1) as nat),
        }
    }
}

/// Parses one topic entry of a fetch request: the topic identifier, the
/// compact array of partition entries (skipped), and a tagged-field
/// section.
#[verifier::opaque]
pub open spec fn sp_fetch_topic_elem(s: Seq<u8>, pos: int) -> Result<(u128, int), DecodeError> {
    if pos < 0 || pos + 16 > s.len() {
        Err(DecodeError::Truncated)
    } else {
        match sp_varint(s, pos + 16) {
            Err(e) => Err(e),
            Ok((c, p)) => match sp_fetch_partitions_skip(s, p, compact_count(c)) {
                Err(e) => Err(e),
                Ok(p2) => match sp_tag_buffer(s, p2) {
                    Err(e) => Err(e),
                    Ok(p3) => Ok((crate::codec::be_nat(s, pos, 16) as u128, p3)),
                },
            },
        }
    }
}

/// Parses `n` fetch topic entries, front to back.
pub open spec fn sp_fetch_topics(s: Seq<u8>, pos: int, n: nat) -> Result<
    (Seq<u128>, int),
    DecodeError,
>
    decreases n,
{
    if n == 0 {
        Ok((Seq::empty(), pos))
    } else {
        match sp_fetch_topic_elem(s, pos) {
            Err(e) => Err(e),
            Ok((x, p)) => match sp_fetch_topics(s, p, (n - 1) as nat) {
                Err(e) => Err(e),
                Ok((xs, p2)) => Ok((seq![x] + xs, p2)),
            },
        }
    }
}

proof fn lemma_fetch_topics_step(
    s: Seq<u8>,
    start: int,
    total: nat,
    acc: Seq<u128>,
    pos: int,
    rem: nat,
    x: u128,
    p: int,
)
    requires
        rem >= 1,
        sp_fetch_topic_elem(s, pos) == Ok::<(u128, int), DecodeError>((x, p)),
        (match sp_fetch_topics(s, pos, rem) {
            Ok(t) => sp_fetch_topics(s, start, total) == Ok::<(Seq<u128>, int), DecodeError>((
                acc + t.0,
                t.1,
            )),
            Err(e) => sp_fetch_topics(s, start, total) == Err::<(Seq<u128>, int), DecodeError>(e),
        }),
    ensures
        (match sp_fetch_topics(s, p, (rem - 1) as nat) {
            Ok(t) => sp_fetch_topics(s, start, total) == Ok::<(Seq<u128>, int), DecodeError>((
                acc.push(x) + t.0,
                t.1,
            )),
            Err(e) => sp_fetch_topics(s, start, total) == Err::<(Seq<u128>, int), DecodeError>(e),
        }),
{
    match sp_fetch_topics(s, p, (rem - 1) as nat) {
        Ok(t) => {
            assert(acc + (seq![x] + t.0) =~= acc.push(x) + t.0);
        },
        Err(_) => {},
    }
}

/// Skips one forgotten-topic entry: the topic identifier, a compact array
/// of partition indexes, and a tagged-field section.
#[verifier::opaque]
pub open spec fn sp_forgotten_elem_skip(s: Seq<u8>, pos: int) -> Result<int, DecodeError> {
    if pos < 0 || pos + 16 > s.len() {
        Err(DecodeError::Truncated)
    } else {
        match sp_varint(s, pos + 16) {
            Err(e) => Err(e),
            Ok((c, p)) => if p + 4 * compact_count(c) > s.len() {
                Err(DecodeError::Truncated)
            } else {
                sp_tag_buffer(s, p + 4 * compact_count(c))
            },
        }
    }
}

/// Skips `n` forgotten-topic entries.
pub open spec fn sp_forgotten_skip(s: Seq<u8>, pos: int, n: nat) -> Result<int, DecodeError>
    decreases n,
{
    if n == 0 {
        Ok(pos)
    } else {
        match sp_forgotten_elem_skip(s, pos) {
            Err(e) => Err(e),
            Ok(p) => sp_forgotten_skip(s, p, (n - 1) as nat),
        }
    }
}

/// Parses a fetch request body at version 16: the wait, size and session
/// fields, the compact array of topic entries, the forgotten-topics array
/// (skipped), the rack id, and a trailing tagged-field section.
pub open spec fn sp_fetch_request(s: Seq<u8>, pos: int) -> Result<(FetchRequestM, int), DecodeError> {
    if pos < 0 || pos + 21 > s.len() {
        Err(DecodeError::Truncated)
    } else {
        match sp_varint(s, pos + 21) {
            Err(e) => Err(e),
            Ok((c, p)) => match sp_fetch_topics(s, p, compact_count(c)) {
                Err(e) => Err(e),
                Ok((ids, p2)) => match sp_varint(s, p2) {
                    Err(e) => Err(e),
                    Ok((cf, p3)) => match sp_forgotten_skip(s, p3, compact_count(cf)) {
                        Err(e) => Err(e),
                        Ok(p4) => match sp_compact_string(s, p4) {
                            Err(e) => Err(e),
                            Ok((rack_id, p5)) => match sp_tag_buffer(s, p5) {
                                Err(e) => Err(e),
                                Ok(p6) => Ok(
                                    (
                                        FetchRequestM {
                                            max_wait_ms: sp_i32_at(s, pos),
                                            min_bytes: sp_i32_at(s, pos + 4),
                                            max_bytes: sp_i32_at(s, pos + 8),
                                            isolation_level: s[pos + 12],
                                            session_id: sp_i32_at(s, pos + 13),
                                            session_epoch: sp_i32_at(s, pos + 17),
                                            topic_ids: ids,
                                            rack_id,
                                        },
                                        p6,
                                    ),
                                ),
                            },
                        },
                    },
                },
            },
        }
    }
}

/// Skips the partition entries of one fetch topic.
fn skip_fetch_partitions(buf: &Vec<u8>, pos: &mut usize, n: u32) -> (r: Result<(), DecodeError>)
    requires
        *old(pos) <= buf@.len(),
    ensures
        (match r {
            Ok(_) => sp_fetch_partitions_skip(buf@, *old(pos) as int, n as nat) == Ok::<
                int,
                DecodeError,
            >(*final(pos) as int) && *final(pos) <= buf@.len(),
            Err(e) => sp_fetch_partitions_skip(buf@, *old(pos) as int, n as nat) == Err::<
                int,
                DecodeError,
            >(e),
        }),
{
    let ghost p0 = *pos as int;
    let mut k: u32 = 0;
    while k < n
        invariant
            0 <= k <= n,
            *pos <= buf@.len(),
            p0 == *old(pos),
            sp_fetch_partitions_skip(buf@, p0, n as nat) == sp_fetch_partitions_skip(
                buf@,
                *pos as int,
                (n - k) as nat,
            ),
        decreases n - k,
    {
        proof {
            reveal(sp_fetch_partition_skip);
        }
        if buf.len() - *pos < 32 {
            return Err(DecodeError::Truncated);
        }
        *pos = *pos + 32;
        match skip_tag_buffer(buf, pos) {
            Ok(_) => (),
            Err(e) => {
                return Err(e);
            },
        };
        k = k + 1;
    }
    Ok(())
}

/// Decodes one topic entry of a fetch request.
#[verifier::rlimit(60)]
fn decode_fetch_topic(buf: &Vec<u8>, pos: &mut usize) -> (r: Result<u128, DecodeError>)
    requires
        *old(pos) <= buf@.len(),
    ensures
        (match r {
            Ok(id) => sp_fetch_topic_elem(buf@, *old(pos) as int) == Ok::<(u128, int), DecodeError>(
                (id, *final(pos) as int),
            ) && *final(pos) <= buf@.len(),
            Err(e) => sp_fetch_topic_elem(buf@, *old(pos) as int) == Err::<
                (u128, int),
                DecodeError,
            >(e),
        }),
{
    proof {
        reveal(sp_fetch_topic_elem);
    }
    let id = match read_u128(buf, pos) {
        Ok(v) => v,
        Err(e) => {
            return Err(e);
        },
    };
    let c = match decode_unsigned_varint(buf, pos) {
        Ok(v) => v,
        Err(e) => {
            return Err(e);
        },
    };
    let n: u32 = if c == 0 {
        0
    } else {
        c - 1
    };
    match skip_fetch_partitions(buf, pos, n) {
        Ok(_) => (),
        Err(e) => {
            return Err(e);
        },
    };
    match skip_tag_buffer(buf, pos) {
        Ok(_) => (),
        Err(e) => {
            return Err(e);
        },
    };
    Ok(id)
}

/// Skips the forgotten-topics entries of a fetch request.
#[verifier::rlimit(100)]
fn skip_forgotten(buf: &Vec<u8>, pos: &mut usize, n: u32) -> (r: Result<(), DecodeError>)
    requires
        *old(pos) <= buf@.len(),
    ensures
        (match r {
            Ok(_) => sp_forgotten_skip(buf@, *old(pos) as int, n as nat) == Ok::<int, DecodeError>(
                *final(pos) as int,
            ) && *final(pos) <= buf@.len(),
            Err(e) => sp_forgotten_skip(buf@, *old(pos) as int, n as nat) == Err::<
                int,
                DecodeError,
            >(e),
        }),
{
    let ghost p0 = *pos as int;
    let mut k: u32 = 0;
    while k < n
        invariant
            0 <= k <= n,
            *pos <= buf@.len(),
            p0 == *old(pos),
            sp_forgotten_skip(buf@, p0, n as nat) == sp_forgotten_skip(
                buf@,
                *pos as int,
                (n - k) as nat,
            ),
        decreases n - k,
    {
        proof {
            reveal(sp_forgotten_elem_skip);
        }
        if buf.len() - *pos < 16 {
            return Err(DecodeError::Truncated);
        }
        *pos = *pos + 16;
        let c = match decode_unsigned_varint(buf, pos) {
            Ok(v) => v,
            Err(e) => {
                return Err(e);
            },
        };
        let m: u32 = if c == 0 {
            0
        } else {
            c - 1
        };
        if ((buf.len() - *pos) as u64) < (m as u64) * 4 {
            proof {
                assert(4 * compact_count(c) == (m as u64) * 4);
            }
            return Err(DecodeError::Truncated);
        }
        *pos = *pos + (m as usize) * 4;
        proof {
            assert(4 * compact_count(c) == (m as u64) * 4);
        }
        match skip_tag_buffer(buf, pos) {
            Ok(_) => (),
            Err(e) => {
                return Err(e);
            },
        };
        k = k + 1;
    }
    Ok(())
}

/// Decodes a fetch request body at version 16.
#[verifier::rlimit(100)]
pub fn decode_fetch_request(buf: &Vec<u8>, pos: &mut usize) -> (r: Result<
    FetchRequest,
    DecodeError,
>)
    requires
        *old(pos) <= buf@.len(),
    ensures
        (match r {
            Ok(req) => sp_fetch_request(buf@, *old(pos) as int) == Ok::<
                (FetchRequestM, int),
                DecodeError,
            >((req@, *final(pos) as int)) && *final(pos) <= buf@.len(),
            Err(e) => sp_fetch_request(buf@, *old(pos) as int) == Err::<
                (FetchRequestM, int),
                DecodeError,
            >(e),
        }),
{
    proof {
        crate::codec::lemma_pow256_values();
        crate::codec::lemma_be_nat_bound(buf@, *old(pos) as int, 4);
        crate::codec::lemma_be_nat_bound(buf@, *old(pos) + 4, 4);
        crate::codec::lemma_be_nat_bound(buf@, *old(pos) + 8, 4);
        crate::codec::lemma_be_nat_bound(buf@, *old(pos) + 13, 4);
        crate::codec::lemma_be_nat_bound(buf@, *old(pos) + 17, 4);
    }
    if buf.len() - *pos < 21 {
        return Err(DecodeError::Truncated);
    }
    let max_wait_ms = match read_i32(buf, pos) {
        Ok(v) => v,
        Err(e) => {
            return Err(e);
        },
    };
    let min_bytes = match read_i32(buf, pos) {
        Ok(v) => v,
        Err(e) => {
            return Err(e);
        },
    };
    let max_bytes = match read_i32(buf, pos) {
        Ok(v) => v,
        Err(e) => {
            return Err(e);
        },
    };
    let isolation_level = match read_u8(buf, pos) {
        Ok(v) => v,
        Err(e) => {
            return Err(e);
        },
    };
    let session_id = match read_i32(buf, pos) {
        Ok(v) => v,
        Err(e) => {
            return Err(e);
        },
    };
    let session_epoch = match read_i32(buf, pos) {
        Ok(v) => v,
        Err(e) => {
            return Err(e);
        },
    };
    let c = match decode_unsigned_varint(buf, pos) {
        Ok(v) => v,
        Err(e) => {
            return Err(e);
        },
    };
    let n: u32 = if c == 0 {
        0
    } else {
        c - 1
    };
    let ghost pstart = *pos as int;
    let mut topic_ids: Vec<u128> = Vec::new();
    let mut k: u32 = 0;
    proof {
        assert(topic_ids@ + Seq::<u128>::empty() =~= topic_ids@);
        assert((match sp_fetch_topics(buf@, pstart, n as nat) {
            Err(e) => sp_fetch_request(buf@, *old(pos) as int) == Err::<
                (FetchRequestM, int),
                DecodeError,
            >(e),
            Ok(_) => true,
        }));
    }
    while k < n
        invariant
            0 <= k <= n,
            *pos <= buf@.len(),
            (match sp_fetch_topics(buf@, *pos as int, (n - k) as nat) {
                Ok(t) => sp_fetch_topics(buf@, pstart, n as nat) == Ok::<
                    (Seq<u128>, int),
                    DecodeError,
                >((topic_ids@ + t.0, t.1)),
                Err(e) => sp_fetch_topics(buf@, pstart, n as nat) == Err::<
                    (Seq<u128>, int),
                    DecodeError,
                >(e),
            }),
            (match sp_fetch_topics(buf@, pstart, n as nat) {
                Err(e) => sp_fetch_request(buf@, *old(pos) as int) == Err::<
                    (FetchRequestM, int),
                    DecodeError,
                >(e),
                Ok(_) => true,
            }),
        decreases n - k,
    {
        let ghost oldpos = *pos as int;
        let ghost prev = topic_ids@;
        let id = match decode_fetch_topic(buf, pos) {
            Ok(v) => v,
            Err(e) => {
                return Err(e);
            },
        };
        proof {
            lemma_fetch_topics_step(
                buf@,
                pstart,
                n as nat,
                prev,
                oldpos,
                (n - k) as nat,
                id,
                *pos as int,
            );
        }
        topic_ids.push(id);
        k = k + 1;
        proof {
            assert(topic_ids@ =~= prev.push(id));
        }
    }
    let cf = match decode_unsigned_varint(buf, pos) {
        Ok(v) => v,
        Err(e) => {
            return Err(e);
        },
    };
    let nf: u32 = if cf == 0 {
        0
    } else {
        cf - 1
    };
    match skip_forgotten(buf, pos, nf) {
        Ok(_) => (),
        Err(e) => {
            return Err(e);
        },
    };
    let rack_id = match decode_compact_string(buf, pos) {
        Ok(v) => v,
        Err(e) => {
            return Err(e);
        },
    };
    match skip_tag_buffer(buf, pos) {
        Ok(_) => (),
        Err(e) => {
            return Err(e);
        },
    };
    Ok(
        FetchRequest {
            max_wait_ms,
            min_bytes,
            max_bytes,
            isolation_level,
            session_id,
            session_epoch,
            topic_ids,
            rack_id,
        },
    )
}

} // verus!
