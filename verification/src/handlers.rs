//! Request handlers: one pure function per supported API, each producing
//! the full response bytes (header and body) for its request.  File reads
//! and writes stay with the caller; the publish handler returns what to
//! write, the fetch handler takes what was read.

use vstd::prelude::*;

use crate::codec::{
    be_bytes, bytes_eq, enc_compact_bytes, enc_compact_string, enc_varint, opt_view, u16_of_i16,
    u32_of_i32, u64_of_i64, encode_compact_bytes, encode_unsigned_varint, write_bytes, write_i16,
    write_i32, write_i64, write_u128, write_u16, write_u32,
};
use crate::DecodeError;
use vstd::multiset::Multiset;

verus! {

// ---------------------------------------------------------------------------
// Capability negotiation
// ---------------------------------------------------------------------------

/// The encoding of one advertised (api key, min version, max version)
/// triple; flexible versions append an empty tagged-field section.
pub open spec fn enc_api_key_entry(k: i16, min: i16, max: i16, flexible: bool) -> Seq<u8> {
    be_bytes(u16_of_i16(k), 2) + be_bytes(u16_of_i16(min), 2) + be_bytes(u16_of_i16(max), 2) + (
    if flexible {
        seq![0u8]
    } else {
        Seq::<u8>::empty()
    })
}

/// The four advertised (api key, min, max) triples: capability negotiation,
/// topic description, fetch, publish.
pub open spec fn advertised_api_keys() -> Seq<(i16, i16, i16)> {
    seq![(18i16, 0i16, 4i16), (75i16, 0i16, 0i16), (1i16, 0i16, 16i16), (0i16, 0i16, 11i16)]
}

/// The capability-negotiation response body at version `v`: error code 0
/// and the four advertised triples, with a throttle field from version 1
/// and compact (flexible) framing from version 3.  A version outside the
/// advertised range 0 to 4 cannot be encoded and degrades to the version-0
/// error response with code 35 and no advertised triples.
pub open spec fn api_versions_body(v: i16) -> Seq<u8> {
    if 0 <= v <= 4 {
        let flexible = v >= 3;
        let entries = enc_api_key_entry(18, 0, 4, flexible) + enc_api_key_entry(75, 0, 0, flexible)
            + enc_api_key_entry(1, 0, 16, flexible) + enc_api_key_entry(0, 0, 11, flexible);
        let arr = if flexible {
            enc_varint(5)
        } else {
            be_bytes(4, 4)
        };
        let throttle = if v >= 1 {
            be_bytes(0, 4)
        } else {
            Seq::<u8>::empty()
        };
        let tail = if flexible {
            seq![0u8]
        } else {
            Seq::<u8>::empty()
        };
        be_bytes(0, 2) + arr + entries + throttle + tail
    } else {
        be_bytes(35, 2) + be_bytes(0, 4)
    }
}

/// The whole capability-negotiation response: the correlation id (its
/// response header is always version 0, without a tagged-field section)
/// and the body at the requested version.
pub open spec fn api_versions_response(cid: i32, v: i16) -> Seq<u8> {
    be_bytes(u32_of_i32(cid), 4) + api_versions_body(v)
}

/// Answers a capability-negotiation request: the four advertised version
/// ranges at the client's version, or the fixed version-0 error response
/// when that version cannot be encoded.
pub fn process_api_version(correlation_id: i32, api_version: i16) -> (r: Vec<u8>)
    ensures
        r@ == api_versions_response(correlation_id, api_version),
{
    let mut out: Vec<u8> = Vec::new();
    write_i32(&mut out, correlation_id);
    if 0 <= api_version && api_version <= 4 {
        let flexible = api_version >= 3;
        write_u16(&mut out, 0);
        if flexible {
            encode_unsigned_varint(&mut out, 5);
        } else {
            write_u32(&mut out, 4);
        }
        write_api_key_entry(&mut out, 18, 0, 4, flexible);
        write_api_key_entry(&mut out, 75, 0, 0, flexible);
        write_api_key_entry(&mut out, 1, 0, 16, flexible);
        write_api_key_entry(&mut out, 0, 0, 11, flexible);
        if api_version >= 1 {
            write_u32(&mut out, 0);
        }
        if flexible {
            out.push(0);
        }
        proof {
            assert(u32_of_i32(correlation_id) == u32_of_i32(correlation_id));
            assert(out@ =~= api_versions_response(correlation_id, api_version));
        }
    } else {
        write_u16(&mut out, 35);
        write_u32(&mut out, 0);
        proof {
            assert(out@ =~= api_versions_response(correlation_id, api_version));
        }
    }
    out
}

/// Appends one advertised triple.
fn write_api_key_entry(out: &mut Vec<u8>, k: i16, min: i16, max: i16, flexible: bool)
    ensures
        final(out)@ =~= old(out)@ + enc_api_key_entry(k, min, max, flexible),
{
    write_i16(out, k);
    write_i16(out, min);
    write_i16(out, max);
    if flexible {
        out.push(0);
    }
}


// ---------------------------------------------------------------------------
// Ordering helpers: topic names sort lexicographically by bytes, partitions
// ascending by partition id
// ---------------------------------------------------------------------------

/// Byte-wise lexicographic order (which on UTF-8 bytes agrees with code
/// point order).
pub open spec fn lex_le(a: Seq<u8>, b: Seq<u8>) -> bool
    decreases a.len(),
{
    if a.len() == 0 {
        true
    } else if b.len() == 0 {
        false
    } else if a[0] < b[0] {
        true
    } else if a[0] > b[0] {
        false
    } else {
        lex_le(a.drop_first(), b.drop_first())
    }
}

/// Decides `lex_le` on byte vectors.
pub fn lex_le_bytes(a: &Vec<u8>, b: &Vec<u8>) -> (r: bool)
    ensures
        r == lex_le(a@, b@),
{
    let mut i: usize = 0;
    proof {
        assert(a@.skip(0) =~= a@);
        assert(b@.skip(0) =~= b@);
    }
    loop
        invariant
            0 <= i <= a@.len(),
            i <= b@.len(),
            lex_le(a@, b@) == lex_le(a@.skip(i as int), b@.skip(i as int)),
        ensures
            lex_le(a@, b@) == (i >= a@.len() || (i < b@.len() && a@[i as int] < b@[i as int])),
        decreases a@.len() - i,
    {
        if i >= a.len() {
            proof {
                assert(a@.skip(i as int) =~= Seq::<u8>::empty());
            }
            break ;
        }
        if i >= b.len() {
            proof {
                assert(b@.skip(i as int) =~= Seq::<u8>::empty());
                assert(a@.skip(i as int).len() > 0);
            }
            break ;
        }
        let ca = a[i];
        let cb = b[i];
        proof {
            assert(a@.skip(i as int)[0] == a@[i as int]);
            assert(b@.skip(i as int)[0] == b@[i as int]);
        }
        if ca < cb {
            break ;
        }
        if ca > cb {
            break ;
        }
        proof {
            assert(a@.skip(i as int).drop_first() =~= a@.skip(i + 1));
            assert(b@.skip(i as int).drop_first() =~= b@.skip(i + 1));
        }
        i = i + 1;
    }
    if i >= a.len() {
        true
    } else if i < b.len() {
        a[i] < b[i]
    } else {
        false
    }
}

/// `x` inserted into `s` before the first element it precedes or equals.
pub open spec fn insert_lex(s: Seq<Seq<u8>>, x: Seq<u8>) -> Seq<Seq<u8>>
    decreases s.len(),
{
    if s.len() == 0 {
        seq![x]
    } else if lex_le(x, s[0]) {
        seq![x] + s
    } else {
        seq![s[0]] + insert_lex(s.drop_first(), x)
    }
}

/// Insertion sort of `s` under `lex_le`, element by element from the front.
pub open spec fn sort_lex(s: Seq<Seq<u8>>) -> Seq<Seq<u8>>
    decreases s.len(),
{
    if s.len() == 0 {
        Seq::empty()
    } else {
        insert_lex(sort_lex(s.drop_last()), s.last())
    }
}

/// Where the insertion point is known, `insert_lex` splits the sequence
/// there.
proof fn lemma_insert_lex_at(s: Seq<Seq<u8>>, x: Seq<u8>, j: int)
    requires
        0 <= j <= s.len(),
        forall|k: int| 0 <= k < j ==> !lex_le(x, #[trigger] s[k]),
        j < s.len() ==> lex_le(x, s[j]),
    ensures
        insert_lex(s, x) =~= s.take(j) + seq![x] + s.skip(j),
    decreases j,
{
    if j == 0 {
        if s.len() == 0 {
            assert(insert_lex(s, x) =~= s.take(0) + seq![x] + s.skip(0));
        } else {
            assert(lex_le(x, s[0]));
            assert(insert_lex(s, x) =~= s.take(0) + seq![x] + s.skip(0));
        }
    } else {
        assert(!lex_le(x, s[0]));
        let d = s.drop_first();
        assert forall|k: int| 0 <= k < j - 1 implies !lex_le(x, #[trigger] d[k]) by {
            assert(d[k] == s[k + 1]);
        }
        assert(j - 1 < d.len() ==> lex_le(x, d[j - 1]));
        lemma_insert_lex_at(d, x, j - 1);
        assert(insert_lex(s, x) =~= s.take(j) + seq![x] + s.skip(j));
    }
}

/// Sorts topic names lexicographically, as the response ordering demands.
pub fn sort_names(names: Vec<Vec<u8>>) -> (r: Vec<Vec<u8>>)
    ensures
        crate::meta::seqs_view(r@) == sort_lex(crate::meta::seqs_view(names@)),
{
    let ghost full = crate::meta::seqs_view(names@);
    let total = names.len();
    let mut rest = names;
    let mut sorted: Vec<Vec<u8>> = Vec::new();
    let mut i: usize = 0;
    proof {
        assert(crate::meta::seqs_view(sorted@) =~= sort_lex(full.take(0)));
        assert(crate::meta::seqs_view(rest@) =~= full.skip(0));
    }
    while rest.len() > 0
        invariant
            0 <= i <= total,
            total == full.len(),
            i + rest@.len() == full.len(),
            crate::meta::seqs_view(rest@) =~= full.skip(i as int),
            crate::meta::seqs_view(sorted@) == sort_lex(full.take(i as int)),
        decreases rest@.len(),
    {
        let ghost sv = crate::meta::seqs_view(sorted@);
        let ghost rest_old = rest@;
        let x = rest.remove(0);
        proof {
            assert(crate::meta::seqs_view(rest_old)[0] == rest_old[0]@);
            assert(x@ == full.skip(i as int)[0]);
            assert(x@ == full[i as int]);
            assert forall|k: int| 0 <= k < rest@.len() implies #[trigger] (crate::meta::seqs_view(
                rest@,
            )[k]) == full.skip(i + 1)[k] by {
                assert(rest@[k] == rest_old[k + 1]);
                assert(crate::meta::seqs_view(rest_old)[k + 1] == rest_old[k + 1]@);
                assert(full.skip(i as int)[k + 1] == full[i + 1 + k]);
            }
            assert(crate::meta::seqs_view(rest@) =~= full.skip(i + 1));
        }
        let mut j: usize = 0;
        while j < sorted.len()
            invariant
                0 <= j <= sorted@.len(),
                sv == crate::meta::seqs_view(sorted@),
                forall|k: int| 0 <= k < j ==> !lex_le(x@, #[trigger] sv[k]),
            ensures
                0 <= j <= sorted@.len(),
                sv == crate::meta::seqs_view(sorted@),
                forall|k: int| 0 <= k < j ==> !lex_le(x@, #[trigger] sv[k]),
                j < sorted@.len() ==> lex_le(x@, sorted@[j as int]@),
            decreases sorted@.len() - j,
        {
            proof {
                assert(sv[j as int] == sorted@[j as int]@);
            }
            if lex_le_bytes(&x, &sorted[j]) {
                break ;
            }
            j = j + 1;
        }
        proof {
            if (j as int) < sorted@.len() {
                assert(sv[j as int] == sorted@[j as int]@);
            }
            lemma_insert_lex_at(sv, x@, j as int);
        }
        let ghost xv = x@;
        let ghost sorted_old = sorted@;
        sorted.insert(j, x);
        i = i + 1;
        proof {
            assert(full.take(i as int).drop_last() =~= full.take(i - 1));
            assert(full.take(i as int).last() == full[i - 1]);
            let svn = crate::meta::seqs_view(sorted@);
            assert(sorted@ == sorted_old.insert(j as int, x));
            assert forall|k: int| 0 <= k < svn.len() implies #[trigger] svn[k] == (sv.take(
                j as int,
            ) + seq![xv] + sv.skip(j as int))[k] by {
                assert(svn[k] == sorted@[k]@);
                if k < j as int {
                    assert(sorted@[k] == sorted_old[k]);
                    assert(sv[k] == sorted_old[k]@);
                } else if k > j as int {
                    assert(sorted@[k] == sorted_old[k - 1]);
                    assert(sv[k - 1] == sorted_old[k - 1]@);
                }
            }
            assert(svn =~= sv.take(j as int) + seq![xv] + sv.skip(j as int));
            assert(svn == sort_lex(full.take(i as int)));
        }
    }
    proof {
        assert(full.take(full.len() as int) =~= full);
    }
    sorted
}

/// `p` inserted into `s` before the first partition whose id is not below
/// its own.
pub open spec fn insert_part(s: Seq<crate::meta::Partition>, p: crate::meta::Partition) -> Seq<
    crate::meta::Partition,
>
    decreases s.len(),
{
    if s.len() == 0 {
        seq![p]
    } else if p.partition_id <= s[0].partition_id {
        seq![p] + s
    } else {
        seq![s[0]] + insert_part(s.drop_first(), p)
    }
}

/// Insertion sort of partitions, ascending by partition id.
pub open spec fn sort_parts(s: Seq<crate::meta::Partition>) -> Seq<crate::meta::Partition>
    decreases s.len(),
{
    if s.len() == 0 {
        Seq::empty()
    } else {
        insert_part(sort_parts(s.drop_last()), s.last())
    }
}

proof fn lemma_insert_part_at(s: Seq<crate::meta::Partition>, p: crate::meta::Partition, j: int)
    requires
        0 <= j <= s.len(),
        forall|k: int| 0 <= k < j ==> (#[trigger] s[k]).partition_id < p.partition_id,
        j < s.len() ==> p.partition_id <= s[j].partition_id,
    ensures
        insert_part(s, p) =~= s.take(j) + seq![p] + s.skip(j),
    decreases j,
{
    if j == 0 {
        assert(insert_part(s, p) =~= s.take(0) + seq![p] + s.skip(0));
    } else {
        let d = s.drop_first();
        assert forall|k: int| 0 <= k < j - 1 implies (#[trigger] d[k]).partition_id
            < p.partition_id by {
            assert(d[k] == s[k + 1]);
        }
        lemma_insert_part_at(d, p, j - 1);
        assert(insert_part(s, p) =~= s.take(j) + seq![p] + s.skip(j));
    }
}

/// Sorts a partition list ascending by partition id.
pub fn sort_partitions(ps: &Vec<crate::meta::Partition>) -> (r: Vec<crate::meta::Partition>)
    ensures
        r@ == sort_parts(ps@),
{
    let mut sorted: Vec<crate::meta::Partition> = Vec::new();
    let mut i: usize = 0;
    proof {
        assert(ps@.take(0) =~= Seq::<crate::meta::Partition>::empty());
    }
    while i < ps.len()
        invariant
            0 <= i <= ps@.len(),
            sorted@ == sort_parts(ps@.take(i as int)),
        decreases ps@.len() - i,
    {
        let ghost sv = sorted@;
        let p = ps[i];
        let mut j: usize = 0;
        while j < sorted.len()
            invariant
                0 <= j <= sorted@.len(),
                sv == sorted@,
                forall|k: int|
                    0 <= k < j ==> (#[trigger] sv[k]).partition_id < p.partition_id,
            ensures
                0 <= j <= sorted@.len(),
                sv == sorted@,
                forall|k: int|
                    0 <= k < j ==> (#[trigger] sv[k]).partition_id < p.partition_id,
                j < sorted@.len() ==> p.partition_id <= sorted@[j as int].partition_id,
            decreases sorted@.len() - j,
        {
            if p.partition_id <= sorted[j].partition_id {
                break ;
            }
            j = j + 1;
        }
        proof {
            lemma_insert_part_at(sv, p, j as int);
        }
        sorted.insert(j, p);
        i = i + 1;
        proof {
            assert(ps@.take(i as int).drop_last() =~= ps@.take(i - 1));
            assert(ps@.take(i as int).last() == ps@[i - 1]);
            assert(sorted@ =~= sv.take(j as int) + seq![p] + sv.skip(j as int));
        }
    }
    proof {
        assert(ps@.take(ps@.len() as int) =~= ps@);
    }
    sorted
}


// ---------------------------------------------------------------------------
// Topic description
// ---------------------------------------------------------------------------

/// The first grouped topic whose name is `name`.
pub open spec fn find_topic(
    ms: Seq<crate::group::TopicWithPartitionsM>,
    name: Seq<u8>,
) -> Option<crate::group::TopicWithPartitionsM>
    decreases ms.len(),
{
    if ms.len() == 0 {
        None
    } else if ms[0].topic.name == name {
        Some(ms[0])
    } else {
        find_topic(ms.drop_first(), name)
    }
}

/// Finds the position of the first grouped topic named `name`.
pub fn lookup_topic(
    metadata: &Vec<crate::group::TopicWithPartitions>,
    name: &Vec<u8>,
) -> (r: Option<usize>)
    ensures
        (match r {
            Some(k) => k < metadata@.len() && find_topic(
                crate::group::twp_view(metadata@),
                name@,
            ) == Some(crate::group::twp_view(metadata@)[k as int]),
            None => find_topic(crate::group::twp_view(metadata@), name@) is None,
        }),
{
    let ghost mv = crate::group::twp_view(metadata@);
    let mut k: usize = 0;
    proof {
        assert(mv.skip(0) =~= mv);
    }
    while k < metadata.len()
        invariant
            0 <= k <= metadata@.len(),
            mv == crate::group::twp_view(metadata@),
            mv.len() == metadata@.len(),
            find_topic(mv, name@) == find_topic(mv.skip(k as int), name@),
        decreases metadata@.len() - k,
    {
        proof {
            assert(mv.skip(k as int)[0] == mv[k as int]);
            assert(mv[k as int] == metadata@[k as int]@);
        }
        if bytes_eq(&metadata[k].topic.name, name) {
            return Some(k);
        }
        proof {
            assert(mv.skip(k as int).drop_first() =~= mv.skip(k + 1));
        }
        k = k + 1;
    }
    proof {
        assert(mv.skip(k as int) =~= Seq::<crate::group::TopicWithPartitionsM>::empty());
    }
    None
}

/// The encoding of one partition entry of a topic-description response:
/// no error, the partition id, leader and leader epoch, the single-entry
/// replica and in-sync-replica arrays, null eligible-leader and last-known
/// arrays, an empty offline array, and an empty tagged-field section.
pub open spec fn enc_dtp_partition(p: crate::meta::Partition) -> Seq<u8> {
    be_bytes(0, 2) + be_bytes(p.partition_id as nat, 4) + be_bytes(u32_of_i32(p.leader), 4)
        + be_bytes(u32_of_i32(p.leader_epoch), 4) + enc_varint(2) + be_bytes(
        u32_of_i32(p.replica),
        4,
    ) + enc_varint(2) + be_bytes(u32_of_i32(p.isr), 4) + enc_varint(0) + enc_varint(0)
        + enc_varint(1) + enc_varint(0)
}

/// The encodings of a partition list, in order.
pub open spec fn enc_dtp_partitions(ps: Seq<crate::meta::Partition>) -> Seq<u8>
    decreases ps.len(),
{
    if ps.len() == 0 {
        Seq::empty()
    } else {
        enc_dtp_partitions(ps.drop_last()) + enc_dtp_partition(ps.last())
    }
}

/// The encoding of one response topic.  A name that grouping knows carries
/// its identifier and its partitions sorted ascending by id; an unknown
/// name carries the unknown-topic-or-partition error code 3, the nil
/// identifier and no partitions.
pub open spec fn enc_dtp_topic(
    m: Option<crate::group::TopicWithPartitionsM>,
    name: Seq<u8>,
) -> Seq<u8> {
    match m {
        Some(t) => be_bytes(0, 2) + enc_compact_string(Some(name)) + be_bytes(
            t.topic.uuid as nat,
            16,
        ) + seq![0u8] + enc_varint(sort_parts(t.partitions).len() + 1) + enc_dtp_partitions(
            sort_parts(t.partitions),
        ) + be_bytes(0, 4) + enc_varint(0),
        None => be_bytes(3, 2) + enc_compact_string(Some(name)) + be_bytes(0, 16) + seq![0u8]
            + enc_varint(1) + be_bytes(0, 4) + enc_varint(0),
    }
}

/// The encodings of the response topics for `names`, in the given order.
pub open spec fn enc_dtp_topics(
    ms: Seq<crate::group::TopicWithPartitionsM>,
    names: Seq<Seq<u8>>,
) -> Seq<u8>
    decreases names.len(),
{
    if names.len() == 0 {
        Seq::empty()
    } else {
        enc_dtp_topics(ms, names.drop_last()) + enc_dtp_topic(
            find_topic(ms, names.last()),
            names.last(),
        )
    }
}

/// The whole topic-description response at version 0: the response header
/// that the protocol's table dictates, no throttle, one response topic per
/// requested name in lexicographic order of the names, no next cursor, and
/// an empty tagged-field section.
pub open spec fn dtp_response(
    cid: i32,
    v: i16,
    names: Seq<Seq<u8>>,
    ms: Seq<crate::group::TopicWithPartitionsM>,
) -> Seq<u8> {
    let sorted = sort_lex(names);
    be_bytes(u32_of_i32(cid), 4) + (if crate::header::resp_header_version_of(75, v) >= 1 {
        enc_varint(0)
    } else {
        Seq::<u8>::empty()
    }) + be_bytes(0, 4) + enc_varint(sorted.len() + 1) + enc_dtp_topics(ms, sorted) + seq![
        0xFFu8,
    ] + enc_varint(0)
}

/// Appends a known (non-null) topic name as a compact string.
fn write_compact_name(out: &mut Vec<u8>, name: &Vec<u8>)
    requires
        name@.len() < 0xFFFFFFFF,
    ensures
        final(out)@ =~= old(out)@ + enc_compact_string(Some(name@)),
{
    encode_unsigned_varint(out, (name.len() as u32) + 1);
    write_bytes(out, name);
}

/// Appends one partition entry of a topic-description response.
fn write_dtp_partition(out: &mut Vec<u8>, p: &crate::meta::Partition)
    ensures
        final(out)@ =~= old(out)@ + enc_dtp_partition(*p),
{
    write_u16(out, 0);
    write_u32(out, p.partition_id);
    write_i32(out, p.leader);
    write_i32(out, p.leader_epoch);
    encode_unsigned_varint(out, 2);
    write_i32(out, p.replica);
    encode_unsigned_varint(out, 2);
    write_i32(out, p.isr);
    encode_unsigned_varint(out, 0);
    encode_unsigned_varint(out, 0);
    encode_unsigned_varint(out, 1);
    encode_unsigned_varint(out, 0);
}

/// Appends the response entry of a topic that grouping knows: no error,
/// its identifier, and its partitions sorted ascending by id.
fn write_dtp_topic_found(
    out: &mut Vec<u8>,
    name: &Vec<u8>,
    entry: &crate::group::TopicWithPartitions,
)
    requires
        name@.len() < 0xFFFFFFFF,
        entry.partitions@.len() + 1 < 0x100000000,
    ensures
        final(out)@ =~= old(out)@ + enc_dtp_topic(Some(entry@), name@),
{
    write_u16(out, 0);
    write_compact_name(out, name);
    write_u128(out, entry.topic.uuid);
    out.push(0);
    let ps = sort_partitions(&entry.partitions);
    proof {
        lemma_sort_parts_len(entry.partitions@);
    }
    encode_unsigned_varint(out, (ps.len() as u32) + 1);
    let ghost phead = out@;
    proof {
        assert(enc_dtp_partitions(ps@.take(0)) =~= Seq::<u8>::empty());
        assert(out@ =~= phead + enc_dtp_partitions(ps@.take(0)));
    }
    let mut w: usize = 0;
    while w < ps.len()
        invariant
            0 <= w <= ps@.len(),
            out@ =~= phead + enc_dtp_partitions(ps@.take(w as int)),
        decreases ps@.len() - w,
    {
        write_dtp_partition(out, &ps[w]);
        w = w + 1;
        proof {
            assert(ps@.take(w as int).drop_last() =~= ps@.take(w - 1));
            assert(ps@.take(w as int).last() == ps@[w - 1]);
        }
    }
    proof {
        assert(ps@.take(ps@.len() as int) =~= ps@);
    }
    write_u32(out, 0);
    encode_unsigned_varint(out, 0);
}

/// Appends the response entry of a name that grouping does not know: the
/// unknown-topic-or-partition error code, the nil identifier, no
/// partitions.
fn write_dtp_topic_missing(out: &mut Vec<u8>, name: &Vec<u8>)
    requires
        name@.len() < 0xFFFFFFFF,
    ensures
        final(out)@ =~= old(out)@ + enc_dtp_topic(None, name@),
{
    write_u16(out, 3);
    write_compact_name(out, name);
    write_u128(out, 0);
    out.push(0);
    encode_unsigned_varint(out, 1);
    write_u32(out, 0);
    encode_unsigned_varint(out, 0);
}

/// Answers a topic-description request: one response topic per requested
/// name, in lexicographic order of the names; a name that grouping knows
/// carries its identifier and its partitions sorted ascending by id, an
/// unknown name the unknown-topic-or-partition error and the nil
/// identifier.
pub fn process_describe_topic_partitions(
    correlation_id: i32,
    api_version: i16,
    topics: Vec<Vec<u8>>,
    metadata: &Vec<crate::group::TopicWithPartitions>,
) -> (r: Vec<u8>)
    requires
        topics@.len() + 1 < 0x100000000,
        forall|k: int| 0 <= k < topics@.len() ==> (#[trigger] topics@[k])@.len() < 0xFFFFFFFF,
        forall|k: int|
            0 <= k < metadata@.len() ==> (#[trigger] metadata@[k]).partitions@.len() + 1
                < 0x100000000,
    ensures
        r@ == dtp_response(
            correlation_id,
            api_version,
            crate::meta::seqs_view(topics@),
            crate::group::twp_view(metadata@),
        ),
{
    let ghost names = crate::meta::seqs_view(topics@);
    let ghost mv = crate::group::twp_view(metadata@);
    let n_topics = topics.len();
    let sorted = sort_names(topics);
    let ghost sortedv = crate::meta::seqs_view(sorted@);
    proof {
        lemma_sort_lex_len(names);
        lemma_sort_lex_mem(names);
        assert(sortedv.len() == names.len());
        assert forall|k: int| 0 <= k < sorted@.len() implies (#[trigger] sorted@[k])@.len()
            < 0xFFFFFFFF by {
            assert(sortedv[k] == sorted@[k]@);
            if names.contains(sortedv[k]) {
                let jw = choose|j: int| 0 <= j < names.len() && names[j] == sortedv[k];
                assert(names[jw] == topics@[jw]@);
            }
        }
    }
    let mut out: Vec<u8> = Vec::new();
    write_i32(&mut out, correlation_id);
    let known75 = crate::header::lookup_api_key(75);
    let hv: i16 = if known75 {
        crate::header::response_header_version(75, api_version)
    } else {
        0
    };
    proof {
        assert(hv == crate::header::resp_header_version_of(75, api_version));
    }
    if hv >= 1 {
        encode_unsigned_varint(&mut out, 0);
    }
    write_u32(&mut out, 0);
    encode_unsigned_varint(&mut out, (n_topics as u32) + 1);
    let ghost head = out@;
    proof {
        assert(enc_dtp_topics(mv, sortedv.take(0)) =~= Seq::<u8>::empty());
        assert(out@ =~= head + enc_dtp_topics(mv, sortedv.take(0)));
    }
    let mut i: usize = 0;
    while i < sorted.len()
        invariant
            0 <= i <= sorted@.len(),
            sortedv == crate::meta::seqs_view(sorted@),
            sortedv.len() == sorted@.len(),
            mv == crate::group::twp_view(metadata@),
            mv.len() == metadata@.len(),
            forall|k: int|
                0 <= k < metadata@.len() ==> (#[trigger] metadata@[k]).partitions@.len() + 1
                    < 0x100000000,
            forall|k: int|
                0 <= k < sorted@.len() ==> (#[trigger] sorted@[k])@.len() < 0xFFFFFFFF,
            out@ =~= head + enc_dtp_topics(mv, sortedv.take(i as int)),
        decreases sorted@.len() - i,
    {
        let ghost name = sortedv[i as int];
        proof {
            assert(sortedv[i as int] == sorted@[i as int]@);
            assert(sortedv.take(i + 1).drop_last() =~= sortedv.take(i as int));
            assert(sortedv.take(i + 1).last() == name);
        }
        match lookup_topic(metadata, &sorted[i]) {
            Some(k) => {
                proof {
                    assert(mv[k as int] == metadata@[k as int]@);
                }
                write_dtp_topic_found(&mut out, &sorted[i], &metadata[k]);
            },
            None => {
                write_dtp_topic_missing(&mut out, &sorted[i]);
            },
        }
        i = i + 1;
        proof {
            assert(out@ =~= head + enc_dtp_topics(mv, sortedv.take(i as int)));
        }
    }
    out.push(0xFF);
    encode_unsigned_varint(&mut out, 0);
    proof {
        assert(sortedv.take(sortedv.len() as int) =~= sortedv);
        assert(out@ =~= dtp_response(correlation_id, api_version, names, mv));
    }
    out
}

/// Sorting keeps the length of a partition list.
pub proof fn lemma_sort_parts_len(s: Seq<crate::meta::Partition>)
    ensures
        sort_parts(s).len() == s.len(),
    decreases s.len(),
{
    if s.len() > 0 {
        lemma_sort_parts_len(s.drop_last());
        lemma_insert_part_len(sort_parts(s.drop_last()), s.last());
    }
}

proof fn lemma_insert_part_len(s: Seq<crate::meta::Partition>, p: crate::meta::Partition)
    ensures
        insert_part(s, p).len() == s.len() + 1,
    decreases s.len(),
{
    if s.len() > 0 && !(p.partition_id <= s[0].partition_id) {
        lemma_insert_part_len(s.drop_first(), p);
    }
}

/// Every sorted name is one of the given names.
pub proof fn lemma_sort_lex_mem(s: Seq<Seq<u8>>)
    ensures
        forall|k: int|
            0 <= k < sort_lex(s).len() ==> s.contains(#[trigger] sort_lex(s)[k]),
    decreases s.len(),
{
    if s.len() > 0 {
        lemma_sort_lex_mem(s.drop_last());
        lemma_insert_lex_mem(sort_lex(s.drop_last()), s.last());
        assert forall|k: int| 0 <= k < sort_lex(s).len() implies s.contains(
            #[trigger] sort_lex(s)[k],
        ) by {
            let v = sort_lex(s)[k];
            if v == s.last() {
                assert(s[s.len() - 1] == v);
            } else {
                assert(sort_lex(s.drop_last()).contains(v));
                let jw = choose|j: int|
                    0 <= j < sort_lex(s.drop_last()).len() && sort_lex(s.drop_last())[j] == v;
                if s.drop_last().contains(v) {
                    let jw2 = choose|j: int|
                        0 <= j < s.drop_last().len() && s.drop_last()[j] == v;
                    assert(s[jw2] == v);
                }
            }
        }
    }
}

proof fn lemma_insert_lex_mem(s: Seq<Seq<u8>>, x: Seq<u8>)
    ensures
        forall|k: int|
            0 <= k < insert_lex(s, x).len() ==> (insert_lex(s, x)[k] == x || s.contains(
                #[trigger] insert_lex(s, x)[k],
            )),
    decreases s.len(),
{
    if s.len() == 0 {
    } else if lex_le(x, s[0]) {
        assert forall|k: int| 0 <= k < insert_lex(s, x).len() implies (insert_lex(s, x)[k] == x
            || s.contains(#[trigger] insert_lex(s, x)[k])) by {
            if k > 0 {
                assert(insert_lex(s, x)[k] == s[k - 1]);
            }
        }
    } else {
        lemma_insert_lex_mem(s.drop_first(), x);
        assert forall|k: int| 0 <= k < insert_lex(s, x).len() implies (insert_lex(s, x)[k] == x
            || s.contains(#[trigger] insert_lex(s, x)[k])) by {
            if k == 0 {
                assert(insert_lex(s, x)[0] == s[0]);
                assert(s.contains(s[0]));
            } else {
                let v = insert_lex(s, x)[k];
                assert(v == insert_lex(s.drop_first(), x)[k - 1]);
                if v != x {
                    assert(s.drop_first().contains(v));
                    let jw = choose|j: int|
                        0 <= j < s.drop_first().len() && s.drop_first()[j] == v;
                    assert(s[jw + 1] == v);
                }
            }
        }
    }
}

/// Sorting keeps the number of names.
pub proof fn lemma_sort_lex_len(s: Seq<Seq<u8>>)
    ensures
        sort_lex(s).len() == s.len(),
    decreases s.len(),
{
    if s.len() > 0 {
        lemma_sort_lex_len(s.drop_last());
        lemma_insert_lex_len(sort_lex(s.drop_last()), s.last());
    }
}

proof fn lemma_insert_lex_len(s: Seq<Seq<u8>>, x: Seq<u8>)
    ensures
        insert_lex(s, x).len() == s.len() + 1,
    decreases s.len(),
{
    if s.len() > 0 && !lex_le(x, s[0]) {
        lemma_insert_lex_len(s.drop_first(), x);
    }
}


// ---------------------------------------------------------------------------
// Publish
// ---------------------------------------------------------------------------

/// One partition entry of a publish request: the partition index and the
/// raw record bytes to persist.
pub struct ProducePartitionData {
    pub index: i32,
    pub records: Option<Vec<u8>>,
}

/// The mathematical value of a publish partition entry.
pub struct ProducePartitionDataM {
    pub index: i32,
    pub records: Option<Seq<u8>>,
}

impl View for ProducePartitionData {
    type V = ProducePartitionDataM;

    open spec fn view(&self) -> ProducePartitionDataM {
        ProducePartitionDataM { index: self.index, records: opt_view(self.records) }
    }
}

/// One topic entry of a publish request.
pub struct ProduceTopicData {
    pub name: Vec<u8>,
    pub partitions: Vec<ProducePartitionData>,
}

/// The mathematical value of a publish topic entry.
pub struct ProduceTopicDataM {
    pub name: Seq<u8>,
    pub partitions: Seq<ProducePartitionDataM>,
}

impl View for ProduceTopicData {
    type V = ProduceTopicDataM;

    open spec fn view(&self) -> ProduceTopicDataM {
        ProduceTopicDataM {
            name: self.name@,
            partitions: self.partitions@.map_values(|p: ProducePartitionData| p@),
        }
    }
}

/// One write that a publish request asks the log store to make: the whole
/// file for (topic, partition) is replaced by these bytes.
pub struct LogWrite {
    pub topic: Vec<u8>,
    pub partition: u32,
    pub bytes: Vec<u8>,
}

/// The mathematical value of a log-store write.
pub struct LogWriteM {
    pub topic: Seq<u8>,
    pub partition: u32,
    pub bytes: Seq<u8>,
}

impl View for LogWrite {
    type V = LogWriteM;

    open spec fn view(&self) -> LogWriteM {
        LogWriteM { topic: self.topic@, partition: self.partition, bytes: self.bytes@ }
    }
}

/// The view of a list of log-store writes.
pub open spec fn writes_view(s: Seq<LogWrite>) -> Seq<LogWriteM> {
    s.map_values(|w: LogWrite| w@)
}

/// Whether the grouped topic holds a partition with this index.
pub open spec fn has_partition(t: crate::group::TopicWithPartitionsM, idx: i32) -> bool {
    idx >= 0 && exists|j: int|
        0 <= j < t.partitions.len() && (#[trigger] t.partitions[j]).partition_id == idx as u32
}

/// Whether metadata holds (topic `name`, partition `idx`).
pub open spec fn part_found(
    ms: Seq<crate::group::TopicWithPartitionsM>,
    name: Seq<u8>,
    idx: i32,
) -> bool {
    match find_topic(ms, name) {
        Some(t) => has_partition(t, idx),
        None => false,
    }
}

/// Decides `has_partition` on a grouped topic.
pub fn topic_has_partition(t: &crate::group::TopicWithPartitions, idx: i32) -> (r: bool)
    ensures
        r == has_partition(t@, idx),
{
    if idx < 0 {
        return false;
    }
    let want = idx as u32;
    let mut j: usize = 0;
    while j < t.partitions.len()
        invariant
            0 <= j <= t.partitions@.len(),
            forall|k: int|
                0 <= k < j ==> (#[trigger] t.partitions@[k]).partition_id != want,
            idx >= 0,
            want == idx as u32,
        decreases t.partitions@.len() - j,
    {
        if t.partitions[j].partition_id == want {
            proof {
                assert((t@.partitions[j as int]).partition_id == idx as u32);
            }
            return true;
        }
        j = j + 1;
    }
    false
}

/// The record bytes a publish partition entry carries (none means empty).
pub open spec fn records_bytes(r: Option<Seq<u8>>) -> Seq<u8> {
    match r {
        Some(b) => b,
        None => Seq::empty(),
    }
}

/// The encoding of one partition entry of a publish response.  A (topic,
/// partition) pair that metadata holds answers with no error, base offset 0
/// and log start offset 0; an absent pair with the
/// unknown-topic-or-partition error 3, base offset -1 and log start offset
/// -1.  The log append time is always -1.
pub open spec fn enc_produce_partition(pd: ProducePartitionDataM, found: bool) -> Seq<u8> {
    be_bytes(u32_of_i32(pd.index), 4) + (if found {
        be_bytes(0, 2) + be_bytes(u64_of_i64(0i64), 8)
    } else {
        be_bytes(3, 2) + be_bytes(u64_of_i64(-1i64), 8)
    }) + be_bytes(u64_of_i64(-1i64), 8) + (if found {
        be_bytes(u64_of_i64(0i64), 8)
    } else {
        be_bytes(u64_of_i64(-1i64), 8)
    }) + enc_varint(1) + enc_varint(0) + enc_varint(0)
}

/// The encodings of a topic's partition entries, each judged against
/// metadata on its own.
pub open spec fn enc_produce_partitions(
    ms: Seq<crate::group::TopicWithPartitionsM>,
    name: Seq<u8>,
    ps: Seq<ProducePartitionDataM>,
) -> Seq<u8>
    decreases ps.len(),
{
    if ps.len() == 0 {
        Seq::empty()
    } else {
        enc_produce_partitions(ms, name, ps.drop_last()) + enc_produce_partition(
            ps.last(),
            part_found(ms, name, ps.last().index),
        )
    }
}

/// The encoding of one topic entry of a publish response.
pub open spec fn enc_produce_topic(
    ms: Seq<crate::group::TopicWithPartitionsM>,
    td: ProduceTopicDataM,
) -> Seq<u8> {
    enc_compact_string(Some(td.name)) + enc_varint(td.partitions.len() + 1)
        + enc_produce_partitions(ms, td.name, td.partitions) + enc_varint(0)
}

/// The encodings of all topic entries of a publish response.
pub open spec fn enc_produce_topics(
    ms: Seq<crate::group::TopicWithPartitionsM>,
    tds: Seq<ProduceTopicDataM>,
) -> Seq<u8>
    decreases tds.len(),
{
    if tds.len() == 0 {
        Seq::empty()
    } else {
        enc_produce_topics(ms, tds.drop_last()) + enc_produce_topic(ms, tds.last())
    }
}

/// The whole publish response at version 11: the response header the
/// protocol's table dictates, the per-topic entries, no throttle, and an
/// empty tagged-field section.
pub open spec fn produce_response(
    cid: i32,
    v: i16,
    tds: Seq<ProduceTopicDataM>,
    ms: Seq<crate::group::TopicWithPartitionsM>,
) -> Seq<u8> {
    be_bytes(u32_of_i32(cid), 4) + (if crate::header::resp_header_version_of(0, v) >= 1 {
        enc_varint(0)
    } else {
        Seq::<u8>::empty()
    }) + enc_varint(tds.len() + 1) + enc_produce_topics(ms, tds) + be_bytes(0, 4) + enc_varint(0)
}

/// The writes one topic entry asks for: the record bytes of each partition
/// that metadata holds, in entry order.
pub open spec fn topic_writes(
    ms: Seq<crate::group::TopicWithPartitionsM>,
    td: ProduceTopicDataM,
    n: int,
) -> Seq<LogWriteM>
    decreases n,
{
    if n <= 0 {
        Seq::empty()
    } else {
        let pd = td.partitions[n - 1];
        topic_writes(ms, td, n - 1) + (if part_found(ms, td.name, pd.index) {
            seq![
                LogWriteM {
                    topic: td.name,
                    partition: pd.index as u32,
                    bytes: records_bytes(pd.records),
                },
            ]
        } else {
            Seq::<LogWriteM>::empty()
        })
    }
}

/// The writes a whole publish request asks for, in request order.
pub open spec fn produce_writes(
    ms: Seq<crate::group::TopicWithPartitionsM>,
    tds: Seq<ProduceTopicDataM>,
) -> Seq<LogWriteM>
    decreases tds.len(),
{
    if tds.len() == 0 {
        Seq::empty()
    } else {
        produce_writes(ms, tds.drop_last()) + topic_writes(
            ms,
            tds.last(),
            tds.last().partitions.len() as int,
        )
    }
}

/// Appends one partition entry of a publish response.
fn write_produce_partition(out: &mut Vec<u8>, pd: &ProducePartitionData, found: bool)
    ensures
        final(out)@ =~= old(out)@ + enc_produce_partition(pd@, found),
{
    write_i32(out, pd.index);
    if found {
        write_i16(out, 0);
        write_i64(out, 0);
    } else {
        write_i16(out, 3);
        write_i64(out, -1);
    }
    write_i64(out, -1);
    if found {
        write_i64(out, 0);
    } else {
        write_i64(out, -1);
    }
    encode_unsigned_varint(out, 1);
    encode_unsigned_varint(out, 0);
    encode_unsigned_varint(out, 0);
}

/// Answers a publish request: each (topic, partition) entry is judged
/// against metadata on its own; entries that metadata holds are answered
/// with offset 0 and produce one whole-file write of their record bytes,
/// absent entries are answered with the unknown-topic-or-partition error
/// and produce no write.
pub fn process_produce(
    correlation_id: i32,
    api_version: i16,
    topic_data: &Vec<ProduceTopicData>,
    metadata: &Vec<crate::group::TopicWithPartitions>,
) -> (r: (Vec<u8>, Vec<LogWrite>))
    requires
        topic_data@.len() + 1 < 0x100000000,
        forall|k: int|
            0 <= k < topic_data@.len() ==> (#[trigger] topic_data@[k]).name@.len() < 0xFFFFFFFF,
        forall|k: int|
            0 <= k < topic_data@.len() ==> (#[trigger] topic_data@[k]).partitions@.len() + 1
                < 0x100000000,
    ensures
        r.0@ == produce_response(
            correlation_id,
            api_version,
            topic_data@.map_values(|t: ProduceTopicData| t@),
            crate::group::twp_view(metadata@),
        ),
        writes_view(r.1@) == produce_writes(
            crate::group::twp_view(metadata@),
            topic_data@.map_values(|t: ProduceTopicData| t@),
        ),
{
    let ghost tds = topic_data@.map_values(|t: ProduceTopicData| t@);
    let ghost mv = crate::group::twp_view(metadata@);
    let mut out: Vec<u8> = Vec::new();
    let mut writes: Vec<LogWrite> = Vec::new();
    write_i32(&mut out, correlation_id);
    let known0 = crate::header::lookup_api_key(0);
    let hv: i16 = if known0 {
        crate::header::response_header_version(0, api_version)
    } else {
        0
    };
    if hv >= 1 {
        encode_unsigned_varint(&mut out, 0);
    }
    encode_unsigned_varint(&mut out, (topic_data.len() as u32) + 1);
    let ghost head = out@;
    proof {
        assert(enc_produce_topics(mv, tds.take(0)) =~= Seq::<u8>::empty());
        assert(out@ =~= head + enc_produce_topics(mv, tds.take(0)));
        assert(produce_writes(mv, tds.take(0)) =~= Seq::<LogWriteM>::empty());
        assert(writes_view(writes@) =~= Seq::<LogWriteM>::empty());
    }
    let mut i: usize = 0;
    while i < topic_data.len()
        invariant
            0 <= i <= topic_data@.len(),
            tds == topic_data@.map_values(|t: ProduceTopicData| t@),
            tds.len() == topic_data@.len(),
            mv == crate::group::twp_view(metadata@),
            forall|k: int|
                0 <= k < topic_data@.len() ==> (#[trigger] topic_data@[k]).name@.len()
                    < 0xFFFFFFFF,
            forall|k: int|
                0 <= k < topic_data@.len() ==> (#[trigger] topic_data@[k]).partitions@.len() + 1
                    < 0x100000000,
            out@ =~= head + enc_produce_topics(mv, tds.take(i as int)),
            writes_view(writes@) =~= produce_writes(mv, tds.take(i as int)),
        decreases topic_data@.len() - i,
    {
        let td = &topic_data[i];
        let ghost tdm = tds[i as int];
        proof {
            assert(tdm == topic_data@[i as int]@);
            assert(tds.take(i + 1).drop_last() =~= tds.take(i as int));
            assert(tds.take(i + 1).last() == tdm);
        }
        write_compact_name(&mut out, &td.name);
        encode_unsigned_varint(&mut out, (td.partitions.len() as u32) + 1);
        let ghost phead = out@;
        let ghost wbase = writes_view(writes@);
        proof {
            assert(tdm.partitions.len() == td.partitions@.len());
            assert(enc_produce_partitions(mv, tdm.name, tdm.partitions.take(0)) =~= Seq::<
                u8,
            >::empty());
            assert(out@ =~= phead + enc_produce_partitions(mv, tdm.name, tdm.partitions.take(0)));
            assert(topic_writes(mv, tdm, 0) =~= Seq::<LogWriteM>::empty());
            assert(writes_view(writes@) =~= wbase + topic_writes(mv, tdm, 0));
        }
        let mut w: usize = 0;
        while w < td.partitions.len()
            invariant
                0 <= w <= td.partitions@.len(),
                tdm.partitions.len() == td.partitions@.len(),
                tdm == topic_data@[i as int]@,
                0 <= i < topic_data@.len(),
                td == topic_data@[i as int],
                mv == crate::group::twp_view(metadata@),
                out@ =~= phead + enc_produce_partitions(
                    mv,
                    tdm.name,
                    tdm.partitions.take(w as int),
                ),
                writes_view(writes@) =~= wbase + topic_writes(mv, tdm, w as int),
            decreases td.partitions@.len() - w,
        {
            let pd = &td.partitions[w];
            let ghost pdm = tdm.partitions[w as int];
            proof {
                assert(pdm == td.partitions@[w as int]@);
                assert(tdm.partitions.take(w + 1).drop_last() =~= tdm.partitions.take(w as int));
                assert(tdm.partitions.take(w + 1).last() == pdm);
            }
            let found = match lookup_topic(metadata, &td.name) {
                Some(k) => topic_has_partition(&metadata[k], pd.index),
                None => false,
            };
            proof {
                assert(found == part_found(mv, tdm.name, pdm.index));
            }
            write_produce_partition(&mut out, pd, found);
            if found {
                let bytes = match &pd.records {
                    Some(b) => crate::group::clone_bytes(b),
                    None => Vec::new(),
                };
                let ghost wprev = writes_view(writes@);
                writes.push(
                    LogWrite {
                        topic: crate::group::clone_bytes(&td.name),
                        partition: pd.index as u32,
                        bytes,
                    },
                );
                proof {
                    let wnew = writes_view(writes@);
                    assert forall|k: int| 0 <= k < wnew.len() implies #[trigger] wnew[k] == wprev.push(
                        writes@.last()@,
                    )[k] by {
                        if k < wprev.len() {
                            assert(wnew[k] == writes@[k]@);
                            assert(wprev[k] == writes@[k]@);
                        }
                    }
                    assert(wnew =~= wprev.push(writes@.last()@));
                    assert(writes@.last()@ == LogWriteM {
                        topic: tdm.name,
                        partition: pdm.index as u32,
                        bytes: records_bytes(pdm.records),
                    });
                }
            }
            w = w + 1;
            proof {
                assert(out@ =~= phead + enc_produce_partitions(
                    mv,
                    tdm.name,
                    tdm.partitions.take(w as int),
                ));
                assert(writes_view(writes@) =~= wbase + topic_writes(mv, tdm, w as int));
            }
        }
        proof {
            assert(tdm.partitions.take(tdm.partitions.len() as int) =~= tdm.partitions);
        }
        encode_unsigned_varint(&mut out, 0);
        i = i + 1;
        proof {
            assert(out@ =~= head + enc_produce_topics(mv, tds.take(i as int)));
            assert(writes_view(writes@) =~= produce_writes(mv, tds.take(i as int)));
        }
    }
    write_u32(&mut out, 0);
    encode_unsigned_varint(&mut out, 0);
    proof {
        assert(tds.take(tds.len() as int) =~= tds);
        assert(out@ =~= produce_response(correlation_id, api_version, tds, mv));
    }
    (out, writes)
}


// ---------------------------------------------------------------------------
// Fetch
// ---------------------------------------------------------------------------

/// The first grouped topic whose identifier is `id`.
pub open spec fn find_topic_by_id(
    ms: Seq<crate::group::TopicWithPartitionsM>,
    id: u128,
) -> Option<crate::group::TopicWithPartitionsM>
    decreases ms.len(),
{
    if ms.len() == 0 {
        None
    } else if ms[0].topic.uuid == id {
        Some(ms[0])
    } else {
        find_topic_by_id(ms.drop_first(), id)
    }
}

/// The view of a list of optional byte vectors.
pub open spec fn opts_view(s: Seq<Option<Vec<u8>>>) -> Seq<Option<Seq<u8>>> {
    s.map_values(|o: Option<Vec<u8>>| opt_view(o))
}

/// What a fetch request needs from the log store: for each requested topic
/// identifier, the name of its topic when metadata holds it (partition 0's
/// file is then read), or nothing when it does not.
pub open spec fn fetch_plan(
    ms: Seq<crate::group::TopicWithPartitionsM>,
    ids: Seq<u128>,
) -> Seq<Option<Seq<u8>>>
    decreases ids.len(),
{
    if ids.len() == 0 {
        Seq::empty()
    } else {
        fetch_plan(ms, ids.drop_last()) + seq![
            match find_topic_by_id(ms, ids.last()) {
                Some(t) => Some(t.topic.name),
                None => None,
            },
        ]
    }
}

/// Names the log-store file each requested topic identifier stands for:
/// the topic's name when metadata holds the identifier, nothing otherwise.
/// The caller reads partition 0's file for each named topic and hands the
/// contents to `process_fetch`.
pub fn plan_fetch(
    topic_ids: &Vec<u128>,
    metadata: &Vec<crate::group::TopicWithPartitions>,
) -> (r: Vec<Option<Vec<u8>>>)
    ensures
        opts_view(r@) == fetch_plan(crate::group::twp_view(metadata@), topic_ids@),
        r@.len() == topic_ids@.len(),
{
    let ghost mv = crate::group::twp_view(metadata@);
    let mut r: Vec<Option<Vec<u8>>> = Vec::new();
    let mut i: usize = 0;
    proof {
        assert(opts_view(r@) =~= fetch_plan(mv, topic_ids@.take(0)));
    }
    while i < topic_ids.len()
        invariant
            0 <= i <= topic_ids@.len(),
            mv == crate::group::twp_view(metadata@),
            r@.len() == i,
            opts_view(r@) =~= fetch_plan(mv, topic_ids@.take(i as int)),
        decreases topic_ids@.len() - i,
    {
        let ghost prev = opts_view(r@);
        let id = topic_ids[i];
        let entry = match lookup_topic_by_id(metadata, id) {
            Some(k) => Some(crate::group::clone_bytes(&metadata[k].topic.name)),
            None => None,
        };
        proof {
            assert(opt_view(entry) == (match find_topic_by_id(mv, id) {
                Some(t) => Some(t.topic.name),
                None => None,
            }));
        }
        r.push(entry);
        i = i + 1;
        proof {
            assert(topic_ids@.take(i as int).drop_last() =~= topic_ids@.take(i - 1));
            assert(topic_ids@.take(i as int).last() == topic_ids@[i - 1]);
            let now = opts_view(r@);
            assert forall|k: int| 0 <= k < now.len() implies #[trigger] now[k] == prev.push(
                opt_view(entry),
            )[k] by {
                if k < prev.len() {
                    assert(now[k] == opt_view(r@[k]));
                    assert(prev[k] == opt_view(r@[k]));
                }
            }
            assert(now =~= prev.push(opt_view(entry)));
            assert(now =~= fetch_plan(mv, topic_ids@.take(i as int)));
        }
    }
    proof {
        assert(topic_ids@.take(topic_ids@.len() as int) =~= topic_ids@);
    }
    r
}

/// Finds the position of the first grouped topic with identifier `id`.
pub fn lookup_topic_by_id(
    metadata: &Vec<crate::group::TopicWithPartitions>,
    id: u128,
) -> (r: Option<usize>)
    ensures
        (match r {
            Some(k) => k < metadata@.len() && find_topic_by_id(
                crate::group::twp_view(metadata@),
                id,
            ) == Some(crate::group::twp_view(metadata@)[k as int]),
            None => find_topic_by_id(crate::group::twp_view(metadata@), id) is None,
        }),
{
    let ghost mv = crate::group::twp_view(metadata@);
    let mut k: usize = 0;
    proof {
        assert(mv.skip(0) =~= mv);
    }
    while k < metadata.len()
        invariant
            0 <= k <= metadata@.len(),
            mv == crate::group::twp_view(metadata@),
            mv.len() == metadata@.len(),
            find_topic_by_id(mv, id) == find_topic_by_id(mv.skip(k as int), id),
        decreases metadata@.len() - k,
    {
        proof {
            assert(mv.skip(k as int)[0] == mv[k as int]);
            assert(mv[k as int] == metadata@[k as int]@);
        }
        if metadata[k].topic.uuid == id {
            return Some(k);
        }
        proof {
            assert(mv.skip(k as int).drop_first() =~= mv.skip(k + 1));
        }
        k = k + 1;
    }
    proof {
        assert(mv.skip(k as int) =~= Seq::<crate::group::TopicWithPartitionsM>::empty());
    }
    None
}

/// The encoding of one topic entry of a fetch response: the requested
/// identifier and a single entry for partition 0.  Content read from the
/// log store answers with no error and those exact bytes as the records;
/// an identifier metadata does not hold answers with the unknown-topic-id
/// error 100 and null records.
pub open spec fn enc_fetch_topic(id: u128, c: Option<Seq<u8>>) -> Seq<u8> {
    be_bytes(id as nat, 16) + enc_varint(2) + be_bytes(0, 4) + (match c {
        Some(_) => be_bytes(0, 2),
        None => be_bytes(100, 2),
    }) + be_bytes(u64_of_i64(0i64), 8) + be_bytes(u64_of_i64(0i64), 8) + be_bytes(
        u64_of_i64(0i64),
        8,
    ) + enc_varint(0) + be_bytes(u32_of_i32(-1i32), 4) + enc_compact_bytes(c) + enc_varint(0)
        + enc_varint(0)
}

/// The encodings of all topic entries of a fetch response.
pub open spec fn enc_fetch_topics(ids: Seq<u128>, cs: Seq<Option<Seq<u8>>>) -> Seq<u8>
    decreases ids.len(),
{
    if ids.len() == 0 {
        Seq::empty()
    } else {
        enc_fetch_topics(ids.drop_last(), cs.drop_last()) + enc_fetch_topic(
            ids.last(),
            cs.last(),
        )
    }
}

/// The whole fetch response at version 16: the response header the
/// protocol's table dictates, no throttle, no top-level error, session id
/// 0, one topic entry per requested identifier in request order, and an
/// empty tagged-field section.
pub open spec fn fetch_response(
    cid: i32,
    v: i16,
    ids: Seq<u128>,
    cs: Seq<Option<Seq<u8>>>,
) -> Seq<u8> {
    be_bytes(u32_of_i32(cid), 4) + (if crate::header::resp_header_version_of(1, v) >= 1 {
        enc_varint(0)
    } else {
        Seq::<u8>::empty()
    }) + be_bytes(0, 4) + be_bytes(0, 2) + be_bytes(0, 4) + enc_varint(ids.len() + 1)
        + enc_fetch_topics(ids, cs) + enc_varint(0)
}

/// Appends one topic entry of a fetch response.
fn write_fetch_topic(out: &mut Vec<u8>, id: u128, c: &Option<Vec<u8>>)
    requires
        (c matches Some(b) ==> b@.len() < 0xFFFFFFFF),
    ensures
        final(out)@ =~= old(out)@ + enc_fetch_topic(id, opt_view(*c)),
{
    write_u128(out, id);
    encode_unsigned_varint(out, 2);
    write_u32(out, 0);
    match c {
        Some(_) => write_u16(out, 0),
        None => write_u16(out, 100),
    }
    write_i64(out, 0);
    write_i64(out, 0);
    write_i64(out, 0);
    encode_unsigned_varint(out, 0);
    write_i32(out, -1);
    encode_compact_bytes(out, c);
    encode_unsigned_varint(out, 0);
    encode_unsigned_varint(out, 0);
}

/// Answers a fetch request from the per-topic log contents the caller read
/// along `plan_fetch`: a topic whose content is present answers with those
/// exact bytes as partition 0's records and no error, an absent one with
/// the unknown-topic-id error and null records.
pub fn process_fetch(
    correlation_id: i32,
    api_version: i16,
    topic_ids: &Vec<u128>,
    contents: &Vec<Option<Vec<u8>>>,
) -> (r: Vec<u8>)
    requires
        contents@.len() == topic_ids@.len(),
        topic_ids@.len() + 1 < 0x100000000,
        forall|k: int|
            0 <= k < contents@.len() ==> ((#[trigger] contents@[k]) matches Some(b) ==> b@.len()
                < 0xFFFFFFFF),
    ensures
        r@ == fetch_response(correlation_id, api_version, topic_ids@, opts_view(contents@)),
{
    let ghost cs = opts_view(contents@);
    let mut out: Vec<u8> = Vec::new();
    write_i32(&mut out, correlation_id);
    let known1 = crate::header::lookup_api_key(1);
    let hv: i16 = if known1 {
        crate::header::response_header_version(1, api_version)
    } else {
        0
    };
    if hv >= 1 {
        encode_unsigned_varint(&mut out, 0);
    }
    write_u32(&mut out, 0);
    write_u16(&mut out, 0);
    write_u32(&mut out, 0);
    encode_unsigned_varint(&mut out, (topic_ids.len() as u32) + 1);
    let ghost head = out@;
    proof {
        assert(enc_fetch_topics(topic_ids@.take(0), cs.take(0)) =~= Seq::<u8>::empty());
        assert(out@ =~= head + enc_fetch_topics(topic_ids@.take(0), cs.take(0)));
    }
    let mut i: usize = 0;
    while i < topic_ids.len()
        invariant
            0 <= i <= topic_ids@.len(),
            cs == opts_view(contents@),
            cs.len() == contents@.len(),
            contents@.len() == topic_ids@.len(),
            forall|k: int|
                0 <= k < contents@.len() ==> ((#[trigger] contents@[k]) matches Some(b) ==> b@.len()
                    < 0xFFFFFFFF),
            out@ =~= head + enc_fetch_topics(topic_ids@.take(i as int), cs.take(i as int)),
        decreases topic_ids@.len() - i,
    {
        proof {
            assert(cs[i as int] == opt_view(contents@[i as int]));
            assert(topic_ids@.take(i + 1).drop_last() =~= topic_ids@.take(i as int));
            assert(cs.take(i + 1).drop_last() =~= cs.take(i as int));
            assert(topic_ids@.take(i + 1).last() == topic_ids@[i as int]);
            assert(cs.take(i + 1).last() == cs[i as int]);
        }
        write_fetch_topic(&mut out, topic_ids[i], &contents[i]);
        i = i + 1;
        proof {
            assert(out@ =~= head + enc_fetch_topics(
                topic_ids@.take(i as int),
                cs.take(i as int),
            ));
        }
    }
    encode_unsigned_varint(&mut out, 0);
    proof {
        assert(topic_ids@.take(topic_ids@.len() as int) =~= topic_ids@);
        assert(cs.take(cs.len() as int) =~= cs);
        assert(out@ =~= fetch_response(correlation_id, api_version, topic_ids@, cs));
    }
    out
}


// ---------------------------------------------------------------------------
// The response ordering laws of the topic-description handler
// ---------------------------------------------------------------------------

/// Whether `s` is sorted under `lex_le`.
pub open spec fn sorted_lex(s: Seq<Seq<u8>>) -> bool {
    forall|i: int, j: int| 0 <= i < j < s.len() ==> lex_le(#[trigger] s[i], #[trigger] s[j])
}

/// `lex_le` is total: two names always compare one way or the other.
pub proof fn lemma_lex_le_total(a: Seq<u8>, b: Seq<u8>)
    ensures
        lex_le(a, b) || lex_le(b, a),
    decreases a.len(),
{
    if a.len() > 0 && b.len() > 0 && a[0] == b[0] {
        lemma_lex_le_total(a.drop_first(), b.drop_first());
    }
}

/// `lex_le` is transitive.
pub proof fn lemma_lex_le_trans(a: Seq<u8>, b: Seq<u8>, c: Seq<u8>)
    requires
        lex_le(a, b),
        lex_le(b, c),
    ensures
        lex_le(a, c),
    decreases a.len(),
{
    if a.len() > 0 && b.len() > 0 && c.len() > 0 && a[0] == b[0] && b[0] == c[0] {
        lemma_lex_le_trans(a.drop_first(), b.drop_first(), c.drop_first());
    }
}

proof fn lemma_insert_lex_sorted(s: Seq<Seq<u8>>, x: Seq<u8>)
    requires
        sorted_lex(s),
    ensures
        sorted_lex(insert_lex(s, x)),
    decreases s.len(),
{
    lemma_insert_lex_len(s, x);
    if s.len() == 0 {
    } else if lex_le(x, s[0]) {
        let r = seq![x] + s;
        assert forall|i: int, j: int| 0 <= i < j < r.len() implies lex_le(
            #[trigger] r[i],
            #[trigger] r[j],
        ) by {
            if i == 0 {
                assert(r[0] == x);
                assert(r[j] == s[j - 1]);
                if j > 1 {
                    lemma_lex_le_trans(x, s[0], s[j - 1]);
                }
            } else {
                assert(r[i] == s[i - 1]);
                assert(r[j] == s[j - 1]);
            }
        }
    } else {
        let d = s.drop_first();
        assert forall|i: int, j: int| 0 <= i < j < d.len() implies lex_le(
            #[trigger] d[i],
            #[trigger] d[j],
        ) by {
            assert(d[i] == s[i + 1]);
            assert(d[j] == s[j + 1]);
        }
        lemma_insert_lex_sorted(d, x);
        lemma_insert_lex_mem(d, x);
        lemma_lex_le_total(x, s[0]);
        let ri = insert_lex(d, x);
        let r = seq![s[0]] + ri;
        assert forall|i: int, j: int| 0 <= i < j < r.len() implies lex_le(
            #[trigger] r[i],
            #[trigger] r[j],
        ) by {
            if i == 0 {
                assert(r[j] == ri[j - 1]);
                if ri[j - 1] == x {
                    assert(lex_le(s[0], x));
                } else {
                    assert(d.contains(ri[j - 1]));
                    let w = choose|w: int| 0 <= w < d.len() && d[w] == ri[j - 1];
                    assert(lex_le(s[0], s[w + 1]));
                }
            } else {
                assert(r[i] == ri[i - 1]);
                assert(r[j] == ri[j - 1]);
            }
        }
    }
}

/// The response topics of a topic-description answer come in lexicographic
/// order of their names, whatever order the request gave them in.
pub proof fn lemma_sort_lex_sorted(s: Seq<Seq<u8>>)
    ensures
        sorted_lex(sort_lex(s)),
    decreases s.len(),
{
    if s.len() > 0 {
        lemma_sort_lex_sorted(s.drop_last());
        lemma_insert_lex_sorted(sort_lex(s.drop_last()), s.last());
    }
}

proof fn lemma_insert_lex_multiset(s: Seq<Seq<u8>>, x: Seq<u8>)
    ensures
        insert_lex(s, x).to_multiset() == s.to_multiset().insert(x),
    decreases s.len(),
{
    s.to_multiset_ensures();
    insert_lex(s, x).to_multiset_ensures();
    if s.len() == 0 {
        assert(insert_lex(s, x) =~= Seq::<Seq<u8>>::empty().push(x));
        Seq::<Seq<u8>>::empty().to_multiset_ensures();
        assert(Seq::<Seq<u8>>::empty().to_multiset() =~= Multiset::<Seq<u8>>::empty());
    } else if lex_le(x, s[0]) {
        assert(seq![x] + s =~= s.insert(0, x));
        vstd::seq_lib::lemma_multiset_commutative(seq![x], s);
        seq![x].to_multiset_ensures();
        assert(seq![x] =~= Seq::<Seq<u8>>::empty().push(x));
        Seq::<Seq<u8>>::empty().to_multiset_ensures();
        assert(Seq::<Seq<u8>>::empty().to_multiset() =~= Multiset::<Seq<u8>>::empty());
        assert(seq![x].to_multiset() =~= Multiset::<Seq<u8>>::empty().insert(x));
        assert((seq![x] + s).to_multiset() =~= s.to_multiset().insert(x));
    } else {
        let d = s.drop_first();
        lemma_insert_lex_multiset(d, x);
        vstd::seq_lib::lemma_multiset_commutative(seq![s[0]], insert_lex(d, x));
        vstd::seq_lib::lemma_multiset_commutative(seq![s[0]], d);
        assert(seq![s[0]] + d =~= s);
        seq![s[0]].to_multiset_ensures();
        assert(seq![s[0]] =~= Seq::<Seq<u8>>::empty().push(s[0]));
        Seq::<Seq<u8>>::empty().to_multiset_ensures();
        assert(Seq::<Seq<u8>>::empty().to_multiset() =~= Multiset::<Seq<u8>>::empty());
        assert((seq![s[0]] + insert_lex(d, x)).to_multiset() =~= seq![s[0]].to_multiset().add(
            d.to_multiset().insert(x),
        ));
        assert(s.to_multiset() =~= seq![s[0]].to_multiset().add(d.to_multiset()));
        assert(seq![s[0]].to_multiset().add(d.to_multiset().insert(x)) =~= seq![
            s[0],
        ].to_multiset().add(d.to_multiset()).insert(x));
    }
}

/// Sorting the requested names keeps exactly the names that were asked
/// for: the sorted list is a permutation of the request's list.
pub proof fn lemma_sort_lex_multiset(s: Seq<Seq<u8>>)
    ensures
        sort_lex(s).to_multiset() == s.to_multiset(),
    decreases s.len(),
{
    if s.len() > 0 {
        let d = s.drop_last();
        lemma_sort_lex_multiset(d);
        lemma_insert_lex_multiset(sort_lex(d), s.last());
        d.to_multiset_ensures();
        assert(d.push(s.last()).to_multiset() =~= d.to_multiset().insert(s.last()));
        assert(d.push(s.last()) =~= s);
        assert(s.to_multiset() == d.push(s.last()).to_multiset());
        assert(sort_lex(s) == insert_lex(sort_lex(d), s.last()));
        assert(sort_lex(s).to_multiset() == sort_lex(d).to_multiset().insert(s.last()));
        assert(sort_lex(d).to_multiset().insert(s.last()) == d.to_multiset().insert(s.last()));
    } else {
        assert(s =~= Seq::<Seq<u8>>::empty());
        assert(sort_lex(s) == s);
    }
}

} // verus!
