//! Grouping of decoded metadata records into topics with their partitions.
//! The grouping is keyed by topic identifier in an insertion-ordered map of
//! the `indexmap` crate; first-seen order of identifiers decides the order
//! of the result.  A partition whose topic identifier matches no topic
//! record is dropped silently.

use vstd::prelude::*;

use crate::meta::{Partition, RecordType, RecordTypeM, Topic, TopicM};

verus! {

// ---------------------------------------------------------------------------
// The insertion-ordered index of the indexmap crate, taken on trust
// ---------------------------------------------------------------------------

#[verifier::external_type_specification]
#[verifier::external_body]
#[verifier::reject_recursive_types(K)]
#[verifier::reject_recursive_types(V)]
#[verifier::reject_recursive_types(S)]
pub struct ExIndexMap<K, V, S>(indexmap::IndexMap<K, V, S>);

/// What an insertion-ordered index of positions holds: its (key, value)
/// entries, in insertion order.
pub uninterp spec fn index_entries(m: indexmap::IndexMap<u128, usize>) -> Seq<(u128, usize)>;

/// The value stored under key `k`, when some entry carries that key.
pub open spec fn index_lookup(es: Seq<(u128, usize)>, k: u128) -> Option<usize> {
    if exists|j: int| 0 <= j < es.len() && es[j].0 == k {
        Some(es[choose|j: int| 0 <= j < es.len() && es[j].0 == k].1)
    } else {
        None
    }
}

/// `es` with the value under key `k` replaced by `v`.
pub open spec fn index_store(es: Seq<(u128, usize)>, k: u128, v: usize) -> Seq<(u128, usize)> {
    es.map_values(
        |e: (u128, usize)|
            if e.0 == k {
                (k, v)
            } else {
                e
            },
    )
}

/// Relies on indexmap's `IndexMap::new`: the new map is empty.
#[verifier::external_body]
fn uuid_index_new() -> (m: indexmap::IndexMap<u128, usize>)
    ensures
        index_entries(m) == Seq::<(u128, usize)>::empty(),
{
    indexmap::IndexMap::new()
}

/// Relies on indexmap's `IndexMap::get`: the value under an equivalent key,
/// if one is present.
#[verifier::external_body]
fn uuid_index_get(m: &indexmap::IndexMap<u128, usize>, k: u128) -> (r: Option<usize>)
    ensures
        r == index_lookup(index_entries(*m), k),
{
    m.get(&k).copied()
}

/// Relies on indexmap's `IndexMap::insert`: a present key keeps its place
/// and has its value updated; an absent key is appended last in order.
#[verifier::external_body]
fn uuid_index_insert(m: &mut indexmap::IndexMap<u128, usize>, k: u128, v: usize) -> (r: Option<
    usize,
>)
    ensures
        (match index_lookup(index_entries(*old(m)), k) {
            Some(old_v) => r == Some(old_v) && index_entries(*final(m)) == index_store(
                index_entries(*old(m)),
                k,
                v,
            ),
            None => r is None && index_entries(*final(m)) == index_entries(*old(m)).push((k, v)),
        }),
{
    m.insert(k, v)
}

// ---------------------------------------------------------------------------
// The grouping model
// ---------------------------------------------------------------------------

/// The grouping key a record contributes: a topic record's own identifier,
/// a partition record's back-reference, nothing for the rest.
pub open spec fn rec_key(r: RecordTypeM) -> Option<u128> {
    match r {
        RecordTypeM::TopicValue(t) => Some(t.uuid),
        RecordTypeM::PartitionValue(p) => Some(p.topic_uuid),
        _ => None,
    }
}

/// The distinct topic identifiers of `rs`, in first-seen order.
pub open spec fn seen_uuids(rs: Seq<RecordTypeM>) -> Seq<u128>
    decreases rs.len(),
{
    if rs.len() == 0 {
        Seq::empty()
    } else {
        let s = seen_uuids(rs.drop_last());
        match rec_key(rs.last()) {
            Some(u) => if s.contains(u) {
                s
            } else {
                s.push(u)
            },
            None => s,
        }
    }
}

/// The topic record that owns identifier `u`: the last one in the log, as a
/// later topic record overwrites an earlier one's slot.
pub open spec fn topic_for(rs: Seq<RecordTypeM>, u: u128) -> Option<TopicM>
    decreases rs.len(),
{
    if rs.len() == 0 {
        None
    } else {
        match rs.last() {
            RecordTypeM::TopicValue(t) => if t.uuid == u {
                Some(t)
            } else {
                topic_for(rs.drop_last(), u)
            },
            _ => topic_for(rs.drop_last(), u),
        }
    }
}

/// The partition records whose back-reference is `u`, in log order.
pub open spec fn parts_for(rs: Seq<RecordTypeM>, u: u128) -> Seq<Partition>
    decreases rs.len(),
{
    if rs.len() == 0 {
        Seq::empty()
    } else {
        let rest = parts_for(rs.drop_last(), u);
        match rs.last() {
            RecordTypeM::PartitionValue(p) => if p.topic_uuid == u {
                rest.push(p)
            } else {
                rest
            },
            _ => rest,
        }
    }
}

/// A topic together with its partitions.
pub struct TopicWithPartitions {
    pub topic: Topic,
    pub partitions: Vec<Partition>,
}

/// The mathematical value of a grouped topic.
pub struct TopicWithPartitionsM {
    pub topic: TopicM,
    pub partitions: Seq<Partition>,
}

impl View for TopicWithPartitions {
    type V = TopicWithPartitionsM;

    open spec fn view(&self) -> TopicWithPartitionsM {
        TopicWithPartitionsM { topic: self.topic@, partitions: self.partitions@ }
    }
}

/// The view of a list of grouped topics.
pub open spec fn twp_view(s: Seq<TopicWithPartitions>) -> Seq<TopicWithPartitionsM> {
    s.map_values(|x: TopicWithPartitions| x@)
}

/// The groups for the identifiers `us`, keeping only those that some topic
/// record owns.
pub open spec fn groups_of(rs: Seq<RecordTypeM>, us: Seq<u128>) -> Seq<TopicWithPartitionsM>
    decreases us.len(),
{
    if us.len() == 0 {
        Seq::empty()
    } else {
        let rest = groups_of(rs, us.drop_first());
        match topic_for(rs, us[0]) {
            Some(t) => seq![
                TopicWithPartitionsM { topic: t, partitions: parts_for(rs, us[0]) },
            ] + rest,
            None => rest,
        }
    }
}

/// What grouping a record log yields: one entry per first-seen topic
/// identifier that a topic record owns, carrying that topic and its
/// partitions in log order.
pub open spec fn group_model(rs: Seq<RecordTypeM>) -> Seq<TopicWithPartitionsM> {
    groups_of(rs, seen_uuids(rs))
}

// ---------------------------------------------------------------------------
// The grouping pass
// ---------------------------------------------------------------------------

struct TopicAcc {
    topic: Option<Topic>,
    partitions: Vec<Partition>,
}

/// The view of an accumulator's topic slot.
spec fn opt_topic_view(o: Option<Topic>) -> Option<TopicM> {
    match o {
        Some(t) => Some(t@),
        None => None,
    }
}

impl Clone for Topic {
    /// Clones a topic record, field for field.
    fn clone(&self) -> (r: Self)
        ensures
            r@ == self@,
    {
        Topic { header: self.header, name: clone_bytes(&self.name), uuid: self.uuid }
    }
}

/// Copies a byte vector.
pub fn clone_bytes(v: &Vec<u8>) -> (r: Vec<u8>)
    ensures
        r@ == v@,
{
    let mut r: Vec<u8> = Vec::new();
    let mut i: usize = 0;
    while i < v.len()
        invariant
            0 <= i <= v@.len(),
            r@ =~= v@.subrange(0, i as int),
        decreases v@.len() - i,
    {
        r.push(v[i]);
        i = i + 1;
    }
    proof {
        assert(v@.subrange(0, v@.len() as int) =~= v@);
    }
    r
}

/// Folds a record log into its grouped topics: a topic record fills the
/// slot for its identifier, a partition record joins its identifier's list,
/// and only identifiers whose slot was filled appear in the result, in
/// first-seen order.
pub fn group_topics(records: Vec<RecordType>) -> (r: Vec<TopicWithPartitions>)
    ensures
        twp_view(r@) == group_model(crate::meta::records_view(records@)),
{
    let ghost rv = crate::meta::records_view(records@);
    let mut index = uuid_index_new();
    let mut accs: Vec<TopicAcc> = Vec::new();
    let mut i: usize = 0;
    proof {
        assert(rv.take(0) =~= Seq::<RecordTypeM>::empty());
    }
    while i < records.len()
        invariant
            0 <= i <= records@.len(),
            rv == crate::meta::records_view(records@),
            rv.len() == records@.len(),
            index_entries(index).len() == accs@.len(),
            forall|j: int|
                0 <= j < accs@.len() ==> (#[trigger] index_entries(index)[j]).1 == j,
            forall|j1: int, j2: int|
                0 <= j1 < j2 < accs@.len() ==> index_entries(index)[j1].0 != index_entries(
                    index,
                )[j2].0,
            seen_uuids(rv.take(i as int)) =~= index_entries(index).map_values(
                |e: (u128, usize)| e.0,
            ),
            forall|j: int|
                0 <= j < accs@.len() ==> opt_topic_view(#[trigger] accs@[j].topic) == topic_for(
                    rv.take(i as int),
                    index_entries(index)[j].0,
                ),
            forall|j: int|
                0 <= j < accs@.len() ==> (#[trigger] accs@[j].partitions)@ == parts_for(
                    rv.take(i as int),
                    index_entries(index)[j].0,
                ),
        decreases records@.len() - i,
    {
        let ghost es_old = index_entries(index);
        let ghost accs_old = accs@;
        let ghost prefix = rv.take(i as int);
        let ghost prefix1 = rv.take(i + 1);
        let ghost keys_old = es_old.map_values(|e: (u128, usize)| e.0);
        proof {
            assert(prefix1.drop_last() =~= prefix);
            assert(prefix1 =~= prefix.push(rv[i as int]));
            assert(rv[i as int] == records@[i as int]@);
            lemma_group_step(prefix, rv[i as int], es_old);
        }
        let r = &records[i];
        match r {
            RecordType::TopicValue(t) => {
                proof {
                    assert(rv[i as int] == RecordTypeM::TopicValue(t@));
                }
                let u = t.uuid;
                match uuid_index_get(&index, u) {
                    Some(j) => {
                        proof {
                            let jw = choose|jj: int|
                                0 <= jj < es_old.len() && es_old[jj].0 == u;
                            assert(es_old[jw].1 == jw);
                            assert(j == jw);
                            assert(es_old[j as int].0 == u);
                            assert(keys_old[j as int] == u);
                            assert(keys_old.contains(u));
                            assert(seen_uuids(prefix1) == seen_uuids(prefix));
                        }
                        let nt = t.clone();
                        accs[j].topic = Some(nt);
                        proof {
                            assert(accs@[j as int].topic == Some(nt));
                            assert(accs@[j as int].partitions == accs_old[j as int].partitions);
                            assert forall|jj: int| 0 <= jj < accs@.len() implies {
                                &&& opt_topic_view(#[trigger] accs@[jj].topic) == topic_for(
                                    prefix1,
                                    es_old[jj].0,
                                )
                                &&& accs@[jj].partitions@ == parts_for(prefix1, es_old[jj].0)
                            } by {
                                if jj != j as int {
                                    assert(es_old[jj].0 != u);
                                    assert(accs@[jj] == accs_old[jj]);
                                }
                            }
                        }
                    },
                    None => {
                        proof {
                            assert(forall|jj: int|
                                0 <= jj < es_old.len() ==> (#[trigger] es_old[jj]).0 != u);
                            assert forall|jj: int| 0 <= jj < keys_old.len() implies #[trigger]
                                keys_old[jj] != u by {
                                assert(keys_old[jj] == es_old[jj].0);
                            }
                            assert(!keys_old.contains(u));
                            assert(!seen_uuids(prefix).contains(u));
                            lemma_unseen(prefix, u);
                        }
                        let nt = t.clone();
                        let pos = accs.len();
                        uuid_index_insert(&mut index, u, pos);
                        accs.push(TopicAcc { topic: Some(nt), partitions: Vec::new() });
                        proof {
                            let es_new = index_entries(index);
                            assert(es_new == es_old.push((u, pos)));
                            assert(seen_uuids(prefix1) == seen_uuids(prefix).push(u));
                            let keys_new = es_new.map_values(|e: (u128, usize)| e.0);
                            assert forall|jj: int| 0 <= jj < es_new.len() implies #[trigger]
                                keys_new[jj] == seen_uuids(prefix1)[jj] by {
                                if jj < es_old.len() {
                                    assert(es_new[jj] == es_old[jj]);
                                    assert(keys_old[jj] == es_old[jj].0);
                                }
                            }
                            assert(seen_uuids(prefix1) =~= keys_new);
                            assert forall|jj: int| 0 <= jj < accs@.len() implies {
                                &&& opt_topic_view(#[trigger] accs@[jj].topic) == topic_for(
                                    prefix1,
                                    es_new[jj].0,
                                )
                                &&& accs@[jj].partitions@ == parts_for(prefix1, es_new[jj].0)
                            } by {
                                if jj < accs_old.len() {
                                    assert(accs@[jj] == accs_old[jj]);
                                    assert(es_new[jj] == es_old[jj]);
                                    assert(es_old[jj].0 != u);
                                } else {
                                    assert(accs@[jj].topic == Some(nt));
                                    assert(es_new[jj].0 == u);
                                    assert(parts_for(prefix, u) =~= Seq::<Partition>::empty());
                                    assert(accs@[jj].partitions@ =~= Seq::<Partition>::empty());
                                }
                            }
                        }
                    },
                }
            },
            RecordType::PartitionValue(p) => {
                proof {
                    assert(rv[i as int] == RecordTypeM::PartitionValue(*p));
                }
                let u = p.topic_uuid;
                match uuid_index_get(&index, u) {
                    Some(j) => {
                        proof {
                            let jw = choose|jj: int|
                                0 <= jj < es_old.len() && es_old[jj].0 == u;
                            assert(es_old[jw].1 == jw);
                            assert(j == jw);
                            assert(es_old[j as int].0 == u);
                            assert(keys_old[j as int] == u);
                            assert(keys_old.contains(u));
                            assert(seen_uuids(prefix1) == seen_uuids(prefix));
                        }
                        accs[j].partitions.push(*p);
                        proof {
                            assert(accs@[j as int].topic == accs_old[j as int].topic);
                            assert(accs@[j as int].partitions@ == accs_old[j as int].partitions@.push(
                                *p,
                            ));
                            assert forall|jj: int| 0 <= jj < accs@.len() implies {
                                &&& opt_topic_view(#[trigger] accs@[jj].topic) == topic_for(
                                    prefix1,
                                    es_old[jj].0,
                                )
                                &&& accs@[jj].partitions@ == parts_for(prefix1, es_old[jj].0)
                            } by {
                                if jj != j as int {
                                    assert(es_old[jj].0 != u);
                                    assert(accs@[jj] == accs_old[jj]);
                                }
                            }
                        }
                    },
                    None => {
                        proof {
                            assert(forall|jj: int|
                                0 <= jj < es_old.len() ==> (#[trigger] es_old[jj]).0 != u);
                            assert forall|jj: int| 0 <= jj < keys_old.len() implies #[trigger]
                                keys_old[jj] != u by {
                                assert(keys_old[jj] == es_old[jj].0);
                            }
                            assert(!keys_old.contains(u));
                            assert(!seen_uuids(prefix).contains(u));
                            lemma_unseen(prefix, u);
                        }
                        let pos = accs.len();
                        uuid_index_insert(&mut index, u, pos);
                        let mut ps: Vec<Partition> = Vec::new();
                        ps.push(*p);
                        accs.push(TopicAcc { topic: None, partitions: ps });
                        proof {
                            let es_new = index_entries(index);
                            assert(es_new == es_old.push((u, pos)));
                            assert(seen_uuids(prefix1) == seen_uuids(prefix).push(u));
                            let keys_new = es_new.map_values(|e: (u128, usize)| e.0);
                            assert forall|jj: int| 0 <= jj < es_new.len() implies #[trigger]
                                keys_new[jj] == seen_uuids(prefix1)[jj] by {
                                if jj < es_old.len() {
                                    assert(es_new[jj] == es_old[jj]);
                                    assert(keys_old[jj] == es_old[jj].0);
                                }
                            }
                            assert(seen_uuids(prefix1) =~= keys_new);
                            assert forall|jj: int| 0 <= jj < accs@.len() implies {
                                &&& opt_topic_view(#[trigger] accs@[jj].topic) == topic_for(
                                    prefix1,
                                    es_new[jj].0,
                                )
                                &&& accs@[jj].partitions@ == parts_for(prefix1, es_new[jj].0)
                            } by {
                                if jj < accs_old.len() {
                                    assert(accs@[jj] == accs_old[jj]);
                                    assert(es_new[jj] == es_old[jj]);
                                    assert(es_old[jj].0 != u);
                                } else {
                                    assert(accs@[jj].topic is None);
                                    assert(es_new[jj].0 == u);
                                    assert(topic_for(prefix, u) is None);
                                    assert(parts_for(prefix, u) =~= Seq::<Partition>::empty());
                                    assert(accs@[jj].partitions@ =~= Seq::<Partition>::empty().push(
                                        *p,
                                    ));
                                }
                            }
                        }
                    },
                }
            },
            _ => {
                proof {
                    assert(rec_key(rv[i as int]) is None);
                    assert(seen_uuids(prefix1) == seen_uuids(prefix));
                }
            },
        }
        i = i + 1;
        proof {
            assert(rv.take(i as int) == prefix1);
        }
    }
    proof {
        assert(rv.take(rv.len() as int) =~= rv);
    }
    let ghost es = index_entries(index);
    let ghost accs_full = accs@;
    let mut out: Vec<TopicWithPartitions> = Vec::new();
    let mut j: usize = 0;
    let n = accs.len();
    proof {
        assert(es.map_values(|e: (u128, usize)| e.0).skip(0) =~= es.map_values(
            |e: (u128, usize)| e.0,
        ));
        assert(twp_view(out@) =~= Seq::<TopicWithPartitionsM>::empty());
    }
    while j < n
        invariant
            0 <= j <= n,
            n == accs_full.len(),
            es.len() == n,
            accs@ =~= accs_full.skip(j as int),
            seen_uuids(rv) =~= es.map_values(|e: (u128, usize)| e.0),
            forall|k: int|
                0 <= k < n ==> opt_topic_view(#[trigger] accs_full[k].topic) == topic_for(
                    rv,
                    es[k].0,
                ),
            forall|k: int|
                0 <= k < n ==> (#[trigger] accs_full[k].partitions)@ == parts_for(rv, es[k].0),
            twp_view(out@) + groups_of(
                rv,
                es.map_values(|e: (u128, usize)| e.0).skip(j as int),
            ) =~= group_model(rv),
        decreases n - j,
    {
        let ghost us_j = es.map_values(|e: (u128, usize)| e.0).skip(j as int);
        proof {
            assert(us_j[0] == es[j as int].0);
            assert(us_j.drop_first() =~= es.map_values(|e: (u128, usize)| e.0).skip(j + 1));
            assert(accs_full.skip(j as int)[0] == accs_full[j as int]);
        }
        let ghost prev_out = out@;
        let acc = accs.remove(0);
        match acc.topic {
            Some(t) => {
                out.push(TopicWithPartitions { topic: t, partitions: acc.partitions });
                proof {
                    assert(twp_view(out@) =~= twp_view(prev_out).push(out@.last()@));
                }
            },
            None => {},
        }
        j = j + 1;
        proof {
            assert(accs@ =~= accs_full.skip(j as int));
        }
    }
    proof {
        assert(es.map_values(|e: (u128, usize)| e.0).skip(n as int)
            =~= Seq::<u128>::empty());
        assert(twp_view(out@) =~= group_model(rv));
    }
    out
}


/// An identifier that the seen list does not hold was contributed by no
/// record: no topic record owns it and no partition record references it.
proof fn lemma_unseen(rs: Seq<RecordTypeM>, u: u128)
    requires
        !seen_uuids(rs).contains(u),
    ensures
        topic_for(rs, u) is None,
        parts_for(rs, u) =~= Seq::<Partition>::empty(),
    decreases rs.len(),
{
    if rs.len() > 0 {
        let s = seen_uuids(rs.drop_last());
        assert(!s.contains(u)) by {
            match rec_key(rs.last()) {
                Some(w) => {
                    if s.contains(w) {
                        assert(seen_uuids(rs) == s);
                    } else {
                        assert(seen_uuids(rs) == s.push(w));
                        assert forall|j: int| 0 <= j < s.len() implies s[j] != u by {
                            assert(seen_uuids(rs)[j] == s[j]);
                            assert(!seen_uuids(rs).contains(u));
                        }
                    }
                },
                None => {
                    assert(seen_uuids(rs) == s);
                },
            }
        }
        lemma_unseen(rs.drop_last(), u);
        match rec_key(rs.last()) {
            Some(w) => {
                assert(w != u) by {
                    if w == u {
                        if s.contains(u) {
                        } else {
                            assert(seen_uuids(rs) == s.push(u));
                            assert(seen_uuids(rs).last() == u);
                            assert(seen_uuids(rs).contains(u));
                        }
                    }
                }
            },
            None => {},
        }
    }
}

/// One grouping step: how the seen identifiers, the owning topic and the
/// partition lists change when one more record is taken in.
proof fn lemma_group_step(prefix: Seq<RecordTypeM>, r: RecordTypeM, es: Seq<(u128, usize)>)
    ensures
        (seen_uuids(prefix.push(r)) == (match rec_key(r) {
            Some(u) => if seen_uuids(prefix).contains(u) {
                seen_uuids(prefix)
            } else {
                seen_uuids(prefix).push(u)
            },
            None => seen_uuids(prefix),
        })),
        forall|u: u128|
            #[trigger] topic_for(prefix.push(r), u) == (match r {
                RecordTypeM::TopicValue(t) => if t.uuid == u {
                    Some(t)
                } else {
                    topic_for(prefix, u)
                },
                _ => topic_for(prefix, u),
            }),
        forall|u: u128|
            #[trigger] parts_for(prefix.push(r), u) == (match r {
                RecordTypeM::PartitionValue(p) => if p.topic_uuid == u {
                    parts_for(prefix, u).push(p)
                } else {
                    parts_for(prefix, u)
                },
                _ => parts_for(prefix, u),
            }),
{
    let w = prefix.push(r);
    assert(w.drop_last() =~= prefix);
    assert(w.last() == r);
}

// ---------------------------------------------------------------------------
// Orphaned partitions never reach the grouped result
// ---------------------------------------------------------------------------

/// Whether `r` is a topic record owning identifier `u`.
pub open spec fn is_topic_with(r: RecordTypeM, u: u128) -> bool {
    match r {
        RecordTypeM::TopicValue(t) => t.uuid == u,
        _ => false,
    }
}

/// The topic that `topic_for` finds for `u` carries identifier `u`.
proof fn lemma_topic_for_uuid(rs: Seq<RecordTypeM>, u: u128)
    ensures
        (match topic_for(rs, u) {
            Some(t) => t.uuid == u,
            None => true,
        }),
    decreases rs.len(),
{
    if rs.len() > 0 {
        lemma_topic_for_uuid(rs.drop_last(), u);
    }
}

/// Without a topic record for `u`, `topic_for` finds nothing.
proof fn lemma_topic_for_none(rs: Seq<RecordTypeM>, u: u128)
    requires
        forall|i: int| 0 <= i < rs.len() ==> !is_topic_with(#[trigger] rs[i], u),
    ensures
        topic_for(rs, u) is None,
    decreases rs.len(),
{
    if rs.len() > 0 {
        assert(!is_topic_with(rs.last(), u));
        lemma_topic_for_none(rs.drop_last(), u);
    }
}

proof fn lemma_groups_exclude(rs: Seq<RecordTypeM>, us: Seq<u128>, u: u128)
    requires
        topic_for(rs, u) is None,
    ensures
        forall|j: int|
            0 <= j < groups_of(rs, us).len() ==> (#[trigger] groups_of(rs, us)[j]).topic.uuid != u,
    decreases us.len(),
{
    if us.len() > 0 {
        lemma_groups_exclude(rs, us.drop_first(), u);
        lemma_topic_for_uuid(rs, us[0]);
        let rest = groups_of(rs, us.drop_first());
        match topic_for(rs, us[0]) {
            Some(t) => {
                assert(t.uuid == us[0]);
                assert(t.uuid != u);
                assert forall|j: int| 0 <= j < groups_of(rs, us).len() implies (#[trigger]
                    groups_of(rs, us)[j]).topic.uuid != u by {
                    if j > 0 {
                        assert(groups_of(rs, us)[j] == rest[j - 1]);
                    }
                }
            },
            None => {
                assert(groups_of(rs, us) == rest);
            },
        }
    }
}

/// A partition record whose topic identifier `u` matches no topic record is
/// excluded from the grouped result: no group carries `u`, so none carries
/// that partition.
pub proof fn lemma_orphan_partition_excluded(rs: Seq<RecordTypeM>, u: u128)
    requires
        forall|i: int| 0 <= i < rs.len() ==> !is_topic_with(#[trigger] rs[i], u),
    ensures
        forall|j: int|
            0 <= j < group_model(rs).len() ==> (#[trigger] group_model(rs)[j]).topic.uuid != u,
{
    lemma_topic_for_none(rs, u);
    lemma_groups_exclude(rs, seen_uuids(rs), u);
}

} // verus!
