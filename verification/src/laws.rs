//! Round-trip laws for the response encoders: spec-level readers for the
//! responses this broker emits, and proofs that reading an encoded answer
//! back recovers exactly what the handler promised to put in it.

use vstd::prelude::*;

use crate::codec::{be_bytes, be_nat, u16_of_i16, u32_of_i32, u64_of_i64};
use crate::handlers::{
    advertised_api_keys, api_versions_response, enc_api_key_entry, enc_dtp_partition,
    enc_dtp_partitions, enc_dtp_topic, enc_dtp_topics, enc_fetch_topic, enc_fetch_topics,
    dtp_response, fetch_response, find_topic, sort_lex, sort_parts,
};
use crate::DecodeError;

verus! {

// ---------------------------------------------------------------------------
// Reading a capability-negotiation response back
// ---------------------------------------------------------------------------

/// The mathematical value of a capability-negotiation response.
pub struct ApiVersionsRespM {
    pub correlation_id: i32,
    pub error_code: i16,
    pub api_keys: Seq<(i16, i16, i16)>,
    pub throttle_ms: Option<i32>,
}

/// Parses one advertised triple; flexible versions carry a tagged-field
/// section after it.
#[verifier::opaque]
pub open spec fn sp_api_entry(s: Seq<u8>, pos: int, flexible: bool) -> Result<
    ((i16, i16, i16), int),
    DecodeError,
> {
    if pos < 0 || pos + 6 > s.len() {
        Err(DecodeError::Truncated)
    } else {
        let e = (
            crate::header::sp_i16_at(s, pos),
            crate::header::sp_i16_at(s, pos + 2),
            crate::header::sp_i16_at(s, pos + 4),
        );
        if flexible {
            match crate::header::sp_tag_buffer(s, pos + 6) {
                Err(e2) => Err(e2),
                Ok(p) => Ok((e, p)),
            }
        } else {
            Ok((e, pos + 6))
        }
    }
}

/// Parses `n` advertised triples, front to back.
pub open spec fn sp_api_entries(s: Seq<u8>, pos: int, n: nat, flexible: bool) -> Result<
    (Seq<(i16, i16, i16)>, int),
    DecodeError,
>
    decreases n,
{
    if n == 0 {
        Ok((Seq::empty(), pos))
    } else {
        match sp_api_entry(s, pos, flexible) {
            Err(e) => Err(e),
            Ok((x, p)) => match sp_api_entries(s, p, (n - 1) as nat, flexible) {
                Err(e) => Err(e),
                Ok((xs, p2)) => Ok((seq![x] + xs, p2)),
            },
        }
    }
}

/// Parses a whole capability-negotiation response at version `v` and
/// demands that it ends exactly where the buffer does.
#[verifier::opaque]
pub open spec fn sp_api_versions_response(s: Seq<u8>, v: i16) -> Result<
    ApiVersionsRespM,
    DecodeError,
> {
    if s.len() < 6 {
        Err(DecodeError::Truncated)
    } else {
        let cid = crate::header::sp_i32_at(s, 0);
        let err = crate::header::sp_i16_at(s, 4);
        if 3 <= v <= 4 {
            match crate::codec::sp_varint(s, 6) {
                Err(e) => Err(e),
                Ok((c, p)) => if c == 0 {
                    Err(DecodeError::InvalidLength)
                } else {
                    match sp_api_entries(s, p, (c - 1) as nat, true) {
                        Err(e) => Err(e),
                        Ok((ks, p2)) => if p2 + 4 > s.len() {
                            Err(DecodeError::Truncated)
                        } else {
                            match crate::header::sp_tag_buffer(s, p2 + 4) {
                                Err(e) => Err(e),
                                Ok(p3) => if p3 == s.len() {
                                    Ok(
                                        ApiVersionsRespM {
                                            correlation_id: cid,
                                            error_code: err,
                                            api_keys: ks,
                                            throttle_ms: Some(crate::header::sp_i32_at(s, p2)),
                                        },
                                    )
                                } else {
                                    Err(DecodeError::InvalidLength)
                                },
                            }
                        },
                    }
                },
            }
        } else {
            if s.len() < 10 {
                Err(DecodeError::Truncated)
            } else {
                let n = be_nat(s, 6, 4);
                if n >= 0x80000000 {
                    Err(DecodeError::InvalidLength)
                } else {
                    match sp_api_entries(s, 10, n, false) {
                        Err(e) => Err(e),
                        Ok((ks, p2)) => if v >= 1 {
                            if p2 + 4 > s.len() {
                                Err(DecodeError::Truncated)
                            } else if p2 + 4 != s.len() {
                                Err(DecodeError::InvalidLength)
                            } else {
                                Ok(
                                    ApiVersionsRespM {
                                        correlation_id: cid,
                                        error_code: err,
                                        api_keys: ks,
                                        throttle_ms: Some(crate::header::sp_i32_at(s, p2)),
                                    },
                                )
                            }
                        } else {
                            if p2 == s.len() {
                                Ok(
                                    ApiVersionsRespM {
                                        correlation_id: cid,
                                        error_code: err,
                                        api_keys: ks,
                                        throttle_ms: None,
                                    },
                                )
                            } else {
                                Err(DecodeError::InvalidLength)
                            }
                        },
                    }
                }
            }
        }
    }
}

/// The signed reading of a 16-bit wire value inverts the unsigned writing.
pub proof fn lemma_signed16_inverse(x: i16)
    ensures
        crate::codec::signed_of(u16_of_i16(x), 2) as i16 == x,
{
    crate::codec::lemma_pow256_values();
}

/// The signed reading of a 32-bit wire value inverts the unsigned writing.
pub proof fn lemma_signed32_inverse(x: i32)
    ensures
        crate::codec::signed_of(u32_of_i32(x), 4) as i32 == x,
{
    crate::codec::lemma_pow256_values();
}

/// An encoded advertised triple reads back as itself.
proof fn lemma_api_entry_roundtrip(s: Seq<u8>, pos: int, k: i16, min: i16, max: i16, flexible: bool)
    requires
        0 <= pos,
        pos + enc_api_key_entry(k, min, max, flexible).len() <= s.len(),
        s.subrange(pos, pos + enc_api_key_entry(k, min, max, flexible).len())
            =~= enc_api_key_entry(k, min, max, flexible),
    ensures
        enc_api_key_entry(k, min, max, flexible).len() == (if flexible { 7int } else { 6int }),
        sp_api_entry(s, pos, flexible) == Ok::<((i16, i16, i16), int), DecodeError>((
            (k, min, max),
            pos + enc_api_key_entry(k, min, max, flexible).len(),
        )),
{
    reveal(sp_api_entry);
    crate::codec::lemma_pow256_values();
    crate::codec::lemma_be_bytes_len(u16_of_i16(k), 2);
    crate::codec::lemma_be_bytes_len(u16_of_i16(min), 2);
    crate::codec::lemma_be_bytes_len(u16_of_i16(max), 2);
    let e = enc_api_key_entry(k, min, max, flexible);
    let tail = if flexible {
        seq![0u8]
    } else {
        Seq::<u8>::empty()
    };
    let bk = be_bytes(u16_of_i16(k), 2);
    let bmin = be_bytes(u16_of_i16(min), 2);
    let bmax = be_bytes(u16_of_i16(max), 2);
    assert(e =~= bk + (bmin + (bmax + tail)));
    crate::codec::lemma_subrange_split(s, pos, bk, bmin + (bmax + tail));
    crate::codec::lemma_subrange_split(s, pos + 2, bmin, bmax + tail);
    crate::codec::lemma_subrange_split(s, pos + 4, bmax, tail);
    crate::codec::lemma_be_roundtrip(s, pos, u16_of_i16(k), 2);
    crate::codec::lemma_be_roundtrip(s, pos + 2, u16_of_i16(min), 2);
    crate::codec::lemma_be_roundtrip(s, pos + 4, u16_of_i16(max), 2);
    lemma_signed16_inverse(k);
    lemma_signed16_inverse(min);
    lemma_signed16_inverse(max);
    if flexible {
        assert(s.subrange(pos + 6, pos + 7) =~= seq![0u8]);
        assert(s.subrange(pos + 6, pos + 7)[0] == 0u8);
        assert(s[pos + 6] == 0);
        assert(crate::header::sp_tag_buffer(s, pos + 6) == Ok::<int, DecodeError>(pos + 7));
    }
}

/// The advertised-range case of the capability-negotiation round trip.
#[verifier::rlimit(100)]
#[verifier::spinoff_prover]
proof fn lemma_api_versions_roundtrip_flex(cid: i32, v: i16)
    requires
        3 <= v <= 4,
    ensures
        sp_api_versions_response(api_versions_response(cid, v), v) == Ok::<
            ApiVersionsRespM,
            DecodeError,
        >(
            ApiVersionsRespM {
                correlation_id: cid,
                error_code: 0,
                api_keys: advertised_api_keys(),
                throttle_ms: if v >= 1 {
                    Some(0)
                } else {
                    None
                },
            },
        ),
{
    reveal(sp_api_versions_response);
    crate::codec::lemma_pow256_values();
    let s = api_versions_response(cid, v);
    let bcid = be_bytes(u32_of_i32(cid), 4);
    crate::codec::lemma_be_bytes_len(u32_of_i32(cid), 4);
    let flexible = true;
    let e18 = enc_api_key_entry(18, 0, 4, flexible);
    let e75 = enc_api_key_entry(75, 0, 0, flexible);
    let e1 = enc_api_key_entry(1, 0, 16, flexible);
    let e0 = enc_api_key_entry(0, 0, 11, flexible);
    let arr = if flexible {
        crate::codec::enc_varint(5)
    } else {
        be_bytes(4, 4)
    };
    let throttle = if v >= 1 {
        be_bytes(0, 4)
    } else {
        Seq::<u8>::empty()
    };
    let tail = if flexible {
        seq![0u8]
    } else {
        Seq::<u8>::empty()
    };
    let berr = be_bytes(0, 2);
    crate::codec::lemma_be_bytes_len(0, 2);
    crate::codec::lemma_be_bytes_len(4, 4);
    crate::codec::lemma_be_bytes_len(0, 4);
    let el: int = if flexible {
        7
    } else {
        6
    };
    assert(e18.len() == el && e75.len() == el && e1.len() == el && e0.len() == el) by {
        crate::codec::lemma_be_bytes_len(u16_of_i16(18), 2);
        crate::codec::lemma_be_bytes_len(u16_of_i16(0), 2);
        crate::codec::lemma_be_bytes_len(u16_of_i16(4), 2);
        crate::codec::lemma_be_bytes_len(u16_of_i16(75), 2);
        crate::codec::lemma_be_bytes_len(u16_of_i16(1), 2);
        crate::codec::lemma_be_bytes_len(u16_of_i16(16), 2);
        crate::codec::lemma_be_bytes_len(u16_of_i16(11), 2);
    }
    assert(arr.len() == (if flexible { 1int } else { 4int })) by {
        if flexible {
            assert(crate::codec::enc_varint(5) =~= seq![5u8]);
        }
    }
    assert(s =~= bcid + (berr + (arr + (e18 + (e75 + (e1 + (e0 + (throttle + tail))))))));
    assert(s.subrange(0, s.len() as int) =~= s);
    crate::codec::lemma_subrange_split(s, 0, bcid, berr + (arr + (e18 + (e75 + (e1 + (e0 + (
    throttle + tail)))))));
    crate::codec::lemma_subrange_split(s, 4, berr, arr + (e18 + (e75 + (e1 + (e0 + (throttle
        + tail))))));
    crate::codec::lemma_subrange_split(s, 6, arr, e18 + (e75 + (e1 + (e0 + (throttle + tail)))));
    let p0: int = 6 + arr.len() as int;
    crate::codec::lemma_subrange_split(s, p0, e18, e75 + (e1 + (e0 + (throttle + tail))));
    crate::codec::lemma_subrange_split(s, p0 + el, e75, e1 + (e0 + (throttle + tail)));
    crate::codec::lemma_subrange_split(s, p0 + 2 * el, e1, e0 + (throttle + tail));
    crate::codec::lemma_subrange_split(s, p0 + 3 * el, e0, throttle + tail);
    crate::codec::lemma_be_roundtrip(s, 0, u32_of_i32(cid), 4);
    lemma_signed32_inverse(cid);
    crate::codec::lemma_be_roundtrip(s, 4, 0, 2);
    lemma_signed16_inverse(0);
    lemma_api_entry_roundtrip(s, p0, 18, 0, 4, flexible);
    lemma_api_entry_roundtrip(s, p0 + el, 75, 0, 0, flexible);
    lemma_api_entry_roundtrip(s, p0 + 2 * el, 1, 0, 16, flexible);
    lemma_api_entry_roundtrip(s, p0 + 3 * el, 0, 0, 11, flexible);
    let pend: int = p0 + 4 * el;
    lemma_api_entries_assemble(s, p0, el, flexible, pend);
    if flexible {
        assert(s[6] == 5) by {
            assert(crate::codec::enc_varint(5) =~= seq![5u8]);
            assert(s.subrange(6, 7) =~= seq![5u8]);
            assert(s.subrange(6, 7)[0] == 5u8);
        }
        assert(crate::codec::sp_varint(s, 6) == Ok::<(u32, int), DecodeError>((5, 7)));
        crate::codec::lemma_subrange_split(s, pend, throttle, tail);
        crate::codec::lemma_be_roundtrip(s, pend, 0, 4);
        lemma_signed32_inverse(0);
        assert(s.subrange(pend + 4, pend + 5) =~= seq![0u8]);
        assert(s.subrange(pend + 4, pend + 5)[0] == 0u8);
        assert(s[pend + 4] == 0);
        assert(crate::header::sp_tag_buffer(s, pend + 4) == Ok::<int, DecodeError>(pend + 5));
        assert(pend + 5 == s.len());
    } else {
        crate::codec::lemma_be_roundtrip(s, 6, 4, 4);
        if v >= 1 {
            crate::codec::lemma_subrange_split(s, pend, throttle, tail);
            crate::codec::lemma_be_roundtrip(s, pend, 0, 4);
            lemma_signed32_inverse(0);
            assert(pend + 4 == s.len());
        } else {
            assert(pend == s.len());
        }
    }
}

/// The advertised-range, fixed-framing case of the round trip.
#[verifier::rlimit(100)]
#[verifier::spinoff_prover]
proof fn lemma_api_versions_roundtrip_plain(cid: i32, v: i16)
    requires
        0 <= v <= 2,
    ensures
        sp_api_versions_response(api_versions_response(cid, v), v) == Ok::<
            ApiVersionsRespM,
            DecodeError,
        >(
            ApiVersionsRespM {
                correlation_id: cid,
                error_code: 0,
                api_keys: advertised_api_keys(),
                throttle_ms: if v >= 1 {
                    Some(0)
                } else {
                    None
                },
            },
        ),
{
    reveal(sp_api_versions_response);
    crate::codec::lemma_pow256_values();
    let s = api_versions_response(cid, v);
    let bcid = be_bytes(u32_of_i32(cid), 4);
    crate::codec::lemma_be_bytes_len(u32_of_i32(cid), 4);
    let flexible = false;
    let e18 = enc_api_key_entry(18, 0, 4, flexible);
    let e75 = enc_api_key_entry(75, 0, 0, flexible);
    let e1 = enc_api_key_entry(1, 0, 16, flexible);
    let e0 = enc_api_key_entry(0, 0, 11, flexible);
    let arr = if flexible {
        crate::codec::enc_varint(5)
    } else {
        be_bytes(4, 4)
    };
    let throttle = if v >= 1 {
        be_bytes(0, 4)
    } else {
        Seq::<u8>::empty()
    };
    let tail = if flexible {
        seq![0u8]
    } else {
        Seq::<u8>::empty()
    };
    let berr = be_bytes(0, 2);
    crate::codec::lemma_be_bytes_len(0, 2);
    crate::codec::lemma_be_bytes_len(4, 4);
    crate::codec::lemma_be_bytes_len(0, 4);
    let el: int = if flexible {
        7
    } else {
        6
    };
    assert(e18.len() == el && e75.len() == el && e1.len() == el && e0.len() == el) by {
        crate::codec::lemma_be_bytes_len(u16_of_i16(18), 2);
        crate::codec::lemma_be_bytes_len(u16_of_i16(0), 2);
        crate::codec::lemma_be_bytes_len(u16_of_i16(4), 2);
        crate::codec::lemma_be_bytes_len(u16_of_i16(75), 2);
        crate::codec::lemma_be_bytes_len(u16_of_i16(1), 2);
        crate::codec::lemma_be_bytes_len(u16_of_i16(16), 2);
        crate::codec::lemma_be_bytes_len(u16_of_i16(11), 2);
    }
    assert(arr.len() == (if flexible { 1int } else { 4int })) by {
        if flexible {
            assert(crate::codec::enc_varint(5) =~= seq![5u8]);
        }
    }
    assert(s =~= bcid + (berr + (arr + (e18 + (e75 + (e1 + (e0 + (throttle + tail))))))));
    assert(s.subrange(0, s.len() as int) =~= s);
    crate::codec::lemma_subrange_split(s, 0, bcid, berr + (arr + (e18 + (e75 + (e1 + (e0 + (
    throttle + tail)))))));
    crate::codec::lemma_subrange_split(s, 4, berr, arr + (e18 + (e75 + (e1 + (e0 + (throttle
        + tail))))));
    crate::codec::lemma_subrange_split(s, 6, arr, e18 + (e75 + (e1 + (e0 + (throttle + tail)))));
    let p0: int = 6 + arr.len() as int;
    crate::codec::lemma_subrange_split(s, p0, e18, e75 + (e1 + (e0 + (throttle + tail))));
    crate::codec::lemma_subrange_split(s, p0 + el, e75, e1 + (e0 + (throttle + tail)));
    crate::codec::lemma_subrange_split(s, p0 + 2 * el, e1, e0 + (throttle + tail));
    crate::codec::lemma_subrange_split(s, p0 + 3 * el, e0, throttle + tail);
    crate::codec::lemma_be_roundtrip(s, 0, u32_of_i32(cid), 4);
    lemma_signed32_inverse(cid);
    crate::codec::lemma_be_roundtrip(s, 4, 0, 2);
    lemma_signed16_inverse(0);
    lemma_api_entry_roundtrip(s, p0, 18, 0, 4, flexible);
    lemma_api_entry_roundtrip(s, p0 + el, 75, 0, 0, flexible);
    lemma_api_entry_roundtrip(s, p0 + 2 * el, 1, 0, 16, flexible);
    lemma_api_entry_roundtrip(s, p0 + 3 * el, 0, 0, 11, flexible);
    let pend: int = p0 + 4 * el;
    lemma_api_entries_assemble(s, p0, el, flexible, pend);
    if flexible {
        assert(s[6] == 5) by {
            assert(crate::codec::enc_varint(5) =~= seq![5u8]);
            assert(s.subrange(6, 7) =~= seq![5u8]);
            assert(s.subrange(6, 7)[0] == 5u8);
        }
        assert(crate::codec::sp_varint(s, 6) == Ok::<(u32, int), DecodeError>((5, 7)));
        crate::codec::lemma_subrange_split(s, pend, throttle, tail);
        crate::codec::lemma_be_roundtrip(s, pend, 0, 4);
        lemma_signed32_inverse(0);
        assert(s.subrange(pend + 4, pend + 5) =~= seq![0u8]);
        assert(s.subrange(pend + 4, pend + 5)[0] == 0u8);
        assert(s[pend + 4] == 0);
        assert(crate::header::sp_tag_buffer(s, pend + 4) == Ok::<int, DecodeError>(pend + 5));
        assert(pend + 5 == s.len());
    } else {
        crate::codec::lemma_be_roundtrip(s, 6, 4, 4);
        if v >= 1 {
            crate::codec::lemma_subrange_split(s, pend, throttle, tail);
            crate::codec::lemma_be_roundtrip(s, pend, 0, 4);
            lemma_signed32_inverse(0);
            assert(pend + 4 == s.len());
        } else {
            assert(pend == s.len());
        }
    }
}

/// Chains the four advertised entries into one parsed list.
proof fn lemma_api_entries_assemble(s: Seq<u8>, p0: int, el: int, flexible: bool, pend: int)
    requires
        pend == p0 + 4 * el,
        sp_api_entry(s, p0, flexible) == Ok::<((i16, i16, i16), int), DecodeError>((
            (18i16, 0i16, 4i16),
            p0 + el,
        )),
        sp_api_entry(s, p0 + el, flexible) == Ok::<((i16, i16, i16), int), DecodeError>((
            (75i16, 0i16, 0i16),
            p0 + 2 * el,
        )),
        sp_api_entry(s, p0 + 2 * el, flexible) == Ok::<((i16, i16, i16), int), DecodeError>((
            (1i16, 0i16, 16i16),
            p0 + 3 * el,
        )),
        sp_api_entry(s, p0 + 3 * el, flexible) == Ok::<((i16, i16, i16), int), DecodeError>((
            (0i16, 0i16, 11i16),
            pend,
        )),
    ensures
        sp_api_entries(s, p0, 4, flexible) == Ok::<(Seq<(i16, i16, i16)>, int), DecodeError>((
            advertised_api_keys(),
            pend,
        )),
{
    assert(sp_api_entries(s, pend, 0, flexible) == Ok::<(Seq<(i16, i16, i16)>, int),
        DecodeError>((Seq::empty(), pend)));
    assert(sp_api_entries(s, p0 + 3 * el, 1, flexible) == Ok::<(Seq<(i16, i16, i16)>, int),
        DecodeError>((seq![(0i16, 0i16, 11i16)] + Seq::empty(), pend)));
    assert(sp_api_entries(s, p0 + 2 * el, 2, flexible) == Ok::<(Seq<(i16, i16, i16)>, int),
        DecodeError>((seq![(1i16, 0i16, 16i16)] + (seq![(0i16, 0i16, 11i16)] + Seq::empty()),
        pend)));
    assert(sp_api_entries(s, p0 + el, 3, flexible) == Ok::<(Seq<(i16, i16, i16)>, int),
        DecodeError>((seq![(75i16, 0i16, 0i16)] + (seq![(1i16, 0i16, 16i16)] + (seq![
        (0i16, 0i16, 11i16)] + Seq::empty())), pend)));
    assert(sp_api_entries(s, p0, 4, flexible) == Ok::<(Seq<(i16, i16, i16)>, int), DecodeError>((
        seq![(18i16, 0i16, 4i16)] + (seq![(75i16, 0i16, 0i16)] + (seq![(1i16, 0i16, 16i16)]
            + (seq![(0i16, 0i16, 11i16)] + Seq::empty()))),
        pend,
    )));
    assert(seq![(18i16, 0i16, 4i16)] + (seq![(75i16, 0i16, 0i16)] + (seq![(1i16, 0i16, 16i16)]
        + (seq![(0i16, 0i16, 11i16)] + Seq::empty()))) =~= advertised_api_keys());
}

/// The fallback case of the capability-negotiation round trip: read at
/// version 0, the shape it was written in.
proof fn lemma_api_versions_roundtrip_fallback(cid: i32, v: i16)
    requires
        !(0 <= v <= 4),
    ensures
        sp_api_versions_response(api_versions_response(cid, v), 0) == Ok::<
            ApiVersionsRespM,
            DecodeError,
        >(
            ApiVersionsRespM {
                correlation_id: cid,
                error_code: 35,
                api_keys: Seq::empty(),
                throttle_ms: None,
            },
        ),
{
    reveal(sp_api_versions_response);
    crate::codec::lemma_pow256_values();
    let s = api_versions_response(cid, v);
    let bcid = be_bytes(u32_of_i32(cid), 4);
    crate::codec::lemma_be_bytes_len(u32_of_i32(cid), 4);
    let berr = be_bytes(35, 2);
    let bthr = be_bytes(0, 4);
    crate::codec::lemma_be_bytes_len(35, 2);
    crate::codec::lemma_be_bytes_len(0, 4);
    assert(s =~= bcid + (berr + bthr));
    assert(s.subrange(0, s.len() as int) =~= s);
    crate::codec::lemma_subrange_split(s, 0, bcid, berr + bthr);
    crate::codec::lemma_subrange_split(s, 4, berr, bthr);
    crate::codec::lemma_be_roundtrip(s, 0, u32_of_i32(cid), 4);
    lemma_signed32_inverse(cid);
    crate::codec::lemma_be_roundtrip(s, 4, 35, 2);
    lemma_signed16_inverse(35);
    crate::codec::lemma_be_roundtrip(s, 6, 0, 4);
    assert(sp_api_entries(s, 10, 0, false) == Ok::<(Seq<(i16, i16, i16)>, int), DecodeError>((
        Seq::empty(),
        10,
    )));
    assert(s.len() == 10);
}

/// A capability-negotiation answer reads back as what the handler promises:
/// within the advertised range 0 to 4 it always holds the four fixed
/// (api key, min, max) triples, whatever version was requested; outside
/// that range the version-0 fallback holds error code 35 and no triples.
pub proof fn lemma_api_versions_roundtrip(cid: i32, v: i16)
    ensures
        0 <= v <= 4 ==> sp_api_versions_response(api_versions_response(cid, v), v) == Ok::<
            ApiVersionsRespM,
            DecodeError,
        >(
            ApiVersionsRespM {
                correlation_id: cid,
                error_code: 0,
                api_keys: advertised_api_keys(),
                throttle_ms: if v >= 1 {
                    Some(0)
                } else {
                    None
                },
            },
        ),
        !(0 <= v <= 4) ==> sp_api_versions_response(api_versions_response(cid, v), 0) == Ok::<
            ApiVersionsRespM,
            DecodeError,
        >(
            ApiVersionsRespM {
                correlation_id: cid,
                error_code: 35,
                api_keys: Seq::empty(),
                throttle_ms: None,
            },
        ),
{
    if 3 <= v <= 4 {
        lemma_api_versions_roundtrip_flex(cid, v);
    } else if 0 <= v <= 2 {
        lemma_api_versions_roundtrip_plain(cid, v);
    } else {
        lemma_api_versions_roundtrip_fallback(cid, v);
    }
}


// ---------------------------------------------------------------------------
// Reading a fetch response back
// ---------------------------------------------------------------------------

/// Parses one topic entry of a fetch response holding a single partition
/// entry, as this broker emits: the identifier, the error code and the
/// records come back out.
#[verifier::opaque]
pub open spec fn sp_fetch_resp_topic(s: Seq<u8>, pos: int) -> Result<
    ((u128, i16, Option<Seq<u8>>), int),
    DecodeError,
> {
    if pos < 0 || pos + 16 + 1 + 4 + 2 + 24 + 1 + 4 > s.len() {
        Err(DecodeError::Truncated)
    } else if s[pos + 16] != 2 {
        Err(DecodeError::InvalidLength)
    } else {
        let id = be_nat(s, pos, 16) as u128;
        let err = crate::header::sp_i16_at(s, pos + 21);
        let p = pos + 16 + 1 + 4 + 2 + 24;
        if s[p] != 0 {
            Err(DecodeError::InvalidLength)
        } else {
            match crate::codec::sp_compact_bytes(s, p + 5) {
                Err(e) => Err(e),
                Ok((records, p2)) => if p2 + 2 > s.len() {
                    Err(DecodeError::Truncated)
                } else if s[p2] != 0 || s[p2 + 1] != 0 {
                    Err(DecodeError::InvalidLength)
                } else {
                    Ok(((id, err, records), p2 + 2))
                },
            }
        }
    }
}

/// Parses `n` fetch response topic entries, front to back.
pub open spec fn sp_fetch_resp_topics(s: Seq<u8>, pos: int, n: nat) -> Result<
    (Seq<(u128, i16, Option<Seq<u8>>)>, int),
    DecodeError,
>
    decreases n,
{
    if n == 0 {
        Ok((Seq::empty(), pos))
    } else {
        match sp_fetch_resp_topic(s, pos) {
            Err(e) => Err(e),
            Ok((x, p)) => match sp_fetch_resp_topics(s, p, (n - 1) as nat) {
                Err(e) => Err(e),
                Ok((xs, p2)) => Ok((seq![x] + xs, p2)),
            },
        }
    }
}

/// What decoding a fetch response should recover for each requested
/// identifier: the identifier, no error and the content when it was
/// present, the unknown-topic-id error and null records when not.
pub open spec fn fetch_entries_model(ids: Seq<u128>, cs: Seq<Option<Seq<u8>>>) -> Seq<
    (u128, i16, Option<Seq<u8>>),
>
    decreases ids.len(),
{
    if ids.len() == 0 {
        Seq::empty()
    } else {
        seq![
            (
                ids[0],
                (if cs[0] is Some {
                    0i16
                } else {
                    100i16
                }),
                cs[0],
            ),
        ] + fetch_entries_model(ids.drop_first(), cs.drop_first())
    }
}

/// The encoded topic entries decompose at the front as well.
proof fn lemma_enc_fetch_topics_front(ids: Seq<u128>, cs: Seq<Option<Seq<u8>>>)
    requires
        ids.len() >= 1,
        ids.len() == cs.len(),
    ensures
        enc_fetch_topics(ids, cs) =~= enc_fetch_topic(ids[0], cs[0]) + enc_fetch_topics(
            ids.drop_first(),
            cs.drop_first(),
        ),
    decreases ids.len(),
{
    if ids.len() == 1 {
        assert(ids.drop_last() =~= Seq::<u128>::empty());
        assert(cs.drop_last() =~= Seq::<Option<Seq<u8>>>::empty());
        assert(ids.drop_first() =~= Seq::<u128>::empty());
        assert(cs.drop_first() =~= Seq::<Option<Seq<u8>>>::empty());
        assert(enc_fetch_topics(ids.drop_last(), cs.drop_last()) =~= Seq::<u8>::empty());
        assert(enc_fetch_topics(ids.drop_first(), cs.drop_first()) =~= Seq::<u8>::empty());
        assert(ids.last() == ids[0]);
        assert(cs.last() == cs[0]);
    } else {
        let di = ids.drop_last();
        let dc = cs.drop_last();
        lemma_enc_fetch_topics_front(di, dc);
        assert(di[0] == ids[0]);
        assert(dc[0] == cs[0]);
        assert(di.drop_first() =~= ids.drop_first().drop_last());
        assert(dc.drop_first() =~= cs.drop_first().drop_last());
        assert(ids.drop_first().last() == ids.last());
        assert(cs.drop_first().last() == cs.last());
        assert(enc_fetch_topics(ids, cs) == enc_fetch_topics(di, dc) + enc_fetch_topic(
            ids.last(),
            cs.last(),
        ));
        assert(enc_fetch_topics(ids.drop_first(), cs.drop_first()) == enc_fetch_topics(
            ids.drop_first().drop_last(),
            cs.drop_first().drop_last(),
        ) + enc_fetch_topic(ids.drop_first().last(), cs.drop_first().last()));
    }
}

/// One encoded fetch topic entry reads back as itself.
#[verifier::rlimit(100)]
proof fn lemma_fetch_topic_roundtrip(s: Seq<u8>, pos: int, id: u128, c: Option<Seq<u8>>)
    requires
        0 <= pos,
        (c matches Some(b) ==> b.len() < 0xFFFFFFFF),
        pos + enc_fetch_topic(id, c).len() <= s.len(),
        s.subrange(pos, pos + enc_fetch_topic(id, c).len()) =~= enc_fetch_topic(id, c),
    ensures
        sp_fetch_resp_topic(s, pos) == Ok::<((u128, i16, Option<Seq<u8>>), int), DecodeError>((
            (
                id,
                (if c is Some {
                    0i16
                } else {
                    100i16
                }),
                c,
            ),
            pos + enc_fetch_topic(id, c).len(),
        )),
{
    reveal(sp_fetch_resp_topic);
    crate::codec::lemma_pow256_values();
    let e = enc_fetch_topic(id, c);
    let bid = be_bytes(id as nat, 16);
    let berr = if c is Some {
        be_bytes(0, 2)
    } else {
        be_bytes(100, 2)
    };
    let zero8 = be_bytes(u64_of_i64(0i64), 8);
    let pref = be_bytes(u32_of_i32(-1i32), 4);
    let recs = crate::codec::enc_compact_bytes(c);
    crate::codec::lemma_be_bytes_len(id as nat, 16);
    crate::codec::lemma_be_bytes_len(0, 2);
    crate::codec::lemma_be_bytes_len(100, 2);
    crate::codec::lemma_be_bytes_len(u64_of_i64(0i64), 8);
    crate::codec::lemma_be_bytes_len(u32_of_i32(-1i32), 4);
    assert(crate::codec::enc_varint(2) =~= seq![2u8]);
    assert(crate::codec::enc_varint(0) =~= seq![0u8]);
    assert(be_bytes(0, 4) =~= seq![0u8, 0u8, 0u8, 0u8]) by {
        reveal_with_fuel(be_bytes, 6);
    }
    let rest1 = seq![2u8] + (be_bytes(0, 4) + (berr + (zero8 + (zero8 + (zero8 + (seq![0u8] + (
    pref + (recs + (seq![0u8] + seq![0u8])))))))));
    assert(e =~= bid + rest1);
    crate::codec::lemma_subrange_split(s, pos, bid, rest1);
    crate::codec::lemma_be_roundtrip(s, pos, id as nat, 16);
    crate::codec::lemma_subrange_split(s, pos + 16, seq![2u8], be_bytes(0, 4) + (berr + (zero8 + (
    zero8 + (zero8 + (seq![0u8] + (pref + (recs + (seq![0u8] + seq![0u8])))))))));
    assert(s.subrange(pos + 16, pos + 17)[0] == 2u8);
    assert(s[pos + 16] == 2);
    crate::codec::lemma_subrange_split(s, pos + 17, be_bytes(0, 4), berr + (zero8 + (zero8 + (
    zero8 + (seq![0u8] + (pref + (recs + (seq![0u8] + seq![0u8]))))))));
    crate::codec::lemma_subrange_split(s, pos + 21, berr, zero8 + (zero8 + (zero8 + (seq![0u8] + (
    pref + (recs + (seq![0u8] + seq![0u8])))))));
    if c is Some {
        crate::codec::lemma_be_roundtrip(s, pos + 21, 0, 2);
        lemma_signed16_inverse(0);
    } else {
        crate::codec::lemma_be_roundtrip(s, pos + 21, 100, 2);
        lemma_signed16_inverse(100);
    }
    crate::codec::lemma_subrange_split(s, pos + 23, zero8, zero8 + (zero8 + (seq![0u8] + (pref + (
    recs + (seq![0u8] + seq![0u8]))))));
    crate::codec::lemma_subrange_split(s, pos + 31, zero8, zero8 + (seq![0u8] + (pref + (recs + (
    seq![0u8] + seq![0u8])))));
    crate::codec::lemma_subrange_split(s, pos + 39, zero8, seq![0u8] + (pref + (recs + (seq![0u8]
        + seq![0u8]))));
    crate::codec::lemma_subrange_split(s, pos + 47, seq![0u8], pref + (recs + (seq![0u8] + seq![
        0u8,
    ])));
    assert(s.subrange(pos + 47, pos + 48)[0] == 0u8);
    assert(s[pos + 47] == 0);
    crate::codec::lemma_subrange_split(s, pos + 48, pref, recs + (seq![0u8] + seq![0u8]));
    crate::codec::lemma_subrange_split(s, pos + 52, recs, seq![0u8] + seq![0u8]);
    crate::codec::lemma_compact_bytes_roundtrip(s, pos + 52, c);
    let p2 = pos + 52 + recs.len() as int;
    assert(s.subrange(p2, p2 + 2)[0] == 0u8);
    assert(s.subrange(p2, p2 + 2)[1] == 0u8);
    assert(s[p2] == 0 && s[p2 + 1] == 0);
    assert(e.len() == 52 + recs.len() + 2);
}


/// Parses a whole fetch response at version `v` as this broker shapes it
/// (one partition entry per topic) and demands it ends where the buffer
/// does.
#[verifier::opaque]
pub open spec fn sp_fetch_response(s: Seq<u8>, v: i16) -> Result<
    (i32, i16, i32, Seq<(u128, i16, Option<Seq<u8>>)>),
    DecodeError,
> {
    let h: int = if crate::header::resp_header_version_of(1, v) >= 1 {
        5
    } else {
        4
    };
    if s.len() < h + 10 + 1 {
        Err(DecodeError::Truncated)
    } else if h == 5 && s[4] != 0 {
        Err(DecodeError::InvalidLength)
    } else {
        let cid = crate::header::sp_i32_at(s, 0);
        let err = crate::header::sp_i16_at(s, h + 4);
        let session = crate::header::sp_i32_at(s, h + 6);
        match crate::codec::sp_varint(s, h + 10) {
            Err(e) => Err(e),
            Ok((c, p)) => if c == 0 {
                Err(DecodeError::InvalidLength)
            } else {
                match sp_fetch_resp_topics(s, p, (c - 1) as nat) {
                    Err(e) => Err(e),
                    Ok((entries, p2)) => if p2 + 1 > s.len() {
                        Err(DecodeError::Truncated)
                    } else if s[p2] != 0 || p2 + 1 != s.len() {
                        Err(DecodeError::InvalidLength)
                    } else {
                        Ok((cid, err, session, entries))
                    },
                }
            },
        }
    }
}

/// A run of encoded fetch topic entries reads back as the per-identifier
/// model, wherever it sits in a larger buffer.
proof fn lemma_fetch_topics_roundtrip(s: Seq<u8>, pos: int, ids: Seq<u128>, cs: Seq<
    Option<Seq<u8>>,
>)
    requires
        0 <= pos,
        ids.len() == cs.len(),
        forall|k: int|
            0 <= k < cs.len() ==> ((#[trigger] cs[k]) matches Some(b) ==> b.len() < 0xFFFFFFFF),
        pos + enc_fetch_topics(ids, cs).len() <= s.len(),
        s.subrange(pos, pos + enc_fetch_topics(ids, cs).len()) =~= enc_fetch_topics(ids, cs),
    ensures
        sp_fetch_resp_topics(s, pos, ids.len() as nat) == Ok::<
            (Seq<(u128, i16, Option<Seq<u8>>)>, int),
            DecodeError,
        >((fetch_entries_model(ids, cs), pos + enc_fetch_topics(ids, cs).len())),
    decreases ids.len(),
{
    if ids.len() == 0 {
        assert(enc_fetch_topics(ids, cs) =~= Seq::<u8>::empty());
        assert(fetch_entries_model(ids, cs) =~= Seq::<(u128, i16, Option<Seq<u8>>)>::empty());
    } else {
        lemma_enc_fetch_topics_front(ids, cs);
        let e0 = enc_fetch_topic(ids[0], cs[0]);
        let rest = enc_fetch_topics(ids.drop_first(), cs.drop_first());
        crate::codec::lemma_subrange_split(s, pos, e0, rest);
        lemma_fetch_topic_roundtrip(s, pos, ids[0], cs[0]);
        assert(forall|k: int|
            0 <= k < cs.drop_first().len() ==> ((#[trigger] cs.drop_first()[k]) matches Some(b)
                ==> b.len() < 0xFFFFFFFF)) by {
            assert(forall|k: int|
                0 <= k < cs.drop_first().len() ==> cs.drop_first()[k] == cs[k + 1]);
        }
        lemma_fetch_topics_roundtrip(s, pos + e0.len() as int, ids.drop_first(), cs.drop_first());
        assert(fetch_entries_model(ids, cs) == seq![
            (
                ids[0],
                (if cs[0] is Some {
                    0i16
                } else {
                    100i16
                }),
                cs[0],
            ),
        ] + fetch_entries_model(ids.drop_first(), cs.drop_first()));
    }
}

/// A fetch response reads back as what the handler promises: for each
/// requested identifier in request order, the exact log bytes and no error
/// when the topic was known, the unknown-topic-id error and null records
/// when it was not (the whole answer framed with no throttle, no top-level
/// error and session id 0).
#[verifier::rlimit(100)]
pub proof fn lemma_fetch_response_roundtrip(cid: i32, v: i16, ids: Seq<u128>, cs: Seq<
    Option<Seq<u8>>,
>)
    requires
        ids.len() == cs.len(),
        ids.len() + 1 < 0x100000000,
        forall|k: int|
            0 <= k < cs.len() ==> ((#[trigger] cs[k]) matches Some(b) ==> b.len() < 0xFFFFFFFF),
    ensures
        sp_fetch_response(fetch_response(cid, v, ids, cs), v) == Ok::<
            (i32, i16, i32, Seq<(u128, i16, Option<Seq<u8>>)>),
            DecodeError,
        >((cid, 0, 0, fetch_entries_model(ids, cs))),
{
    reveal(sp_fetch_response);
    crate::codec::lemma_pow256_values();
    let s = fetch_response(cid, v, ids, cs);
    let bcid = be_bytes(u32_of_i32(cid), 4);
    let htag = if crate::header::resp_header_version_of(1, v) >= 1 {
        crate::codec::enc_varint(0)
    } else {
        Seq::<u8>::empty()
    };
    let h: int = if crate::header::resp_header_version_of(1, v) >= 1 {
        5
    } else {
        4
    };
    let bthr = be_bytes(0, 4);
    let berr = be_bytes(0, 2);
    let bsess = be_bytes(0, 4);
    let cnt = crate::codec::enc_varint(ids.len() + 1);
    let entries = enc_fetch_topics(ids, cs);
    crate::codec::lemma_be_bytes_len(u32_of_i32(cid), 4);
    crate::codec::lemma_be_bytes_len(0, 4);
    crate::codec::lemma_be_bytes_len(0, 2);
    assert(crate::codec::enc_varint(0) =~= seq![0u8]);
    crate::codec::lemma_enc_varint_len(ids.len() + 1);
    crate::codec::lemma_pow128_values();
    assert(s =~= bcid + (htag + (bthr + (berr + (bsess + (cnt + (entries + seq![0u8])))))));
    assert(s.subrange(0, s.len() as int) =~= s);
    crate::codec::lemma_subrange_split(s, 0, bcid, htag + (bthr + (berr + (bsess + (cnt + (entries
        + seq![0u8]))))));
    crate::codec::lemma_subrange_split(s, 4, htag, bthr + (berr + (bsess + (cnt + (entries + seq![
        0u8,
    ])))));
    if h == 5 {
        assert(s.subrange(4, 5) =~= seq![0u8]);
        assert(s.subrange(4, 5)[0] == 0u8);
        assert(s[4] == 0);
    }
    crate::codec::lemma_subrange_split(s, h, bthr, berr + (bsess + (cnt + (entries + seq![0u8]))));
    crate::codec::lemma_subrange_split(s, h + 4, berr, bsess + (cnt + (entries + seq![0u8])));
    crate::codec::lemma_subrange_split(s, h + 6, bsess, cnt + (entries + seq![0u8]));
    crate::codec::lemma_subrange_split(s, h + 10, cnt, entries + seq![0u8]);
    crate::codec::lemma_be_roundtrip(s, 0, u32_of_i32(cid), 4);
    lemma_signed32_inverse(cid);
    crate::codec::lemma_be_roundtrip(s, h + 4, 0, 2);
    lemma_signed16_inverse(0);
    crate::codec::lemma_be_roundtrip(s, h + 6, 0, 4);
    lemma_signed32_inverse(0);
    crate::codec::lemma_varint_roundtrip(s, h + 10, (ids.len() + 1) as u32);
    let p: int = h + 10 + cnt.len() as int;
    crate::codec::lemma_subrange_split(s, p, entries, seq![0u8]);
    lemma_fetch_topics_roundtrip(s, p, ids, cs);
    let p2: int = p + entries.len() as int;
    assert(s.subrange(p2, p2 + 1) =~= seq![0u8]);
    assert(s.subrange(p2, p2 + 1)[0] == 0u8);
    assert(s[p2] == 0);
    assert(p2 + 1 == s.len());
}


// ---------------------------------------------------------------------------
// Reading a topic-description response back
// ---------------------------------------------------------------------------

/// What one partition entry of a topic-description response holds.
pub struct DtpPartModel {
    pub error_code: i16,
    pub partition_id: u32,
    pub leader: i32,
    pub leader_epoch: i32,
    pub replica: i32,
    pub isr: i32,
}

/// What one topic entry of a topic-description response holds.
pub struct DtpTopicModel {
    pub error_code: i16,
    pub name: Seq<u8>,
    pub topic_id: u128,
    pub partitions: Seq<DtpPartModel>,
}

/// Parses one partition entry of a topic-description response as this
/// broker shapes it (single-entry replica and in-sync arrays).
#[verifier::opaque]
pub open spec fn sp_dtp_resp_partition(s: Seq<u8>, pos: int) -> Result<
    (DtpPartModel, int),
    DecodeError,
> {
    if pos < 0 || pos + 28 > s.len() {
        Err(DecodeError::Truncated)
    } else if s[pos + 14] != 2 || s[pos + 19] != 2 || s[pos + 24] != 0 || s[pos + 25] != 0 || s[pos
        + 26] != 1 || s[pos + 27] != 0 {
        Err(DecodeError::InvalidLength)
    } else {
        Ok(
            (
                DtpPartModel {
                    error_code: crate::header::sp_i16_at(s, pos),
                    partition_id: be_nat(s, pos + 2, 4) as u32,
                    leader: crate::header::sp_i32_at(s, pos + 6),
                    leader_epoch: crate::header::sp_i32_at(s, pos + 10),
                    replica: crate::header::sp_i32_at(s, pos + 15),
                    isr: crate::header::sp_i32_at(s, pos + 20),
                },
                pos + 28,
            ),
        )
    }
}

/// Parses `n` partition entries, front to back.
pub open spec fn sp_dtp_resp_partitions(s: Seq<u8>, pos: int, n: nat) -> Result<
    (Seq<DtpPartModel>, int),
    DecodeError,
>
    decreases n,
{
    if n == 0 {
        Ok((Seq::empty(), pos))
    } else {
        match sp_dtp_resp_partition(s, pos) {
            Err(e) => Err(e),
            Ok((x, p)) => match sp_dtp_resp_partitions(s, p, (n - 1) as nat) {
                Err(e) => Err(e),
                Ok((xs, p2)) => Ok((seq![x] + xs, p2)),
            },
        }
    }
}

/// Parses one topic entry of a topic-description response.
#[verifier::opaque]
pub open spec fn sp_dtp_resp_topic(s: Seq<u8>, pos: int) -> Result<
    (DtpTopicModel, int),
    DecodeError,
> {
    if pos < 0 || pos + 2 > s.len() {
        Err(DecodeError::Truncated)
    } else {
        let err = crate::header::sp_i16_at(s, pos);
        match crate::codec::sp_compact_string(s, pos + 2) {
            Err(e) => Err(e),
            Ok((None, _)) => Err(DecodeError::InvalidLength),
            Ok((Some(name), p)) => if p + 17 > s.len() {
                Err(DecodeError::Truncated)
            } else if s[p + 16] != 0 {
                Err(DecodeError::InvalidLength)
            } else {
                match crate::codec::sp_varint(s, p + 17) {
                    Err(e) => Err(e),
                    Ok((c, p2)) => if c == 0 {
                        Err(DecodeError::InvalidLength)
                    } else {
                        match sp_dtp_resp_partitions(s, p2, (c - 1) as nat) {
                            Err(e) => Err(e),
                            Ok((parts, p3)) => if p3 + 5 > s.len() {
                                Err(DecodeError::Truncated)
                            } else if s[p3 + 4] != 0 {
                                Err(DecodeError::InvalidLength)
                            } else {
                                Ok(
                                    (
                                        DtpTopicModel {
                                            error_code: err,
                                            name,
                                            topic_id: be_nat(s, p, 16) as u128,
                                            partitions: parts,
                                        },
                                        p3 + 5,
                                    ),
                                )
                            },
                        }
                    },
                }
            },
        }
    }
}

/// Parses `n` topic entries, front to back.
pub open spec fn sp_dtp_resp_topics(s: Seq<u8>, pos: int, n: nat) -> Result<
    (Seq<DtpTopicModel>, int),
    DecodeError,
>
    decreases n,
{
    if n == 0 {
        Ok((Seq::empty(), pos))
    } else {
        match sp_dtp_resp_topic(s, pos) {
            Err(e) => Err(e),
            Ok((x, p)) => match sp_dtp_resp_topics(s, p, (n - 1) as nat) {
                Err(e) => Err(e),
                Ok((xs, p2)) => Ok((seq![x] + xs, p2)),
            },
        }
    }
}

/// Parses a whole topic-description response and demands it ends where the
/// buffer does.
#[verifier::opaque]
pub open spec fn sp_dtp_response(s: Seq<u8>, v: i16) -> Result<
    (i32, Seq<DtpTopicModel>),
    DecodeError,
> {
    let h: int = if crate::header::resp_header_version_of(75, v) >= 1 {
        5
    } else {
        4
    };
    if s.len() < h + 5 {
        Err(DecodeError::Truncated)
    } else if h == 5 && s[4] != 0 {
        Err(DecodeError::InvalidLength)
    } else {
        let cid = crate::header::sp_i32_at(s, 0);
        match crate::codec::sp_varint(s, h + 4) {
            Err(e) => Err(e),
            Ok((c, p)) => if c == 0 {
                Err(DecodeError::InvalidLength)
            } else {
                match sp_dtp_resp_topics(s, p, (c - 1) as nat) {
                    Err(e) => Err(e),
                    Ok((entries, p2)) => if p2 + 2 > s.len() {
                        Err(DecodeError::Truncated)
                    } else if s[p2] != 0xFF || s[p2 + 1] != 0 || p2 + 2 != s.len() {
                        Err(DecodeError::InvalidLength)
                    } else {
                        Ok((cid, entries))
                    },
                }
            },
        }
    }
}

/// The partition model the handler promises for a known topic's partition.
pub open spec fn dtp_part_model(p: crate::meta::Partition) -> DtpPartModel {
    DtpPartModel {
        error_code: 0,
        partition_id: p.partition_id,
        leader: p.leader,
        leader_epoch: p.leader_epoch,
        replica: p.replica,
        isr: p.isr,
    }
}

/// The topic model the handler promises per requested name.
pub open spec fn dtp_topic_model(
    m: Option<crate::group::TopicWithPartitionsM>,
    name: Seq<u8>,
) -> DtpTopicModel {
    match m {
        Some(t) => DtpTopicModel {
            error_code: 0,
            name,
            topic_id: t.topic.uuid,
            partitions: sort_parts(t.partitions).map_values(
                |p: crate::meta::Partition| dtp_part_model(p),
            ),
        },
        None => DtpTopicModel { error_code: 3, name, topic_id: 0, partitions: Seq::empty() },
    }
}

/// The per-name models of a whole response, in the given (sorted) order.
pub open spec fn dtp_entries_model(
    ms: Seq<crate::group::TopicWithPartitionsM>,
    names: Seq<Seq<u8>>,
) -> Seq<DtpTopicModel>
    decreases names.len(),
{
    if names.len() == 0 {
        Seq::empty()
    } else {
        seq![dtp_topic_model(find_topic(ms, names[0]), names[0])] + dtp_entries_model(
            ms,
            names.drop_first(),
        )
    }
}



/// One encoded partition entry of a topic-description response reads back
/// as itself.
#[verifier::rlimit(100)]
proof fn lemma_dtp_partition_roundtrip(s: Seq<u8>, pos: int, p: crate::meta::Partition)
    requires
        0 <= pos,
        pos + 28 <= s.len(),
        s.subrange(pos, pos + 28) =~= enc_dtp_partition(p),
    ensures
        enc_dtp_partition(p).len() == 28,
        sp_dtp_resp_partition(s, pos) == Ok::<(DtpPartModel, int), DecodeError>((
            dtp_part_model(p),
            pos + 28,
        )),
{
    reveal(sp_dtp_resp_partition);
    crate::codec::lemma_pow256_values();
    let b0 = be_bytes(0, 2);
    let bpid = be_bytes(p.partition_id as nat, 4);
    let blead = be_bytes(u32_of_i32(p.leader), 4);
    let bep = be_bytes(u32_of_i32(p.leader_epoch), 4);
    let brep = be_bytes(u32_of_i32(p.replica), 4);
    let bisr = be_bytes(u32_of_i32(p.isr), 4);
    crate::codec::lemma_be_bytes_len(0, 2);
    crate::codec::lemma_be_bytes_len(p.partition_id as nat, 4);
    crate::codec::lemma_be_bytes_len(u32_of_i32(p.leader), 4);
    crate::codec::lemma_be_bytes_len(u32_of_i32(p.leader_epoch), 4);
    crate::codec::lemma_be_bytes_len(u32_of_i32(p.replica), 4);
    crate::codec::lemma_be_bytes_len(u32_of_i32(p.isr), 4);
    assert(crate::codec::enc_varint(2) =~= seq![2u8]);
    assert(crate::codec::enc_varint(1) =~= seq![1u8]);
    assert(crate::codec::enc_varint(0) =~= seq![0u8]);
    let tail5 = seq![0u8] + (seq![0u8] + (seq![1u8] + seq![0u8]));
    assert(enc_dtp_partition(p) =~= b0 + (bpid + (blead + (bep + (seq![2u8] + (brep + (seq![2u8]
        + (bisr + tail5))))))));
    crate::codec::lemma_subrange_split(s, pos, b0, bpid + (blead + (bep + (seq![2u8] + (brep + (
    seq![2u8] + (bisr + tail5)))))));
    crate::codec::lemma_subrange_split(s, pos + 2, bpid, blead + (bep + (seq![2u8] + (brep + (seq![
        2u8,
    ] + (bisr + tail5))))));
    crate::codec::lemma_subrange_split(s, pos + 6, blead, bep + (seq![2u8] + (brep + (seq![2u8] + (
    bisr + tail5)))));
    crate::codec::lemma_subrange_split(s, pos + 10, bep, seq![2u8] + (brep + (seq![2u8] + (bisr
        + tail5))));
    crate::codec::lemma_subrange_split(s, pos + 14, seq![2u8], brep + (seq![2u8] + (bisr
        + tail5)));
    crate::codec::lemma_subrange_split(s, pos + 15, brep, seq![2u8] + (bisr + tail5));
    crate::codec::lemma_subrange_split(s, pos + 19, seq![2u8], bisr + tail5);
    crate::codec::lemma_subrange_split(s, pos + 20, bisr, tail5);
    crate::codec::lemma_be_roundtrip(s, pos, 0, 2);
    lemma_signed16_inverse(0);
    crate::codec::lemma_be_roundtrip(s, pos + 2, p.partition_id as nat, 4);
    crate::codec::lemma_be_roundtrip(s, pos + 6, u32_of_i32(p.leader), 4);
    lemma_signed32_inverse(p.leader);
    crate::codec::lemma_be_roundtrip(s, pos + 10, u32_of_i32(p.leader_epoch), 4);
    lemma_signed32_inverse(p.leader_epoch);
    crate::codec::lemma_be_roundtrip(s, pos + 15, u32_of_i32(p.replica), 4);
    lemma_signed32_inverse(p.replica);
    crate::codec::lemma_be_roundtrip(s, pos + 20, u32_of_i32(p.isr), 4);
    lemma_signed32_inverse(p.isr);
    assert(s.subrange(pos + 14, pos + 15)[0] == 2u8);
    assert(s.subrange(pos + 19, pos + 20)[0] == 2u8);
    assert(s.subrange(pos + 24, pos + 28) =~= tail5);
    assert(s.subrange(pos + 24, pos + 28)[0] == 0u8);
    assert(s.subrange(pos + 24, pos + 28)[1] == 0u8);
    assert(s.subrange(pos + 24, pos + 28)[2] == 1u8);
    assert(s.subrange(pos + 24, pos + 28)[3] == 0u8);
    assert(s[pos + 14] == 2 && s[pos + 19] == 2);
    assert(s[pos + 24] == 0 && s[pos + 25] == 0 && s[pos + 26] == 1 && s[pos + 27] == 0);
}


/// The fixed width of an encoded partition entry.
proof fn lemma_enc_dtp_partition_len(p: crate::meta::Partition)
    ensures
        enc_dtp_partition(p).len() == 28,
{
    crate::codec::lemma_be_bytes_len(0, 2);
    crate::codec::lemma_be_bytes_len(p.partition_id as nat, 4);
    crate::codec::lemma_be_bytes_len(u32_of_i32(p.leader), 4);
    crate::codec::lemma_be_bytes_len(u32_of_i32(p.leader_epoch), 4);
    crate::codec::lemma_be_bytes_len(u32_of_i32(p.replica), 4);
    crate::codec::lemma_be_bytes_len(u32_of_i32(p.isr), 4);
    assert(crate::codec::enc_varint(2) =~= seq![2u8]);
    assert(crate::codec::enc_varint(1) =~= seq![1u8]);
    assert(crate::codec::enc_varint(0) =~= seq![0u8]);
}

/// The encoded partition entries decompose at the front as well.
proof fn lemma_enc_dtp_partitions_front(ps: Seq<crate::meta::Partition>)
    requires
        ps.len() >= 1,
    ensures
        enc_dtp_partitions(ps) =~= enc_dtp_partition(ps[0]) + enc_dtp_partitions(ps.drop_first()),
    decreases ps.len(),
{
    if ps.len() == 1 {
        assert(ps.drop_last() =~= Seq::<crate::meta::Partition>::empty());
        assert(ps.drop_first() =~= Seq::<crate::meta::Partition>::empty());
        assert(enc_dtp_partitions(ps.drop_last()) =~= Seq::<u8>::empty());
        assert(enc_dtp_partitions(ps.drop_first()) =~= Seq::<u8>::empty());
        assert(ps.last() == ps[0]);
    } else {
        let d = ps.drop_last();
        lemma_enc_dtp_partitions_front(d);
        assert(d[0] == ps[0]);
        assert(d.drop_first() =~= ps.drop_first().drop_last());
        assert(ps.drop_first().last() == ps.last());
    }
}

/// A run of encoded partition entries reads back as the per-partition
/// models, in order.
proof fn lemma_dtp_partitions_roundtrip(s: Seq<u8>, pos: int, ps: Seq<crate::meta::Partition>)
    requires
        0 <= pos,
        pos + enc_dtp_partitions(ps).len() <= s.len(),
        s.subrange(pos, pos + enc_dtp_partitions(ps).len()) =~= enc_dtp_partitions(ps),
    ensures
        sp_dtp_resp_partitions(s, pos, ps.len() as nat) == Ok::<
            (Seq<DtpPartModel>, int),
            DecodeError,
        >((
            ps.map_values(|p: crate::meta::Partition| dtp_part_model(p)),
            pos + enc_dtp_partitions(ps).len(),
        )),
    decreases ps.len(),
{
    let model = ps.map_values(|p: crate::meta::Partition| dtp_part_model(p));
    if ps.len() == 0 {
        assert(enc_dtp_partitions(ps) =~= Seq::<u8>::empty());
        assert(model =~= Seq::<DtpPartModel>::empty());
    } else {
        lemma_enc_dtp_partitions_front(ps);
        lemma_enc_dtp_partition_len(ps[0]);
        let e0 = enc_dtp_partition(ps[0]);
        let rest = enc_dtp_partitions(ps.drop_first());
        crate::codec::lemma_subrange_split(s, pos, e0, rest);
        lemma_dtp_partition_roundtrip(s, pos, ps[0]);
        lemma_dtp_partitions_roundtrip(s, pos + 28, ps.drop_first());
        let dmodel = ps.drop_first().map_values(|p: crate::meta::Partition| dtp_part_model(p));
        assert forall|k: int| 0 <= k < model.len() implies #[trigger] model[k] == (seq![
            dtp_part_model(ps[0]),
        ] + dmodel)[k] by {
            if k > 0 {
                assert(dmodel[k - 1] == dtp_part_model(ps.drop_first()[k - 1]));
                assert(ps.drop_first()[k - 1] == ps[k]);
            }
        }
        assert(model =~= seq![dtp_part_model(ps[0])] + dmodel);
    }
}


/// One encoded topic entry of a topic-description response reads back as
/// the model the handler promises for its name.
#[verifier::rlimit(100)]
proof fn lemma_dtp_topic_roundtrip(
    s: Seq<u8>,
    pos: int,
    m: Option<crate::group::TopicWithPartitionsM>,
    name: Seq<u8>,
)
    requires
        0 <= pos,
        crate::utf8::is_utf8(name),
        name.len() < 0xFFFFFFFF,
        (m matches Some(t) ==> sort_parts(t.partitions).len() + 1 < 0x100000000),
        pos + enc_dtp_topic(m, name).len() <= s.len(),
        s.subrange(pos, pos + enc_dtp_topic(m, name).len()) =~= enc_dtp_topic(m, name),
    ensures
        sp_dtp_resp_topic(s, pos) == Ok::<(DtpTopicModel, int), DecodeError>((
            dtp_topic_model(m, name),
            pos + enc_dtp_topic(m, name).len(),
        )),
{
    reveal(sp_dtp_resp_topic);
    crate::codec::lemma_pow256_values();
    let e = enc_dtp_topic(m, name);
    let cname = crate::codec::enc_compact_string(Some(name));
    let berr = match m {
        Some(_) => be_bytes(0, 2),
        None => be_bytes(3, 2),
    };
    let uuid_val: nat = match m {
        Some(t) => t.topic.uuid as nat,
        None => 0,
    };
    let buuid = be_bytes(uuid_val, 16);
    let parts = match m {
        Some(t) => sort_parts(t.partitions),
        None => Seq::<crate::meta::Partition>::empty(),
    };
    let n: nat = parts.len();
    let cnt = crate::codec::enc_varint(n + 1);
    let bparts = enc_dtp_partitions(parts);
    let bauth = be_bytes(0, 4);
    crate::codec::lemma_be_bytes_len(0, 2);
    crate::codec::lemma_be_bytes_len(3, 2);
    crate::codec::lemma_be_bytes_len(uuid_val, 16);
    crate::codec::lemma_be_bytes_len(0, 4);
    crate::codec::lemma_enc_varint_len(n + 1);
    assert(crate::codec::enc_varint(0) =~= seq![0u8]);
    assert(crate::codec::enc_varint(1) =~= seq![1u8]);
    if m is None {
        assert(enc_dtp_partitions(parts) =~= Seq::<u8>::empty());
        assert(cnt =~= seq![1u8]);
    }
    assert(e =~= berr + (cname + (buuid + (seq![0u8] + (cnt + (bparts + (bauth + seq![
        0u8,
    ])))))));
    crate::codec::lemma_subrange_split(s, pos, berr, cname + (buuid + (seq![0u8] + (cnt + (bparts
        + (bauth + seq![0u8]))))));
    let p: int = pos + 2 + cname.len() as int;
    crate::codec::lemma_subrange_split(s, pos + 2, cname, buuid + (seq![0u8] + (cnt + (bparts + (
    bauth + seq![0u8])))));
    crate::codec::lemma_subrange_split(s, p, buuid, seq![0u8] + (cnt + (bparts + (bauth + seq![
        0u8,
    ]))));
    crate::codec::lemma_subrange_split(s, p + 16, seq![0u8], cnt + (bparts + (bauth + seq![0u8])));
    crate::codec::lemma_subrange_split(s, p + 17, cnt, bparts + (bauth + seq![0u8]));
    let p2: int = p + 17 + cnt.len() as int;
    crate::codec::lemma_subrange_split(s, p2, bparts, bauth + seq![0u8]);
    let p3: int = p2 + bparts.len() as int;
    crate::codec::lemma_subrange_split(s, p3, bauth, seq![0u8]);
    match m {
        Some(_) => {
            crate::codec::lemma_be_roundtrip(s, pos, 0, 2);
            lemma_signed16_inverse(0);
        },
        None => {
            crate::codec::lemma_be_roundtrip(s, pos, 3, 2);
            lemma_signed16_inverse(3);
        },
    }
    crate::codec::lemma_compact_string_roundtrip(s, pos + 2, Some(name));
    crate::codec::lemma_be_roundtrip(s, p, uuid_val, 16);
    assert(s.subrange(p + 16, p + 17)[0] == 0u8);
    assert(s[p + 16] == 0);
    crate::codec::lemma_pow128_values();
    crate::codec::lemma_varint_roundtrip(s, p + 17, (n + 1) as u32);
    lemma_dtp_partitions_roundtrip(s, p2, parts);
    assert(s.subrange(p3 + 4, p3 + 5)[0] == 0u8);
    assert(s[p3 + 4] == 0);
    match m {
        Some(t) => {
            assert(dtp_topic_model(m, name).partitions == parts.map_values(
                |q: crate::meta::Partition| dtp_part_model(q),
            ));
        },
        None => {
            assert(dtp_topic_model(m, name).partitions =~= Seq::<DtpPartModel>::empty());
            assert(parts.map_values(|q: crate::meta::Partition| dtp_part_model(q)) =~= Seq::<
                DtpPartModel,
            >::empty());
        },
    }
}


/// What `find_topic` finds is one of the grouped topics.
proof fn lemma_find_topic_mem(ms: Seq<crate::group::TopicWithPartitionsM>, name: Seq<u8>)
    ensures
        (match find_topic(ms, name) {
            Some(t) => exists|k: int| 0 <= k < ms.len() && ms[k] == t,
            None => true,
        }),
    decreases ms.len(),
{
    if ms.len() > 0 {
        if ms[0].topic.name == name {
            assert(ms[0] == ms[0]);
        } else {
            lemma_find_topic_mem(ms.drop_first(), name);
            match find_topic(ms.drop_first(), name) {
                Some(t) => {
                    let k = choose|k: int|
                        0 <= k < ms.drop_first().len() && ms.drop_first()[k] == t;
                    assert(ms[k + 1] == t);
                },
                None => {},
            }
        }
    }
}

/// The encoded topic entries decompose at the front as well.
proof fn lemma_enc_dtp_topics_front(
    ms: Seq<crate::group::TopicWithPartitionsM>,
    names: Seq<Seq<u8>>,
)
    requires
        names.len() >= 1,
    ensures
        enc_dtp_topics(ms, names) =~= enc_dtp_topic(find_topic(ms, names[0]), names[0])
            + enc_dtp_topics(ms, names.drop_first()),
    decreases names.len(),
{
    if names.len() == 1 {
        assert(names.drop_last() =~= Seq::<Seq<u8>>::empty());
        assert(names.drop_first() =~= Seq::<Seq<u8>>::empty());
        assert(enc_dtp_topics(ms, names.drop_last()) =~= Seq::<u8>::empty());
        assert(enc_dtp_topics(ms, names.drop_first()) =~= Seq::<u8>::empty());
        assert(names.last() == names[0]);
    } else {
        let d = names.drop_last();
        lemma_enc_dtp_topics_front(ms, d);
        assert(d[0] == names[0]);
        assert(d.drop_first() =~= names.drop_first().drop_last());
        assert(names.drop_first().last() == names.last());
    }
}

/// A run of encoded topic entries reads back as the per-name models, in
/// order.
proof fn lemma_dtp_topics_roundtrip(
    s: Seq<u8>,
    pos: int,
    ms: Seq<crate::group::TopicWithPartitionsM>,
    names: Seq<Seq<u8>>,
)
    requires
        0 <= pos,
        forall|k: int|
            0 <= k < names.len() ==> crate::utf8::is_utf8(#[trigger] names[k]) && names[k].len()
                < 0xFFFFFFFF,
        forall|k: int|
            0 <= k < ms.len() ==> (#[trigger] ms[k]).partitions.len() + 1 < 0x100000000,
        pos + enc_dtp_topics(ms, names).len() <= s.len(),
        s.subrange(pos, pos + enc_dtp_topics(ms, names).len()) =~= enc_dtp_topics(ms, names),
    ensures
        sp_dtp_resp_topics(s, pos, names.len() as nat) == Ok::<
            (Seq<DtpTopicModel>, int),
            DecodeError,
        >((dtp_entries_model(ms, names), pos + enc_dtp_topics(ms, names).len())),
    decreases names.len(),
{
    if names.len() == 0 {
        assert(enc_dtp_topics(ms, names) =~= Seq::<u8>::empty());
        assert(dtp_entries_model(ms, names) =~= Seq::<DtpTopicModel>::empty());
    } else {
        lemma_enc_dtp_topics_front(ms, names);
        let m0 = find_topic(ms, names[0]);
        let e0 = enc_dtp_topic(m0, names[0]);
        let rest = enc_dtp_topics(ms, names.drop_first());
        crate::codec::lemma_subrange_split(s, pos, e0, rest);
        assert(m0 matches Some(t) ==> sort_parts(t.partitions).len() + 1 < 0x100000000) by {
            lemma_find_topic_mem(ms, names[0]);
            match m0 {
                Some(t) => {
                    let k = choose|k: int| 0 <= k < ms.len() && ms[k] == t;
                    crate::handlers::lemma_sort_parts_len(t.partitions);
                },
                None => {},
            }
        }
        lemma_dtp_topic_roundtrip(s, pos, m0, names[0]);
        assert(forall|k: int|
            0 <= k < names.drop_first().len() ==> crate::utf8::is_utf8(
                #[trigger] names.drop_first()[k],
            ) && names.drop_first()[k].len() < 0xFFFFFFFF) by {
            assert(forall|k: int|
                0 <= k < names.drop_first().len() ==> names.drop_first()[k] == names[k + 1]);
        }
        lemma_dtp_topics_roundtrip(s, pos + e0.len() as int, ms, names.drop_first());
        assert(dtp_entries_model(ms, names) == seq![dtp_topic_model(m0, names[0])]
            + dtp_entries_model(ms, names.drop_first()));
    }
}

/// A topic-description response reads back as what the handler promises:
/// one entry per requested name, in lexicographic order of the names
/// whatever order the request used; a known name with its identifier and
/// its partitions ascending by id, an unknown name with the
/// unknown-topic-or-partition error and the nil identifier.
#[verifier::rlimit(100)]
pub proof fn lemma_dtp_response_roundtrip(
    cid: i32,
    v: i16,
    names: Seq<Seq<u8>>,
    ms: Seq<crate::group::TopicWithPartitionsM>,
)
    requires
        names.len() + 1 < 0x100000000,
        forall|k: int|
            0 <= k < names.len() ==> crate::utf8::is_utf8(#[trigger] names[k]) && names[k].len()
                < 0xFFFFFFFF,
        forall|k: int|
            0 <= k < ms.len() ==> (#[trigger] ms[k]).partitions.len() + 1 < 0x100000000,
    ensures
        sp_dtp_response(dtp_response(cid, v, names, ms), v) == Ok::<
            (i32, Seq<DtpTopicModel>),
            DecodeError,
        >((cid, dtp_entries_model(ms, sort_lex(names)))),
{
    reveal(sp_dtp_response);
    crate::codec::lemma_pow256_values();
    crate::codec::lemma_pow128_values();
    let s = dtp_response(cid, v, names, ms);
    let sorted = sort_lex(names);
    crate::handlers::lemma_sort_lex_len(names);
    crate::handlers::lemma_sort_lex_mem(names);
    assert(forall|k: int|
        0 <= k < sorted.len() ==> crate::utf8::is_utf8(#[trigger] sorted[k]) && sorted[k].len()
            < 0xFFFFFFFF) by {
        assert forall|k: int| 0 <= k < sorted.len() implies crate::utf8::is_utf8(
            #[trigger] sorted[k],
        ) && sorted[k].len() < 0xFFFFFFFF by {
            assert(names.contains(sorted[k]));
            let j = choose|j: int| 0 <= j < names.len() && names[j] == sorted[k];
            assert(crate::utf8::is_utf8(names[j]));
        }
    }
    let bcid = be_bytes(u32_of_i32(cid), 4);
    let htag = if crate::header::resp_header_version_of(75, v) >= 1 {
        crate::codec::enc_varint(0)
    } else {
        Seq::<u8>::empty()
    };
    let h: int = if crate::header::resp_header_version_of(75, v) >= 1 {
        5
    } else {
        4
    };
    let bthr = be_bytes(0, 4);
    let cnt = crate::codec::enc_varint(sorted.len() + 1);
    let entries = enc_dtp_topics(ms, sorted);
    crate::codec::lemma_be_bytes_len(u32_of_i32(cid), 4);
    crate::codec::lemma_be_bytes_len(0, 4);
    assert(crate::codec::enc_varint(0) =~= seq![0u8]);
    crate::codec::lemma_enc_varint_len(sorted.len() + 1);
    assert(s =~= bcid + (htag + (bthr + (cnt + (entries + (seq![0xFFu8] + seq![0u8]))))));
    assert(s.subrange(0, s.len() as int) =~= s);
    crate::codec::lemma_subrange_split(s, 0, bcid, htag + (bthr + (cnt + (entries + (seq![0xFFu8]
        + seq![0u8])))));
    crate::codec::lemma_subrange_split(s, 4, htag, bthr + (cnt + (entries + (seq![0xFFu8] + seq![
        0u8,
    ]))));
    if h == 5 {
        assert(s.subrange(4, 5)[0] == 0u8);
        assert(s[4] == 0);
    }
    crate::codec::lemma_subrange_split(s, h, bthr, cnt + (entries + (seq![0xFFu8] + seq![0u8])));
    crate::codec::lemma_subrange_split(s, h + 4, cnt, entries + (seq![0xFFu8] + seq![0u8]));
    crate::codec::lemma_be_roundtrip(s, 0, u32_of_i32(cid), 4);
    lemma_signed32_inverse(cid);
    crate::codec::lemma_varint_roundtrip(s, h + 4, (sorted.len() + 1) as u32);
    let p: int = h + 4 + cnt.len() as int;
    crate::codec::lemma_subrange_split(s, p, entries, seq![0xFFu8] + seq![0u8]);
    lemma_dtp_topics_roundtrip(s, p, ms, sorted);
    let p2: int = p + entries.len() as int;
    assert(s.subrange(p2, p2 + 2) =~= seq![0xFFu8] + seq![0u8]);
    assert(s.subrange(p2, p2 + 2)[0] == 0xFFu8);
    assert(s.subrange(p2, p2 + 2)[1] == 0u8);
    assert(s[p2] == 0xFF && s[p2 + 1] == 0);
    assert(p2 + 2 == s.len());
}


// ---------------------------------------------------------------------------
// Reading a publish response back
// ---------------------------------------------------------------------------

/// The signed value of the 8-byte field at `pos`.
pub open spec fn sp_i64_at(s: Seq<u8>, pos: int) -> i64 {
    crate::codec::signed_of(be_nat(s, pos, 8), 8) as i64
}

/// The signed reading of a 64-bit wire value inverts the unsigned writing.
pub proof fn lemma_signed64_inverse(x: i64)
    ensures
        crate::codec::signed_of(u64_of_i64(x), 8) as i64 == x,
{
    crate::codec::lemma_pow256_values();
}

/// What one partition entry of a publish response holds.
pub struct ProduceRespPartModel {
    pub index: i32,
    pub error_code: i16,
    pub base_offset: i64,
    pub log_append_time: i64,
    pub log_start_offset: i64,
}

/// What one topic entry of a publish response holds.
pub struct ProduceRespTopicModel {
    pub name: Seq<u8>,
    pub partitions: Seq<ProduceRespPartModel>,
}

/// Parses one partition entry of a publish response as this broker shapes
/// it (no per-record errors, no error message).
#[verifier::opaque]
pub open spec fn sp_produce_resp_partition(s: Seq<u8>, pos: int) -> Result<
    (ProduceRespPartModel, int),
    DecodeError,
> {
    if pos < 0 || pos + 33 > s.len() {
        Err(DecodeError::Truncated)
    } else if s[pos + 30] != 1 || s[pos + 31] != 0 || s[pos + 32] != 0 {
        Err(DecodeError::InvalidLength)
    } else {
        Ok(
            (
                ProduceRespPartModel {
                    index: crate::header::sp_i32_at(s, pos),
                    error_code: crate::header::sp_i16_at(s, pos + 4),
                    base_offset: sp_i64_at(s, pos + 6),
                    log_append_time: sp_i64_at(s, pos + 14),
                    log_start_offset: sp_i64_at(s, pos + 22),
                },
                pos + 33,
            ),
        )
    }
}

/// Parses `n` partition entries, front to back.
pub open spec fn sp_produce_resp_partitions(s: Seq<u8>, pos: int, n: nat) -> Result<
    (Seq<ProduceRespPartModel>, int),
    DecodeError,
>
    decreases n,
{
    if n == 0 {
        Ok((Seq::empty(), pos))
    } else {
        match sp_produce_resp_partition(s, pos) {
            Err(e) => Err(e),
            Ok((x, p)) => match sp_produce_resp_partitions(s, p, (n - 1) as nat) {
                Err(e) => Err(e),
                Ok((xs, p2)) => Ok((seq![x] + xs, p2)),
            },
        }
    }
}

/// Parses one topic entry of a publish response.
#[verifier::opaque]
pub open spec fn sp_produce_resp_topic(s: Seq<u8>, pos: int) -> Result<
    (ProduceRespTopicModel, int),
    DecodeError,
> {
    match crate::codec::sp_compact_string(s, pos) {
        Err(e) => Err(e),
        Ok((None, _)) => Err(DecodeError::InvalidLength),
        Ok((Some(name), p)) => match crate::codec::sp_varint(s, p) {
            Err(e) => Err(e),
            Ok((c, p2)) => if c == 0 {
                Err(DecodeError::InvalidLength)
            } else {
                match sp_produce_resp_partitions(s, p2, (c - 1) as nat) {
                    Err(e) => Err(e),
                    Ok((parts, p3)) => if p3 + 1 > s.len() {
                        Err(DecodeError::Truncated)
                    } else if s[p3] != 0 {
                        Err(DecodeError::InvalidLength)
                    } else {
                        Ok((ProduceRespTopicModel { name, partitions: parts }, p3 + 1))
                    },
                }
            },
        },
    }
}

/// Parses `n` topic entries, front to back.
pub open spec fn sp_produce_resp_topics(s: Seq<u8>, pos: int, n: nat) -> Result<
    (Seq<ProduceRespTopicModel>, int),
    DecodeError,
>
    decreases n,
{
    if n == 0 {
        Ok((Seq::empty(), pos))
    } else {
        match sp_produce_resp_topic(s, pos) {
            Err(e) => Err(e),
            Ok((x, p)) => match sp_produce_resp_topics(s, p, (n - 1) as nat) {
                Err(e) => Err(e),
                Ok((xs, p2)) => Ok((seq![x] + xs, p2)),
            },
        }
    }
}

/// Parses a whole publish response and demands it ends where the buffer
/// does.
#[verifier::opaque]
pub open spec fn sp_produce_response(s: Seq<u8>, v: i16) -> Result<
    (i32, Seq<ProduceRespTopicModel>),
    DecodeError,
> {
    let h: int = if crate::header::resp_header_version_of(0, v) >= 1 {
        5
    } else {
        4
    };
    if s.len() < h + 1 {
        Err(DecodeError::Truncated)
    } else if h == 5 && s[4] != 0 {
        Err(DecodeError::InvalidLength)
    } else {
        let cid = crate::header::sp_i32_at(s, 0);
        match crate::codec::sp_varint(s, h) {
            Err(e) => Err(e),
            Ok((c, p)) => if c == 0 {
                Err(DecodeError::InvalidLength)
            } else {
                match sp_produce_resp_topics(s, p, (c - 1) as nat) {
                    Err(e) => Err(e),
                    Ok((entries, p2)) => if p2 + 5 > s.len() {
                        Err(DecodeError::Truncated)
                    } else if s[p2 + 4] != 0 || p2 + 5 != s.len() {
                        Err(DecodeError::InvalidLength)
                    } else {
                        Ok((cid, entries))
                    },
                }
            },
        }
    }
}

/// The partition model the handler promises: offset 0 for a pair that
/// metadata holds, the unknown-topic-or-partition error and offset -1 for
/// one it does not; the append time is always -1.
pub open spec fn produce_part_model(
    pd: crate::handlers::ProducePartitionDataM,
    found: bool,
) -> ProduceRespPartModel {
    ProduceRespPartModel {
        index: pd.index,
        error_code: if found {
            0i16
        } else {
            3i16
        },
        base_offset: if found {
            0i64
        } else {
            -1i64
        },
        log_append_time: -1i64,
        log_start_offset: if found {
            0i64
        } else {
            -1i64
        },
    }
}

/// The per-partition models of one topic entry, each judged against
/// metadata on its own.
pub open spec fn produce_parts_model(
    ms: Seq<crate::group::TopicWithPartitionsM>,
    name: Seq<u8>,
    ps: Seq<crate::handlers::ProducePartitionDataM>,
) -> Seq<ProduceRespPartModel>
    decreases ps.len(),
{
    if ps.len() == 0 {
        Seq::empty()
    } else {
        seq![
            produce_part_model(ps[0], crate::handlers::part_found(ms, name, ps[0].index)),
        ] + produce_parts_model(ms, name, ps.drop_first())
    }
}

/// The per-topic models of a whole publish response.
pub open spec fn produce_entries_model(
    ms: Seq<crate::group::TopicWithPartitionsM>,
    tds: Seq<crate::handlers::ProduceTopicDataM>,
) -> Seq<ProduceRespTopicModel>
    decreases tds.len(),
{
    if tds.len() == 0 {
        Seq::empty()
    } else {
        seq![
            ProduceRespTopicModel {
                name: tds[0].name,
                partitions: produce_parts_model(ms, tds[0].name, tds[0].partitions),
            },
        ] + produce_entries_model(ms, tds.drop_first())
    }
}


/// The fixed width of an encoded publish partition entry.
proof fn lemma_enc_produce_partition_len(
    pd: crate::handlers::ProducePartitionDataM,
    found: bool,
)
    ensures
        crate::handlers::enc_produce_partition(pd, found).len() == 33,
{
    crate::codec::lemma_be_bytes_len(u32_of_i32(pd.index), 4);
    crate::codec::lemma_be_bytes_len(0, 2);
    crate::codec::lemma_be_bytes_len(3, 2);
    crate::codec::lemma_be_bytes_len(u64_of_i64(0i64), 8);
    crate::codec::lemma_be_bytes_len(u64_of_i64(-1i64), 8);
    assert(crate::codec::enc_varint(1) =~= seq![1u8]);
    assert(crate::codec::enc_varint(0) =~= seq![0u8]);
}

/// One encoded publish partition entry reads back as its model.
#[verifier::rlimit(100)]
proof fn lemma_produce_partition_roundtrip(
    s: Seq<u8>,
    pos: int,
    pd: crate::handlers::ProducePartitionDataM,
    found: bool,
)
    requires
        0 <= pos,
        pos + 33 <= s.len(),
        s.subrange(pos, pos + 33) =~= crate::handlers::enc_produce_partition(pd, found),
    ensures
        sp_produce_resp_partition(s, pos) == Ok::<(ProduceRespPartModel, int), DecodeError>((
            produce_part_model(pd, found),
            pos + 33,
        )),
{
    reveal(sp_produce_resp_partition);
    crate::codec::lemma_pow256_values();
    let bidx = be_bytes(u32_of_i32(pd.index), 4);
    let berr = if found {
        be_bytes(0, 2)
    } else {
        be_bytes(3, 2)
    };
    let bbase = if found {
        be_bytes(u64_of_i64(0i64), 8)
    } else {
        be_bytes(u64_of_i64(-1i64), 8)
    };
    let bapp = be_bytes(u64_of_i64(-1i64), 8);
    let bstart = if found {
        be_bytes(u64_of_i64(0i64), 8)
    } else {
        be_bytes(u64_of_i64(-1i64), 8)
    };
    crate::codec::lemma_be_bytes_len(u32_of_i32(pd.index), 4);
    crate::codec::lemma_be_bytes_len(0, 2);
    crate::codec::lemma_be_bytes_len(3, 2);
    crate::codec::lemma_be_bytes_len(u64_of_i64(0i64), 8);
    crate::codec::lemma_be_bytes_len(u64_of_i64(-1i64), 8);
    assert(crate::codec::enc_varint(1) =~= seq![1u8]);
    assert(crate::codec::enc_varint(0) =~= seq![0u8]);
    let tail3 = seq![1u8] + (seq![0u8] + seq![0u8]);
    assert(crate::handlers::enc_produce_partition(pd, found) =~= bidx + ((berr + bbase) + (bapp
        + (bstart + tail3))));
    assert(crate::handlers::enc_produce_partition(pd, found) =~= bidx + (berr + (bbase + (bapp + (
    bstart + tail3)))));
    crate::codec::lemma_subrange_split(s, pos, bidx, berr + (bbase + (bapp + (bstart + tail3))));
    crate::codec::lemma_subrange_split(s, pos + 4, berr, bbase + (bapp + (bstart + tail3)));
    crate::codec::lemma_subrange_split(s, pos + 6, bbase, bapp + (bstart + tail3));
    crate::codec::lemma_subrange_split(s, pos + 14, bapp, bstart + tail3);
    crate::codec::lemma_subrange_split(s, pos + 22, bstart, tail3);
    crate::codec::lemma_be_roundtrip(s, pos, u32_of_i32(pd.index), 4);
    lemma_signed32_inverse(pd.index);
    if found {
        crate::codec::lemma_be_roundtrip(s, pos + 4, 0, 2);
        lemma_signed16_inverse(0);
        crate::codec::lemma_be_roundtrip(s, pos + 6, u64_of_i64(0i64), 8);
        lemma_signed64_inverse(0i64);
        crate::codec::lemma_be_roundtrip(s, pos + 22, u64_of_i64(0i64), 8);
    } else {
        crate::codec::lemma_be_roundtrip(s, pos + 4, 3, 2);
        lemma_signed16_inverse(3);
        crate::codec::lemma_be_roundtrip(s, pos + 6, u64_of_i64(-1i64), 8);
        lemma_signed64_inverse(-1i64);
        crate::codec::lemma_be_roundtrip(s, pos + 22, u64_of_i64(-1i64), 8);
    }
    crate::codec::lemma_be_roundtrip(s, pos + 14, u64_of_i64(-1i64), 8);
    lemma_signed64_inverse(-1i64);
    assert(s.subrange(pos + 30, pos + 33) =~= tail3);
    assert(s.subrange(pos + 30, pos + 33)[0] == 1u8);
    assert(s.subrange(pos + 30, pos + 33)[1] == 0u8);
    assert(s.subrange(pos + 30, pos + 33)[2] == 0u8);
    assert(s[pos + 30] == 1 && s[pos + 31] == 0 && s[pos + 32] == 0);
}

/// The encoded publish partition entries decompose at the front as well.
proof fn lemma_enc_produce_partitions_front(
    ms: Seq<crate::group::TopicWithPartitionsM>,
    name: Seq<u8>,
    ps: Seq<crate::handlers::ProducePartitionDataM>,
)
    requires
        ps.len() >= 1,
    ensures
        crate::handlers::enc_produce_partitions(ms, name, ps)
            =~= crate::handlers::enc_produce_partition(
            ps[0],
            crate::handlers::part_found(ms, name, ps[0].index),
        ) + crate::handlers::enc_produce_partitions(ms, name, ps.drop_first()),
    decreases ps.len(),
{
    if ps.len() == 1 {
        assert(ps.drop_last() =~= Seq::<crate::handlers::ProducePartitionDataM>::empty());
        assert(ps.drop_first() =~= Seq::<crate::handlers::ProducePartitionDataM>::empty());
        assert(crate::handlers::enc_produce_partitions(ms, name, ps.drop_last()) =~= Seq::<
            u8,
        >::empty());
        assert(crate::handlers::enc_produce_partitions(ms, name, ps.drop_first()) =~= Seq::<
            u8,
        >::empty());
        assert(ps.last() == ps[0]);
    } else {
        let d = ps.drop_last();
        lemma_enc_produce_partitions_front(ms, name, d);
        assert(d[0] == ps[0]);
        assert(d.drop_first() =~= ps.drop_first().drop_last());
        assert(ps.drop_first().last() == ps.last());
    }
}

/// A run of encoded publish partition entries reads back as the models.
proof fn lemma_produce_partitions_roundtrip(
    s: Seq<u8>,
    pos: int,
    ms: Seq<crate::group::TopicWithPartitionsM>,
    name: Seq<u8>,
    ps: Seq<crate::handlers::ProducePartitionDataM>,
)
    requires
        0 <= pos,
        pos + crate::handlers::enc_produce_partitions(ms, name, ps).len() <= s.len(),
        s.subrange(pos, pos + crate::handlers::enc_produce_partitions(ms, name, ps).len())
            =~= crate::handlers::enc_produce_partitions(ms, name, ps),
    ensures
        sp_produce_resp_partitions(s, pos, ps.len() as nat) == Ok::<
            (Seq<ProduceRespPartModel>, int),
            DecodeError,
        >((
            produce_parts_model(ms, name, ps),
            pos + crate::handlers::enc_produce_partitions(ms, name, ps).len(),
        )),
    decreases ps.len(),
{
    if ps.len() == 0 {
        assert(crate::handlers::enc_produce_partitions(ms, name, ps) =~= Seq::<u8>::empty());
        assert(produce_parts_model(ms, name, ps) =~= Seq::<ProduceRespPartModel>::empty());
    } else {
        lemma_enc_produce_partitions_front(ms, name, ps);
        let found0 = crate::handlers::part_found(ms, name, ps[0].index);
        lemma_enc_produce_partition_len(ps[0], found0);
        let e0 = crate::handlers::enc_produce_partition(ps[0], found0);
        let rest = crate::handlers::enc_produce_partitions(ms, name, ps.drop_first());
        crate::codec::lemma_subrange_split(s, pos, e0, rest);
        lemma_produce_partition_roundtrip(s, pos, ps[0], found0);
        lemma_produce_partitions_roundtrip(s, pos + 33, ms, name, ps.drop_first());
        assert(produce_parts_model(ms, name, ps) == seq![produce_part_model(ps[0], found0)]
            + produce_parts_model(ms, name, ps.drop_first()));
    }
}


/// One encoded publish topic entry reads back as its model.
#[verifier::rlimit(100)]
proof fn lemma_produce_topic_roundtrip(
    s: Seq<u8>,
    pos: int,
    ms: Seq<crate::group::TopicWithPartitionsM>,
    td: crate::handlers::ProduceTopicDataM,
)
    requires
        0 <= pos,
        crate::utf8::is_utf8(td.name),
        td.name.len() < 0xFFFFFFFF,
        td.partitions.len() + 1 < 0x100000000,
        pos + crate::handlers::enc_produce_topic(ms, td).len() <= s.len(),
        s.subrange(pos, pos + crate::handlers::enc_produce_topic(ms, td).len())
            =~= crate::handlers::enc_produce_topic(ms, td),
    ensures
        sp_produce_resp_topic(s, pos) == Ok::<(ProduceRespTopicModel, int), DecodeError>((
            ProduceRespTopicModel {
                name: td.name,
                partitions: produce_parts_model(ms, td.name, td.partitions),
            },
            pos + crate::handlers::enc_produce_topic(ms, td).len(),
        )),
{
    reveal(sp_produce_resp_topic);
    crate::codec::lemma_pow128_values();
    let cname = crate::codec::enc_compact_string(Some(td.name));
    let n: nat = td.partitions.len();
    let cnt = crate::codec::enc_varint(n + 1);
    let bparts = crate::handlers::enc_produce_partitions(ms, td.name, td.partitions);
    crate::codec::lemma_enc_varint_len(n + 1);
    assert(crate::codec::enc_varint(0) =~= seq![0u8]);
    let e = crate::handlers::enc_produce_topic(ms, td);
    assert(e =~= cname + (cnt + (bparts + seq![0u8])));
    crate::codec::lemma_subrange_split(s, pos, cname, cnt + (bparts + seq![0u8]));
    let p: int = pos + cname.len() as int;
    crate::codec::lemma_subrange_split(s, p, cnt, bparts + seq![0u8]);
    let p2: int = p + cnt.len() as int;
    crate::codec::lemma_subrange_split(s, p2, bparts, seq![0u8]);
    crate::codec::lemma_compact_string_roundtrip(s, pos, Some(td.name));
    crate::codec::lemma_varint_roundtrip(s, p, (n + 1) as u32);
    lemma_produce_partitions_roundtrip(s, p2, ms, td.name, td.partitions);
    let p3: int = p2 + bparts.len() as int;
    assert(s.subrange(p3, p3 + 1)[0] == 0u8);
    assert(s[p3] == 0);
}

/// The encoded publish topic entries decompose at the front as well.
proof fn lemma_enc_produce_topics_front(
    ms: Seq<crate::group::TopicWithPartitionsM>,
    tds: Seq<crate::handlers::ProduceTopicDataM>,
)
    requires
        tds.len() >= 1,
    ensures
        crate::handlers::enc_produce_topics(ms, tds) =~= crate::handlers::enc_produce_topic(
            ms,
            tds[0],
        ) + crate::handlers::enc_produce_topics(ms, tds.drop_first()),
    decreases tds.len(),
{
    if tds.len() == 1 {
        assert(tds.drop_last() =~= Seq::<crate::handlers::ProduceTopicDataM>::empty());
        assert(tds.drop_first() =~= Seq::<crate::handlers::ProduceTopicDataM>::empty());
        assert(crate::handlers::enc_produce_topics(ms, tds.drop_last()) =~= Seq::<u8>::empty());
        assert(crate::handlers::enc_produce_topics(ms, tds.drop_first()) =~= Seq::<u8>::empty());
        assert(tds.last() == tds[0]);
    } else {
        let d = tds.drop_last();
        lemma_enc_produce_topics_front(ms, d);
        assert(d[0] == tds[0]);
        assert(d.drop_first() =~= tds.drop_first().drop_last());
        assert(tds.drop_first().last() == tds.last());
    }
}

/// A run of encoded publish topic entries reads back as the models.
proof fn lemma_produce_topics_roundtrip(
    s: Seq<u8>,
    pos: int,
    ms: Seq<crate::group::TopicWithPartitionsM>,
    tds: Seq<crate::handlers::ProduceTopicDataM>,
)
    requires
        0 <= pos,
        forall|k: int|
            0 <= k < tds.len() ==> crate::utf8::is_utf8((#[trigger] tds[k]).name) && tds[k].name.len()
                < 0xFFFFFFFF && tds[k].partitions.len() + 1 < 0x100000000,
        pos + crate::handlers::enc_produce_topics(ms, tds).len() <= s.len(),
        s.subrange(pos, pos + crate::handlers::enc_produce_topics(ms, tds).len())
            =~= crate::handlers::enc_produce_topics(ms, tds),
    ensures
        sp_produce_resp_topics(s, pos, tds.len() as nat) == Ok::<
            (Seq<ProduceRespTopicModel>, int),
            DecodeError,
        >((produce_entries_model(ms, tds), pos + crate::handlers::enc_produce_topics(
            ms,
            tds,
        ).len())),
    decreases tds.len(),
{
    if tds.len() == 0 {
        assert(crate::handlers::enc_produce_topics(ms, tds) =~= Seq::<u8>::empty());
        assert(produce_entries_model(ms, tds) =~= Seq::<ProduceRespTopicModel>::empty());
    } else {
        lemma_enc_produce_topics_front(ms, tds);
        let e0 = crate::handlers::enc_produce_topic(ms, tds[0]);
        let rest = crate::handlers::enc_produce_topics(ms, tds.drop_first());
        crate::codec::lemma_subrange_split(s, pos, e0, rest);
        lemma_produce_topic_roundtrip(s, pos, ms, tds[0]);
        assert(forall|k: int|
            0 <= k < tds.drop_first().len() ==> crate::utf8::is_utf8(
                (#[trigger] tds.drop_first()[k]).name,
            ) && tds.drop_first()[k].name.len() < 0xFFFFFFFF && tds.drop_first()[k].partitions.len()
                + 1 < 0x100000000) by {
            assert(forall|k: int|
                0 <= k < tds.drop_first().len() ==> tds.drop_first()[k] == tds[k + 1]);
        }
        lemma_produce_topics_roundtrip(s, pos + e0.len() as int, ms, tds.drop_first());
        assert(produce_entries_model(ms, tds) == seq![
            ProduceRespTopicModel {
                name: tds[0].name,
                partitions: produce_parts_model(ms, tds[0].name, tds[0].partitions),
            },
        ] + produce_entries_model(ms, tds.drop_first()));
    }
}

/// A publish response reads back as what the handler promises: one entry
/// per request topic in request order, each partition judged against
/// metadata on its own, with offset 0 where the pair was known and the
/// unknown-topic-or-partition error with offset -1 where it was not.
#[verifier::rlimit(100)]
pub proof fn lemma_produce_response_roundtrip(
    cid: i32,
    v: i16,
    tds: Seq<crate::handlers::ProduceTopicDataM>,
    ms: Seq<crate::group::TopicWithPartitionsM>,
)
    requires
        tds.len() + 1 < 0x100000000,
        forall|k: int|
            0 <= k < tds.len() ==> crate::utf8::is_utf8((#[trigger] tds[k]).name) && tds[k].name.len()
                < 0xFFFFFFFF && tds[k].partitions.len() + 1 < 0x100000000,
    ensures
        sp_produce_response(crate::handlers::produce_response(cid, v, tds, ms), v) == Ok::<
            (i32, Seq<ProduceRespTopicModel>),
            DecodeError,
        >((cid, produce_entries_model(ms, tds))),
{
    reveal(sp_produce_response);
    crate::codec::lemma_pow256_values();
    crate::codec::lemma_pow128_values();
    let s = crate::handlers::produce_response(cid, v, tds, ms);
    let bcid = be_bytes(u32_of_i32(cid), 4);
    let htag = if crate::header::resp_header_version_of(0, v) >= 1 {
        crate::codec::enc_varint(0)
    } else {
        Seq::<u8>::empty()
    };
    let h: int = if crate::header::resp_header_version_of(0, v) >= 1 {
        5
    } else {
        4
    };
    let cnt = crate::codec::enc_varint(tds.len() + 1);
    let entries = crate::handlers::enc_produce_topics(ms, tds);
    let bthr = be_bytes(0, 4);
    crate::codec::lemma_be_bytes_len(u32_of_i32(cid), 4);
    crate::codec::lemma_be_bytes_len(0, 4);
    assert(crate::codec::enc_varint(0) =~= seq![0u8]);
    crate::codec::lemma_enc_varint_len(tds.len() + 1);
    assert(s =~= bcid + (htag + (cnt + (entries + (bthr + seq![0u8])))));
    assert(s.subrange(0, s.len() as int) =~= s);
    crate::codec::lemma_subrange_split(s, 0, bcid, htag + (cnt + (entries + (bthr + seq![0u8]))));
    crate::codec::lemma_subrange_split(s, 4, htag, cnt + (entries + (bthr + seq![0u8])));
    if h == 5 {
        assert(s.subrange(4, 5)[0] == 0u8);
        assert(s[4] == 0);
    }
    crate::codec::lemma_subrange_split(s, h, cnt, entries + (bthr + seq![0u8]));
    crate::codec::lemma_be_roundtrip(s, 0, u32_of_i32(cid), 4);
    lemma_signed32_inverse(cid);
    crate::codec::lemma_varint_roundtrip(s, h, (tds.len() + 1) as u32);
    let p: int = h + cnt.len() as int;
    crate::codec::lemma_subrange_split(s, p, entries, bthr + seq![0u8]);
    lemma_produce_topics_roundtrip(s, p, ms, tds);
    let p2: int = p + entries.len() as int;
    crate::codec::lemma_subrange_split(s, p2, bthr, seq![0u8]);
    assert(s.subrange(p2 + 4, p2 + 5)[0] == 0u8);
    assert(s[p2 + 4] == 0);
    assert(p2 + 5 == s.len());
}

} // verus!
