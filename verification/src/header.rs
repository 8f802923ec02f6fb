//! Request header decoding.  The shape of a request header depends on
//! (api key, api version) through lookup tables that the protocol library
//! supplies; the header fields themselves are decoded here.

use vstd::prelude::*;

use crate::codec::{
    be_nat, opt_view, pow256, read_i16, read_i32, signed_of, sp_compact_string,
    sp_nullable_string, sp_varint, decode_compact_string, decode_nullable_string,
    decode_unsigned_varint,
};
use crate::DecodeError;

verus! {

// ---------------------------------------------------------------------------
// The protocol library's api-key tables, taken on trust
// ---------------------------------------------------------------------------

/// Whether the protocol library knows an api key: `ApiKey::try_from`
/// succeeds on it.
pub uninterp spec fn known_api_key(k: i16) -> bool;

/// The request header version the protocol library's tables give for
/// (api key, api version).
pub uninterp spec fn req_header_version_of(k: i16, v: i16) -> i16;

/// The response header version the protocol library's tables give for
/// (api key, api version).
pub uninterp spec fn resp_header_version_of(k: i16, v: i16) -> i16;

/// Relies on kafka_protocol's `ApiKey::try_from(i16)`: whether the api key
/// is one the protocol knows.  The four keys this broker serves (publish 0,
/// fetch 1, capability negotiation 18, topic description 75) are all in the
/// protocol's table.
#[verifier::external_body]
pub(crate) fn lookup_api_key(k: i16) -> (r: bool)
    ensures
        r == known_api_key(k),
        k == 0 || k == 1 || k == 18 || k == 75 ==> r,
{
    kafka_protocol::messages::ApiKey::try_from(k).is_ok()
}

/// Relies on kafka_protocol's `ApiKey::request_header_version`, the
/// per-message table of request header versions.  For the four keys this
/// broker serves the table reads: publish takes header 2 from version 9,
/// fetch from version 12, capability negotiation from version 3, and topic
/// description always; header 1 before that.
#[verifier::external_body]
pub(crate) fn request_header_version(k: i16, v: i16) -> (r: i16)
    requires
        known_api_key(k),
    ensures
        r == req_header_version_of(k, v),
        k == 0 ==> r == (if v >= 9 { 2i16 } else { 1i16 }),
        k == 1 ==> r == (if v >= 12 { 2i16 } else { 1i16 }),
        k == 18 ==> r == (if v >= 3 { 2i16 } else { 1i16 }),
        k == 75 ==> r == 2i16,
{
    let key = kafka_protocol::messages::ApiKey::try_from(k).unwrap();
    key.request_header_version(v)
}

/// Relies on kafka_protocol's `ApiKey::response_header_version`, the
/// per-message table of response header versions.  For the four keys this
/// broker serves the table reads: capability negotiation always answers
/// with header 0, topic description always with header 1, publish with
/// header 1 from version 9, fetch from version 12, and header 0 before.
#[verifier::external_body]
pub(crate) fn response_header_version(k: i16, v: i16) -> (r: i16)
    requires
        known_api_key(k),
    ensures
        r == resp_header_version_of(k, v),
        k == 0 ==> r == (if v >= 9 { 1i16 } else { 0i16 }),
        k == 1 ==> r == (if v >= 12 { 1i16 } else { 0i16 }),
        k == 18 ==> r == 0i16,
        k == 75 ==> r == 1i16,
{
    let key = kafka_protocol::messages::ApiKey::try_from(k).unwrap();
    key.response_header_version(v)
}

// ---------------------------------------------------------------------------
// Tagged-field sections
// ---------------------------------------------------------------------------

/// Skips `count` tagged fields at `pos`: each is a tag varint, a size
/// varint, then that many bytes.  Gives the position after the last one.
pub open spec fn sp_skip_tags(s: Seq<u8>, pos: int, count: nat) -> Result<int, DecodeError>
    decreases count,
{
    if count == 0 {
        Ok(pos)
    } else {
        match sp_varint(s, pos) {
            Err(e) => Err(e),
            Ok((_tag, p1)) => match sp_varint(s, p1) {
                Err(e) => Err(e),
                Ok((size, p2)) => if p2 + size > s.len() {
                    Err(DecodeError::Truncated)
                } else {
                    sp_skip_tags(s, p2 + size, (count - 1) as nat)
                },
            },
        }
    }
}

/// Parses a tagged-field section: a varint count of fields, then that many
/// (tag, size, bytes) triples, all skipped.  Gives the position after the
/// section.
pub open spec fn sp_tag_buffer(s: Seq<u8>, pos: int) -> Result<int, DecodeError> {
    match sp_varint(s, pos) {
        Err(e) => Err(e),
        Ok((count, p)) => sp_skip_tags(s, p, count as nat),
    }
}

/// Reads past a tagged-field section without interpreting its fields.
pub fn skip_tag_buffer(buf: &Vec<u8>, pos: &mut usize) -> (r: Result<(), DecodeError>)
    requires
        *old(pos) <= buf@.len(),
    ensures
        (match r {
            Ok(_) => sp_tag_buffer(buf@, *old(pos) as int) == Ok::<int, DecodeError>(
                *final(pos) as int,
            ) && *final(pos) <= buf@.len(),
            Err(e) => sp_tag_buffer(buf@, *old(pos) as int) == Err::<int, DecodeError>(e),
        }),
{
    let count = match decode_unsigned_varint(buf, pos) {
        Ok(v) => v,
        Err(e) => {
            return Err(e);
        },
    };
    let ghost p0 = *pos as int;
    let mut k: u32 = 0;
    while k < count
        invariant
            0 <= k <= count,
            *pos <= buf@.len(),
            sp_tag_buffer(buf@, *old(pos) as int) == sp_skip_tags(
                buf@,
                *pos as int,
                (count - k) as nat,
            ),
        decreases count - k,
    {
        match decode_unsigned_varint(buf, pos) {
            Ok(_) => (),
            Err(e) => {
                return Err(e);
            },
        };
        let size = match decode_unsigned_varint(buf, pos) {
            Ok(v) => v,
            Err(e) => {
                return Err(e);
            },
        };
        if (size as usize) > buf.len() - *pos {
            return Err(DecodeError::Truncated);
        }
        *pos = *pos + (size as usize);
        k = k + 1;
    }
    Ok(())
}

// ---------------------------------------------------------------------------
// The request header
// ---------------------------------------------------------------------------

/// A decoded request header, together with the two optional
/// capability-negotiation body fields that follow it on the wire.
pub struct KafkaRequest {
    /// The frame's declared byte length (what follows the length prefix).
    pub message_size: i32,
    pub api_key: i16,
    pub api_version: i16,
    pub correlation_id: i32,
    /// The client's name, absent for header version 0 and for the null
    /// sentinel (UTF-8 bytes).
    pub client_id: Option<Vec<u8>>,
    pub client_software_name: Option<Vec<u8>>,
    pub client_software_version: Option<Vec<u8>>,
}

/// The mathematical value of a request header.
pub struct KafkaRequestM {
    pub message_size: i32,
    pub api_key: i16,
    pub api_version: i16,
    pub correlation_id: i32,
    pub client_id: Option<Seq<u8>>,
    pub client_software_name: Option<Seq<u8>>,
    pub client_software_version: Option<Seq<u8>>,
}

impl View for KafkaRequest {
    type V = KafkaRequestM;

    open spec fn view(&self) -> KafkaRequestM {
        KafkaRequestM {
            message_size: self.message_size,
            api_key: self.api_key,
            api_version: self.api_version,
            correlation_id: self.correlation_id,
            client_id: opt_view(self.client_id),
            client_software_name: opt_view(self.client_software_name),
            client_software_version: opt_view(self.client_software_version),
        }
    }
}

/// The signed value of the 2-byte field at `pos`.
pub open spec fn sp_i16_at(s: Seq<u8>, pos: int) -> i16 {
    signed_of(be_nat(s, pos, 2), 2) as i16
}

/// The signed value of the 4-byte field at `pos`.
pub open spec fn sp_i32_at(s: Seq<u8>, pos: int) -> i32 {
    signed_of(be_nat(s, pos, 4), 4) as i32
}

/// Parses a framed request's length prefix and header: message size, api
/// key (which must be one the protocol knows), api version, correlation id,
/// then the client id in the shape the header-version table dictates —
/// nothing for header 0, a nullable string for header 1, a compact string
/// and a tagged-field section for header 2.  A capability-negotiation
/// request of version 3 or more with bytes left also carries the client's
/// software name and version as compact strings.
pub open spec fn sp_kafka_request(s: Seq<u8>, pos: int) -> Result<
    (KafkaRequestM, int),
    DecodeError,
> {
    if pos < 0 || pos + 12 > s.len() {
        Err(DecodeError::Truncated)
    } else {
        let message_size = sp_i32_at(s, pos);
        let api_key = sp_i16_at(s, pos + 4);
        let api_version = sp_i16_at(s, pos + 6);
        let correlation_id = sp_i32_at(s, pos + 8);
        if !known_api_key(api_key) {
            Err(DecodeError::UnknownApiKey)
        } else {
            let hv = req_header_version_of(api_key, api_version);
            let client_id_r: Result<(Option<Seq<u8>>, int), DecodeError> = if hv >= 2 {
                match sp_compact_string(s, pos + 12) {
                    Err(e) => Err(e),
                    Ok((cid, p)) => match sp_tag_buffer(s, p) {
                        Err(e) => Err(e),
                        Ok(p2) => Ok((cid, p2)),
                    },
                }
            } else if hv == 1 {
                sp_nullable_string(s, pos + 12)
            } else {
                Ok((None, pos + 12))
            };
            match client_id_r {
                Err(e) => Err(e),
                Ok((client_id, p)) => {
                    let sw_r: Result<
                        (Option<Seq<u8>>, Option<Seq<u8>>, int),
                        DecodeError,
                    > = if api_key == 18 && api_version >= 3 && p < s.len() {
                        match sp_compact_string(s, p) {
                            Err(e) => Err(e),
                            Ok((swn, p2)) => if p2 < s.len() {
                                match sp_compact_string(s, p2) {
                                    Err(e) => Err(e),
                                    Ok((swv, p3)) => Ok((swn, swv, p3)),
                                }
                            } else {
                                Ok((swn, None, p2))
                            },
                        }
                    } else {
                        Ok((None, None, p))
                    };
                    match sw_r {
                        Err(e) => Err(e),
                        Ok((swn, swv, p_end)) => Ok(
                            (
                                KafkaRequestM {
                                    message_size,
                                    api_key,
                                    api_version,
                                    correlation_id,
                                    client_id,
                                    client_software_name: swn,
                                    client_software_version: swv,
                                },
                                p_end,
                            ),
                        ),
                    }
                },
            }
        }
    }
}

/// Decodes a framed request's length prefix and header.
pub fn parse_kafka_request(buf: &Vec<u8>, pos: &mut usize) -> (r: Result<
    KafkaRequest,
    DecodeError,
>)
    requires
        *old(pos) <= buf@.len(),
    ensures
        (match r {
            Ok(req) => sp_kafka_request(buf@, *old(pos) as int) == Ok::<
                (KafkaRequestM, int),
                DecodeError,
            >((req@, *final(pos) as int)) && *final(pos) <= buf@.len(),
            Err(e) => sp_kafka_request(buf@, *old(pos) as int) == Err::<
                (KafkaRequestM, int),
                DecodeError,
            >(e),
        }),
{
    let ghost p0 = *pos as int;
    if buf.len() - *pos < 12 {
        return Err(DecodeError::Truncated);
    }
    proof {
        crate::codec::lemma_pow256_values();
        crate::codec::lemma_be_nat_bound(buf@, p0, 4);
        crate::codec::lemma_be_nat_bound(buf@, p0 + 4, 2);
        crate::codec::lemma_be_nat_bound(buf@, p0 + 6, 2);
        crate::codec::lemma_be_nat_bound(buf@, p0 + 8, 4);
    }
    let message_size = match read_i32(buf, pos) {
        Ok(v) => v,
        Err(e) => {
            return Err(e);
        },
    };
    let api_key = match read_i16(buf, pos) {
        Ok(v) => v,
        Err(e) => {
            return Err(e);
        },
    };
    let api_version = match read_i16(buf, pos) {
        Ok(v) => v,
        Err(e) => {
            return Err(e);
        },
    };
    let correlation_id = match read_i32(buf, pos) {
        Ok(v) => v,
        Err(e) => {
            return Err(e);
        },
    };
    if !lookup_api_key(api_key) {
        return Err(DecodeError::UnknownApiKey);
    }
    let hv = request_header_version(api_key, api_version);
    let client_id: Option<Vec<u8>>;
    if hv >= 2 {
        client_id = match decode_compact_string(buf, pos) {
            Ok(v) => v,
            Err(e) => {
                return Err(e);
            },
        };
        match skip_tag_buffer(buf, pos) {
            Ok(_) => (),
            Err(e) => {
                return Err(e);
            },
        };
    } else if hv == 1 {
        client_id = match decode_nullable_string(buf, pos) {
            Ok(v) => v,
            Err(e) => {
                return Err(e);
            },
        };
    } else {
        client_id = None;
    }
    let mut client_software_name: Option<Vec<u8>> = None;
    let mut client_software_version: Option<Vec<u8>> = None;
    if api_key == 18 && api_version >= 3 && *pos < buf.len() {
        client_software_name = match decode_compact_string(buf, pos) {
            Ok(v) => v,
            Err(e) => {
                return Err(e);
            },
        };
        if *pos < buf.len() {
            client_software_version = match decode_compact_string(buf, pos) {
                Ok(v) => v,
                Err(e) => {
                    return Err(e);
                },
            };
        }
    }
    Ok(
        KafkaRequest {
            message_size,
            api_key,
            api_version,
            correlation_id,
            client_id,
            client_software_name,
            client_software_version,
        },
    )
}

} // verus!
