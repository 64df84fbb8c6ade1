//! The MQTT wire format, stated over byte sequences: what a frame decodes to,
//! and what a packet encodes to.
use vstd::prelude::*;

use crate::error::ErrorView;
use crate::packet::{PacketView, PropertyView, ProtocolLevel};
use crate::text::{decimal, utf8_lossy};
use crate::utils::{lemma_var_int_scan_len, spec_var_int, var_int_bytes, VarIntRead};

verus! {

/// Why a frame is rejected.
pub enum Failure {
    /// A variable byte integer runs past four bytes.
    BadVarInt,
    /// A 5.0 CONNECT whose property length is cut short.
    IncompleteConnectProperties,
    /// A 5.0 PUBLISH whose property length is cut short.
    IncompletePublishProperties,
    /// A PUBLISH whose properties claim more bytes than the packet has.
    PropertiesExceedPacket,
    /// A property identifier outside the set understood here.
    UnknownProperty,
    /// A CONNECT with a protocol level byte other than 4 or 5.
    UnsupportedVersion,
    /// A packet type that is not decoded here.
    UnsupportedPacketType(u8),
}

/// The error reported for each kind of rejection.
pub open spec fn failure_error(f: Failure) -> ErrorView {
    match f {
        Failure::BadVarInt => ErrorView::MalformedPacket("Malformed Variable Byte Integer"@),
        Failure::IncompleteConnectProperties => ErrorView::MalformedPacket(
            "Incomplete v5 properties"@,
        ),
        Failure::IncompletePublishProperties => ErrorView::MalformedPacket(
            "Incomplete v5 properties in PUBLISH"@,
        ),
        Failure::PropertiesExceedPacket => ErrorView::MalformedPacket(
            "Properties length exceeds packet"@,
        ),
        Failure::UnknownProperty => ErrorView::MalformedPacket("Unknown property identifier"@),
        Failure::UnsupportedVersion => ErrorView::UnsupportedVersion,
        Failure::UnsupportedPacketType(t) => ErrorView::ProtocolError(
            "Unsupported packet type: "@ + decimal(t as nat),
        ),
    }
}

/// A big-endian 16-bit value.
pub open spec fn be_u16(hi: u8, lo: u8) -> u16 {
    (hi as int * 256 + lo as int) as u16
}

/// A big-endian 32-bit value.
pub open spec fn be_u32(b0: u8, b1: u8, b2: u8, b3: u8) -> u32 {
    (b0 as int * 16777216 + b1 as int * 65536 + b2 as int * 256 + b3 as int) as u32
}

/// The big-endian bytes of a 16-bit value.
pub open spec fn be_bytes(v: u16) -> Seq<u8> {
    seq![(v / 256) as u8, (v % 256) as u8]
}

/// Reading one byte at `p`; `None` where it lies past the end.
pub open spec fn read_u8(s: Seq<u8>, p: int) -> Option<(u8, int)> {
    if 0 <= p && p + 1 <= s.len() {
        Some((s[p], p + 1))
    } else {
        None
    }
}

/// Reading a big-endian 16-bit value at `p`.
pub open spec fn read_u16(s: Seq<u8>, p: int) -> Option<(u16, int)> {
    if 0 <= p && p + 2 <= s.len() {
        Some((be_u16(s[p], s[p + 1]), p + 2))
    } else {
        None
    }
}

/// Reading a big-endian 32-bit value at `p`.
pub open spec fn read_u32(s: Seq<u8>, p: int) -> Option<(u32, int)> {
    if 0 <= p && p + 4 <= s.len() {
        Some((be_u32(s[p], s[p + 1], s[p + 2], s[p + 3]), p + 4))
    } else {
        None
    }
}

/// Reading `n` bytes at `p`.
pub open spec fn read_bytes(s: Seq<u8>, p: int, n: int) -> Option<(Seq<u8>, int)> {
    if 0 <= p && 0 <= n && p + n <= s.len() {
        Some((s.subrange(p, p + n), p + n))
    } else {
        None
    }
}

/// Reading a length-prefixed field (a 16-bit length, then that many bytes) at `p`.
pub open spec fn read_prefixed(s: Seq<u8>, p: int) -> Option<(Seq<u8>, int)> {
    match read_u16(s, p) {
        None => None,
        Some((n, q)) => read_bytes(s, q, n as int),
    }
}

/// The outcome of reading a property block.
pub enum PropsOutcome {
    /// The properties, and the position after the last one read.
    Done(Seq<PropertyView>, int),
    Fail(Failure),
    /// A property's value lies past the end of the bytes.
    Overrun,
}

pub open spec fn props_cons(p: PropertyView, o: PropsOutcome) -> PropsOutcome {
    match o {
        PropsOutcome::Done(ps, q) => PropsOutcome::Done(seq![p] + ps, q),
        other => other,
    }
}

/// Reading properties from position `p` while it lies before `end`: each is a
/// variable byte integer identifier followed by a value whose form the
/// identifier fixes. An identifier cut short ends the block; a subscription
/// identifier whose value is cut short is skipped.
pub open spec fn spec_properties(s: Seq<u8>, p: int, end: int) -> PropsOutcome
    decreases s.len() - p,
{
    if p >= end {
        PropsOutcome::Done(seq![], p)
    } else if p < 0 || p > s.len() {
        PropsOutcome::Overrun
    } else {
        match spec_var_int(s.skip(p)) {
            VarIntRead::Incomplete => PropsOutcome::Done(seq![], p),
            VarIntRead::Malformed => PropsOutcome::Fail(Failure::BadVarInt),
            VarIntRead::Value(id, n) => {
                proof {
                    lemma_var_int_scan_len(s.skip(p), 0);
                }
                let q = p + n;
                if id == 0x01 {
                    match read_u8(s, q) {
                        None => PropsOutcome::Overrun,
                        Some((v, r)) => props_cons(
                            PropertyView::PayloadFormatIndicator(v),
                            spec_properties(s, r, end),
                        ),
                    }
                } else if id == 0x02 {
                    match read_u32(s, q) {
                        None => PropsOutcome::Overrun,
                        Some((v, r)) => props_cons(
                            PropertyView::MessageExpiryInterval(v),
                            spec_properties(s, r, end),
                        ),
                    }
                } else if id == 0x03 {
                    match read_prefixed(s, q) {
                        None => PropsOutcome::Overrun,
                        Some((b, r)) => props_cons(
                            PropertyView::ContentType(utf8_lossy(b)),
                            spec_properties(s, r, end),
                        ),
                    }
                } else if id == 0x08 {
                    match read_prefixed(s, q) {
                        None => PropsOutcome::Overrun,
                        Some((b, r)) => props_cons(
                            PropertyView::ResponseTopic(utf8_lossy(b)),
                            spec_properties(s, r, end),
                        ),
                    }
                } else if id == 0x09 {
                    match read_prefixed(s, q) {
                        None => PropsOutcome::Overrun,
                        Some((b, r)) => props_cons(
                            PropertyView::CorrelationData(b),
                            spec_properties(s, r, end),
                        ),
                    }
                } else if id == 0x0B {
                    match spec_var_int(s.skip(q)) {
                        VarIntRead::Incomplete => spec_properties(s, q, end),
                        VarIntRead::Malformed => PropsOutcome::Fail(Failure::BadVarInt),
                        VarIntRead::Value(v, m) => {
                            proof {
                                lemma_var_int_scan_len(s.skip(q), 0);
                            }
                            props_cons(
                                PropertyView::SubscriptionIdentifier(v),
                                spec_properties(s, q + m, end),
                            )
                        },
                    }
                } else if id == 0x23 {
                    match read_u16(s, q) {
                        None => PropsOutcome::Overrun,
                        Some((v, r)) => props_cons(
                            PropertyView::TopicAlias(v),
                            spec_properties(s, r, end),
                        ),
                    }
                } else if id == 0x26 {
                    match read_prefixed(s, q) {
                        None => PropsOutcome::Overrun,
                        Some((k, r)) => match read_prefixed(s, r) {
                            None => PropsOutcome::Overrun,
                            Some((v, t)) => props_cons(
                                PropertyView::UserProperty(utf8_lossy(k), utf8_lossy(v)),
                                spec_properties(s, t, end),
                            ),
                        },
                    }
                } else {
                    PropsOutcome::Fail(Failure::UnknownProperty)
                }
            },
        }
    }
}

/// The (topic filter, QoS) pairs of a SUBSCRIBE, from `p` to the end;
/// `None` where the last pair is cut short.
pub open spec fn spec_subscribe_filters(s: Seq<u8>, p: int) -> Option<Seq<(Seq<char>, u8)>>
    decreases s.len() - p,
{
    if p < 0 || p >= s.len() {
        Some(seq![])
    } else {
        match read_prefixed(s, p) {
            None => None,
            Some((t, q)) => match read_u8(s, q) {
                None => None,
                Some((qos, r)) => match spec_subscribe_filters(s, r) {
                    None => None,
                    Some(rest) => Some(seq![(utf8_lossy(t), qos)] + rest),
                },
            },
        }
    }
}

/// The topic filters of an UNSUBSCRIBE, from `p` to the end; `None` where the
/// last one is cut short.
pub open spec fn spec_unsubscribe_filters(s: Seq<u8>, p: int) -> Option<Seq<Seq<char>>>
    decreases s.len() - p,
{
    if p < 0 || p >= s.len() {
        Some(seq![])
    } else {
        match read_prefixed(s, p) {
            None => None,
            Some((t, q)) => match spec_unsubscribe_filters(s, q) {
                None => None,
                Some(rest) => Some(seq![utf8_lossy(t)] + rest),
            },
        }
    }
}

/// What the variable part and payload of one frame decode to.
pub enum BodyOutcome {
    Packet(PacketView),
    Fail(Failure),
    /// A field lies past the end of the frame.
    Overrun,
}

/// The protocol level that a CONNECT level byte selects.
pub open spec fn level_of_byte(b: u8) -> Option<ProtocolLevel> {
    if b == 4 {
        Some(ProtocolLevel::V311)
    } else if b == 5 {
        Some(ProtocolLevel::V5)
    } else {
        None
    }
}

/// A CONNECT body, from the client identifier on (at `p`).
pub open spec fn spec_connect_client(
    level: ProtocolLevel,
    connect_flags: u8,
    keep_alive: u16,
    s: Seq<u8>,
    p: int,
) -> BodyOutcome {
    match read_prefixed(s, p) {
        None => BodyOutcome::Overrun,
        Some((id, _)) => BodyOutcome::Packet(
            PacketView::Connect {
                protocol_level: level,
                client_id: utf8_lossy(id),
                clean_session: connect_flags & 0x02 != 0,
                keep_alive,
            },
        ),
    }
}

/// A CONNECT body: protocol name, level, connect flags, keep alive, the
/// property block at level 5 (skipped), then the client identifier. Will,
/// user name and password are not read.
pub open spec fn spec_connect(s: Seq<u8>) -> BodyOutcome {
    match read_prefixed(s, 0) {
        None => BodyOutcome::Overrun,
        Some((_name, p1)) => match read_u8(s, p1) {
            None => BodyOutcome::Overrun,
            Some((lb, p2)) => match level_of_byte(lb) {
                None => BodyOutcome::Fail(Failure::UnsupportedVersion),
                Some(level) => match read_u8(s, p2) {
                    None => BodyOutcome::Overrun,
                    Some((flags, p3)) => match read_u16(s, p3) {
                        None => BodyOutcome::Overrun,
                        Some((keep_alive, p4)) => if level == ProtocolLevel::V5 {
                            match spec_var_int(s.skip(p4)) {
                                VarIntRead::Incomplete => BodyOutcome::Fail(
                                    Failure::IncompleteConnectProperties,
                                ),
                                VarIntRead::Malformed => BodyOutcome::Fail(Failure::BadVarInt),
                                VarIntRead::Value(n, m) => if p4 + m + n > s.len() {
                                    BodyOutcome::Overrun
                                } else {
                                    spec_connect_client(level, flags, keep_alive, s, p4 + m + n)
                                },
                            }
                        } else {
                            spec_connect_client(level, flags, keep_alive, s, p4)
                        },
                    },
                },
            },
        },
    }
}

/// The PUBLISH fields that the fixed header's flags carry, and the rest of
/// the body from the packet identifier on (at `p`).
pub open spec fn spec_publish_rest(
    level: ProtocolLevel,
    flags: u8,
    topic: Seq<char>,
    packet_id: Option<u16>,
    s: Seq<u8>,
    p: int,
) -> BodyOutcome {
    let dup = flags & 0x08 != 0;
    let qos = (flags & 0x06) >> 1u8;
    let retain = flags & 0x01 != 0;
    if level == ProtocolLevel::V5 {
        match spec_var_int(s.skip(p)) {
            VarIntRead::Incomplete => BodyOutcome::Fail(Failure::IncompletePublishProperties),
            VarIntRead::Malformed => BodyOutcome::Fail(Failure::BadVarInt),
            VarIntRead::Value(n, m) => if s.len() < p + m + n {
                BodyOutcome::Fail(Failure::PropertiesExceedPacket)
            } else {
                match spec_properties(s, p + m, p + m + n) {
                    PropsOutcome::Done(properties, r) => BodyOutcome::Packet(
                        PacketView::Publish {
                            dup,
                            qos,
                            retain,
                            topic,
                            packet_id,
                            properties,
                            payload: s.skip(r),
                        },
                    ),
                    PropsOutcome::Fail(f) => BodyOutcome::Fail(f),
                    PropsOutcome::Overrun => BodyOutcome::Overrun,
                }
            },
        }
    } else {
        BodyOutcome::Packet(
            PacketView::Publish {
                dup,
                qos,
                retain,
                topic,
                packet_id,
                properties: seq![],
                payload: s.skip(p),
            },
        )
    }
}

/// A PUBLISH body: topic name, a packet identifier when the QoS is above 0,
/// the property block at level 5, and the payload, which is the rest.
pub open spec fn spec_publish(level: ProtocolLevel, flags: u8, s: Seq<u8>) -> BodyOutcome {
    match read_prefixed(s, 0) {
        None => BodyOutcome::Overrun,
        Some((topic, p1)) => if (flags & 0x06) >> 1u8 > 0 {
            match read_u16(s, p1) {
                None => BodyOutcome::Overrun,
                Some((id, p2)) => spec_publish_rest(level, flags, utf8_lossy(topic), Some(id), s, p2),
            }
        } else {
            spec_publish_rest(level, flags, utf8_lossy(topic), None, s, p1)
        },
    }
}

/// A body that is a packet identifier alone (bytes after it are ignored).
pub open spec fn spec_id_only(s: Seq<u8>, ptype: u8) -> BodyOutcome {
    match read_u16(s, 0) {
        None => BodyOutcome::Overrun,
        Some((id, _)) => BodyOutcome::Packet(
            if ptype == 5 {
                PacketView::PubRec { packet_id: id }
            } else if ptype == 6 {
                PacketView::PubRel { packet_id: id }
            } else if ptype == 7 {
                PacketView::PubComp { packet_id: id }
            } else {
                PacketView::UnsubAck { packet_id: id }
            },
        ),
    }
}

/// What the body `s` of a frame of type `ptype`, with fixed header flags
/// `flags`, decodes to at protocol level `level`.
#[verifier::opaque]
pub open spec fn spec_body(level: ProtocolLevel, ptype: u8, flags: u8, s: Seq<u8>) -> BodyOutcome {
    if ptype == 1 {
        spec_connect(s)
    } else if ptype == 2 {
        match read_u8(s, 0) {
            None => BodyOutcome::Overrun,
            Some((ack_flags, p)) => match read_u8(s, p) {
                None => BodyOutcome::Overrun,
                Some((return_code, _)) => BodyOutcome::Packet(
                    PacketView::ConnAck { session_present: ack_flags & 0x01 != 0, return_code },
                ),
            },
        }
    } else if ptype == 3 {
        spec_publish(level, flags, s)
    } else if ptype == 4 {
        match read_u16(s, 0) {
            None => BodyOutcome::Overrun,
            Some((id, _)) => BodyOutcome::Packet(
                PacketView::PubAck {
                    packet_id: id,
                    reason_code: if level == ProtocolLevel::V5 && s.len() > 2 {
                        Some(s[2])
                    } else {
                        None
                    },
                },
            ),
        }
    } else if ptype == 5 || ptype == 6 || ptype == 7 || ptype == 11 {
        spec_id_only(s, ptype)
    } else if ptype == 8 {
        match read_u16(s, 0) {
            None => BodyOutcome::Overrun,
            Some((id, p)) => match spec_subscribe_filters(s, p) {
                None => BodyOutcome::Overrun,
                Some(filters) => BodyOutcome::Packet(
                    PacketView::Subscribe { packet_id: id, filters },
                ),
            },
        }
    } else if ptype == 9 {
        match read_u16(s, 0) {
            None => BodyOutcome::Overrun,
            Some((id, p)) => BodyOutcome::Packet(
                PacketView::SubAck { packet_id: id, return_codes: s.skip(p) },
            ),
        }
    } else if ptype == 10 {
        match read_u16(s, 0) {
            None => BodyOutcome::Overrun,
            Some((id, p)) => match spec_unsubscribe_filters(s, p) {
                None => BodyOutcome::Overrun,
                Some(filters) => BodyOutcome::Packet(
                    PacketView::Unsubscribe { packet_id: id, filters },
                ),
            },
        }
    } else if ptype == 12 {
        BodyOutcome::Packet(PacketView::PingReq)
    } else if ptype == 13 {
        BodyOutcome::Packet(PacketView::PingResp)
    } else if ptype == 14 {
        BodyOutcome::Packet(PacketView::Disconnect)
    } else {
        BodyOutcome::Fail(Failure::UnsupportedPacketType(ptype))
    }
}

/// The flags of the fixed header matter to a PUBLISH alone.
pub proof fn lemma_body_flags(level: ProtocolLevel, ptype: u8, flags: u8, s: Seq<u8>)
    ensures
        ptype == 3 ==> spec_body(level, ptype, flags, s) == spec_publish(level, flags, s),
        ptype != 3 ==> spec_body(level, ptype, flags, s) == spec_body(level, ptype, 0, s),
{
    reveal(spec_body);
}

/// What decoding makes of the front of a receive buffer.
pub enum DecodeOutcome {
    /// No complete frame yet: nothing is consumed.
    NeedMore,
    /// The remaining length field is malformed: nothing is consumed.
    BadLength,
    /// A complete frame of `total` bytes, consumed whatever its body decodes to.
    Frame(nat, BodyOutcome),
}

/// Decoding the front of `src` at protocol level `level`: a fixed header byte
/// (packet type in the high four bits, flags in the low four), the remaining
/// length as a variable byte integer, then that many bytes of body.
pub open spec fn spec_decode(level: ProtocolLevel, src: Seq<u8>) -> DecodeOutcome {
    if src.len() == 0 {
        DecodeOutcome::NeedMore
    } else {
        match spec_var_int(src.skip(1)) {
            VarIntRead::Incomplete => DecodeOutcome::NeedMore,
            VarIntRead::Malformed => DecodeOutcome::BadLength,
            VarIntRead::Value(rl, n) => {
                let total = (1 + n + rl) as nat;
                if src.len() < total {
                    DecodeOutcome::NeedMore
                } else {
                    DecodeOutcome::Frame(
                        total,
                        spec_body(level, src[0] / 16, src[0] % 16, src.subrange((1 + n) as int, total as int)),
                    )
                }
            },
        }
    }
}

/// Whether decoding `src` would read a field past the end of its frame.
pub open spec fn decode_overruns(level: ProtocolLevel, src: Seq<u8>) -> bool {
    spec_decode(level, src) matches DecodeOutcome::Frame(_, BodyOutcome::Overrun)
}

/// The remaining length of an encoded SUBACK with `n` return codes.
pub open spec fn suback_remaining(level: ProtocolLevel, n: nat) -> nat {
    2 + n + if level == ProtocolLevel::V5 {
        1nat
    } else {
        0nat
    }
}

/// The largest value a variable byte integer holds (four bytes of seven bits).
pub open spec fn max_var_int() -> nat {
    268435455
}

/// The bytes that encoding `p` at protocol level `level` appends; `None` for
/// the packets that are not encoded here (CONNECT, PUBLISH, SUBSCRIBE,
/// UNSUBSCRIBE), and for a SUBACK whose remaining length does not fit a
/// variable byte integer.
pub open spec fn spec_encode(level: ProtocolLevel, p: PacketView) -> Option<Seq<u8>> {
    match p {
        PacketView::ConnAck { session_present, return_code } => Some(
            seq![
                0x20u8,
                2u8,
                if session_present {
                    1u8
                } else {
                    0u8
                },
                return_code,
            ],
        ),
        PacketView::PingResp => Some(seq![0xD0u8, 0u8]),
        PacketView::PubAck { packet_id, reason_code } => {
            let reason = match reason_code {
                Some(r) => r,
                None => 0u8,
            };
            if level == ProtocolLevel::V5 && reason != 0 {
                Some(seq![0x40u8, 4u8] + be_bytes(packet_id) + seq![reason, 0u8])
            } else {
                Some(seq![0x40u8, 2u8] + be_bytes(packet_id))
            }
        },
        PacketView::PubRec { packet_id } => Some(seq![0x50u8, 2u8] + be_bytes(packet_id)),
        PacketView::PubRel { packet_id } => Some(seq![0x62u8, 2u8] + be_bytes(packet_id)),
        PacketView::PubComp { packet_id } => Some(seq![0x70u8, 2u8] + be_bytes(packet_id)),
        PacketView::SubAck { packet_id, return_codes } => if suback_remaining(
            level,
            return_codes.len(),
        ) <= max_var_int() {
            Some(
                seq![0x90u8] + var_int_bytes(suback_remaining(level, return_codes.len()))
                    + be_bytes(packet_id) + (if level == ProtocolLevel::V5 {
                    seq![0u8]
                } else {
                    seq![]
                }) + return_codes,
            )
        } else {
            None
        },
        PacketView::UnsubAck { packet_id } => Some(seq![0xB0u8, 2u8] + be_bytes(packet_id)),
        PacketView::PingReq => Some(seq![0xC0u8, 0u8]),
        PacketView::Disconnect => Some(seq![0xE0u8, 0u8]),
        _ => None,
    }
}

/// The error with which encoding refuses a packet that `spec_encode` leaves out.
pub open spec fn encode_refusal(p: PacketView) -> ErrorView {
    match p {
        PacketView::SubAck { .. } => ErrorView::PayloadTooLarge,
        _ => ErrorView::ProtocolError("Packet encoding not implemented for this type"@),
    }
}

} // verus!
