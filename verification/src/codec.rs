use vstd::prelude::*;
use bytes::BytesMut;

use crate::buffers::{
    buf_as_slice, buf_freeze, buf_len, buf_put_u16, buf_put_u8, buf_reserve, buf_split_to,
    bytes_as_slice, bytes_contents, bytes_mut_contents, bytes_slice,
};
use crate::error::MqttError;
use crate::packet::{
    properties_view, filters_view, topics_view, ConnAck, Connect, MqttPacket, PacketView, Property,
    PropertyView, ProtocolLevel, PubAck, PubComp, PubRec, PubRel, Publish, SubAck, Subscribe,
    UnsubAck, Unsubscribe,
};
use crate::text::{string_from_utf8_lossy, unsupported_type_message};
use crate::utils::{read_var_int, spec_var_int, write_var_int, ByteCursor, VarIntRead};
use crate::wire::{
    failure_error, props_cons, spec_body, spec_connect, spec_publish, spec_subscribe_filters,
    spec_unsubscribe_filters, spec_decode, spec_encode, spec_properties,
    decode_overruns, encode_refusal, lemma_body_flags, BodyOutcome, DecodeOutcome, Failure, PropsOutcome,
};

verus! {

/// Decodes MQTT frames from a byte stream and encodes the packets a broker
/// sends back.
pub struct MqttCodec {
    /// Tracks the protocol level negotiated during CONNECT.
    /// Defaults to V311 for the first packet.
    pub protocol_level: ProtocolLevel,
}

impl Default for MqttCodec {
    fn default() -> (c: Self)
        ensures
            c.protocol_level == ProtocolLevel::V311,
    {
        Self::new()
    }
}

impl MqttCodec {
    /// A codec at protocol level 3.1.1; a CONNECT for 5.0 switches it.
    pub fn new() -> (c: Self)
        ensures
            c.protocol_level == ProtocolLevel::V311,
    {
        Self { protocol_level: ProtocolLevel::V311 }
    }
}

/// How reading part of a frame ends.
enum Step<T> {
    Done(T),
    Fail(MqttError),
    /// A field lies past the end of the bytes.
    Overrun,
}

/// `o` with `prefix` in front of its properties.
spec fn props_prepend(prefix: Seq<PropertyView>, o: PropsOutcome) -> PropsOutcome {
    match o {
        PropsOutcome::Done(ps, q) => PropsOutcome::Done(prefix + ps, q),
        other => other,
    }
}

proof fn lemma_props_prepend(prefix: Seq<PropertyView>, p: PropertyView, o: PropsOutcome)
    ensures
        props_prepend(prefix, props_cons(p, o)) == props_prepend(prefix.push(p), o),
{
    if let PropsOutcome::Done(ps, q) = o {
        assert(prefix + (seq![p] + ps) =~= prefix.push(p) + ps);
    }
}

proof fn lemma_properties_view_push(ps: Seq<Property>, p: Property)
    ensures
        properties_view(ps.push(p)) == properties_view(ps).push(p@),
{
    assert(properties_view(ps.push(p)) =~= properties_view(ps).push(p@));
}

/// Reads properties while the cursor lies less than `length` bytes past
/// `start`.
fn read_properties(cur: &mut ByteCursor, start: usize, length: usize) -> (r: Step<Vec<Property>>)
    requires
        start <= old(cur)@.1,
    ensures
        final(cur)@.0 == old(cur)@.0,
        match spec_properties(old(cur)@.0, old(cur)@.1 as int, start + length) {
            PropsOutcome::Done(ps, q) => r matches Step::Done(v) && properties_view(v@) == ps
                && final(cur)@.1 == q,
            PropsOutcome::Fail(f) => r matches Step::Fail(e) && e@ == failure_error(f),
            PropsOutcome::Overrun => r is Overrun,
        },
{
    let ghost s = cur@.0;
    let ghost p0 = cur@.1 as int;
    let ghost end = start + length;
    let _ = cur.position();
    let mut properties: Vec<Property> = Vec::new();
    assert(properties_view(properties@) =~= seq![]);
    assert(props_prepend(seq![], spec_properties(s, p0, end)) == spec_properties(s, p0, end));
    loop
        invariant
            cur@.0 == s,
            s == old(cur)@.0,
            p0 == old(cur)@.1,
            start <= cur@.1 <= s.len(),
            end == start + length,
            spec_properties(s, p0, end) == props_prepend(
                properties_view(properties@),
                spec_properties(s, cur@.1 as int, end),
            ),
        decreases s.len() - cur@.1,
    {
        let pos = cur.position();
        if pos - start >= length {
            return Step::Done(properties);
        }
        let ghost p = pos as int;
        let ghost before = properties_view(properties@);
        let identifier = match read_var_int(cur) {
            Err(e) => {
                return Step::Fail(e);
            },
            Ok(None) => {
                return Step::Done(properties);
            },
            Ok(Some((identifier, _))) => identifier,
        };
        proof {
            crate::utils::lemma_var_int_scan_len(s.skip(p), 0);
        }
        let ghost q = cur@.1 as int;
        assert(p < q <= s.len());
        let property = if identifier == 0x01 {
            match cur.get_u8() {
                None => {
                    return Step::Overrun;
                },
                Some(v) => Property::PayloadFormatIndicator(v),
            }
        } else if identifier == 0x02 {
            match cur.get_u32() {
                None => {
                    return Step::Overrun;
                },
                Some(v) => Property::MessageExpiryInterval(v),
            }
        } else if identifier == 0x03 {
            match cur.get_prefixed() {
                None => {
                    return Step::Overrun;
                },
                Some(b) => Property::ContentType(string_from_utf8_lossy(b)),
            }
        } else if identifier == 0x08 {
            match cur.get_prefixed() {
                None => {
                    return Step::Overrun;
                },
                Some(b) => Property::ResponseTopic(string_from_utf8_lossy(b)),
            }
        } else if identifier == 0x09 {
            match cur.get_prefixed() {
                None => {
                    return Step::Overrun;
                },
                Some(b) => Property::CorrelationData(vstd::slice::slice_to_vec(b)),
            }
        } else if identifier == 0x0B {
            proof {
                crate::utils::lemma_var_int_scan_len(s.skip(q), 0);
            }
            match read_var_int(cur) {
                Err(e) => {
                    return Step::Fail(e);
                },
                Ok(None) => {
                    continue;
                },
                Ok(Some((v, _))) => Property::SubscriptionIdentifier(v),
            }
        } else if identifier == 0x23 {
            match cur.get_u16() {
                None => {
                    return Step::Overrun;
                },
                Some(v) => Property::TopicAlias(v),
            }
        } else if identifier == 0x26 {
            let k = match cur.get_prefixed() {
                None => {
                    return Step::Overrun;
                },
                Some(b) => string_from_utf8_lossy(b),
            };
            let v = match cur.get_prefixed() {
                None => {
                    return Step::Overrun;
                },
                Some(b) => string_from_utf8_lossy(b),
            };
            Property::UserProperty(k, v)
        } else {
            return Step::Fail(MqttError::MalformedPacket("Unknown property identifier"));
        };
        proof {
            lemma_props_prepend(before, property@, spec_properties(s, cur@.1 as int, end));
            lemma_properties_view_push(properties@, property);
        }
        assert(q < cur@.1 <= s.len());
        properties.push(property);
    }
}

/// Whether `parse_properties(cursor, length)` would read a property value past
/// the end of the cursor's bytes; `parse_properties` is defined only where it
/// would not.
pub fn properties_overrun(cursor: &ByteCursor, length: usize) -> (b: bool)
    ensures
        b == (spec_properties(cursor@.0, cursor@.1 as int, cursor@.1 + length) is Overrun),
{
    let mut c = cursor.duplicate();
    let start = c.position();
    match read_properties(&mut c, start, length) {
        Step::Overrun => true,
        _ => false,
    }
}

/// Reads the properties of an MQTT 5.0 property block at the cursor, as long
/// as the cursor lies less than `length` bytes past where it started. An
/// identifier cut short ends the block; an unknown identifier, or a malformed
/// variable byte integer, is an error.
pub fn parse_properties(cursor: &mut ByteCursor, length: usize) -> (r: Result<
    Vec<Property>,
    MqttError,
>)
    requires
        !(spec_properties(old(cursor)@.0, old(cursor)@.1 as int, old(cursor)@.1 + length) is Overrun),
    ensures
        final(cursor)@.0 == old(cursor)@.0,
        match spec_properties(old(cursor)@.0, old(cursor)@.1 as int, old(cursor)@.1 + length) {
            PropsOutcome::Done(ps, q) => r matches Ok(v) && properties_view(v@) == ps
                && final(cursor)@.1 == q,
            PropsOutcome::Fail(f) => r matches Err(e) && e@ == failure_error(f),
            PropsOutcome::Overrun => false,
        },
{
    let start = cursor.position();
    match read_properties(cursor, start, length) {
        Step::Done(v) => Ok(v),
        Step::Fail(e) => Err(e),
        Step::Overrun => {
            proof {
                assert(false);
            }
            Ok(Vec::new())
        },
    }
}

/// `o` with `prefix` in front, where it is a list.
spec fn opt_prepend<T>(prefix: Seq<T>, o: Option<Seq<T>>) -> Option<Seq<T>> {
    match o {
        Some(rest) => Some(prefix + rest),
        None => None,
    }
}

/// Whether a parse result is what the wire format says of the bytes.
spec fn step_matches(r: Step<MqttPacket>, o: BodyOutcome) -> bool {
    match o {
        BodyOutcome::Packet(pv) => r matches Step::Done(p) && p@ == pv,
        BodyOutcome::Fail(f) => r matches Step::Fail(e) && e@ == failure_error(f),
        BodyOutcome::Overrun => r is Overrun,
    }
}

/// The (topic filter, QoS) pairs of a SUBSCRIBE, from the cursor to the end.
fn read_subscribe_filters(cur: &mut ByteCursor) -> (r: Option<Vec<(String, u8)>>)
    ensures
        match spec_subscribe_filters(old(cur)@.0, old(cur)@.1 as int) {
            None => r is None,
            Some(fs) => r matches Some(v) && filters_view(v@) == fs,
        },
{
    let ghost s = cur@.0;
    let ghost p0 = cur@.1 as int;
    let _ = cur.position();
    let mut filters: Vec<(String, u8)> = Vec::new();
    assert(filters_view(filters@) =~= seq![]);
    assert(opt_prepend(seq![], spec_subscribe_filters(s, p0)) == spec_subscribe_filters(s, p0));
    loop
        invariant
            cur@.0 == s,
            s == old(cur)@.0,
            p0 == old(cur)@.1,
            cur@.1 <= s.len(),
            spec_subscribe_filters(s, p0) == opt_prepend(
                filters_view(filters@),
                spec_subscribe_filters(s, cur@.1 as int),
            ),
        decreases s.len() - cur@.1,
    {
        if cur.remaining() == 0 {
            assert(filters_view(filters@) + seq![] =~= filters_view(filters@));
            return Some(filters);
        }
        let ghost p = cur@.1 as int;
        let topic = match cur.get_prefixed() {
            None => {
                return None;
            },
            Some(b) => string_from_utf8_lossy(b),
        };
        let qos = match cur.get_u8() {
            None => {
                return None;
            },
            Some(q) => q,
        };
        proof {
            let fv = filters_view(filters@);
            let item = (topic@, qos);
            assert(filters_view(filters@.push((topic, qos))) =~= fv.push(item));
            if let Some(rest) = spec_subscribe_filters(s, cur@.1 as int) {
                assert(fv + (seq![item] + rest) =~= fv.push(item) + rest);
            }
        }
        filters.push((topic, qos));
    }
}

/// The topic filters of an UNSUBSCRIBE, from the cursor to the end.
fn read_unsubscribe_filters(cur: &mut ByteCursor) -> (r: Option<Vec<String>>)
    ensures
        match spec_unsubscribe_filters(old(cur)@.0, old(cur)@.1 as int) {
            None => r is None,
            Some(fs) => r matches Some(v) && topics_view(v@) == fs,
        },
{
    let ghost s = cur@.0;
    let ghost p0 = cur@.1 as int;
    let _ = cur.position();
    let mut filters: Vec<String> = Vec::new();
    assert(topics_view(filters@) =~= seq![]);
    assert(opt_prepend(seq![], spec_unsubscribe_filters(s, p0)) == spec_unsubscribe_filters(s, p0));
    loop
        invariant
            cur@.0 == s,
            s == old(cur)@.0,
            p0 == old(cur)@.1,
            cur@.1 <= s.len(),
            spec_unsubscribe_filters(s, p0) == opt_prepend(
                topics_view(filters@),
                spec_unsubscribe_filters(s, cur@.1 as int),
            ),
        decreases s.len() - cur@.1,
    {
        if cur.remaining() == 0 {
            assert(topics_view(filters@) + seq![] =~= topics_view(filters@));
            return Some(filters);
        }
        let topic = match cur.get_prefixed() {
            None => {
                return None;
            },
            Some(b) => string_from_utf8_lossy(b),
        };
        proof {
            let fv = topics_view(filters@);
            assert(topics_view(filters@.push(topic)) =~= fv.push(topic@));
            if let Some(rest) = spec_unsubscribe_filters(s, cur@.1 as int) {
                assert(fv + (seq![topic@] + rest) =~= fv.push(topic@) + rest);
            }
        }
        filters.push(topic);
    }
}

/// Decodes the body of a CONNECT.
fn parse_connect(body: &[u8]) -> (r: Step<MqttPacket>)
    ensures
        step_matches(r, spec_connect(body@)),
{
    let mut cur = ByteCursor::new(body);
    let _protocol_name = match cur.get_prefixed() {
        None => {
            return Step::Overrun;
        },
        Some(b) => b,
    };
    let protocol_level_byte = match cur.get_u8() {
        None => {
            return Step::Overrun;
        },
        Some(b) => b,
    };
    let protocol_level = if protocol_level_byte == 4 {
        ProtocolLevel::V311
    } else if protocol_level_byte == 5 {
        ProtocolLevel::V5
    } else {
        return Step::Fail(MqttError::UnsupportedVersion);
    };
    let connect_flags = match cur.get_u8() {
        None => {
            return Step::Overrun;
        },
        Some(b) => b,
    };
    let keep_alive = match cur.get_u16() {
        None => {
            return Step::Overrun;
        },
        Some(v) => v,
    };
    if protocol_level == ProtocolLevel::V5 {
        match read_var_int(&mut cur) {
            Err(e) => {
                return Step::Fail(e);
            },
            Ok(None) => {
                return Step::Fail(MqttError::MalformedPacket("Incomplete v5 properties"));
            },
            Ok(Some((props_len, _))) => {
                if cur.remaining() < props_len as usize {
                    return Step::Overrun;
                }
                cur.advance(props_len as usize);
            },
        }
    }
    let client_id = match cur.get_prefixed() {
        None => {
            return Step::Overrun;
        },
        Some(b) => string_from_utf8_lossy(b),
    };
    let clean_session = (connect_flags & 0x02) != 0;
    Step::Done(MqttPacket::Connect(Connect { protocol_level, client_id, clean_session, keep_alive }))
}

/// The fields of a PUBLISH that its body carries, and where its payload starts.
struct PublishHead {
    dup: bool,
    qos: u8,
    retain: bool,
    topic: String,
    packet_id: Option<u16>,
    properties: Vec<Property>,
    payload_start: usize,
}

/// Whether a PUBLISH parse result is what the wire format says of `s`.
spec fn publish_matches(r: Step<PublishHead>, o: BodyOutcome, s: Seq<u8>) -> bool {
    match o {
        BodyOutcome::Packet(pv) => r matches Step::Done(h) && h.payload_start <= s.len() && pv
            == (PacketView::Publish {
            dup: h.dup,
            qos: h.qos,
            retain: h.retain,
            topic: h.topic@,
            packet_id: h.packet_id,
            properties: properties_view(h.properties@),
            payload: s.skip(h.payload_start as int),
        }),
        BodyOutcome::Fail(f) => r matches Step::Fail(e) && e@ == failure_error(f),
        BodyOutcome::Overrun => r is Overrun,
    }
}

/// Decodes the body of a PUBLISH, up to its payload.
fn parse_publish(level: ProtocolLevel, flags: u8, body: &[u8]) -> (r: Step<PublishHead>)
    ensures
        publish_matches(r, spec_publish(level, flags, body@), body@),
{
    let dup = (flags & 0x08) != 0;
    let qos = (flags & 0x06) >> 1;
    let retain = (flags & 0x01) != 0;
    let mut cur = ByteCursor::new(body);
    let topic = match cur.get_prefixed() {
        None => {
            return Step::Overrun;
        },
        Some(b) => string_from_utf8_lossy(b),
    };
    let packet_id = if qos > 0 {
        match cur.get_u16() {
            None => {
                return Step::Overrun;
            },
            Some(id) => Some(id),
        }
    } else {
        None
    };
    let mut properties: Vec<Property> = Vec::new();
    if level == ProtocolLevel::V5 {
        match read_var_int(&mut cur) {
            Err(e) => {
                return Step::Fail(e);
            },
            Ok(None) => {
                return Step::Fail(MqttError::MalformedPacket("Incomplete v5 properties in PUBLISH"));
            },
            Ok(Some((props_len, _))) => {
                let pos = cur.position();
                if body.len() - pos < props_len as usize {
                    return Step::Fail(MqttError::MalformedPacket("Properties length exceeds packet"));
                }
                properties = match read_properties(&mut cur, pos, props_len as usize) {
                    Step::Done(v) => v,
                    Step::Fail(e) => {
                        return Step::Fail(e);
                    },
                    Step::Overrun => {
                        return Step::Overrun;
                    },
                };
            },
        }
    }
    proof {
        if level != ProtocolLevel::V5 {
            assert(properties_view(properties@) =~= seq![]);
        }
    }
    let payload_start = cur.position();
    Step::Done(PublishHead { dup, qos, retain, topic, packet_id, properties, payload_start })
}

/// Decodes the body of a packet of any type but PUBLISH.
fn parse_other(level: ProtocolLevel, packet_type: u8, body: &[u8]) -> (r: Step<MqttPacket>)
    requires
        packet_type != 3,
    ensures
        step_matches(r, spec_body(level, packet_type, 0, body@)),
{
    reveal(spec_body);
    let mut cur = ByteCursor::new(body);
    if packet_type == 1 {
        parse_connect(body)
    } else if packet_type == 2 {
        let ack_flags = match cur.get_u8() {
            None => {
                return Step::Overrun;
            },
            Some(b) => b,
        };
        let return_code = match cur.get_u8() {
            None => {
                return Step::Overrun;
            },
            Some(b) => b,
        };
        let session_present = (ack_flags & 0x01) != 0;
        Step::Done(MqttPacket::ConnAck(ConnAck { session_present, return_code }))
    } else if packet_type == 4 {
        let packet_id = match cur.get_u16() {
            None => {
                return Step::Overrun;
            },
            Some(id) => id,
        };
        let reason_code = if level == ProtocolLevel::V5 && body.len() > 2 {
            match cur.get_u8() {
                None => {
                    return Step::Overrun;
                },
                Some(b) => Some(b),
            }
        } else {
            None
        };
        Step::Done(MqttPacket::PubAck(PubAck { packet_id, reason_code }))
    } else if packet_type == 5 || packet_type == 6 || packet_type == 7 || packet_type == 11 {
        let packet_id = match cur.get_u16() {
            None => {
                return Step::Overrun;
            },
            Some(id) => id,
        };
        Step::Done(
            if packet_type == 5 {
                MqttPacket::PubRec(PubRec { packet_id })
            } else if packet_type == 6 {
                MqttPacket::PubRel(PubRel { packet_id })
            } else if packet_type == 7 {
                MqttPacket::PubComp(PubComp { packet_id })
            } else {
                MqttPacket::UnsubAck(UnsubAck { packet_id })
            },
        )
    } else if packet_type == 8 {
        let packet_id = match cur.get_u16() {
            None => {
                return Step::Overrun;
            },
            Some(id) => id,
        };
        match read_subscribe_filters(&mut cur) {
            None => Step::Overrun,
            Some(filters) => Step::Done(MqttPacket::Subscribe(Subscribe { packet_id, filters })),
        }
    } else if packet_type == 9 {
        let packet_id = match cur.get_u16() {
            None => {
                return Step::Overrun;
            },
            Some(id) => id,
        };
        let mut return_codes: Vec<u8> = Vec::new();
        let ghost s = body@;
        loop
            invariant
                cur@.0 == s,
                2 <= cur@.1 <= s.len(),
                return_codes@ + s.skip(cur@.1 as int) =~= s.skip(2),
            ensures
                cur@.1 == s.len(),
                return_codes@ + s.skip(cur@.1 as int) =~= s.skip(2),
            decreases s.len() - cur@.1,
        {
            if cur.remaining() == 0 {
                break;
            }
            let ghost p = cur@.1 as int;
            let b = match cur.get_u8() {
                None => {
                    return Step::Overrun;
                },
                Some(b) => b,
            };
            assert(s.skip(p) =~= seq![b] + s.skip(p + 1));
            return_codes.push(b);
        }
        assert(s.skip(cur@.1 as int) =~= seq![]);
        assert(return_codes@ =~= s.skip(2));
        Step::Done(MqttPacket::SubAck(SubAck { packet_id, return_codes }))
    } else if packet_type == 10 {
        let packet_id = match cur.get_u16() {
            None => {
                return Step::Overrun;
            },
            Some(id) => id,
        };
        match read_unsubscribe_filters(&mut cur) {
            None => Step::Overrun,
            Some(filters) => Step::Done(MqttPacket::Unsubscribe(Unsubscribe { packet_id, filters })),
        }
    } else if packet_type == 12 {
        Step::Done(MqttPacket::PingReq)
    } else if packet_type == 13 {
        Step::Done(MqttPacket::PingResp)
    } else if packet_type == 14 {
        Step::Done(MqttPacket::Disconnect)
    } else {
        Step::Fail(MqttError::ProtocolError(unsupported_type_message(packet_type)))
    }
}

/// The protocol level after a packet has been decoded: a CONNECT sets the
/// level it asks for, every other packet keeps the current one.
pub open spec fn level_after(level: ProtocolLevel, p: PacketView) -> ProtocolLevel {
    match p {
        PacketView::Connect { protocol_level, .. } => protocol_level,
        _ => level,
    }
}

/// What `MqttCodec::decode` returns, and leaves in the buffer and the codec,
/// for the buffer contents `src` at protocol level `level`.
pub open spec fn decode_post(
    level: ProtocolLevel,
    src: Seq<u8>,
    r: Result<Option<MqttPacket>, MqttError>,
    level_out: ProtocolLevel,
    src_out: Seq<u8>,
) -> bool {
    match spec_decode(level, src) {
        DecodeOutcome::NeedMore => r matches Ok(None) && src_out == src && level_out == level,
        DecodeOutcome::BadLength => r matches Err(e) && e@ == failure_error(Failure::BadVarInt)
            && src_out == src && level_out == level,
        DecodeOutcome::Frame(total, BodyOutcome::Packet(pv)) => r matches Ok(Some(p)) && p@ == pv
            && src_out == src.skip(total as int) && level_out == level_after(level, pv),
        DecodeOutcome::Frame(total, BodyOutcome::Fail(f)) => r matches Err(e) && e@
            == failure_error(f) && src_out == src.skip(total as int) && level_out == level,
        DecodeOutcome::Frame(_, BodyOutcome::Overrun) => false,
    }
}

/// The packet type and the flags that a fixed header byte carries.
proof fn lemma_header_nibbles(b: u8)
    ensures
        b >> 4u8 == b / 16,
        b & 0x0Fu8 == b % 16,
{
    assert(b >> 4u8 == b / 16) by (bit_vector);
    assert(b & 0x0Fu8 == b % 16) by (bit_vector);
}

/// Where the frame at the front of a buffer lies.
enum FrameAt {
    /// No complete frame yet.
    NeedMore,
    /// A complete frame: fixed header byte, header length, total length.
    Ready(u8, usize, usize),
}

/// Reads the fixed header at the front of `data` and finds where the frame ends.
fn locate_frame(data: &[u8]) -> (r: Result<FrameAt, MqttError>)
    requires
        data@.len() > 0,
    ensures
        match spec_var_int(data@.skip(1)) {
            VarIntRead::Incomplete => r matches Ok(FrameAt::NeedMore),
            VarIntRead::Malformed => r matches Err(e) && e@ == failure_error(Failure::BadVarInt),
            VarIntRead::Value(rl, n) => r matches Ok(FrameAt::Ready(b, h, t)) && b == data@[0]
                && h == 1 + n && t == 1 + n + rl && rl < 268435456 && n <= 4,
        },
{
    let fixed_header = data[0];
    let mut cursor = ByteCursor::new(data);
    cursor.advance(1);
    proof {
        crate::utils::lemma_var_int_scan_len(data@.skip(1), 0);
    }
    match read_var_int(&mut cursor) {
        Err(e) => Err(e),
        Ok(None) => Ok(FrameAt::NeedMore),
        Ok(Some((len, _))) => {
            let header_len = cursor.position();
            Ok(FrameAt::Ready(fixed_header, header_len, header_len + len as usize))
        },
    }
}

/// Whether decoding the frame body would read a field past its end.
fn body_overruns(level: ProtocolLevel, fixed_header: u8, body: &[u8]) -> (b: bool)
    ensures
        b == (spec_body(level, fixed_header / 16, fixed_header % 16, body@) is Overrun),
{
    proof {
        lemma_header_nibbles(fixed_header);
        lemma_body_flags(level, fixed_header / 16, fixed_header % 16, body@);
    }
    let packet_type = fixed_header >> 4;
    let flags = fixed_header & 0x0F;
    if packet_type == 3 {
        match parse_publish(level, flags, body) {
            Step::Overrun => true,
            _ => false,
        }
    } else {
        match parse_other(level, packet_type, body) {
            Step::Overrun => true,
            _ => false,
        }
    }
}

impl MqttCodec {
    /// Whether `decode` would read a field of the frame at the front of `src`
    /// past the end of that frame; `decode` is defined only where it would not.
    pub fn decode_overruns(&self, src: &BytesMut) -> (b: bool)
        ensures
            b == decode_overruns(self.protocol_level, bytes_mut_contents(*src)),
    {
        let len = buf_len(src);
        if len == 0 {
            return false;
        }
        let data = buf_as_slice(src);
        match locate_frame(data) {
            Err(_) => false,
            Ok(FrameAt::NeedMore) => false,
            Ok(FrameAt::Ready(fixed_header, header_len, total_len)) => {
                if len < total_len {
                    false
                } else {
                    let body = vstd::slice::slice_subrange(data, header_len, total_len);
                    body_overruns(self.protocol_level, fixed_header, body)
                }
            },
        }
    }

    /// Decodes one frame from the front of `src`. Where `src` does not yet
    /// hold a whole frame the result is `Ok(None)` and nothing is consumed.
    /// Otherwise the frame is removed from `src` and decoded; a CONNECT sets
    /// the codec's protocol level for the packets that follow.
    pub fn decode(&mut self, src: &mut BytesMut) -> (r: Result<Option<MqttPacket>, MqttError>)
        requires
            !decode_overruns(old(self).protocol_level, bytes_mut_contents(*old(src))),
        ensures
            decode_post(
                old(self).protocol_level,
                bytes_mut_contents(*old(src)),
                r,
                final(self).protocol_level,
                bytes_mut_contents(*final(src)),
            ),
    {
        let ghost s = bytes_mut_contents(*src);
        let len = buf_len(src);
        if len == 0 {
            return Ok(None);
        }
        let located = {
            let data = buf_as_slice(src);
            locate_frame(data)
        };
        let (fixed_header, header_len, total_len) = match located {
            Err(e) => {
                return Err(e);
            },
            Ok(FrameAt::NeedMore) => {
                return Ok(None);
            },
            Ok(FrameAt::Ready(b, h, t)) => (b, h, t),
        };
        if len < total_len {
            buf_reserve(src, total_len - len);
            return Ok(None);
        }
        let packet_bytes = buf_freeze(buf_split_to(src, total_len));
        let body = vstd::slice::slice_subrange(bytes_as_slice(&packet_bytes), header_len, total_len);
        assert(body@ =~= s.subrange(header_len as int, total_len as int));
        proof {
            lemma_header_nibbles(fixed_header);
            lemma_body_flags(self.protocol_level, fixed_header / 16, fixed_header % 16, body@);
        }
        let packet_type = fixed_header >> 4;
        let flags = fixed_header & 0x0F;
        if packet_type == 3 {
            match parse_publish(self.protocol_level, flags, body) {
                Step::Done(h) => {
                    let payload = bytes_slice(&packet_bytes, header_len + h.payload_start, total_len);
                    assert(bytes_contents(payload) =~= body@.skip(h.payload_start as int));
                    Ok(
                        Some(
                            MqttPacket::Publish(
                                Publish {
                                    dup: h.dup,
                                    qos: h.qos,
                                    retain: h.retain,
                                    topic: h.topic,
                                    packet_id: h.packet_id,
                                    properties: h.properties,
                                    payload,
                                },
                            ),
                        ),
                    )
                },
                Step::Fail(e) => Err(e),
                Step::Overrun => {
                    proof {
                        assert(false);
                    }
                    Ok(None)
                },
            }
        } else {
            match parse_other(self.protocol_level, packet_type, body) {
                Step::Done(p) => {
                    if let MqttPacket::Connect(c) = &p {
                        self.protocol_level = c.protocol_level;
                    }
                    Ok(Some(p))
                },
                Step::Fail(e) => Err(e),
                Step::Overrun => {
                    proof {
                        assert(false);
                    }
                    Ok(None)
                },
            }
        }
    }
}

/// Room in the output buffer that encoding `p` may take.
pub open spec fn encode_room(p: PacketView) -> nat {
    match p {
        PacketView::SubAck { return_codes, .. } => return_codes.len() + 9,
        _ => 6,
    }
}

impl MqttCodec {
    /// Appends the encoding of `item` to `dst`: CONNACK, PUBACK, PUBREC,
    /// PUBREL, PUBCOMP, SUBACK, UNSUBACK, PINGREQ, PINGRESP and DISCONNECT.
    /// At level 5.0 a PUBACK carries its reason code unless it is success (0),
    /// and a SUBACK an empty property block. Other packets are refused, and so
    /// is a SUBACK too large for its remaining length to be written; `dst` is
    /// then left as it was.
    pub fn encode(&mut self, item: MqttPacket, dst: &mut BytesMut) -> (r: Result<(), MqttError>)
        requires
            bytes_mut_contents(*old(dst)).len() + encode_room(item@) <= isize::MAX,
        ensures
            *final(self) == *old(self),
            match spec_encode(old(self).protocol_level, item@) {
                Some(bytes) => r is Ok && bytes_mut_contents(*final(dst)) == bytes_mut_contents(
                    *old(dst),
                ) + bytes,
                None => r matches Err(e) && e@ == encode_refusal(item@) && bytes_mut_contents(
                    *final(dst),
                ) == bytes_mut_contents(*old(dst)),
            },
    {
        let ghost start = bytes_mut_contents(*dst);
        match item {
            MqttPacket::ConnAck(connack) => {
                buf_put_u8(dst, 0x20);
                buf_put_u8(dst, 2);
                buf_put_u8(
                    dst,
                    if connack.session_present {
                        1
                    } else {
                        0
                    },
                );
                buf_put_u8(dst, connack.return_code);
            },
            MqttPacket::PingResp => {
                buf_put_u8(dst, 0xD0);
                buf_put_u8(dst, 0);
            },
            MqttPacket::PubAck(puback) => {
                buf_put_u8(dst, 0x40);
                if self.protocol_level == ProtocolLevel::V5 {
                    let reason = match puback.reason_code {
                        Some(r) => r,
                        None => 0x00,
                    };
                    if reason == 0x00 {
                        buf_put_u8(dst, 2);
                        buf_put_u16(dst, puback.packet_id);
                    } else {
                        buf_put_u8(dst, 4);
                        buf_put_u16(dst, puback.packet_id);
                        buf_put_u8(dst, reason);
                        buf_put_u8(dst, 0);
                    }
                } else {
                    buf_put_u8(dst, 2);
                    buf_put_u16(dst, puback.packet_id);
                }
            },
            MqttPacket::PubRec(pubrec) => {
                buf_put_u8(dst, 0x50);
                buf_put_u8(dst, 2);
                buf_put_u16(dst, pubrec.packet_id);
            },
            MqttPacket::PubRel(pubrel) => {
                buf_put_u8(dst, 0x62);
                buf_put_u8(dst, 2);
                buf_put_u16(dst, pubrel.packet_id);
            },
            MqttPacket::PubComp(pubcomp) => {
                buf_put_u8(dst, 0x70);
                buf_put_u8(dst, 2);
                buf_put_u16(dst, pubcomp.packet_id);
            },
            MqttPacket::SubAck(suback) => {
                // Length is 2 (packet id) + number of return codes + property length (if v5)
                let props_len: usize = if self.protocol_level == ProtocolLevel::V5 {
                    1
                } else {
                    0
                };
                if suback.return_codes.len() > 268_435_455 - 2 - props_len {
                    return Err(MqttError::PayloadTooLarge);
                }
                let remaining_len = (2 + suback.return_codes.len() + props_len) as u32;
                buf_put_u8(dst, 0x90);
                write_var_int(remaining_len, dst)?;
                proof {
                    crate::utils::lemma_pow128_values();
                    crate::utils::lemma_var_int_bytes_len(remaining_len as nat, 4);
                }
                buf_put_u16(dst, suback.packet_id);
                if self.protocol_level == ProtocolLevel::V5 {
                    buf_put_u8(dst, 0);
                }
                let ghost before_codes = bytes_mut_contents(*dst);
                let codes = &suback.return_codes;
                let mut i: usize = 0;
                while i < codes.len()
                    invariant
                        i <= codes.len(),
                        bytes_mut_contents(*dst) == before_codes + codes@.take(i as int),
                        before_codes.len() + codes.len() <= isize::MAX,
                    decreases codes.len() - i,
                {
                    buf_put_u8(dst, codes[i]);
                    assert(codes@.take(i + 1) =~= codes@.take(i as int).push(codes@[i as int]));
                    i = i + 1;
                }
                assert(codes@.take(codes.len() as int) =~= codes@);
            },
            MqttPacket::UnsubAck(unsuback) => {
                buf_put_u8(dst, 0xB0);
                buf_put_u8(dst, 2);
                buf_put_u16(dst, unsuback.packet_id);
            },
            MqttPacket::PingReq => {
                buf_put_u8(dst, 0xC0);
                buf_put_u8(dst, 0);
            },
            MqttPacket::Disconnect => {
                buf_put_u8(dst, 0xE0);
                buf_put_u8(dst, 0);
            },
            _ => {
                return Err(
                    MqttError::ProtocolError(
                        "Packet encoding not implemented for this type".to_string(),
                    ),
                );
            },
        }
        assert(bytes_mut_contents(*dst) =~= start + spec_encode(
            self.protocol_level,
            item@,
        ).unwrap());
        Ok(())
    }
}

} // verus!
