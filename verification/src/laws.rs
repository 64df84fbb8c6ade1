//! What holds of decoding and encoding taken together.
use vstd::prelude::*;

use crate::packet::{PacketView, PropertyView, ProtocolLevel};
use crate::text::utf8_lossy;
use crate::utils::{law_var_int_round_trip, lemma_var_int_scan_extend, spec_var_int, var_int_bytes, VarIntRead};
use crate::wire::{
    be_bytes, be_u16, be_u32, max_var_int, spec_subscribe_filters, spec_unsubscribe_filters, props_cons, read_prefixed, read_u16, read_u32, read_u8, spec_body, spec_decode, spec_encode,
    spec_properties, suback_remaining, BodyOutcome, DecodeOutcome, PropsOutcome,
};

verus! {

/// The reason code that a PUBACK carries through encoding at `level`: only a
/// 5.0 PUBACK with a reason other than success (0) puts one on the wire.
pub open spec fn wire_reason(level: ProtocolLevel, reason_code: Option<u8>) -> Option<u8> {
    match reason_code {
        Some(r) => if level == ProtocolLevel::V5 && r != 0 {
            Some(r)
        } else {
            None
        },
        None => None,
    }
}

/// What decoding gives back of an encoded packet at `level`.
pub open spec fn decoded_back(level: ProtocolLevel, p: PacketView) -> BodyOutcome {
    match p {
        PacketView::PubAck { packet_id, reason_code } => BodyOutcome::Packet(
            PacketView::PubAck { packet_id, reason_code: wire_reason(level, reason_code) },
        ),
        PacketView::SubAck { packet_id, return_codes } => BodyOutcome::Packet(
            PacketView::SubAck {
                packet_id,
                return_codes: if level == ProtocolLevel::V5 {
                    seq![0u8] + return_codes
                } else {
                    return_codes
                },
            },
        ),
        _ => BodyOutcome::Packet(p),
    }
}

proof fn lemma_be_u16_round_trip(v: u16)
    ensures
        be_u16(be_bytes(v)[0], be_bytes(v)[1]) == v,
{
}

/// A frame laid out as fixed header byte, remaining length, body, followed by
/// any bytes.
proof fn lemma_decode_laid_out(
    level: ProtocolLevel,
    b0: u8,
    body: Seq<u8>,
    tail: Seq<u8>,
)
    requires
        body.len() < 268435456,
    ensures
        var_int_bytes(body.len()).len() <= 4,
        spec_decode(level, seq![b0] + var_int_bytes(body.len()) + body + tail) == DecodeOutcome::Frame(
            1 + var_int_bytes(body.len()).len() + body.len(),
            spec_body(level, b0 / 16, b0 % 16, body),
        ),
{
    let e = var_int_bytes(body.len());
    let s = seq![b0] + e + body + tail;
    law_var_int_round_trip(body.len() as u32, body + tail);
    assert(s.skip(1) =~= e + (body + tail));
    assert(s.subrange((1 + e.len()) as int, (1 + e.len() + body.len()) as int) =~= body);
}

/// A packet identifier alone, as a PUBREC, PUBREL, PUBCOMP or UNSUBACK body.
proof fn lemma_id_only_body(level: ProtocolLevel, b0: u8, id: u16)
    requires
        b0 == 0x50 || b0 == 0x62 || b0 == 0x70 || b0 == 0xB0,
    ensures
        spec_body(level, b0 / 16, b0 % 16, be_bytes(id)) == BodyOutcome::Packet(
            if b0 == 0x50 {
                PacketView::PubRec { packet_id: id }
            } else if b0 == 0x62 {
                PacketView::PubRel { packet_id: id }
            } else if b0 == 0x70 {
                PacketView::PubComp { packet_id: id }
            } else {
                PacketView::UnsubAck { packet_id: id }
            },
        ),
{
    reveal(spec_body);
    lemma_be_u16_round_trip(id);
}

proof fn lemma_puback_body(level: ProtocolLevel, id: u16, reason_code: Option<u8>)
    ensures
        ({
            let reason = match reason_code {
                Some(r) => r,
                None => 0u8,
            };
            let body = if level == ProtocolLevel::V5 && reason != 0 {
                be_bytes(id) + seq![reason, 0u8]
            } else {
                be_bytes(id)
            };
            spec_body(level, 4, 0, body) == BodyOutcome::Packet(
                PacketView::PubAck { packet_id: id, reason_code: wire_reason(level, reason_code) },
            )
        }),
{
    reveal(spec_body);
    lemma_be_u16_round_trip(id);
}

proof fn lemma_suback_body(level: ProtocolLevel, id: u16, props: Seq<u8>, codes: Seq<u8>)
    ensures
        spec_body(level, 9, 0, be_bytes(id) + props + codes) == BodyOutcome::Packet(
            PacketView::SubAck { packet_id: id, return_codes: props + codes },
        ),
{
    reveal(spec_body);
    lemma_be_u16_round_trip(id);
    assert((be_bytes(id) + props + codes).skip(2) =~= props + codes);
}

proof fn lemma_connack_body(level: ProtocolLevel, session_present: bool, return_code: u8)
    ensures
        spec_body(
            level,
            2,
            0,
            seq![if session_present { 1u8 } else { 0u8 }, return_code],
        ) == BodyOutcome::Packet(PacketView::ConnAck { session_present, return_code }),
{
    reveal(spec_body);
    assert(1u8 & 0x01u8 != 0) by (bit_vector);
    assert(0u8 & 0x01u8 == 0) by (bit_vector);
}

proof fn lemma_no_field_bodies(level: ProtocolLevel, b0: u8, body: Seq<u8>)
    ensures
        b0 == 0xC0 ==> spec_body(level, b0 / 16, b0 % 16, body) == BodyOutcome::Packet(
            PacketView::PingReq,
        ),
        b0 == 0xD0 ==> spec_body(level, b0 / 16, b0 % 16, body) == BodyOutcome::Packet(
            PacketView::PingResp,
        ),
        b0 == 0xE0 ==> spec_body(level, b0 / 16, b0 % 16, body) == BodyOutcome::Packet(
            PacketView::Disconnect,
        ),
{
    reveal(spec_body);
}

/// Every packet that the codec encodes forms exactly one frame, and decoding
/// it, whatever bytes follow, gives back `decoded_back`: the packet itself,
/// except that a PUBACK keeps only the reason code that reaches the wire, and
/// a 5.0 SUBACK gains its empty property block as a leading return code 0.
pub proof fn law_encoded_frame_decodes(level: ProtocolLevel, p: PacketView, tail: Seq<u8>)
    requires
        spec_encode(level, p) is Some,
    ensures
        spec_decode(level, spec_encode(level, p).unwrap() + tail) == DecodeOutcome::Frame(
            spec_encode(level, p).unwrap().len(),
            decoded_back(level, p),
        ),
{
    let e = spec_encode(level, p).unwrap();
    assert(var_int_bytes(2) == seq![2u8]);
    assert(var_int_bytes(4) == seq![4u8]);
    assert(var_int_bytes(0) == seq![0u8]);
    match p {
        PacketView::ConnAck { session_present, return_code } => {
            let body = seq![if session_present { 1u8 } else { 0u8 }, return_code];
            assert(e =~= seq![0x20u8] + var_int_bytes(body.len()) + body);
            lemma_connack_body(level, session_present, return_code);
            lemma_decode_laid_out(level, 0x20, body, tail);
        },
        PacketView::PingResp => {
            assert(e =~= seq![0xD0u8] + var_int_bytes(0) + seq![]);
            lemma_no_field_bodies(level, 0xD0, seq![]);
            lemma_decode_laid_out(level, 0xD0, seq![], tail);
        },
        PacketView::PingReq => {
            assert(e =~= seq![0xC0u8] + var_int_bytes(0) + seq![]);
            lemma_no_field_bodies(level, 0xC0, seq![]);
            lemma_decode_laid_out(level, 0xC0, seq![], tail);
        },
        PacketView::Disconnect => {
            assert(e =~= seq![0xE0u8] + var_int_bytes(0) + seq![]);
            lemma_no_field_bodies(level, 0xE0, seq![]);
            lemma_decode_laid_out(level, 0xE0, seq![], tail);
        },
        PacketView::PubAck { packet_id, reason_code } => {
            let reason = match reason_code {
                Some(r) => r,
                None => 0u8,
            };
            lemma_puback_body(level, packet_id, reason_code);
            if level == ProtocolLevel::V5 && reason != 0 {
                let body = be_bytes(packet_id) + seq![reason, 0u8];
                assert(e =~= seq![0x40u8] + var_int_bytes(body.len()) + body);
                lemma_decode_laid_out(level, 0x40, body, tail);
            } else {
                let body = be_bytes(packet_id);
                assert(e =~= seq![0x40u8] + var_int_bytes(body.len()) + body);
                lemma_decode_laid_out(level, 0x40, body, tail);
            }
        },
        PacketView::PubRec { packet_id } => {
            let body = be_bytes(packet_id);
            assert(e =~= seq![0x50u8] + var_int_bytes(body.len()) + body);
            lemma_id_only_body(level, 0x50, packet_id);
            lemma_decode_laid_out(level, 0x50, body, tail);
        },
        PacketView::PubRel { packet_id } => {
            let body = be_bytes(packet_id);
            assert(e =~= seq![0x62u8] + var_int_bytes(body.len()) + body);
            lemma_id_only_body(level, 0x62, packet_id);
            lemma_decode_laid_out(level, 0x62, body, tail);
        },
        PacketView::PubComp { packet_id } => {
            let body = be_bytes(packet_id);
            assert(e =~= seq![0x70u8] + var_int_bytes(body.len()) + body);
            lemma_id_only_body(level, 0x70, packet_id);
            lemma_decode_laid_out(level, 0x70, body, tail);
        },
        PacketView::UnsubAck { packet_id } => {
            let body = be_bytes(packet_id);
            assert(e =~= seq![0xB0u8] + var_int_bytes(body.len()) + body);
            lemma_id_only_body(level, 0xB0, packet_id);
            lemma_decode_laid_out(level, 0xB0, body, tail);
        },
        PacketView::SubAck { packet_id, return_codes } => {
            let props: Seq<u8> = if level == ProtocolLevel::V5 {
                seq![0u8]
            } else {
                seq![]
            };
            let body = be_bytes(packet_id) + props + return_codes;
            assert(suback_remaining(level, return_codes.len()) == body.len());
            assert(body.len() <= max_var_int());
            assert(e =~= seq![0x90u8] + var_int_bytes(body.len()) + body);
            lemma_suback_body(level, packet_id, props, return_codes);
            lemma_decode_laid_out(level, 0x90, body, tail);
            if level != ProtocolLevel::V5 {
                assert(props + return_codes =~= return_codes);
            }
        },
        _ => {},
    }
}

/// Encoding a packet and decoding the frame gives the same packet back, for
/// every packet that both directions handle and whose fields all reach the
/// wire.
pub proof fn law_round_trip(level: ProtocolLevel, p: PacketView, tail: Seq<u8>)
    requires
        spec_encode(level, p) is Some,
        decoded_back(level, p) == BodyOutcome::Packet(p),
    ensures
        spec_decode(level, spec_encode(level, p).unwrap() + tail) == DecodeOutcome::Frame(
            spec_encode(level, p).unwrap().len(),
            BodyOutcome::Packet(p),
        ),
{
    law_encoded_frame_decodes(level, p, tail);
}

/// A frame decodes the same whatever bytes follow it: decoding looks at the
/// frame's own bytes and no further, and consumes no more than the buffer holds.
pub proof fn law_frame_ignores_what_follows(level: ProtocolLevel, src: Seq<u8>, more: Seq<u8>)
    requires
        spec_decode(level, src) is Frame,
    ensures
        spec_decode(level, src + more) == spec_decode(level, src),
        spec_decode(level, src) matches DecodeOutcome::Frame(total, _) && 2 <= total <= src.len(),
{
    let s2 = src + more;
    assert(s2.skip(1) =~= src.skip(1) + more);
    lemma_var_int_scan_extend(src.skip(1), more, 0);
    crate::utils::lemma_var_int_scan_len(src.skip(1), 0);
    if let VarIntRead::Value(rl, n) = spec_var_int(src.skip(1)) {
        let total = (1 + n + rl) as int;
        assert(s2.subrange((1 + n) as int, total) =~= src.subrange((1 + n) as int, total));
    }
}

/// A decoded packet is of the type that the frame's fixed header names.
pub proof fn law_decoded_type(level: ProtocolLevel, src: Seq<u8>)
    ensures
        spec_decode(level, src) matches DecodeOutcome::Frame(_, BodyOutcome::Packet(pv))
            ==> pv.packet_type() == src[0] / 16,
{
    reveal(spec_body);
}

/// A property as it stands on the wire, its strings as raw bytes.
pub enum PropertyWire {
    PayloadFormatIndicator(u8),
    MessageExpiryInterval(u32),
    ContentType(Seq<u8>),
    ResponseTopic(Seq<u8>),
    CorrelationData(Seq<u8>),
    SubscriptionIdentifier(u32),
    TopicAlias(u16),
    UserProperty(Seq<u8>, Seq<u8>),
}

/// A length-prefixed field.
pub open spec fn prefixed(b: Seq<u8>) -> Seq<u8> {
    be_bytes(b.len() as u16) + b
}

/// The big-endian bytes of a 32-bit value.
pub open spec fn be32_bytes(v: u32) -> Seq<u8> {
    seq![
        (v / 16777216) as u8,
        ((v / 65536) % 256) as u8,
        ((v / 256) % 256) as u8,
        (v % 256) as u8,
    ]
}

/// Whether a property can be written: its byte fields fit a 16-bit length, and
/// a subscription identifier fits a variable byte integer.
pub open spec fn property_wire_ok(w: PropertyWire) -> bool {
    match w {
        PropertyWire::ContentType(b) => b.len() <= 65535,
        PropertyWire::ResponseTopic(b) => b.len() <= 65535,
        PropertyWire::CorrelationData(b) => b.len() <= 65535,
        PropertyWire::SubscriptionIdentifier(v) => v <= max_var_int(),
        PropertyWire::UserProperty(k, v) => k.len() <= 65535 && v.len() <= 65535,
        _ => true,
    }
}

/// The complete encoding of a property: its identifier, then its value.
pub open spec fn property_wire_bytes(w: PropertyWire) -> Seq<u8> {
    match w {
        PropertyWire::PayloadFormatIndicator(v) => seq![0x01u8, v],
        PropertyWire::MessageExpiryInterval(v) => seq![0x02u8] + be32_bytes(v),
        PropertyWire::ContentType(b) => seq![0x03u8] + prefixed(b),
        PropertyWire::ResponseTopic(b) => seq![0x08u8] + prefixed(b),
        PropertyWire::CorrelationData(b) => seq![0x09u8] + prefixed(b),
        PropertyWire::SubscriptionIdentifier(v) => seq![0x0Bu8] + var_int_bytes(v as nat),
        PropertyWire::TopicAlias(v) => seq![0x23u8] + be_bytes(v),
        PropertyWire::UserProperty(k, v) => seq![0x26u8] + prefixed(k) + prefixed(v),
    }
}

/// The property that reading a complete encoding gives.
pub open spec fn property_wire_view(w: PropertyWire) -> PropertyView {
    match w {
        PropertyWire::PayloadFormatIndicator(v) => PropertyView::PayloadFormatIndicator(v),
        PropertyWire::MessageExpiryInterval(v) => PropertyView::MessageExpiryInterval(v),
        PropertyWire::ContentType(b) => PropertyView::ContentType(utf8_lossy(b)),
        PropertyWire::ResponseTopic(b) => PropertyView::ResponseTopic(utf8_lossy(b)),
        PropertyWire::CorrelationData(b) => PropertyView::CorrelationData(b),
        PropertyWire::SubscriptionIdentifier(v) => PropertyView::SubscriptionIdentifier(v),
        PropertyWire::TopicAlias(v) => PropertyView::TopicAlias(v),
        PropertyWire::UserProperty(k, v) => PropertyView::UserProperty(utf8_lossy(k), utf8_lossy(v)),
    }
}

/// The encodings of a list of properties, one after the other.
pub open spec fn properties_wire_bytes(ws: Seq<PropertyWire>) -> Seq<u8>
    decreases ws.len(),
{
    if ws.len() == 0 {
        seq![]
    } else {
        property_wire_bytes(ws[0]) + properties_wire_bytes(ws.drop_first())
    }
}

pub open spec fn properties_wire_view(ws: Seq<PropertyWire>) -> Seq<PropertyView> {
    ws.map_values(|w: PropertyWire| property_wire_view(w))
}

pub open spec fn all_wire_ok(ws: Seq<PropertyWire>) -> bool {
    forall|i: int| 0 <= i < ws.len() ==> #[trigger] property_wire_ok(ws[i])
}

proof fn lemma_var_int_single(x: Seq<u8>)
    requires
        x.len() >= 1,
        x[0] < 128,
    ensures
        spec_var_int(x) == VarIntRead::Value(x[0] as u32, 1),
{
    crate::utils::lemma_pow128_values();
    assert(crate::utils::var_int_value(x, 0) == 0);
    assert(x[0] % 128 == x[0]);
    assert(crate::utils::var_int_value(x, 1) == x[0] as nat);
}

proof fn lemma_be32_round_trip(v: u32)
    ensures
        be_u32(be32_bytes(v)[0], be32_bytes(v)[1], be32_bytes(v)[2], be32_bytes(v)[3]) == v,
{
    let b = be32_bytes(v);
    assert(b[0] as int * 16777216 + b[1] as int * 65536 + b[2] as int * 256 + b[3] as int == v);
}

/// Bytes that stand at `p` stand, past a prefix of them, further on.
proof fn lemma_subrange_split(s: Seq<u8>, p: int, x: Seq<u8>, t: Seq<u8>)
    requires
        0 <= p,
        p + x.len() + t.len() <= s.len(),
        s.subrange(p, p + x.len() + t.len()) == x + t,
    ensures
        s.subrange(p, p + x.len()) == x,
        s.subrange(p + x.len(), p + x.len() + t.len()) == t,
{
    assert(s.subrange(p, p + x.len()) =~= (x + t).subrange(0, x.len() as int));
    assert((x + t).subrange(0, x.len() as int) =~= x);
    assert(s.subrange(p + x.len(), p + x.len() + t.len()) =~= (x + t).subrange(
        x.len() as int,
        (x.len() + t.len()) as int,
    ));
    assert((x + t).subrange(x.len() as int, (x.len() + t.len()) as int) =~= t);
}

proof fn lemma_read_u8_at(s: Seq<u8>, q: int, v: u8)
    requires
        0 <= q,
        q + 1 <= s.len(),
        s.subrange(q, q + 1) == seq![v],
    ensures
        read_u8(s, q) == Some((v, q + 1)),
{
    assert(s[q] == s.subrange(q, q + 1)[0]);
}

proof fn lemma_read_u16_at(s: Seq<u8>, q: int, v: u16)
    requires
        0 <= q,
        q + 2 <= s.len(),
        s.subrange(q, q + 2) == be_bytes(v),
    ensures
        read_u16(s, q) == Some((v, q + 2)),
{
    lemma_be_u16_round_trip(v);
    assert(s[q] == s.subrange(q, q + 2)[0]);
    assert(s[q + 1] == s.subrange(q, q + 2)[1]);
}

proof fn lemma_read_u32_at(s: Seq<u8>, q: int, v: u32)
    requires
        0 <= q,
        q + 4 <= s.len(),
        s.subrange(q, q + 4) == be32_bytes(v),
    ensures
        read_u32(s, q) == Some((v, q + 4)),
{
    lemma_be32_round_trip(v);
    assert(s[q] == s.subrange(q, q + 4)[0]);
    assert(s[q + 1] == s.subrange(q, q + 4)[1]);
    assert(s[q + 2] == s.subrange(q, q + 4)[2]);
    assert(s[q + 3] == s.subrange(q, q + 4)[3]);
}

proof fn lemma_read_prefixed_at(s: Seq<u8>, q: int, b: Seq<u8>)
    requires
        0 <= q,
        b.len() <= 65535,
        q + prefixed(b).len() <= s.len(),
        s.subrange(q, q + prefixed(b).len()) == prefixed(b),
    ensures
        read_prefixed(s, q) == Some((b, q + prefixed(b).len())),
{
    lemma_subrange_split(s, q, be_bytes(b.len() as u16), b);
    lemma_read_u16_at(s, q, b.len() as u16);
}

proof fn lemma_var_int_at(s: Seq<u8>, q: int, v: u32)
    requires
        0 <= q,
        v <= max_var_int(),
        q + var_int_bytes(v as nat).len() <= s.len(),
        s.subrange(q, q + var_int_bytes(v as nat).len()) == var_int_bytes(v as nat),
    ensures
        spec_var_int(s.skip(q)) == VarIntRead::Value(v, var_int_bytes(v as nat).len()),
{
    let vb = var_int_bytes(v as nat);
    law_var_int_round_trip(v, s.skip(q + vb.len()));
    assert(s.skip(q) =~= s.subrange(q, q + vb.len()) + s.skip(q + vb.len()));
}

/// Reading a property at `p` that is completely encoded there.
proof fn lemma_property_reads_back(s: Seq<u8>, p: int, end: int, w: PropertyWire)
    requires
        property_wire_ok(w),
        0 <= p < end,
        p + property_wire_bytes(w).len() <= s.len(),
        s.subrange(p, p + property_wire_bytes(w).len()) == property_wire_bytes(w),
    ensures
        spec_properties(s, p, end) == props_cons(
            property_wire_view(w),
            spec_properties(s, p + property_wire_bytes(w).len(), end),
        ),
{
    let e = property_wire_bytes(w);
    let q = p + 1;
    let id = e[0];
    let t = e.subrange(1, e.len() as int);
    assert(e =~= seq![id] + t);
    lemma_subrange_split(s, p, seq![id], t);
    assert(s.skip(p)[0] == id) by {
        assert(s[p] == s.subrange(p, p + 1)[0]);
    }
    lemma_var_int_single(s.skip(p));
    match w {
        PropertyWire::PayloadFormatIndicator(v) => {
            assert(t =~= seq![v]);
            lemma_read_u8_at(s, q, v);
        },
        PropertyWire::MessageExpiryInterval(v) => {
            assert(t =~= be32_bytes(v));
            lemma_read_u32_at(s, q, v);
        },
        PropertyWire::ContentType(b) => {
            assert(t =~= prefixed(b));
            lemma_read_prefixed_at(s, q, b);
        },
        PropertyWire::ResponseTopic(b) => {
            assert(t =~= prefixed(b));
            lemma_read_prefixed_at(s, q, b);
        },
        PropertyWire::CorrelationData(b) => {
            assert(t =~= prefixed(b));
            lemma_read_prefixed_at(s, q, b);
        },
        PropertyWire::SubscriptionIdentifier(v) => {
            assert(t =~= var_int_bytes(v as nat));
            lemma_var_int_at(s, q, v);
        },
        PropertyWire::TopicAlias(v) => {
            assert(t =~= be_bytes(v));
            lemma_read_u16_at(s, q, v);
        },
        PropertyWire::UserProperty(k, v) => {
            assert(t =~= prefixed(k) + prefixed(v));
            lemma_subrange_split(s, q, prefixed(k), prefixed(v));
            lemma_read_prefixed_at(s, q, k);
            lemma_read_prefixed_at(s, q + prefixed(k).len(), v);
        },
    }
}

/// Reading a block made of complete property encodings, placed at `p`.
proof fn lemma_properties_read_back(s: Seq<u8>, p: int, ws: Seq<PropertyWire>)
    requires
        all_wire_ok(ws),
        0 <= p,
        p + properties_wire_bytes(ws).len() <= s.len(),
        s.subrange(p, p + properties_wire_bytes(ws).len()) == properties_wire_bytes(ws),
    ensures
        spec_properties(s, p, p + properties_wire_bytes(ws).len()) == PropsOutcome::Done(
            properties_wire_view(ws),
            p + properties_wire_bytes(ws).len(),
        ),
    decreases ws.len(),
{
    let e = properties_wire_bytes(ws);
    let end = p + e.len();
    if ws.len() == 0 {
        assert(properties_wire_view(ws) =~= seq![]);
    } else {
        let w = ws[0];
        let rest = ws.drop_first();
        let ew = property_wire_bytes(w);
        let er = properties_wire_bytes(rest);
        assert(e == ew + er);
        assert(property_wire_ok(ws[0]));
        assert(all_wire_ok(rest)) by {
            assert forall|i: int| 0 <= i < rest.len() implies #[trigger] property_wire_ok(rest[i]) by {
                assert(rest[i] == ws[i + 1]);
            }
        }
        assert(ew.len() >= 1);
        assert(s.subrange(p, p + ew.len()) =~= ew) by {
            assert(s.subrange(p, p + ew.len()) =~= s.subrange(p, end).subrange(0, ew.len() as int));
            assert(e.subrange(0, ew.len() as int) =~= ew);
        }
        assert(s.subrange(p + ew.len(), end) =~= er) by {
            assert(s.subrange(p + ew.len(), end) =~= s.subrange(p, end).subrange(
                ew.len() as int,
                e.len() as int,
            ));
            assert(e.subrange(ew.len() as int, e.len() as int) =~= er);
        }
        lemma_property_reads_back(s, p, end, w);
        lemma_properties_read_back(s, p + ew.len(), rest);
        assert(properties_wire_view(ws) =~= seq![property_wire_view(w)] + properties_wire_view(
            rest,
        ));
    }
}

proof fn lemma_properties_wire_concat(ws1: Seq<PropertyWire>, ws2: Seq<PropertyWire>)
    ensures
        properties_wire_bytes(ws1 + ws2) == properties_wire_bytes(ws1) + properties_wire_bytes(ws2),
    decreases ws1.len(),
{
    if ws1.len() == 0 {
        assert(ws1 + ws2 =~= ws2);
    } else {
        assert((ws1 + ws2).drop_first() =~= ws1.drop_first() + ws2);
        lemma_properties_wire_concat(ws1.drop_first(), ws2);
        assert((ws1 + ws2)[0] == ws1[0]);
    }
}

/// A property block made of complete property encodings reads back as those
/// properties, in wire order, up to its length; and two such blocks read as one
/// block of their summed length give the properties of the first followed by
/// those of the second, whatever bytes follow them.
pub proof fn law_property_blocks_concatenate(
    ws1: Seq<PropertyWire>,
    ws2: Seq<PropertyWire>,
    rest: Seq<u8>,
)
    requires
        all_wire_ok(ws1),
        all_wire_ok(ws2),
    ensures
        ({
            let a = properties_wire_bytes(ws1);
            let b = properties_wire_bytes(ws2);
            &&& spec_properties(a, 0, a.len() as int) == PropsOutcome::Done(
                properties_wire_view(ws1),
                a.len() as int,
            )
            &&& spec_properties(b, 0, b.len() as int) == PropsOutcome::Done(
                properties_wire_view(ws2),
                b.len() as int,
            )
            &&& spec_properties(a + b + rest, 0, (a.len() + b.len()) as int) == PropsOutcome::Done(
                properties_wire_view(ws1) + properties_wire_view(ws2),
                (a.len() + b.len()) as int,
            )
        }),
{
    let a = properties_wire_bytes(ws1);
    let b = properties_wire_bytes(ws2);
    assert(a.subrange(0, a.len() as int) =~= a);
    assert(b.subrange(0, b.len() as int) =~= b);
    lemma_properties_read_back(a, 0, ws1);
    lemma_properties_read_back(b, 0, ws2);
    let ws = ws1 + ws2;
    lemma_properties_wire_concat(ws1, ws2);
    assert(all_wire_ok(ws)) by {
        assert forall|i: int| 0 <= i < ws.len() implies #[trigger] property_wire_ok(ws[i]) by {
            if i < ws1.len() {
                assert(ws[i] == ws1[i]);
            } else {
                assert(ws[i] == ws2[i - ws1.len()]);
            }
        }
    }
    let s = a + b + rest;
    assert(s.subrange(0, (a + b).len() as int) =~= a + b);
    lemma_properties_read_back(s, 0, ws);
    assert(properties_wire_view(ws) =~= properties_wire_view(ws1) + properties_wire_view(ws2));
}

/// The same, wherever in a buffer the blocks stand: with a cursor over
/// `prefix ++ a ++ b ++ rest` at position `prefix.len()`, reading
/// `a.len() + b.len()` bytes of properties gives those of `a` followed by those
/// of `b`, and ends right after `b`.
pub proof fn law_property_blocks_concatenate_at(
    prefix: Seq<u8>,
    ws1: Seq<PropertyWire>,
    ws2: Seq<PropertyWire>,
    rest: Seq<u8>,
)
    requires
        all_wire_ok(ws1),
        all_wire_ok(ws2),
    ensures
        ({
            let a = properties_wire_bytes(ws1);
            let b = properties_wire_bytes(ws2);
            let p = prefix.len() as int;
            spec_properties(prefix + a + b + rest, p, p + a.len() + b.len()) == PropsOutcome::Done(
                properties_wire_view(ws1) + properties_wire_view(ws2),
                p + a.len() + b.len(),
            )
        }),
{
    let a = properties_wire_bytes(ws1);
    let b = properties_wire_bytes(ws2);
    let p = prefix.len() as int;
    let ws = ws1 + ws2;
    lemma_properties_wire_concat(ws1, ws2);
    assert(all_wire_ok(ws)) by {
        assert forall|i: int| 0 <= i < ws.len() implies #[trigger] property_wire_ok(ws[i]) by {
            if i < ws1.len() {
                assert(ws[i] == ws1[i]);
            } else {
                assert(ws[i] == ws2[i - ws1.len()]);
            }
        }
    }
    let s = prefix + a + b + rest;
    assert(s.subrange(p, p + (a + b).len()) =~= a + b);
    lemma_properties_read_back(s, p, ws);
    assert(properties_wire_view(ws) =~= properties_wire_view(ws1) + properties_wire_view(ws2));
}

/// Every encoding the codec writes is one well-formed frame: a fixed header
/// byte whose high four bits are the packet's type, a remaining length `l` as
/// a variable byte integer of `n` bytes, and exactly `l` bytes after it.
pub proof fn law_encoded_frame_shape(level: ProtocolLevel, p: PacketView)
    requires
        spec_encode(level, p) is Some,
    ensures
        ({
            let e = spec_encode(level, p).unwrap();
            &&& e[0] / 16 == p.packet_type()
            &&& spec_var_int(e.skip(1)) matches VarIntRead::Value(l, n) && 1 + n + l == e.len()
        }),
{
    let e = spec_encode(level, p).unwrap();
    law_encoded_frame_decodes(level, p, seq![]);
    assert(e + seq![] =~= e);
    law_decoded_type(level, e);
    crate::utils::lemma_var_int_scan_len(e.skip(1), 0);
}

/// The low four bits of a PUBLISH fixed header: DUP (8), QoS (times 2) and
/// RETAIN (1).
pub open spec fn publish_flag_bits(dup: bool, qos: u8, retain: bool) -> int {
    (if dup {
        8int
    } else {
        0int
    }) + 2 * qos + (if retain {
        1int
    } else {
        0int
    })
}

proof fn lemma_publish_flag_bits(dup: bool, qos: u8, retain: bool)
    requires
        qos <= 2,
    ensures
        ({
            let f = publish_flag_bits(dup, qos, retain) as u8;
            &&& 0 <= publish_flag_bits(dup, qos, retain) < 16
            &&& (f & 0x08u8 != 0) == dup
            &&& (f & 0x06u8) >> 1u8 == qos
            &&& (f & 0x01u8 != 0) == retain
        }),
{
    let f = publish_flag_bits(dup, qos, retain) as u8;
    if dup && retain {
        assert(f == 9 + 2 * qos);
        assert((f & 0x08u8 != 0) && (f & 0x06u8) >> 1u8 == qos && (f & 0x01u8 != 0)) by (bit_vector)
            requires
                f == 9 + 2 * qos,
                qos <= 2,
        ;
    } else if dup {
        assert(f == 8 + 2 * qos);
        assert((f & 0x08u8 != 0) && (f & 0x06u8) >> 1u8 == qos && (f & 0x01u8 == 0)) by (bit_vector)
            requires
                f == 8 + 2 * qos,
                qos <= 2,
        ;
    } else if retain {
        assert(f == 1 + 2 * qos);
        assert((f & 0x08u8 == 0) && (f & 0x06u8) >> 1u8 == qos && (f & 0x01u8 != 0)) by (bit_vector)
            requires
                f == 1 + 2 * qos,
                qos <= 2,
        ;
    } else {
        assert(f == 2 * qos);
        assert((f & 0x08u8 == 0) && (f & 0x06u8) >> 1u8 == qos && (f & 0x01u8 == 0)) by (bit_vector)
            requires
                f == 2 * qos,
                qos <= 2,
        ;
    }
}

/// The body of a PUBLISH: the length-prefixed topic, the packet identifier
/// when the QoS is above 0, an empty property block at 5.0, then the payload.
pub open spec fn publish_body(
    level: ProtocolLevel,
    qos: u8,
    topic: Seq<u8>,
    packet_id: u16,
    payload: Seq<u8>,
) -> Seq<u8> {
    prefixed(topic) + (if qos > 0 {
        be_bytes(packet_id)
    } else {
        seq![]
    }) + (if level == ProtocolLevel::V5 {
        seq![0u8]
    } else {
        seq![]
    }) + payload
}

/// A PUBLISH frame decodes to exactly what its bytes carry: the fixed header
/// `0x30 + 8·dup + 2·qos + retain` gives DUP, QoS (0, 1 or 2) and RETAIN; the
/// topic is the length-prefixed field that follows; a packet identifier comes
/// next exactly when the QoS is above 0; at 5.0 a property block follows (here
/// empty); and the payload is all the rest of the frame, whatever follows it.
#[verifier::rlimit(30)]
pub proof fn law_publish_decodes(
    level: ProtocolLevel,
    dup: bool,
    qos: u8,
    retain: bool,
    topic: Seq<u8>,
    packet_id: u16,
    payload: Seq<u8>,
    tail: Seq<u8>,
)
    requires
        qos <= 2,
        topic.len() <= 65535,
        topic.len() + payload.len() + 5 < 268435456,
    ensures
        ({
            let b0 = (0x30 + publish_flag_bits(dup, qos, retain)) as u8;
            let body = publish_body(level, qos, topic, packet_id, payload);
            let frame = seq![b0] + var_int_bytes(body.len()) + body;
            spec_decode(level, frame + tail) == DecodeOutcome::Frame(
                frame.len(),
                BodyOutcome::Packet(
                    PacketView::Publish {
                        dup,
                        qos,
                        retain,
                        topic: utf8_lossy(topic),
                        packet_id: if qos > 0 {
                            Some(packet_id)
                        } else {
                            None
                        },
                        properties: seq![],
                        payload,
                    },
                ),
            )
        }),
{
    let f = publish_flag_bits(dup, qos, retain);
    let b0 = (0x30 + f) as u8;
    lemma_publish_flag_bits(dup, qos, retain);
    assert(b0 / 16 == 3 && b0 % 16 == f);
    let id_bytes: Seq<u8> = if qos > 0 {
        be_bytes(packet_id)
    } else {
        seq![]
    };
    let props: Seq<u8> = if level == ProtocolLevel::V5 {
        seq![0u8]
    } else {
        seq![]
    };
    let body = publish_body(level, qos, topic, packet_id, payload);
    let t = prefixed(topic);
    assert(body == t + id_bytes + props + payload);
    lemma_decode_laid_out(level, b0, body, tail);
    crate::wire::lemma_body_flags(level, 3, f as u8, body);
    let p1 = t.len() as int;
    assert(body.subrange(0, p1) =~= t);
    lemma_read_prefixed_at(body, 0, topic);
    let p2 = p1 + id_bytes.len();
    if qos > 0 {
        assert(body.subrange(p1, p1 + 2) =~= be_bytes(packet_id));
        lemma_read_u16_at(body, p1, packet_id);
    }
    if level == ProtocolLevel::V5 {
        assert(body.skip(p2)[0] == 0u8);
        lemma_var_int_single(body.skip(p2));
        assert(body.skip(p2 + 1) =~= payload);
        assert(spec_properties(body, p2 + 1, p2 + 1) == PropsOutcome::Done(seq![], p2 + 1));
    } else {
        assert(body.skip(p2) =~= payload);
    }
}

proof fn lemma_body_by_type(level: ProtocolLevel, s: Seq<u8>)
    ensures
        spec_body(level, 1, 0, s) == crate::wire::spec_connect(s),
        spec_body(level, 8, 2, s) == (match read_u16(s, 0) {
            None => BodyOutcome::Overrun,
            Some((id, p)) => match spec_subscribe_filters(s, p) {
                None => BodyOutcome::Overrun,
                Some(filters) => BodyOutcome::Packet(
                    PacketView::Subscribe { packet_id: id, filters },
                ),
            },
        }),
        spec_body(level, 10, 2, s) == (match read_u16(s, 0) {
            None => BodyOutcome::Overrun,
            Some((id, p)) => match spec_unsubscribe_filters(s, p) {
                None => BodyOutcome::Overrun,
                Some(filters) => BodyOutcome::Packet(
                    PacketView::Unsubscribe { packet_id: id, filters },
                ),
            },
        }),
{
    reveal(spec_body);
}

/// The body of a CONNECT: the length-prefixed protocol name, the protocol
/// level byte, the connect flags, the keep alive, an empty property block at
/// 5.0, the length-prefixed client identifier, then any further fields (will,
/// user name, password).
pub open spec fn connect_body(
    level: ProtocolLevel,
    name: Seq<u8>,
    flags: u8,
    keep_alive: u16,
    client_id: Seq<u8>,
    extra: Seq<u8>,
) -> Seq<u8> {
    prefixed(name) + seq![
        if level == ProtocolLevel::V5 {
            5u8
        } else {
            4u8
        },
        flags,
    ] + be_bytes(keep_alive) + (if level == ProtocolLevel::V5 {
        seq![0u8]
    } else {
        seq![]
    }) + prefixed(client_id) + extra
}

/// A CONNECT frame decodes to the level its level byte names, the client
/// identifier it carries, its keep alive, and a clean session flag that is
/// bit 1 (value 2) of the connect flags and nothing else: the other flag bits
/// and the fields after the client identifier do not change the packet. This
/// holds whatever level the codec was at.
#[verifier::rlimit(30)]
pub proof fn law_connect_decodes(
    current: ProtocolLevel,
    level: ProtocolLevel,
    name: Seq<u8>,
    flags: u8,
    keep_alive: u16,
    client_id: Seq<u8>,
    extra: Seq<u8>,
    tail: Seq<u8>,
)
    requires
        name.len() <= 65535,
        client_id.len() <= 65535,
        name.len() + client_id.len() + extra.len() + 9 < 268435456,
    ensures
        ({
            let body = connect_body(level, name, flags, keep_alive, client_id, extra);
            let frame = seq![0x10u8] + var_int_bytes(body.len()) + body;
            spec_decode(current, frame + tail) == DecodeOutcome::Frame(
                frame.len(),
                BodyOutcome::Packet(
                    PacketView::Connect {
                        protocol_level: level,
                        client_id: utf8_lossy(client_id),
                        clean_session: (flags / 2) % 2 == 1,
                        keep_alive,
                    },
                ),
            )
        }),
{
    let lb: u8 = if level == ProtocolLevel::V5 {
        5u8
    } else {
        4u8
    };
    let props: Seq<u8> = if level == ProtocolLevel::V5 {
        seq![0u8]
    } else {
        seq![]
    };
    let n = prefixed(name);
    let c = prefixed(client_id);
    let body = connect_body(level, name, flags, keep_alive, client_id, extra);
    assert(body == n + seq![lb, flags] + be_bytes(keep_alive) + props + c + extra);
    lemma_decode_laid_out(current, 0x10, body, tail);
    lemma_body_by_type(current, body);
    let p1 = n.len() as int;
    assert(body.subrange(0, p1) =~= n);
    lemma_read_prefixed_at(body, 0, name);
    assert(body[p1] == lb);
    assert(body[p1 + 1] == flags);
    let p4 = p1 + 4;
    assert(body.subrange(p1 + 2, p4) =~= be_bytes(keep_alive));
    lemma_read_u16_at(body, p1 + 2, keep_alive);
    let p5 = p4 + props.len();
    if level == ProtocolLevel::V5 {
        assert(body.skip(p4)[0] == 0u8);
        lemma_var_int_single(body.skip(p4));
    }
    assert(body.subrange(p5, p5 + c.len()) =~= c);
    lemma_read_prefixed_at(body, p5, client_id);
    assert((flags & 0x02u8 != 0) == ((flags / 2) % 2 == 1)) by (bit_vector);
}

/// Length-prefixed fields, one after the other.
pub open spec fn prefixed_all(ts: Seq<Seq<u8>>) -> Seq<u8>
    decreases ts.len(),
{
    if ts.len() == 0 {
        seq![]
    } else {
        prefixed(ts[0]) + prefixed_all(ts.drop_first())
    }
}

/// (topic filter, QoS) pairs as a SUBSCRIBE carries them: each filter
/// length-prefixed, then its QoS byte.
pub open spec fn subscription_bytes(fs: Seq<(Seq<u8>, u8)>) -> Seq<u8>
    decreases fs.len(),
{
    if fs.len() == 0 {
        seq![]
    } else {
        prefixed(fs[0].0) + seq![fs[0].1] + subscription_bytes(fs.drop_first())
    }
}

pub open spec fn fields_fit(ts: Seq<Seq<u8>>) -> bool {
    forall|i: int| 0 <= i < ts.len() ==> #[trigger] ts[i].len() <= 65535
}

pub open spec fn filters_fit(fs: Seq<(Seq<u8>, u8)>) -> bool {
    forall|i: int| 0 <= i < fs.len() ==> #[trigger] fs[i].0.len() <= 65535
}

proof fn lemma_unsubscribe_filters_read_back(s: Seq<u8>, p: int, ts: Seq<Seq<u8>>)
    requires
        fields_fit(ts),
        0 <= p,
        p + prefixed_all(ts).len() == s.len(),
        s.skip(p) == prefixed_all(ts),
    ensures
        spec_unsubscribe_filters(s, p) == Some(ts.map_values(|t: Seq<u8>| utf8_lossy(t))),
    decreases ts.len(),
{
    if ts.len() == 0 {
        assert(ts.map_values(|t: Seq<u8>| utf8_lossy(t)) =~= seq![]);
    } else {
        let t0 = ts[0];
        let rest = ts.drop_first();
        let e0 = prefixed(t0);
        assert(t0.len() <= 65535);
        assert(fields_fit(rest)) by {
            assert forall|i: int| 0 <= i < rest.len() implies #[trigger] rest[i].len() <= 65535 by {
                assert(rest[i] == ts[i + 1]);
            }
        }
        assert(s.subrange(p, p + e0.len()) =~= e0) by {
            assert(s.subrange(p, p + e0.len()) =~= s.skip(p).subrange(0, e0.len() as int));
        }
        lemma_read_prefixed_at(s, p, t0);
        assert(s.skip(p + e0.len()) =~= prefixed_all(rest)) by {
            assert(s.skip(p + e0.len()) =~= s.skip(p).skip(e0.len() as int));
        }
        lemma_unsubscribe_filters_read_back(s, p + e0.len(), rest);
        assert(ts.map_values(|t: Seq<u8>| utf8_lossy(t)) =~= seq![utf8_lossy(t0)]
            + rest.map_values(|t: Seq<u8>| utf8_lossy(t)));
    }
}

proof fn lemma_subscribe_filters_read_back(s: Seq<u8>, p: int, fs: Seq<(Seq<u8>, u8)>)
    requires
        filters_fit(fs),
        0 <= p,
        p + subscription_bytes(fs).len() == s.len(),
        s.skip(p) == subscription_bytes(fs),
    ensures
        spec_subscribe_filters(s, p) == Some(
            fs.map_values(|f: (Seq<u8>, u8)| (utf8_lossy(f.0), f.1)),
        ),
    decreases fs.len(),
{
    if fs.len() == 0 {
        assert(fs.map_values(|f: (Seq<u8>, u8)| (utf8_lossy(f.0), f.1)) =~= seq![]);
    } else {
        let (t0, q0) = fs[0];
        let rest = fs.drop_first();
        let e0 = prefixed(t0);
        assert(t0.len() <= 65535);
        assert(filters_fit(rest)) by {
            assert forall|i: int| 0 <= i < rest.len() implies #[trigger] rest[i].0.len() <= 65535 by {
                assert(rest[i] == fs[i + 1]);
            }
        }
        assert(subscription_bytes(fs) == e0 + seq![q0] + subscription_bytes(rest));
        assert(s.subrange(p, p + e0.len()) =~= e0) by {
            assert(s.subrange(p, p + e0.len()) =~= s.skip(p).subrange(0, e0.len() as int));
        }
        lemma_read_prefixed_at(s, p, t0);
        let q = p + e0.len();
        assert(s[q] == q0) by {
            assert(s[q] == s.skip(p)[e0.len() as int]);
        }
        assert(s.skip(q + 1) =~= subscription_bytes(rest)) by {
            assert(s.skip(q + 1) =~= s.skip(p).skip((e0.len() + 1) as int));
        }
        lemma_subscribe_filters_read_back(s, q + 1, rest);
        assert(fs.map_values(|f: (Seq<u8>, u8)| (utf8_lossy(f.0), f.1)) =~= seq![
            (utf8_lossy(t0), q0),
        ] + rest.map_values(|f: (Seq<u8>, u8)| (utf8_lossy(f.0), f.1)));
    }
}

/// An UNSUBSCRIBE frame made of a packet identifier and the length-prefixed
/// topic filters `ts` decodes to that identifier and every one of those
/// filters, in wire order.
pub proof fn law_unsubscribe_decodes(
    level: ProtocolLevel,
    packet_id: u16,
    ts: Seq<Seq<u8>>,
    tail: Seq<u8>,
)
    requires
        fields_fit(ts),
        2 + prefixed_all(ts).len() < 268435456,
    ensures
        ({
            let body = be_bytes(packet_id) + prefixed_all(ts);
            let frame = seq![0xA2u8] + var_int_bytes(body.len()) + body;
            spec_decode(level, frame + tail) == DecodeOutcome::Frame(
                frame.len(),
                BodyOutcome::Packet(
                    PacketView::Unsubscribe {
                        packet_id,
                        filters: ts.map_values(|t: Seq<u8>| utf8_lossy(t)),
                    },
                ),
            )
        }),
{
    let body = be_bytes(packet_id) + prefixed_all(ts);
    lemma_decode_laid_out(level, 0xA2, body, tail);
    lemma_body_by_type(level, body);
    assert(body.subrange(0, 2) =~= be_bytes(packet_id));
    lemma_read_u16_at(body, 0, packet_id);
    assert(body.skip(2) =~= prefixed_all(ts));
    lemma_unsubscribe_filters_read_back(body, 2, ts);
}

/// A SUBSCRIBE frame made of a packet identifier and the (length-prefixed
/// topic filter, QoS byte) pairs `fs` decodes to that identifier and every one
/// of those pairs, in wire order, whatever their QoS.
pub proof fn law_subscribe_decodes(
    level: ProtocolLevel,
    packet_id: u16,
    fs: Seq<(Seq<u8>, u8)>,
    tail: Seq<u8>,
)
    requires
        filters_fit(fs),
        2 + subscription_bytes(fs).len() < 268435456,
    ensures
        ({
            let body = be_bytes(packet_id) + subscription_bytes(fs);
            let frame = seq![0x82u8] + var_int_bytes(body.len()) + body;
            spec_decode(level, frame + tail) == DecodeOutcome::Frame(
                frame.len(),
                BodyOutcome::Packet(
                    PacketView::Subscribe {
                        packet_id,
                        filters: fs.map_values(|f: (Seq<u8>, u8)| (utf8_lossy(f.0), f.1)),
                    },
                ),
            )
        }),
{
    let body = be_bytes(packet_id) + subscription_bytes(fs);
    lemma_decode_laid_out(level, 0x82, body, tail);
    lemma_body_by_type(level, body);
    assert(body.subrange(0, 2) =~= be_bytes(packet_id));
    lemma_read_u16_at(body, 0, packet_id);
    assert(body.skip(2) =~= subscription_bytes(fs));
    lemma_subscribe_filters_read_back(body, 2, fs);
}

/// The flags that MQTT fixes in the fixed header of each packet type encoded
/// here: 0b0010 for PUBREL, zero for the others.
pub open spec fn prescribed_flags(p: PacketView) -> int {
    match p {
        PacketView::PubRel { .. } => 2,
        _ => 0,
    }
}

/// The first byte of every encoding is the packet's type in the high four bits
/// and the flags MQTT prescribes for that type in the low four, at either
/// protocol level; and the packets whose layout does not change between 3.1.1
/// and 5.0 (all but PUBACK and SUBACK) encode to the same bytes at both.
pub proof fn law_encoded_fixed_header(level: ProtocolLevel, p: PacketView)
    requires
        spec_encode(level, p) is Some,
    ensures
        spec_encode(level, p).unwrap()[0] == p.packet_type() * 16 + prescribed_flags(p),
        !(p is PubAck) && !(p is SubAck) ==> spec_encode(ProtocolLevel::V311, p) == spec_encode(
            ProtocolLevel::V5,
            p,
        ),
{
}

} // verus!
