use vstd::prelude::*;
use bytes::Bytes;

use crate::buffers::bytes_contents;
use crate::wire::level_of_byte;

verus! {

/// The MQTT protocol revision a connection speaks: 3.1.1 (level byte 4) or
/// 5.0 (level byte 5).
#[derive(Debug, Clone, Copy, PartialEq, Eq, Structural)]
pub enum ProtocolLevel {
    V311,
    V5,
}

impl ProtocolLevel {
    /// The protocol level byte that a CONNECT carries: 4 for 3.1.1, 5 for 5.0.
    pub fn level_byte(&self) -> (b: u8)
        ensures
            level_of_byte(b) == Some(*self),
            b == (match *self {
                ProtocolLevel::V311 => 4u8,
                ProtocolLevel::V5 => 5u8,
            }),
    {
        match self {
            ProtocolLevel::V311 => 4,
            ProtocolLevel::V5 => 5,
        }
    }
}

/// An MQTT 5.0 property carried in a packet's property block.
#[derive(Debug, Clone, PartialEq, Eq)]
pub enum Property {
    PayloadFormatIndicator(u8),
    MessageExpiryInterval(u32),
    ContentType(String),
    ResponseTopic(String),
    CorrelationData(Vec<u8>),
    SubscriptionIdentifier(u32),
    TopicAlias(u16),
    UserProperty(String, String),
}

/// A property, with its strings and binary data as sequences.
pub enum PropertyView {
    PayloadFormatIndicator(u8),
    MessageExpiryInterval(u32),
    ContentType(Seq<char>),
    ResponseTopic(Seq<char>),
    CorrelationData(Seq<u8>),
    SubscriptionIdentifier(u32),
    TopicAlias(u16),
    UserProperty(Seq<char>, Seq<char>),
}

impl View for Property {
    type V = PropertyView;

    open spec fn view(&self) -> PropertyView {
        match self {
            Property::PayloadFormatIndicator(v) => PropertyView::PayloadFormatIndicator(*v),
            Property::MessageExpiryInterval(v) => PropertyView::MessageExpiryInterval(*v),
            Property::ContentType(s) => PropertyView::ContentType(s@),
            Property::ResponseTopic(s) => PropertyView::ResponseTopic(s@),
            Property::CorrelationData(d) => PropertyView::CorrelationData(d@),
            Property::SubscriptionIdentifier(v) => PropertyView::SubscriptionIdentifier(*v),
            Property::TopicAlias(v) => PropertyView::TopicAlias(*v),
            Property::UserProperty(k, v) => PropertyView::UserProperty(k@, v@),
        }
    }
}

/// The views of a list of properties.
pub open spec fn properties_view(ps: Seq<Property>) -> Seq<PropertyView> {
    ps.map_values(|p: Property| p@)
}

/// The views of a list of (topic filter, QoS) pairs.
pub open spec fn filters_view(fs: Seq<(String, u8)>) -> Seq<(Seq<char>, u8)> {
    fs.map_values(|f: (String, u8)| (f.0@, f.1))
}

/// The views of a list of topic filters.
pub open spec fn topics_view(fs: Seq<String>) -> Seq<Seq<char>> {
    fs.map_values(|f: String| f@)
}

#[derive(Debug, Clone, PartialEq, Eq)]
pub struct Connect {
    pub protocol_level: ProtocolLevel,
    pub client_id: String,
    pub clean_session: bool,
    pub keep_alive: u16,
}

#[derive(Debug, Clone, PartialEq, Eq)]
pub struct ConnAck {
    pub session_present: bool,
    pub return_code: u8,
}

#[derive(Debug, Clone, PartialEq, Eq)]
pub struct Publish {
    pub dup: bool,
    pub qos: u8,
    pub retain: bool,
    pub topic: String,
    /// Present only when the QoS is above 0.
    pub packet_id: Option<u16>,
    pub properties: Vec<Property>,
    pub payload: Bytes,
}

#[derive(Debug, Clone, PartialEq, Eq)]
pub struct PubAck {
    pub packet_id: u16,
    /// MQTT 5.0 only.
    pub reason_code: Option<u8>,
}

#[derive(Debug, Clone, PartialEq, Eq)]
pub struct PubRec {
    pub packet_id: u16,
}

#[derive(Debug, Clone, PartialEq, Eq)]
pub struct PubRel {
    pub packet_id: u16,
}

#[derive(Debug, Clone, PartialEq, Eq)]
pub struct PubComp {
    pub packet_id: u16,
}

#[derive(Debug, Clone, PartialEq, Eq)]
pub struct Subscribe {
    pub packet_id: u16,
    /// Topic filters, each with its requested QoS.
    pub filters: Vec<(String, u8)>,
}

#[derive(Debug, Clone, PartialEq, Eq)]
pub struct SubAck {
    pub packet_id: u16,
    pub return_codes: Vec<u8>,
}

#[derive(Debug, Clone, PartialEq, Eq)]
pub struct Unsubscribe {
    pub packet_id: u16,
    pub filters: Vec<String>,
}

#[derive(Debug, Clone, PartialEq, Eq)]
pub struct UnsubAck {
    pub packet_id: u16,
}

/// The control packets of MQTT.
#[derive(Debug, Clone, PartialEq, Eq)]
pub enum MqttPacket {
    Connect(Connect),
    ConnAck(ConnAck),
    Publish(Publish),
    PubAck(PubAck),
    PubRec(PubRec),
    PubRel(PubRel),
    PubComp(PubComp),
    Subscribe(Subscribe),
    SubAck(SubAck),
    Unsubscribe(Unsubscribe),
    UnsubAck(UnsubAck),
    PingReq,
    PingResp,
    Disconnect,
}

/// A packet as plain values.
#[allow(inconsistent_fields)]
pub enum PacketView {
    Connect {
        protocol_level: ProtocolLevel,
        client_id: Seq<char>,
        clean_session: bool,
        keep_alive: u16,
    },
    ConnAck { session_present: bool, return_code: u8 },
    Publish {
        dup: bool,
        qos: u8,
        retain: bool,
        topic: Seq<char>,
        packet_id: Option<u16>,
        properties: Seq<PropertyView>,
        payload: Seq<u8>,
    },
    PubAck { packet_id: u16, reason_code: Option<u8> },
    PubRec { packet_id: u16 },
    PubRel { packet_id: u16 },
    PubComp { packet_id: u16 },
    Subscribe { packet_id: u16, filters: Seq<(Seq<char>, u8)> },
    SubAck { packet_id: u16, return_codes: Seq<u8> },
    Unsubscribe { packet_id: u16, filters: Seq<Seq<char>> },
    UnsubAck { packet_id: u16 },
    PingReq,
    PingResp,
    Disconnect,
}

impl PacketView {
    /// The control packet type: the high four bits of the fixed header.
    pub open spec fn packet_type(self) -> u8 {
        match self {
            PacketView::Connect { .. } => 1,
            PacketView::ConnAck { .. } => 2,
            PacketView::Publish { .. } => 3,
            PacketView::PubAck { .. } => 4,
            PacketView::PubRec { .. } => 5,
            PacketView::PubRel { .. } => 6,
            PacketView::PubComp { .. } => 7,
            PacketView::Subscribe { .. } => 8,
            PacketView::SubAck { .. } => 9,
            PacketView::Unsubscribe { .. } => 10,
            PacketView::UnsubAck { .. } => 11,
            PacketView::PingReq => 12,
            PacketView::PingResp => 13,
            PacketView::Disconnect => 14,
        }
    }
}

impl View for MqttPacket {
    type V = PacketView;

    open spec fn view(&self) -> PacketView {
        match self {
            MqttPacket::Connect(c) => PacketView::Connect {
                protocol_level: c.protocol_level,
                client_id: c.client_id@,
                clean_session: c.clean_session,
                keep_alive: c.keep_alive,
            },
            MqttPacket::ConnAck(c) => PacketView::ConnAck {
                session_present: c.session_present,
                return_code: c.return_code,
            },
            MqttPacket::Publish(p) => PacketView::Publish {
                dup: p.dup,
                qos: p.qos,
                retain: p.retain,
                topic: p.topic@,
                packet_id: p.packet_id,
                properties: properties_view(p.properties@),
                payload: bytes_contents(p.payload),
            },
            MqttPacket::PubAck(p) => PacketView::PubAck {
                packet_id: p.packet_id,
                reason_code: p.reason_code,
            },
            MqttPacket::PubRec(p) => PacketView::PubRec { packet_id: p.packet_id },
            MqttPacket::PubRel(p) => PacketView::PubRel { packet_id: p.packet_id },
            MqttPacket::PubComp(p) => PacketView::PubComp { packet_id: p.packet_id },
            MqttPacket::Subscribe(s) => PacketView::Subscribe {
                packet_id: s.packet_id,
                filters: filters_view(s.filters@),
            },
            MqttPacket::SubAck(s) => PacketView::SubAck {
                packet_id: s.packet_id,
                return_codes: s.return_codes@,
            },
            MqttPacket::Unsubscribe(u) => PacketView::Unsubscribe {
                packet_id: u.packet_id,
                filters: topics_view(u.filters@),
            },
            MqttPacket::UnsubAck(u) => PacketView::UnsubAck { packet_id: u.packet_id },
            MqttPacket::PingReq => PacketView::PingReq,
            MqttPacket::PingResp => PacketView::PingResp,
            MqttPacket::Disconnect => PacketView::Disconnect,
        }
    }
}

impl MqttPacket {
    /// The control packet type of this packet, as the fixed header carries it.
    pub fn packet_type(&self) -> (t: u8)
        ensures
            t == self@.packet_type(),
    {
        match self {
            MqttPacket::Connect(_) => 1,
            MqttPacket::ConnAck(_) => 2,
            MqttPacket::Publish(_) => 3,
            MqttPacket::PubAck(_) => 4,
            MqttPacket::PubRec(_) => 5,
            MqttPacket::PubRel(_) => 6,
            MqttPacket::PubComp(_) => 7,
            MqttPacket::Subscribe(_) => 8,
            MqttPacket::SubAck(_) => 9,
            MqttPacket::Unsubscribe(_) => 10,
            MqttPacket::UnsubAck(_) => 11,
            MqttPacket::PingReq => 12,
            MqttPacket::PingResp => 13,
            MqttPacket::Disconnect => 14,
        }
    }
}

} // verus!
