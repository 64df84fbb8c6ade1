use vstd::prelude::*;

verus! {

/// `std::io::Error`, carried by `MqttError::Io` and opaque here.
#[verifier::external_type_specification]
#[verifier::external_body]
pub struct ExIoError(std::io::Error);

/// Everything that can go wrong while framing or encoding MQTT packets.
#[derive(Debug)]
pub enum MqttError {
    /// An error of the underlying transport.
    Io(std::io::Error),
    /// The bytes do not form a valid packet; the text says why.
    MalformedPacket(&'static str),
    /// The packet is valid MQTT but not handled here.
    ProtocolError(String),
    /// A CONNECT asked for a protocol level other than 3.1.1 or 5.0.
    UnsupportedVersion,
    /// A payload does not fit.
    PayloadTooLarge,
}

/// What an error says, as plain values.
pub enum ErrorView {
    Io,
    MalformedPacket(Seq<char>),
    ProtocolError(Seq<char>),
    UnsupportedVersion,
    PayloadTooLarge,
}

impl View for MqttError {
    type V = ErrorView;

    open spec fn view(&self) -> ErrorView {
        match self {
            MqttError::Io(_) => ErrorView::Io,
            MqttError::MalformedPacket(m) => ErrorView::MalformedPacket(m@),
            MqttError::ProtocolError(m) => ErrorView::ProtocolError(m@),
            MqttError::UnsupportedVersion => ErrorView::UnsupportedVersion,
            MqttError::PayloadTooLarge => ErrorView::PayloadTooLarge,
        }
    }
}

impl From<std::io::Error> for MqttError {
    fn from(e: std::io::Error) -> (r: Self) {
        MqttError::Io(e)
    }
}

impl vstd::std_specs::convert::FromSpecImpl<std::io::Error> for MqttError {
    open spec fn obeys_from_spec() -> bool {
        true
    }

    open spec fn from_spec(e: std::io::Error) -> MqttError {
        MqttError::Io(e)
    }
}

} // verus!
