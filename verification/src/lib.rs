pub mod buffers;
pub mod error;
pub mod packet;
pub mod text;
pub mod utils;
pub mod wire;
pub mod codec;
pub mod laws;

pub use codec::MqttCodec;
pub use error::MqttError;
pub use packet::{MqttPacket, ProtocolLevel, Property};
