//! Telemetry gateway core: stream framing and record decoding, the per-device
//! session state machine, and the priority batching pipeline.
pub mod checksum;
pub mod codec;
pub mod connect;
pub mod decode;
pub mod encode;
pub mod parser;
pub mod pipeline;
pub mod protocol;
pub mod session;
pub mod wire;

pub use checksum::calculate_crc;
pub use connect::retry_delay_ms;
pub use decode::decode_frame;
pub use encode::encode_packet;
pub use parser::{
    LARGEST_AVL_SIZE, MAX_AVL_PACKET_SIZE_FM6XXX, MAX_AVL_RECORD_SIZE_FM6XXX, Parser,
    SMALLEST_AVL_SIZE,
};
pub use pipeline::ProcessingPipeline;
pub use protocol::{
    AVLData, AVLPacket, CODEC_16, CODEC_8, CODEC_8_EXTENDED, Codec12CommandPacket,
    Codec12ResponsePacket, GPSElement, GateError, IOElement, IOElement16, IOElement8,
    IOElement8Extended,
};
pub use session::{ProtocolAction, ProtocolEvent, ProtocolResult, ProtocolState, StateMachine};
