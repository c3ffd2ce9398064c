//! The one error type of the library.

use vstd::prelude::*;

verus! {

/// Why a value, a packet, a trace line or a matrix could not be decoded.
#[derive(Debug, Clone, Copy, PartialEq, Eq, Structural)]
pub enum ParseError {
    /// A cell or field that should hold text holds none.
    MissingValue,
    /// Text that should be a number is not one, or the number does not fit its type.
    InvalidNumber,
    /// The board id byte is not a known board.
    InvalidBoardId,
    /// The message type byte is not a known message type.
    InvalidMessageType,
    /// The major command byte is not a known major command.
    InvalidMajorCommand,
    /// The sub command byte is not a known sub command.
    InvalidSubCommand,
    /// The radar type byte is not a known radar position.
    InvalidRadarType,
    /// An MCU message shorter than its eight-byte header.
    ShortMcuBuffer,
    /// A radar packet shorter than its seven-byte header.
    InvalidPacketHeader,
    /// A radar packet shorter than the CAN data length it announces.
    InvalidPacketBuffer,
    /// A payload without its project and packet-count bytes.
    EmptyPayload,
    /// A trace line with too few fields.
    InvalidFormat,
    /// A trace line with fewer data bytes than its length field announces.
    InvalidFrameBuffer,
    /// A matrix row with too few columns.
    InvalidData,
    /// No matrix message has the CAN id of the packet.
    UnknownMessage,
    /// Bytes that are neither UTF-8 nor GBK text.
    InvalidEncoding,
    /// A captured frame that is not an IPv4 packet carrying UDP.
    InvalidUdpPacket,
}

} // verus!
