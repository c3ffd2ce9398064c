//! The header of messages that the MCU sends over UDP.

use vstd::prelude::*;
use vstd::slice::slice_subrange;
use crate::endian::{le_u16, read_u16_le};
use crate::error::ParseError;

verus! {

/// The board that sent a message.
#[derive(Debug, Clone, Copy, PartialEq, Eq, Structural)]
pub enum BoardId {
    Undefined,
    Soc,
    Mcu,
}

/// The kind of an MCU message.
#[derive(Debug, Clone, Copy, PartialEq, Eq, Structural)]
pub enum MessageType {
    ReqResp,
    MeMessage,
    Event,
    Ack,
    Result,
}

/// The subsystem a message is for.
#[derive(Debug, Clone, Copy, PartialEq, Eq, Structural)]
pub enum MajorCommand {
    Chassis,
    Radar,
}

/// The command within the subsystem.
#[derive(Debug, Clone, Copy, PartialEq, Eq, Structural)]
pub enum SubCommand {
    Chassis,
    Control,
    State,
    CanDebug,
    ChassisDetail,
}

impl BoardId {
    /// The byte that stands for this board on the wire.
    pub open spec fn code(self) -> u8 {
        match self {
            BoardId::Undefined => 1,
            BoardId::Soc => 2,
            BoardId::Mcu => 3,
        }
    }

    /// The board that `value` stands for, if any.
    pub open spec fn from_code(value: u8) -> Option<BoardId> {
        if value == 1 {
            Some(BoardId::Undefined)
        } else if value == 2 {
            Some(BoardId::Soc)
        } else if value == 3 {
            Some(BoardId::Mcu)
        } else {
            None
        }
    }

    /// Decodes a board id byte.
    pub fn try_from(value: u8) -> (r: Result<BoardId, ParseError>)
        ensures
            match BoardId::from_code(value) {
                Some(b) => r == Ok::<BoardId, ParseError>(b),
                None => r == Err::<BoardId, ParseError>(ParseError::InvalidBoardId),
            },
    {
        match value {
            1 => Ok(BoardId::Undefined),
            2 => Ok(BoardId::Soc),
            3 => Ok(BoardId::Mcu),
            _ => Err(ParseError::InvalidBoardId),
        }
    }
}

impl MessageType {
    /// The byte that stands for this message type on the wire.
    pub open spec fn code(self) -> u8 {
        match self {
            MessageType::ReqResp => 1,
            MessageType::MeMessage => 2,
            MessageType::Event => 3,
            MessageType::Ack => 4,
            MessageType::Result => 5,
        }
    }

    /// The message type that `value` stands for, if any.
    pub open spec fn from_code(value: u8) -> Option<MessageType> {
        if value == 1 {
            Some(MessageType::ReqResp)
        } else if value == 2 {
            Some(MessageType::MeMessage)
        } else if value == 3 {
            Some(MessageType::Event)
        } else if value == 4 {
            Some(MessageType::Ack)
        } else if value == 5 {
            Some(MessageType::Result)
        } else {
            None
        }
    }

    /// Decodes a message type byte.
    pub fn try_from(value: u8) -> (r: Result<MessageType, ParseError>)
        ensures
            match MessageType::from_code(value) {
                Some(t) => r == Ok::<MessageType, ParseError>(t),
                None => r == Err::<MessageType, ParseError>(ParseError::InvalidMessageType),
            },
    {
        match value {
            1 => Ok(MessageType::ReqResp),
            2 => Ok(MessageType::MeMessage),
            3 => Ok(MessageType::Event),
            4 => Ok(MessageType::Ack),
            5 => Ok(MessageType::Result),
            _ => Err(ParseError::InvalidMessageType),
        }
    }
}

impl MajorCommand {
    /// The byte that stands for this major command on the wire.
    pub open spec fn code(self) -> u8 {
        match self {
            MajorCommand::Chassis => 0x31,
            MajorCommand::Radar => 0x32,
        }
    }

    /// The major command that `value` stands for, if any.
    pub open spec fn from_code(value: u8) -> Option<MajorCommand> {
        if value == 0x31 {
            Some(MajorCommand::Chassis)
        } else if value == 0x32 {
            Some(MajorCommand::Radar)
        } else {
            None
        }
    }

    /// Decodes a major command byte.
    pub fn try_from(value: u8) -> (r: Result<MajorCommand, ParseError>)
        ensures
            match MajorCommand::from_code(value) {
                Some(c) => r == Ok::<MajorCommand, ParseError>(c),
                None => r == Err::<MajorCommand, ParseError>(ParseError::InvalidMajorCommand),
            },
    {
        match value {
            0x31 => Ok(MajorCommand::Chassis),
            0x32 => Ok(MajorCommand::Radar),
            _ => Err(ParseError::InvalidMajorCommand),
        }
    }
}

impl SubCommand {
    /// The byte that stands for this sub command on the wire.
    pub open spec fn code(self) -> u8 {
        match self {
            SubCommand::Chassis => 1,
            SubCommand::Control => 2,
            SubCommand::State => 3,
            SubCommand::CanDebug => 4,
            SubCommand::ChassisDetail => 5,
        }
    }

    /// The sub command that `value` stands for, if any.
    pub open spec fn from_code(value: u8) -> Option<SubCommand> {
        if value == 1 {
            Some(SubCommand::Chassis)
        } else if value == 2 {
            Some(SubCommand::Control)
        } else if value == 3 {
            Some(SubCommand::State)
        } else if value == 4 {
            Some(SubCommand::CanDebug)
        } else if value == 5 {
            Some(SubCommand::ChassisDetail)
        } else {
            None
        }
    }

    /// Decodes a sub command byte.
    pub fn try_from(value: u8) -> (r: Result<SubCommand, ParseError>)
        ensures
            match SubCommand::from_code(value) {
                Some(c) => r == Ok::<SubCommand, ParseError>(c),
                None => r == Err::<SubCommand, ParseError>(ParseError::InvalidSubCommand),
            },
    {
        match value {
            1 => Ok(SubCommand::Chassis),
            2 => Ok(SubCommand::Control),
            3 => Ok(SubCommand::State),
            4 => Ok(SubCommand::CanDebug),
            5 => Ok(SubCommand::ChassisDetail),
            _ => Err(ParseError::InvalidSubCommand),
        }
    }
}

/// Every code of a board id decodes back to it, and only its code does.
pub proof fn lemma_board_id_code(b: BoardId, value: u8)
    ensures
        BoardId::from_code(b.code()) == Some(b),
        BoardId::from_code(value) == Some(b) ==> b.code() == value,
{
}

/// Every code of a message type decodes back to it, and only its code does.
pub proof fn lemma_message_type_code(t: MessageType, value: u8)
    ensures
        MessageType::from_code(t.code()) == Some(t),
        MessageType::from_code(value) == Some(t) ==> t.code() == value,
{
}

/// Every code of a major command decodes back to it, and only its code does.
pub proof fn lemma_major_command_code(c: MajorCommand, value: u8)
    ensures
        MajorCommand::from_code(c.code()) == Some(c),
        MajorCommand::from_code(value) == Some(c) ==> c.code() == value,
{
}

/// Every code of a sub command decodes back to it, and only its code does.
pub proof fn lemma_sub_command_code(c: SubCommand, value: u8)
    ensures
        SubCommand::from_code(c.code()) == Some(c),
        SubCommand::from_code(value) == Some(c) ==> c.code() == value,
{
}

/// The wire codes of the boards: undefined is 1, SoC 2 and MCU 3; no other byte names a board.
pub proof fn lemma_board_id_wire_codes(value: u8)
    ensures
        (BoardId::from_code(value) == Some(BoardId::Undefined)) <==> value == 1,
        (BoardId::from_code(value) == Some(BoardId::Soc)) <==> value == 2,
        (BoardId::from_code(value) == Some(BoardId::Mcu)) <==> value == 3,
        (BoardId::from_code(value) is None) <==> !(1 <= value <= 3),
{
}

/// The wire codes of the message types: request/response is 1, ME message 2, event 3,
/// acknowledgement 4 and result 5; no other byte names a message type.
pub proof fn lemma_message_type_wire_codes(value: u8)
    ensures
        (MessageType::from_code(value) == Some(MessageType::ReqResp)) <==> value == 1,
        (MessageType::from_code(value) == Some(MessageType::MeMessage)) <==> value == 2,
        (MessageType::from_code(value) == Some(MessageType::Event)) <==> value == 3,
        (MessageType::from_code(value) == Some(MessageType::Ack)) <==> value == 4,
        (MessageType::from_code(value) == Some(MessageType::Result)) <==> value == 5,
        (MessageType::from_code(value) is None) <==> !(1 <= value <= 5),
{
}

/// The wire codes of the major commands: chassis is 0x31 and radar 0x32; no other byte names
/// a major command.
pub proof fn lemma_major_command_wire_codes(value: u8)
    ensures
        (MajorCommand::from_code(value) == Some(MajorCommand::Chassis)) <==> value == 0x31,
        (MajorCommand::from_code(value) == Some(MajorCommand::Radar)) <==> value == 0x32,
        (MajorCommand::from_code(value) is None) <==> !(0x31 <= value <= 0x32),
{
}

/// The wire codes of the sub commands: chassis is 1, control 2, state 3, CAN debug 4 and
/// chassis detail 5; no other byte names a sub command.
pub proof fn lemma_sub_command_wire_codes(value: u8)
    ensures
        (SubCommand::from_code(value) == Some(SubCommand::Chassis)) <==> value == 1,
        (SubCommand::from_code(value) == Some(SubCommand::Control)) <==> value == 2,
        (SubCommand::from_code(value) == Some(SubCommand::State)) <==> value == 3,
        (SubCommand::from_code(value) == Some(SubCommand::CanDebug)) <==> value == 4,
        (SubCommand::from_code(value) == Some(SubCommand::ChassisDetail)) <==> value == 5,
        (SubCommand::from_code(value) is None) <==> !(1 <= value <= 5),
{
}

/// A message from the MCU: an eight-byte header and the payload that follows it.
pub struct McuMessage<'a> {
    pub board_id_: BoardId,
    pub msg_type_: MessageType,
    pub seq_: u8,
    pub version_: u8,
    /// The length field; the payload ends four bytes after it counts.
    pub length_: u16,
    pub sub_cmd_: SubCommand,
    pub major_cmd_: MajorCommand,
    pub payload: &'a [u8],
}

/// The first header check that `v` fails, if any, in the order they are made:
/// length, board id, message type, sub command, major command.
pub open spec fn mcu_header_error(v: Seq<u8>) -> Option<ParseError> {
    if v.len() < 8 {
        Some(ParseError::ShortMcuBuffer)
    } else if BoardId::from_code(v[0]) is None {
        Some(ParseError::InvalidBoardId)
    } else if MessageType::from_code(v[1]) is None {
        Some(ParseError::InvalidMessageType)
    } else if SubCommand::from_code(v[6]) is None {
        Some(ParseError::InvalidSubCommand)
    } else if MajorCommand::from_code(v[7]) is None {
        Some(ParseError::InvalidMajorCommand)
    } else {
        None
    }
}

/// The payload bounds that a valid header announces lie inside the buffer: from byte 8
/// up to four bytes past the length field's value.
pub open spec fn mcu_payload_in_bounds(v: Seq<u8>) -> bool {
    mcu_header_error(v) is None ==> 8 <= le_u16(v.subrange(4, v.len() as int)) + 4 <= v.len()
}

/// Whether the payload bounds of the MCU message in `value` lie inside it.
pub fn mcu_payload_fits(value: &[u8]) -> (r: bool)
    ensures
        r == mcu_payload_in_bounds(value@),
{
    if value.len() < 8 {
        return true;
    }
    if BoardId::try_from(value[0]).is_err() || MessageType::try_from(value[1]).is_err()
        || SubCommand::try_from(value[6]).is_err() || MajorCommand::try_from(value[7]).is_err() {
        return true;
    }
    let length = read_u16_le(slice_subrange(value, 4, value.len()));
    let end = length as usize + 4;
    8 <= end && end <= value.len()
}

/// `m` holds what the MCU message `v` with a valid header says: board in byte 0, message type
/// in byte 1, sequence number in byte 2, version in byte 3, the little-endian length in bytes
/// 4 and 5, sub command in byte 6, major command in byte 7, and the payload from byte 8 up to
/// four bytes past the length.
pub open spec fn mcu_message_holds(m: McuMessage, v: Seq<u8>) -> bool {
    let len = le_u16(v.subrange(4, v.len() as int));
    &&& Some(m.board_id_) == BoardId::from_code(v[0])
    &&& Some(m.msg_type_) == MessageType::from_code(v[1])
    &&& m.seq_ == v[2]
    &&& m.version_ == v[3]
    &&& m.length_ == len
    &&& Some(m.sub_cmd_) == SubCommand::from_code(v[6])
    &&& Some(m.major_cmd_) == MajorCommand::from_code(v[7])
    &&& m.payload@ == v.subrange(8, len + 4 as int)
}

/// The layout of an MCU message: it is refused when shorter than eight bytes, then when byte
/// 0 is not a board, byte 1 not a message type, byte 6 not a sub command or byte 7 not a major
/// command, in that order. A message read from it has its sequence number from byte 2, its
/// version from byte 3, its length from bytes 4 and 5 (least significant first), and its
/// payload from byte 8 up to four bytes past that length.
pub proof fn lemma_mcu_layout(m: McuMessage, v: Seq<u8>)
    ensures
        v.len() < 8 ==> mcu_header_error(v) == Some(ParseError::ShortMcuBuffer),
        v.len() >= 8 ==> {
            &&& BoardId::from_code(v[0]) is None ==> mcu_header_error(v) == Some(
                ParseError::InvalidBoardId,
            )
            &&& BoardId::from_code(v[0]) is Some && MessageType::from_code(v[1]) is None
                ==> mcu_header_error(v) == Some(ParseError::InvalidMessageType)
            &&& BoardId::from_code(v[0]) is Some && MessageType::from_code(v[1]) is Some
                && SubCommand::from_code(v[6]) is None ==> mcu_header_error(v) == Some(
                ParseError::InvalidSubCommand,
            )
            &&& BoardId::from_code(v[0]) is Some && MessageType::from_code(v[1]) is Some
                && SubCommand::from_code(v[6]) is Some && MajorCommand::from_code(v[7]) is None
                ==> mcu_header_error(v) == Some(ParseError::InvalidMajorCommand)
        },
        mcu_message_holds(m, v) && v.len() >= 8 ==> {
            &&& BoardId::from_code(v[0]) == Some(m.board_id_)
            &&& MessageType::from_code(v[1]) == Some(m.msg_type_)
            &&& m.seq_ == v[2]
            &&& m.version_ == v[3]
            &&& m.length_ == v[4] + 256 * v[5]
            &&& SubCommand::from_code(v[6]) == Some(m.sub_cmd_)
            &&& MajorCommand::from_code(v[7]) == Some(m.major_cmd_)
            &&& m.payload@ == v.subrange(8, v[4] + 256 * v[5] + 4)
        },
{
    if v.len() >= 8 {
        let b = v.subrange(4, v.len() as int);
        assert(b[0] == v[4] && b[1] == v[5]);
    }
}

impl<'a> McuMessage<'a> {
    /// Decodes an MCU message.
    pub fn try_from(value: &'a [u8]) -> (r: Result<McuMessage<'a>, ParseError>)
        requires
            mcu_payload_in_bounds(value@),
        ensures
            match mcu_header_error(value@) {
                Some(e) => r matches Err(e2) && e2 == e,
                None => r matches Ok(m) && mcu_message_holds(m, value@),
            },
    {
        if value.len() < 8 {
            return Err(ParseError::ShortMcuBuffer);
        }
        let board = BoardId::try_from(value[0])?;
        let msg_type = MessageType::try_from(value[1])?;
        let seq = value[2];
        let version = value[3];
        let length = read_u16_le(slice_subrange(value, 4, value.len()));
        let sub_cmd = SubCommand::try_from(value[6])?;
        let major_cmd = MajorCommand::try_from(value[7])?;
        let end = length as usize + 4;
        Ok(McuMessage {
            board_id_: board,
            msg_type_: msg_type,
            seq_: seq,
            version_: version,
            length_: length,
            sub_cmd_: sub_cmd,
            major_cmd_: major_cmd,
            payload: slice_subrange(value, 8, end),
        })
    }
}

} // verus!
