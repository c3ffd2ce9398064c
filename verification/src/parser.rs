//! The radar payload of an MCU message: a project byte, a packet count, and that many
//! packets, each carrying one CAN frame from one radar.

use vstd::prelude::*;
use vstd::slice::{slice_subrange, slice_to_vec};
use crate::endian::{le_u16, le_u32, read_u16_le, read_u32_le};
use crate::error::ParseError;
use crate::matrix::{find_message, first_message_with_id, raw_signal_values, raw_value, signals_fit, Message};

verus! {

/// The radar a packet comes from.
#[derive(Debug, Clone, Copy, PartialEq, Eq, Structural)]
pub enum RadarType {
    Left,
    Front,
    Right,
    Rear,
    LeftFront,
    RightFront,
    LeftRear,
    RightRear,
    USS,
}

impl RadarType {
    /// The byte that stands for this radar on the wire.
    pub open spec fn code(self) -> u8 {
        match self {
            RadarType::Left => 1,
            RadarType::Front => 2,
            RadarType::Right => 3,
            RadarType::Rear => 4,
            RadarType::LeftFront => 5,
            RadarType::RightFront => 6,
            RadarType::LeftRear => 7,
            RadarType::RightRear => 8,
            RadarType::USS => 9,
        }
    }

    /// The radar that `value` stands for, if any.
    pub open spec fn from_code(value: u8) -> Option<RadarType> {
        if value == 1 {
            Some(RadarType::Left)
        } else if value == 2 {
            Some(RadarType::Front)
        } else if value == 3 {
            Some(RadarType::Right)
        } else if value == 4 {
            Some(RadarType::Rear)
        } else if value == 5 {
            Some(RadarType::LeftFront)
        } else if value == 6 {
            Some(RadarType::RightFront)
        } else if value == 7 {
            Some(RadarType::LeftRear)
        } else if value == 8 {
            Some(RadarType::RightRear)
        } else if value == 9 {
            Some(RadarType::USS)
        } else {
            None
        }
    }

    /// Decodes a radar type byte.
    pub fn try_from(value: u8) -> (r: Result<RadarType, ParseError>)
        ensures
            match RadarType::from_code(value) {
                Some(t) => r == Ok::<RadarType, ParseError>(t),
                None => r == Err::<RadarType, ParseError>(ParseError::InvalidRadarType),
            },
    {
        match value {
            1 => Ok(RadarType::Left),
            2 => Ok(RadarType::Front),
            3 => Ok(RadarType::Right),
            4 => Ok(RadarType::Rear),
            5 => Ok(RadarType::LeftFront),
            6 => Ok(RadarType::RightFront),
            7 => Ok(RadarType::LeftRear),
            8 => Ok(RadarType::RightRear),
            9 => Ok(RadarType::USS),
            _ => Err(ParseError::InvalidRadarType),
        }
    }
}

/// Every code of a radar type decodes back to it, and only its code does.
pub proof fn lemma_radar_type_code(t: RadarType, value: u8)
    ensures
        RadarType::from_code(t.code()) == Some(t),
        RadarType::from_code(value) == Some(t) ==> t.code() == value,
{
}

/// The wire codes of the radars: left is 1, front 2, right 3, rear 4, left-front 5,
/// right-front 6, left-rear 7, right-rear 8 and the ultrasonic sensors 9; no other byte names
/// a radar.
pub proof fn lemma_radar_type_wire_codes(value: u8)
    ensures
        (RadarType::from_code(value) == Some(RadarType::Left)) <==> value == 1,
        (RadarType::from_code(value) == Some(RadarType::Front)) <==> value == 2,
        (RadarType::from_code(value) == Some(RadarType::Right)) <==> value == 3,
        (RadarType::from_code(value) == Some(RadarType::Rear)) <==> value == 4,
        (RadarType::from_code(value) == Some(RadarType::LeftFront)) <==> value == 5,
        (RadarType::from_code(value) == Some(RadarType::RightFront)) <==> value == 6,
        (RadarType::from_code(value) == Some(RadarType::LeftRear)) <==> value == 7,
        (RadarType::from_code(value) == Some(RadarType::RightRear)) <==> value == 8,
        (RadarType::from_code(value) == Some(RadarType::USS)) <==> value == 9,
        (RadarType::from_code(value) is None) <==> !(1 <= value <= 9),
{
}

/// One CAN frame from one radar, with the raw values of its signals once they are decoded.
#[derive(Debug)]
pub struct Packet<'a> {
    pub type_: RadarType,
    pub can_id_: u32,
    pub can_buf_: Vec<u8>,
    /// The raw value of each signal of the matching matrix message, in matrix order.
    pub raw_signals: Vec<u64>,
    /// The matrix message whose id is the CAN id, once decoded.
    pub meta_data: Option<&'a Message>,
}

/// What a packet header and its CAN data say: the radar, the CAN id, the CAN data and
/// its announced length.
pub struct PacketFields {
    pub radar: RadarType,
    pub can_id: u32,
    pub can_data: Seq<u8>,
    pub can_len: nat,
}

/// The packet at the start of `buf`: byte 0 is the radar, bytes 1 to 4 the CAN id and
/// bytes 5 and 6 the CAN data length, all little-endian; the CAN data follows.
pub open spec fn packet_fields(buf: Seq<u8>) -> Result<PacketFields, ParseError> {
    if buf.len() < 7 {
        Err(ParseError::InvalidPacketHeader)
    } else if RadarType::from_code(buf[0]) is None {
        Err(ParseError::InvalidRadarType)
    } else {
        let can_len = le_u16(buf.subrange(5, buf.len() as int));
        if buf.len() < can_len + 7 {
            Err(ParseError::InvalidPacketBuffer)
        } else {
            Ok(
                PacketFields {
                    radar: RadarType::from_code(buf[0]).unwrap(),
                    can_id: le_u32(buf.subrange(1, buf.len() as int)) as u32,
                    can_data: buf.subrange(7, can_len + 7 as int),
                    can_len,
                },
            )
        }
    }
}

/// The layout of a packet: a packet is refused when it is shorter than its seven-byte header,
/// when byte 0 is not a radar code, or when it is shorter than the data length it announces;
/// otherwise the radar comes from byte 0, the CAN id from bytes 1 to 4 and the data length
/// from bytes 5 and 6 (least significant byte first), and the data is that many bytes from
/// byte 7 on.
pub proof fn lemma_packet_layout(buf: Seq<u8>)
    ensures
        buf.len() < 7 ==> packet_fields(buf) == Err::<PacketFields, ParseError>(
            ParseError::InvalidPacketHeader,
        ),
        buf.len() >= 7 && RadarType::from_code(buf[0]) is None ==> packet_fields(buf) == Err::<
            PacketFields,
            ParseError,
        >(ParseError::InvalidRadarType),
        buf.len() >= 7 && RadarType::from_code(buf[0]) is Some && buf.len() < buf[5] + 256
            * buf[6] + 7 ==> packet_fields(buf) == Err::<PacketFields, ParseError>(
            ParseError::InvalidPacketBuffer,
        ),
        packet_fields(buf) matches Ok(f) ==> {
            &&& buf.len() >= 7
            &&& RadarType::from_code(buf[0]) == Some(f.radar)
            &&& f.can_id == buf[1] + 256 * buf[2] + 65536 * buf[3] + 16777216 * buf[4]
            &&& f.can_len == buf[5] + 256 * buf[6]
            &&& f.can_len + 7 <= buf.len()
            &&& f.can_data == buf.subrange(7, 7 + f.can_len as int)
        },
{
    if buf.len() >= 7 {
        let a = buf.subrange(1, buf.len() as int);
        let b = buf.subrange(5, buf.len() as int);
        assert(a[0] == buf[1] && a[1] == buf[2] && a[2] == buf[3] && a[3] == buf[4]);
        assert(b[0] == buf[5] && b[1] == buf[6]);
    }
}

/// `p` holds the fields `f` and has not been decoded yet.
pub open spec fn packet_holds(p: Packet, f: PacketFields) -> bool {
    &&& p.type_ == f.radar
    &&& p.can_id_ == f.can_id
    &&& p.can_buf_@ == f.can_data
    &&& p.raw_signals@.len() == 0
    &&& p.meta_data is None
}

impl<'a> Packet<'a> {
    /// Reads the packet at the start of `buf`; also gives the CAN data length.
    pub fn try_from(buf: &[u8]) -> (r: Result<(Packet<'a>, usize), ParseError>)
        ensures
            match packet_fields(buf@) {
                Ok(f) => r matches Ok((p, n)) && packet_holds(p, f) && n == f.can_len,
                Err(e) => r matches Err(e2) && e2 == e,
            },
    {
        if buf.len() < 7 {
            return Err(ParseError::InvalidPacketHeader);
        }
        let t = RadarType::try_from(buf[0])?;
        let msg_id = read_u32_le(slice_subrange(buf, 1, buf.len()));
        let can_len = read_u16_le(slice_subrange(buf, 5, buf.len()));
        let size = can_len as usize + 7;
        if buf.len() < size {
            return Err(ParseError::InvalidPacketBuffer);
        }
        let can_buf = slice_to_vec(slice_subrange(buf, 7, size));
        Ok((Packet { type_: t, can_id_: msg_id, can_buf_: can_buf, raw_signals: Vec::new(), meta_data: None }, can_len as usize))
    }

    /// Decodes the signals of the packet with the first matrix message whose id is the
    /// CAN id: records that message and appends the raw value of each of its signals.
    /// When no message has the id, the packet is left as it is and the result is an error.
    pub fn update_signals(&mut self, meta_data_s: &'a Vec<Message>) -> (r: Result<(), ParseError>)
        requires
            first_message_with_id(meta_data_s@, old(self).can_id_ as u64) matches Some(i) ==> signals_fit(
                meta_data_s@[i].signals@,
                old(self).can_buf_@.len() as int,
            ),
        ensures
            match first_message_with_id(meta_data_s@, old(self).can_id_ as u64) {
                None => r == Err::<(), ParseError>(ParseError::UnknownMessage) && *final(self) == *old(self),
                Some(i) => {
                    let m = meta_data_s@[i];
                    &&& r is Ok
                    &&& final(self).meta_data == Some(&meta_data_s@[i])
                    &&& final(self).type_ == old(self).type_
                    &&& final(self).can_id_ == old(self).can_id_
                    &&& final(self).can_buf_@ == old(self).can_buf_@
                    &&& final(self).raw_signals@.len() == old(self).raw_signals@.len() + m.signals@.len()
                    &&& final(self).raw_signals@.take(old(self).raw_signals@.len() as int) == old(self).raw_signals@
                    &&& forall|k: int|
                        0 <= k < m.signals@.len() ==> #[trigger] final(self).raw_signals@[old(self).raw_signals@.len() + k]
                            == raw_value(old(self).can_buf_@, m.signals@[k])
                },
            },
    {
        match find_message(meta_data_s, self.can_id_ as u64) {
            Some(i) => {
                let m = &meta_data_s[i];
                let values = raw_signal_values(self.can_buf_.as_slice(), &m.signals);
                let ghost before = self.raw_signals@;
                let ghost start = *self;
                let mut k: usize = 0;
                while k < values.len()
                    invariant
                        k <= values@.len(),
                        self.type_ == start.type_,
                        self.can_id_ == start.can_id_,
                        self.can_buf_@ == start.can_buf_@,
                        self.raw_signals@ == before + values@.take(k as int),
                    decreases values@.len() - k,
                {
                    self.raw_signals.push(values[k]);
                    assert(values@.take(k + 1) =~= values@.take(k as int).push(values@[k as int]));
                    k = k + 1;
                }
                assert(values@.take(k as int) =~= values@);
                assert(self.raw_signals@.take(before.len() as int) =~= before);
                self.meta_data = Some(m);
                Ok(())
            },
            None => Err(ParseError::UnknownMessage),
        }
    }
}


/// Where the next packet of a payload starts, after a packet at `offset` with `can_len`
/// bytes of CAN data: frames of up to 8 bytes take 23 bytes and frames of up to 64 bytes
/// take 79; after a longer one the position does not move.
pub open spec fn next_packet_offset(offset: int, can_len: nat) -> int {
    if can_len <= 8 {
        offset + 23
    } else if can_len <= 64 {
        offset + 79
    } else {
        offset
    }
}

/// The `count` packets of `value` from position `offset` on, or the first error; `None`
/// where reading would start past the end of `value` or the position would leave the
/// range of `usize`.
pub open spec fn payload_packets(value: Seq<u8>, offset: int, count: nat) -> Option<
    Result<Seq<PacketFields>, ParseError>,
>
    decreases count,
{
    if count == 0 {
        Some(Ok(seq![]))
    } else if offset < 0 || offset > value.len() {
        None
    } else {
        match packet_fields(value.subrange(offset, value.len() as int)) {
            Err(e) => Some(Err(e)),
            Ok(f) => {
                let next = next_packet_offset(offset, f.can_len);
                if next > usize::MAX {
                    None
                } else {
                    prepend_packets(seq![f], payload_packets(value, next, (count - 1) as nat))
                }
            },
        }
    }
}

/// `fs` followed by the packets of `rest`, when `rest` holds packets.
pub open spec fn prepend_packets(
    fs: Seq<PacketFields>,
    rest: Option<Result<Seq<PacketFields>, ParseError>>,
) -> Option<Result<Seq<PacketFields>, ParseError>> {
    match rest {
        Some(Ok(ps)) => Some(Ok(fs + ps)),
        other => other,
    }
}

/// Where the packets of a payload are read: after a packet with at most 8 data bytes the
/// next one starts 23 bytes further on (its slot), after one with 9 to 64 data bytes 79 bytes
/// further on, and after a longer one at the same place.
pub proof fn lemma_payload_slots(value: Seq<u8>, offset: int, count: nat)
    requires
        count >= 1,
        0 <= offset <= value.len(),
        packet_fields(value.subrange(offset, value.len() as int)) is Ok,
    ensures
        ({
            let f = packet_fields(value.subrange(offset, value.len() as int))->Ok_0;
            let next = if f.can_len <= 8 {
                offset + 23
            } else if 9 <= f.can_len <= 64 {
                offset + 79
            } else {
                offset
            };
            &&& next > usize::MAX ==> payload_packets(value, offset, count) is None
            &&& next <= usize::MAX ==> payload_packets(value, offset, count) == prepend_packets(
                seq![f],
                payload_packets(value, next, (count - 1) as nat),
            )
        }),
{
}

/// A payload that is read at all holds exactly as many packets as its count says.
pub proof fn lemma_payload_packet_count(value: Seq<u8>, offset: int, count: nat)
    ensures
        payload_packets(value, offset, count) matches Some(Ok(fs)) ==> fs.len() == count,
    decreases count,
{
    if count > 0 && 0 <= offset <= value.len() {
        if let Ok(f) = packet_fields(value.subrange(offset, value.len() as int)) {
            lemma_payload_packet_count(value, next_packet_offset(offset, f.can_len), (count - 1) as nat);
        }
    }
}

/// A radar payload: the project byte and its packets.
#[derive(Debug)]
pub struct Payload<'a> {
    pub project_: u8,
    pub frames_: Vec<Packet<'a>>,
    pub time_stamp_: u64,
}

/// Reading every packet of the payload `value` stays inside it.
pub open spec fn payload_in_bounds(value: Seq<u8>) -> bool {
    value.len() >= 2 ==> payload_packets(value, 2, value[1] as nat) is Some
}

/// Whether reading every packet of the payload `value` stays inside it.
pub fn payload_fits(value: &[u8]) -> (r: bool)
    ensures
        r == payload_in_bounds(value@),
{
    if value.len() < 2 {
        return true;
    }
    let count = value[1];
    let mut offset: usize = 2;
    let mut i: u8 = 0;
    while i < count
        invariant
            2 <= value@.len(),
            count == value@[1],
            i <= count,
            payload_in_bounds(value@) == (payload_packets(value@, offset as int, (count - i) as nat) is Some),
        decreases count - i,
    {
        if offset > value.len() {
            return false;
        }
        match Packet::try_from(slice_subrange(value, offset, value.len())) {
            Err(_) => {
                return true;
            },
            Ok((_, size)) => {
                let ghost f = packet_fields(value@.subrange(offset as int, value@.len() as int))->Ok_0;
                let ghost rest = payload_packets(value@, next_packet_offset(offset as int, f.can_len), (count - i - 1) as nat);
                assert((prepend_packets(seq![f], rest) is Some) == (rest is Some));
                if size <= 8 {
                    if offset > usize::MAX - 23 {
                        return false;
                    }
                    offset = offset + 23;
                } else if size <= 64 {
                    if offset > usize::MAX - 79 {
                        return false;
                    }
                    offset = offset + 79;
                }
            },
        }
        i = i + 1;
    }
    true
}

impl<'a> Payload<'a> {
    /// Reads a payload: byte 0 is the project, byte 1 the number of packets, and the
    /// packets follow from byte 2 on.
    pub fn try_from(value: &[u8]) -> (r: Result<Payload<'a>, ParseError>)
        requires
            payload_in_bounds(value@),
        ensures
            value@.len() < 2 ==> (r matches Err(e) && e == ParseError::EmptyPayload),
            value@.len() >= 2 ==> match payload_packets(value@, 2, value@[1] as nat) {
                Some(Ok(fs)) => r matches Ok(p) && {
                    &&& p.project_ == value@[0]
                    &&& p.time_stamp_ == 0
                    &&& p.frames_@.len() == fs.len()
                    &&& forall|k: int| 0 <= k < fs.len() ==> packet_holds(#[trigger] p.frames_@[k], fs[k])
                },
                Some(Err(e)) => r matches Err(e2) && e2 == e,
                None => false,
            },
    {
        if value.len() < 2 {
            return Err(ParseError::EmptyPayload);
        }
        let mut v: Vec<Packet<'a>> = Vec::new();
        let count = value[1];
        let mut offset: usize = 2;
        let ghost mut done: Seq<PacketFields> = seq![];
        let mut i: u8 = 0;
        assert(done + Seq::<PacketFields>::empty() =~= done);
        while i < count
            invariant
                2 <= value@.len(),
                count == value@[1],
                i <= count,
                v@.len() == done.len(),
                forall|k: int| 0 <= k < done.len() ==> packet_holds(#[trigger] v@[k], done[k]),
                payload_packets(value@, 2, count as nat) == prepend_packets(
                    done,
                    payload_packets(value@, offset as int, (count - i) as nat),
                ),
                payload_packets(value@, 2, count as nat) is Some,
            decreases count - i,
        {
            let ghost c = (count - i) as nat;
            assert(offset <= value@.len());
            let (packet, size) = Packet::try_from(slice_subrange(value, offset, value.len()))?;
            let ghost f = packet_fields(value@.subrange(offset as int, value@.len() as int))->Ok_0;
            let ghost next = next_packet_offset(offset as int, f.can_len);
            let ghost rest = payload_packets(value@, next, (c - 1) as nat);
            assert(prepend_packets(done, prepend_packets(seq![f], rest)) == prepend_packets(
                done.push(f),
                rest,
            )) by {
                match rest {
                    Some(Ok(ps)) => {
                        assert(done + (seq![f] + ps) =~= done.push(f) + ps);
                    },
                    _ => {},
                }
            }
            if size <= 8 {
                offset = offset + 23;
            } else if size <= 64 {
                offset = offset + 79;
            }
            v.push(packet);
            proof {
                done = done.push(f);
            }
            i = i + 1;
        }
        Ok(Payload { project_: value[0], frames_: v, time_stamp_: 0 })
    }
}

} // verus!
