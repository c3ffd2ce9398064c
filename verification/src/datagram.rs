//! Radar datagrams: which UDP datagrams carry radar data, and decoding them down to the raw
//! signal values of every CAN frame.

use vstd::prelude::*;
use vstd::slice::{slice_subrange, slice_to_vec};
use crate::endian::{be_u16, le_u16, read_u16_be};
use crate::error::ParseError;
use crate::matrix::{find_message, first_message_with_id, raw_value, signals_fit, signals_fit_len, Message};
use crate::msg::{mcu_header_error, mcu_payload_fits, mcu_payload_in_bounds, MajorCommand, McuMessage};
use crate::parser::{packet_holds, payload_fits, payload_in_bounds, payload_packets, Packet, PacketFields, Payload};
use pdu::{Ethernet, EthernetPdu, Ipv4};

verus! {

/// The UDP source port of radar datagrams.
pub const RADAR_SRC_PORT: u16 = 30003;

/// The UDP destination port of radar datagrams.
pub const RADAR_DST_PORT: u16 = 30500;

/// The ports and payload of a UDP datagram.
#[derive(Debug)]
pub struct UdpDatagram {
    pub src_port: u16,
    pub dst_port: u16,
    pub buf: Vec<u8>,
}

/// `d` holds what the UDP datagram `udp` says: the source port in bytes 0 and 1, the
/// destination port in bytes 2 and 3 (both big-endian), and the payload from byte 8 on.
pub open spec fn udp_datagram_holds(d: UdpDatagram, udp: Seq<u8>) -> bool {
    &&& d.src_port == be_u16(udp)
    &&& d.dst_port == be_u16(udp.subrange(2, udp.len() as int))
    &&& d.buf@ == udp.subrange(8, udp.len() as int)
}

/// The layout of a UDP datagram: the source port is bytes 0 and 1 and the destination port
/// bytes 2 and 3, most significant byte first; bytes 4 to 7 (length and checksum) are
/// skipped and the payload is everything from byte 8 on.
pub proof fn lemma_udp_layout(d: UdpDatagram, udp: Seq<u8>)
    requires
        udp.len() >= 8,
        udp_datagram_holds(d, udp),
    ensures
        d.src_port == 256 * udp[0] + udp[1],
        d.dst_port == 256 * udp[2] + udp[3],
        d.buf@.len() == udp.len() - 8,
        forall|k: int| 0 <= k < d.buf@.len() ==> #[trigger] d.buf@[k] == udp[8 + k],
{
    let b = udp.subrange(2, udp.len() as int);
    assert(b[0] == udp[2] && b[1] == udp[3]);
}

/// Radar data comes from UDP port 30003 to UDP port 30500, in MCU messages with a valid
/// header whose major command byte (byte 7) is 0x32.
pub proof fn lemma_radar_traffic(buf: Seq<u8>)
    ensures
        RADAR_SRC_PORT == 30003,
        RADAR_DST_PORT == 30500,
        is_radar_message(buf) <==> (mcu_header_error(buf) is None && buf[7] == 0x32),
{
}

/// Splits a UDP datagram into its ports (bytes 0 and 1, and 2 and 3, big-endian) and its
/// payload (from byte 8 on, after the length and checksum).
pub fn udp_datagram(udp: &[u8]) -> (r: UdpDatagram)
    requires
        udp@.len() >= 8,
    ensures
        udp_datagram_holds(r, udp@),
{
    let src_port = read_u16_be(udp);
    let dst_port = read_u16_be(slice_subrange(udp, 2, udp.len()));
    let buf = slice_to_vec(slice_subrange(udp, 8, udp.len()));
    UdpDatagram { src_port, dst_port, buf }
}

/// What `pdu` finds in an Ethernet frame: for an IPv4 packet that carries UDP, its source
/// address, its destination address and the UDP datagram, header included; `None` for any
/// other frame.
pub uninterp spec fn ethernet_udp(frame: Seq<u8>) -> Option<(Seq<u8>, Seq<u8>, Seq<u8>)>;

/// The layers of a frame down to UDP, as `pdu` reads them: `EthernetPdu::new`,
/// `EthernetPdu::inner`, `Ipv4Pdu::inner`, the IPv4 addresses and `UdpPdu::into_buffer`.
/// Which frames `pdu` accepts and where their layers start is not stated: the result is the
/// name above. The one fact stated comes from `UdpPdu::new`, which refuses a buffer shorter
/// than the eight-byte UDP header.
#[verifier::external_body]
fn udp_of_frame(frame: &[u8]) -> (r: Option<([u8; 4], [u8; 4], Vec<u8>)>)
    ensures
        match r {
            None => ethernet_udp(frame@) is None,
            Some((s, d, u)) => ethernet_udp(frame@) == Some((s@, d@, u@)) && u@.len() >= 8,
        },
{
    let eth = EthernetPdu::new(frame).ok()?;
    match eth.inner().ok()? {
        Ethernet::Ipv4(ip) => match ip.inner().ok()? {
            Ipv4::Udp(udp) => Some((ip.source_address(), ip.destination_address(), udp.into_buffer().to_vec())),
            _ => None,
        },
        _ => None,
    }
}

/// A UDP datagram found in a captured Ethernet frame, with the IPv4 addresses of its packet.
#[derive(Debug)]
pub struct CapturedDatagram {
    pub src_address: [u8; 4],
    pub dst_address: [u8; 4],
    pub datagram: UdpDatagram,
}

/// Finds the UDP datagram in a captured Ethernet frame; a frame that is not an IPv4 packet
/// carrying UDP gives `InvalidUdpPacket`.
pub fn captured_datagram(frame: &[u8]) -> (r: Result<CapturedDatagram, ParseError>)
    ensures
        match ethernet_udp(frame@) {
            None => r == Err::<CapturedDatagram, ParseError>(ParseError::InvalidUdpPacket),
            Some((s, d, u)) => r matches Ok(c) && {
                &&& c.src_address@ == s
                &&& c.dst_address@ == d
                &&& u.len() >= 8
                &&& udp_datagram_holds(c.datagram, u)
            },
        },
{
    match udp_of_frame(frame) {
        None => Err(ParseError::InvalidUdpPacket),
        Some((src_address, dst_address, udp)) => {
            let datagram = udp_datagram(udp.as_slice());
            Ok(CapturedDatagram { src_address, dst_address, datagram })
        },
    }
}

/// The first packet of `fs` whose CAN id no matrix message has, stops decoding.
pub open spec fn packets_error(fs: Seq<PacketFields>, meta: Seq<Message>) -> Option<ParseError>
    decreases fs.len(),
{
    if fs.len() == 0 {
        None
    } else if first_message_with_id(meta, fs[0].can_id as u64) is None {
        Some(ParseError::UnknownMessage)
    } else {
        packets_error(fs.drop_first(), meta)
    }
}

/// Decoding the packets `fs` in order stays in bounds: up to the first packet without a
/// matrix message, the signals of each packet's message fit its CAN data.
pub open spec fn packets_decodable(fs: Seq<PacketFields>, meta: Seq<Message>) -> bool
    decreases fs.len(),
{
    fs.len() == 0 || match first_message_with_id(meta, fs[0].can_id as u64) {
        None => true,
        Some(i) => signals_fit(meta[i].signals@, fs[0].can_data.len() as int) && packets_decodable(
            fs.drop_first(),
            meta,
        ),
    }
}

/// `p` is the packet `f` decoded with the first matrix message that has its CAN id.
pub open spec fn packet_decoded(p: Packet, f: PacketFields, meta: Seq<Message>) -> bool {
    &&& p.type_ == f.radar
    &&& p.can_id_ == f.can_id
    &&& p.can_buf_@ == f.can_data
    &&& first_message_with_id(meta, f.can_id as u64) matches Some(i) && {
        &&& p.meta_data == Some(&meta[i])
        &&& p.raw_signals@.len() == meta[i].signals@.len()
        &&& forall|k: int|
            0 <= k < p.raw_signals@.len() ==> #[trigger] p.raw_signals@[k] == raw_value(
                f.can_data,
                meta[i].signals@[k],
            )
    }
}

/// The payload bytes of the MCU message in `buf`.
pub open spec fn mcu_payload(buf: Seq<u8>) -> Seq<u8> {
    buf.subrange(8, le_u16(buf.subrange(4, buf.len() as int)) + 4 as int)
}

/// The MCU message in `buf` has a valid header and is radar data.
pub open spec fn is_radar_message(buf: Seq<u8>) -> bool {
    mcu_header_error(buf) is None && MajorCommand::from_code(buf[7]) == Some(MajorCommand::Radar)
}

/// Decoding the datagram stays in bounds: the MCU payload lies in the datagram, reading the
/// radar payload stays inside it, and the signals of every packet decoded fit its data.
pub open spec fn datagram_decodable(src_port: u16, dst_port: u16, buf: Seq<u8>, meta: Seq<Message>) -> bool {
    (src_port == RADAR_SRC_PORT && dst_port == RADAR_DST_PORT) ==> {
        &&& mcu_payload_in_bounds(buf)
        &&& is_radar_message(buf) ==> {
            let pl = mcu_payload(buf);
            &&& payload_in_bounds(pl)
            &&& pl.len() >= 2 ==> (payload_packets(pl, 2, pl[1] as nat) matches Some(Ok(fs))
                ==> packets_decodable(fs, meta))
        }
    }
}

/// Whether decoding the packets `ps`, which hold `fs`, stays in bounds.
fn packets_fit(ps: &Vec<Packet>, meta: &Vec<Message>, Ghost(fs): Ghost<Seq<PacketFields>>) -> (r: bool)
    requires
        ps@.len() == fs.len(),
        forall|k: int| 0 <= k < fs.len() ==> packet_holds(#[trigger] ps@[k], fs[k]),
    ensures
        r == packets_decodable(fs, meta@),
{
    let mut k: usize = 0;
    assert(fs.skip(0) =~= fs);
    while k < ps.len()
        invariant
            k <= ps@.len(),
            ps@.len() == fs.len(),
            forall|j: int| 0 <= j < fs.len() ==> packet_holds(#[trigger] ps@[j], fs[j]),
            packets_decodable(fs, meta@) == packets_decodable(fs.skip(k as int), meta@),
        decreases ps@.len() - k,
    {
        let ghost rest = fs.skip(k as int);
        assert(rest.drop_first() =~= fs.skip(k + 1));
        assert(rest[0] == fs[k as int]);
        assert(packet_holds(ps@[k as int], fs[k as int]));
        match find_message(meta, ps[k].can_id_ as u64) {
            None => {
                return true;
            },
            Some(i) => {
                if !signals_fit_len(&meta[i].signals, ps[k].can_buf_.len()) {
                    return false;
                }
            },
        }
        k = k + 1;
    }
    true
}

/// Whether decoding the datagram stays in bounds.
pub fn datagram_in_bounds(src_port: u16, dst_port: u16, buf: &[u8], meta_data_s: &Vec<Message>) -> (r: bool)
    ensures
        r == datagram_decodable(src_port, dst_port, buf@, meta_data_s@),
{
    if src_port != RADAR_SRC_PORT || dst_port != RADAR_DST_PORT {
        return true;
    }
    if !mcu_payload_fits(buf) {
        return false;
    }
    match McuMessage::try_from(buf) {
        Err(_) => true,
        Ok(m) => {
            if m.major_cmd_ != MajorCommand::Radar {
                return true;
            }
            let pl = m.payload;
            assert(pl@ == mcu_payload(buf@));
            if !payload_fits(pl) {
                return false;
            }
            match Payload::try_from(pl) {
                Err(_) => true,
                Ok(p) => {
                    let ghost fs = payload_packets(pl@, 2, pl@[1] as nat)->Some_0->Ok_0;
                    packets_fit(&p.frames_, meta_data_s, Ghost(fs))
                },
            }
        },
    }
}

/// Decodes one UDP datagram. Datagrams that are not from the radar port to the radar port,
/// and MCU messages that are not radar data, are skipped (`None`). Otherwise the payload is
/// read and every packet is decoded with the first matrix message that has its CAN id;
/// the first error stops decoding.
#[verifier::loop_isolation(false)]
pub fn decode_datagram<'a>(src_port: u16, dst_port: u16, buf: &[u8], meta_data_s: &'a Vec<Message>) -> (r: Result<Option<Payload<'a>>, ParseError>)
    requires
        datagram_decodable(src_port, dst_port, buf@, meta_data_s@),
    ensures
        !(src_port == RADAR_SRC_PORT && dst_port == RADAR_DST_PORT) ==> (r matches Ok(None)),
        (src_port == RADAR_SRC_PORT && dst_port == RADAR_DST_PORT) ==> match mcu_header_error(buf@) {
            Some(e) => r matches Err(e2) && e2 == e,
            None => if !is_radar_message(buf@) {
                r matches Ok(None)
            } else {
                let pl = mcu_payload(buf@);
                if pl.len() < 2 {
                    r matches Err(e) && e == ParseError::EmptyPayload
                } else {
                    match payload_packets(pl, 2, pl[1] as nat) {
                        Some(Err(e)) => r matches Err(e2) && e2 == e,
                        Some(Ok(fs)) => match packets_error(fs, meta_data_s@) {
                            Some(e) => r matches Err(e2) && e2 == e,
                            None => r matches Ok(Some(p)) && {
                                &&& p.project_ == pl[0]
                                &&& p.time_stamp_ == 0
                                &&& p.frames_@.len() == fs.len()
                                &&& forall|k: int|
                                    0 <= k < fs.len() ==> packet_decoded(
                                        #[trigger] p.frames_@[k],
                                        fs[k],
                                        meta_data_s@,
                                    )
                            },
                        },
                        None => false,
                    }
                }
            },
        },
{
    if src_port != RADAR_SRC_PORT || dst_port != RADAR_DST_PORT {
        return Ok(None);
    }
    let mcu_message = McuMessage::try_from(buf)?;
    if mcu_message.major_cmd_ != MajorCommand::Radar {
        return Ok(None);
    }
    let payload = Payload::try_from(mcu_message.payload)?;
    let ghost pl = mcu_payload(buf@);
    assert(mcu_message.payload@ == pl);
    let ghost fs = payload_packets(pl, 2, pl[1] as nat)->Some_0->Ok_0;
    let project = payload.project_;
    let mut frames = payload.frames_;
    let mut decoded: Vec<Packet<'a>> = Vec::new();
    let mut k: usize = 0;
    let total = frames.len();
    assert(fs.skip(0) =~= fs);
    while frames.len() > 0
        invariant
            k + frames@.len() == total,
            total == fs.len(),
            forall|j: int| 0 <= j < frames@.len() ==> packet_holds(#[trigger] frames@[j], fs[k + j]),
            packets_decodable(fs.skip(k as int), meta_data_s@),
            packets_error(fs, meta_data_s@) == packets_error(fs.skip(k as int), meta_data_s@),
            decoded@.len() == k,
            forall|j: int| 0 <= j < k ==> packet_decoded(#[trigger] decoded@[j], fs[j], meta_data_s@),
        decreases frames@.len(),
    {
        let ghost rest = fs.skip(k as int);
        assert(rest.drop_first() =~= fs.skip(k + 1));
        assert(rest[0] == fs[k as int]);
        assert(packet_holds(frames@[0], fs[k as int]));
        let ghost before = frames@;
        let mut frame = frames.remove(0);
        assert forall|j: int| 0 <= j < frames@.len() implies packet_holds(#[trigger] frames@[j], fs[(k + 1) + j]) by {
            assert(frames@[j] == before[j + 1]);
        }
        let ghost f0 = frame;
        frame.update_signals(meta_data_s)?;
        proof {
            let i = first_message_with_id(meta_data_s@, f0.can_id_ as u64)->Some_0;
            assert forall|j: int| 0 <= j < frame.raw_signals@.len() implies #[trigger] frame.raw_signals@[j]
                == raw_value(fs[k as int].can_data, meta_data_s@[i].signals@[j]) by {
                assert(frame.raw_signals@[f0.raw_signals@.len() + j] == raw_value(
                    f0.can_buf_@,
                    meta_data_s@[i].signals@[j],
                ));
            }
            assert(packet_decoded(frame, fs[k as int], meta_data_s@));
        }
        decoded.push(frame);
        k = k + 1;
    }
    assert(fs.skip(k as int) =~= Seq::<PacketFields>::empty());
    Ok(Some(Payload { project_: project, frames_: decoded, time_stamp_: 0 }))
}

} // verus!
