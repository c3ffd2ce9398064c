use radar::bits::{motorola_msb_get, motorola_msb_get_signed};
use radar::datagram::{captured_datagram, decode_datagram, udp_datagram};
use radar::error::ParseError;
use radar::matrix::{Cell, Matrix, Message, Signal};
use radar::msg::{BoardId, MajorCommand, McuMessage, MessageType, SubCommand};
use radar::parser::{Packet, Payload, RadarType};
use radar::datagram::datagram_in_bounds;
use radar::matrix::signals_fit_len;
use radar::msg::mcu_payload_fits;
use radar::parser::payload_fits;
use radar::matrix::{cell_text, find_message, raw_signal_values, select_matrix_rows};

#[test]
fn parser_test() -> Result<(), ParseError> {
    let mut v = Vec::new();
    v.resize(10000, 1);
    for i in 0..100 {
        v[i] = (i + 1) as u8;
    }
    let payload = Payload::try_from(&v[..])?;
    println!("{:?}", payload);
    Ok(())
}

#[test]
fn parser_test_contents() {
    let mut v = Vec::new();
    v.resize(10000, 1);
    for i in 0..100 {
        v[i] = (i + 1) as u8;
    }
    let payload = Payload::try_from(&v[..]).unwrap();
    assert_eq!(payload.project_, 1);
    assert_eq!(payload.time_stamp_, 0);
    // a frame longer than 64 bytes does not move the reading position: both packets are the same
    assert_eq!(payload.frames_.len(), 2);
    for p in &payload.frames_ {
        assert_eq!(p.type_, RadarType::Right);
        assert_eq!(p.can_id_, u32::from_le_bytes([4, 5, 6, 7]));
        assert_eq!(p.can_buf_.len(), 8 + 9 * 256);
        assert_eq!(&p.can_buf_[..3], &[10, 11, 12]);
    }
}

#[test]
fn motorola_reads_whole_bytes() {
    let buf = [0x12u8, 0x34, 0x56, 0x78, 0x9a, 0xbc, 0xde, 0xf0];
    assert_eq!(motorola_msb_get(&buf, 0, 7, 16, false), 0x1234);
    assert_eq!(motorola_msb_get(&buf, 1, 15, 8, true), 0x34);
    assert_eq!(motorola_msb_get(&buf, 0, 7, 64, false), 0x1234_5678_9abc_def0);
}

#[test]
fn motorola_reads_inside_and_across_bytes() {
    let buf = [0x12u8, 0x34];
    // the low nibble of the first byte
    assert_eq!(motorola_msb_get_signed(&buf, 0, 3, 4), 0x2);
    // the low nibble of the first byte, then the high nibble of the second
    assert_eq!(motorola_msb_get_signed(&buf, 0, 3, 8), 0x23);
    // a single bit: bit 4 of 0x12 is set
    assert_eq!(motorola_msb_get_signed(&buf, 0, 4, 1), 1);
    assert_eq!(motorola_msb_get_signed(&buf, 0, 5, 1), 0);
    // only start_bit % 8 matters
    assert_eq!(motorola_msb_get_signed(&buf, 0, 11, 8), 0x23);
    // 57 bits starting at bit 0 of the first byte
    let big = [0xffu8; 8];
    assert_eq!(motorola_msb_get_signed(&big, 0, 0, 57), (1u64 << 57) - 1);
}

#[test]
fn enum_codes() {
    assert_eq!(BoardId::try_from(1), Ok(BoardId::Undefined));
    assert_eq!(BoardId::try_from(2), Ok(BoardId::Soc));
    assert_eq!(BoardId::try_from(3), Ok(BoardId::Mcu));
    assert_eq!(BoardId::try_from(0), Err(ParseError::InvalidBoardId));
    assert_eq!(MessageType::try_from(5), Ok(MessageType::Result));
    assert_eq!(MessageType::try_from(6), Err(ParseError::InvalidMessageType));
    assert_eq!(MajorCommand::try_from(0x31), Ok(MajorCommand::Chassis));
    assert_eq!(MajorCommand::try_from(0x32), Ok(MajorCommand::Radar));
    assert_eq!(MajorCommand::try_from(0x33), Err(ParseError::InvalidMajorCommand));
    assert_eq!(SubCommand::try_from(4), Ok(SubCommand::CanDebug));
    assert_eq!(SubCommand::try_from(0), Err(ParseError::InvalidSubCommand));
    assert_eq!(RadarType::try_from(9), Ok(RadarType::USS));
    assert_eq!(RadarType::try_from(10), Err(ParseError::InvalidRadarType));
}

#[test]
fn mcu_message_header() {
    let buf = [3u8, 2, 7, 1, 6, 0, 1, 0x32, 0xaa, 0xbb, 0xcc];
    let m = McuMessage::try_from(&buf[..]).unwrap();
    assert_eq!(m.board_id_, BoardId::Mcu);
    assert_eq!(m.msg_type_, MessageType::MeMessage);
    assert_eq!(m.seq_, 7);
    assert_eq!(m.version_, 1);
    assert_eq!(m.length_, 6);
    assert_eq!(m.sub_cmd_, SubCommand::Chassis);
    assert_eq!(m.major_cmd_, MajorCommand::Radar);
    assert_eq!(m.payload, &[0xaa, 0xbb]);
}

#[test]
fn mcu_message_errors() {
    assert_eq!(McuMessage::try_from(&[3u8, 2, 7][..]).err(), Some(ParseError::ShortMcuBuffer));
    assert_eq!(McuMessage::try_from(&[9u8, 2, 7, 1, 4, 0, 1, 0x32][..]).err(), Some(ParseError::InvalidBoardId));
    assert_eq!(McuMessage::try_from(&[3u8, 9, 7, 1, 4, 0, 1, 0x32][..]).err(), Some(ParseError::InvalidMessageType));
    assert_eq!(McuMessage::try_from(&[3u8, 2, 7, 1, 4, 0, 9, 0x32][..]).err(), Some(ParseError::InvalidSubCommand));
    assert_eq!(McuMessage::try_from(&[3u8, 2, 7, 1, 4, 0, 1, 0x30][..]).err(), Some(ParseError::InvalidMajorCommand));
}

fn packet_bytes(radar: u8, id: u32, data: &[u8], slot: usize) -> Vec<u8> {
    let mut v = vec![radar];
    v.extend_from_slice(&id.to_le_bytes());
    v.extend_from_slice(&(data.len() as u16).to_le_bytes());
    v.extend_from_slice(data);
    v.resize(slot, 0);
    v
}

#[test]
fn packet_header_and_errors() {
    let bytes = packet_bytes(2, 0x123, &[1, 2, 3], 23);
    let (p, len) = Packet::try_from(&bytes).unwrap();
    assert_eq!(p.type_, RadarType::Front);
    assert_eq!(p.can_id_, 0x123);
    assert_eq!(p.can_buf_, vec![1, 2, 3]);
    assert_eq!(len, 3);
    assert!(p.raw_signals.is_empty());
    assert!(p.meta_data.is_none());
    assert_eq!(Packet::try_from(&bytes[..6]).err(), Some(ParseError::InvalidPacketHeader));
    assert_eq!(Packet::try_from(&bytes[..9]).err(), Some(ParseError::InvalidPacketBuffer));
    let mut bad = bytes.clone();
    bad[0] = 0;
    assert_eq!(Packet::try_from(&bad).err(), Some(ParseError::InvalidRadarType));
}

#[test]
fn payload_slots() {
    let mut v = vec![7u8, 3];
    v.extend(packet_bytes(1, 0x10, &[1; 8], 23));
    v.extend(packet_bytes(3, 0x11, &[2; 20], 79));
    v.extend(packet_bytes(5, 0x12, &[3; 1], 23));
    let p = Payload::try_from(&v).unwrap();
    assert_eq!(p.project_, 7);
    assert_eq!(p.frames_.len(), 3);
    assert_eq!(p.frames_[0].can_id_, 0x10);
    assert_eq!(p.frames_[1].can_id_, 0x11);
    assert_eq!(p.frames_[1].can_buf_, vec![2; 20]);
    assert_eq!(p.frames_[2].type_, RadarType::LeftFront);
    assert_eq!(Payload::try_from(&[1u8][..]).err(), Some(ParseError::EmptyPayload));
    let empty = Payload::try_from(&[1u8, 0][..]).unwrap();
    assert!(empty.frames_.is_empty());
}

fn text(s: &str) -> Cell {
    Cell::Text(s.to_string())
}

fn msg_row(name: &str, id: &str, len: &str, mark: &str) -> Vec<Cell> {
    let mut r: Vec<Cell> = (0..25).map(|_| Cell::Empty).collect();
    r[0] = text(name);
    r[2] = text(id);
    r[5] = text(len);
    r[24] = text(mark);
    r
}

fn sig_row(name: &str, byte: &str, start: &str, bits: &str, ty: &str, res: &str, mark: &str) -> Vec<Cell> {
    let mut r: Vec<Cell> = (0..25).map(|_| Cell::Empty).collect();
    r[6] = text(name);
    r[9] = text(byte);
    r[10] = text(start);
    r[11] = text(bits);
    r[13] = text(ty);
    r[14] = text(res);
    r[15] = text("0");
    r[16] = text("-100");
    r[17] = text("1e3");
    r[24] = text(mark);
    r
}

fn sample_table() -> Vec<Vec<Cell>> {
    vec![
        msg_row("Obj", "0x123", "8", "s"),
        sig_row("Speed", "0", "7", "16", "Unsigned", "0.1", "s"),
        sig_row("Angle", "2", " 3 ", "4", "Signed", "1", "r"),
        // not marked: left out of the matrix
        sig_row("Ignored", "0", "7", "8", "Unsigned", "1", "x"),
        msg_row("Status", "0x0x200", "4", "r"),
        sig_row("Flag", "0", "0", "1", "Unsigned", "1", "s"),
        // closes the group of Status; its own group is never closed
        msg_row("Tail", "0x300", "8", "s"),
        sig_row("Lost", "0", "7", "8", "Unsigned", "1", "s"),
    ]
}

#[test]
fn matrix_from_rows() {
    let m = Matrix::from_rows(&sample_table()).unwrap();
    assert_eq!(m.msg_s.len(), 2);
    let obj = &m.msg_s[0];
    assert_eq!(obj.msg_name, "Obj");
    assert_eq!(obj.msg_id_str, "0x123");
    assert_eq!(obj.msg_id, 0x123);
    assert_eq!(obj.msg_len, 8);
    assert_eq!(obj.signals.len(), 2);
    assert_eq!(obj.signals[0].signal_name, "Speed");
    assert_eq!(obj.signals[0].bit_length, 16);
    assert!(!obj.signals[0].is_signed);
    assert_eq!(obj.signals[0].resolution, "0.1");
    assert_eq!(obj.signals[1].start_bit, 3);
    assert!(obj.signals[1].is_signed);
    assert_eq!(obj.signals[1].max_value, "1e3");
    let status = &m.msg_s[1];
    assert_eq!(status.msg_id, 0x200);
    assert_eq!(status.signals.len(), 1);
}

#[test]
fn matrix_errors() {
    let mut t = sample_table();
    t[1][14] = text("fast");
    assert_eq!(Matrix::from_rows(&t).err(), Some(ParseError::InvalidNumber));
    let mut t = sample_table();
    t[0][0] = Cell::Empty;
    // the row is no longer a message row: the signals join no group, and Status, Tail remain
    let m = Matrix::from_rows(&t).unwrap();
    assert_eq!(m.msg_s.len(), 1);
    assert_eq!(m.msg_s[0].msg_name, "Status");
    let mut t = sample_table();
    t[1][6] = Cell::Opaque;
    assert_eq!(Matrix::from_rows(&t).err(), Some(ParseError::MissingValue));
    let mut t = sample_table();
    t[0][2] = text("0xZZ");
    assert_eq!(Matrix::from_rows(&t).err(), Some(ParseError::InvalidNumber));
}

#[test]
fn signal_row_reads_fields() {
    let row = sig_row("Speed", " 1 ", "7", "12", "Unsigned", " +2.5E-1 ", "s");
    let s = Signal::try_from(&row).unwrap();
    assert_eq!(s.byte_index, 1);
    assert_eq!(s.start_bit, 7);
    assert_eq!(s.bit_length, 12);
    assert_eq!(s.resolution, "+2.5E-1");
    let mut bad = row.clone();
    bad[13] = Cell::Empty;
    assert_eq!(Signal::try_from(&bad).err(), Some(ParseError::MissingValue));
    let mut bad = row;
    bad[16] = text("1.2.3");
    assert_eq!(Signal::try_from(&bad).err(), Some(ParseError::InvalidNumber));
}

fn sample_meta() -> Vec<Message> {
    Matrix::from_rows(&sample_table()).unwrap().msg_s
}

#[test]
fn packet_update_signals() {
    let meta = sample_meta();
    let bytes = packet_bytes(1, 0x123, &[0x12, 0x34, 0x56], 23);
    let (mut p, _) = Packet::try_from(&bytes).unwrap();
    p.update_signals(&meta).unwrap();
    assert_eq!(p.raw_signals, vec![0x1234, 0x6]);
    assert_eq!(p.meta_data.unwrap().msg_name, "Obj");
    let bytes = packet_bytes(1, 0x999, &[0x12, 0x34, 0x56], 23);
    let (mut q, _) = Packet::try_from(&bytes).unwrap();
    assert_eq!(q.update_signals(&meta), Err(ParseError::UnknownMessage));
    assert!(q.meta_data.is_none());
    assert!(q.raw_signals.is_empty());
}

fn datagram(major: u8, payload: &[u8]) -> Vec<u8> {
    let len = (payload.len() + 4) as u16;
    let mut v = vec![3u8, 2, 0, 1];
    v.extend_from_slice(&len.to_le_bytes());
    v.push(1);
    v.push(major);
    v.extend_from_slice(payload);
    v
}

#[test]
fn datagram_decoding() {
    let meta = sample_meta();
    let mut payload = vec![2u8, 1];
    payload.extend(packet_bytes(4, 0x123, &[0xab, 0xcd, 0xef], 23));
    let d = datagram(0x32, &payload);
    let p = decode_datagram(30003, 30500, &d, &meta).unwrap().unwrap();
    assert_eq!(p.project_, 2);
    assert_eq!(p.frames_.len(), 1);
    assert_eq!(p.frames_[0].type_, RadarType::Rear);
    assert_eq!(p.frames_[0].raw_signals, vec![0xabcd, 0xf]);
    // other ports, and chassis messages, are skipped
    assert!(decode_datagram(30004, 30500, &d, &meta).unwrap().is_none());
    let c = datagram(0x31, &payload);
    assert!(decode_datagram(30003, 30500, &c, &meta).unwrap().is_none());
    // a packet whose id has no matrix message stops decoding
    let mut unknown = vec![2u8, 1];
    unknown.extend(packet_bytes(4, 0x555, &[1], 23));
    let u = datagram(0x32, &unknown);
    assert_eq!(decode_datagram(30003, 30500, &u, &meta).err(), Some(ParseError::UnknownMessage));
}

#[test]
fn udp_ports_and_payload() {
    let udp = [0x75u8, 0x33, 0x77, 0x24, 0, 10, 0, 0, 9, 8];
    let d = udp_datagram(&udp);
    assert_eq!(d.src_port, 30003);
    assert_eq!(d.dst_port, 30500);
    assert_eq!(d.buf, vec![9, 8]);
}

#[test]
fn message_row_too_short() {
    let table = vec![msg_row("Obj", "0x1", "8", "s"), vec![Cell::Empty; 10]];
    assert_eq!(Message::try_from(&table, &(0, vec![1])).err(), Some(ParseError::InvalidData));
    let m = Message::try_from(&table, &(0, vec![])).unwrap();
    assert_eq!(m.msg_id, 1);
    assert!(m.signals.is_empty());
}

#[test]
fn bounds_checks() {
    // the length field points past the end of the datagram
    assert!(!mcu_payload_fits(&[3u8, 2, 0, 1, 50, 0, 1, 0x32, 0]));
    // the length field ends before the header does
    assert!(!mcu_payload_fits(&[3u8, 2, 0, 1, 2, 0, 1, 0x32]));
    assert!(mcu_payload_fits(&[3u8, 2, 0, 1, 5, 0, 1, 0x32, 0]));
    // an invalid header is refused before the length is used
    assert!(mcu_payload_fits(&[0u8, 2, 0, 1, 50, 0, 1, 0x32]));
    // two short packets announced, but the payload ends after the first slot
    let mut v = vec![1u8, 2];
    v.extend(packet_bytes(1, 1, &[0], 23));
    assert!(!payload_fits(&v[..v.len() - 1]));
    assert!(payload_fits(&v));
    assert!(payload_fits(&[1u8]));
    let meta = sample_meta();
    assert!(signals_fit_len(&meta[0].signals, 3));
    assert!(!signals_fit_len(&meta[0].signals, 2));
    let mut short = vec![2u8, 1];
    short.extend(packet_bytes(4, 0x123, &[0xab, 0xcd], 23));
    assert!(!datagram_in_bounds(30003, 30500, &datagram(0x32, &short), &meta));
    assert!(datagram_in_bounds(1, 30500, &datagram(0x32, &short), &meta));
}

#[test]
fn matrix_rows_and_lookup() {
    let table = sample_table();
    assert_eq!(select_matrix_rows(&table), vec![0, 1, 2, 4, 5, 6, 7]);
    assert_eq!(cell_text(&text("a")), Some("a".to_string()));
    assert_eq!(cell_text(&Cell::Opaque), None);
    let meta = sample_meta();
    assert_eq!(find_message(&meta, 0x200), Some(1));
    assert_eq!(find_message(&meta, 0x300), None);
    assert_eq!(raw_signal_values(&[0x01, 0x02, 0xf3], &meta[0].signals), vec![0x0102, 0x3]);
}

fn ethernet_frame(protocol: u8, payload: &[u8]) -> Vec<u8> {
    let mut f = vec![0x02, 0, 0, 0, 0, 0x01, 0x02, 0, 0, 0, 0, 0x02, 0x08, 0x00];
    let total = (20 + 8 + payload.len()) as u16;
    f.extend_from_slice(&[0x45, 0, (total >> 8) as u8, total as u8, 0, 1, 0, 0, 64, protocol, 0, 0]);
    f.extend_from_slice(&[192, 168, 1, 10, 192, 168, 1, 20]);
    let udp_len = (8 + payload.len()) as u16;
    f.extend_from_slice(&[0x75, 0x33, 0x77, 0x24, (udp_len >> 8) as u8, udp_len as u8, 0, 0]);
    f.extend_from_slice(payload);
    f
}

#[test]
fn captured_frames() {
    let frame = ethernet_frame(17, &[1, 2, 3]);
    let c = captured_datagram(&frame).unwrap();
    assert_eq!(c.src_address, [192, 168, 1, 10]);
    assert_eq!(c.dst_address, [192, 168, 1, 20]);
    assert_eq!(c.datagram.src_port, 30003);
    assert_eq!(c.datagram.dst_port, 30500);
    assert_eq!(c.datagram.buf, vec![1, 2, 3]);

    let empty = captured_datagram(&ethernet_frame(17, &[])).unwrap();
    assert_eq!(empty.datagram.buf, Vec::<u8>::new());

    assert_eq!(captured_datagram(&ethernet_frame(6, &[1, 2, 3])).unwrap_err(), ParseError::InvalidUdpPacket);
    assert_eq!(captured_datagram(&frame[..10]).unwrap_err(), ParseError::InvalidUdpPacket);
    let mut arp = frame.clone();
    arp[12] = 0x08;
    arp[13] = 0x06;
    assert_eq!(captured_datagram(&arp).unwrap_err(), ParseError::InvalidUdpPacket);
}
