use radar::asc::{asc_to_frame_strings, get_all_frames, update_signals, Frame};
use radar::charset::{is_valid_utf8, to_utf8};
use radar::dbc::{entry_message_name, message_entry, message_list, message_list_of, selected_messages, to_hex_upper};
use radar::error::ParseError;
use radar::matrix::{get_metadata_groups, is_msg_row, is_signal_row, Cell, Matrix, Message};
use radar::rtt::{on_phase, Phase, ServerAction, Statistics};
use radar::trace::route_header_line;
use radar::display::{listen_addr, stopwatch_reading};
use radar::asc::{asc_in_bounds, frame_line_in_range};

fn lines(v: &[&str]) -> Vec<String> {
    v.iter().map(|s| s.to_string()).collect()
}

#[test]
fn frame_lines_of_a_measurement() {
    let l = lines(&[
        "date Tue Rx",
        "Begin Triggerblock",
        "Start of measurement Rx",
        "1.0 1 CAN Rx 1A2 Obj",
        "comment",
        "1.1 1 CAN Tx 1A3 Obj",
    ]);
    let f = get_all_frames(&l);
    assert_eq!(f, lines(&["1.0 1 CAN Rx 1A2 Obj", "1.1 1 CAN Tx 1A3 Obj"]));
    assert!(get_all_frames(&lines(&["Rx", "Tx"])).is_empty());
}

#[test]
fn frame_line_fields() {
    let f = Frame::try_from(&"1.000 1 CAN Rx 1A2 Obj x d 8 2 0A ff\n".to_string()).unwrap();
    assert!(f.is_rx);
    assert_eq!(f.msg_id, 0x1a2);
    assert_eq!(f.msg_name, "Obj");
    assert_eq!(f.data, vec![0x0a, 0xff]);
    let g = Frame::try_from(&"1.000 1 CAN Tx 10 Obj x d 8 0 zz".to_string()).unwrap();
    assert!(!g.is_rx);
    assert!(g.data.is_empty());
}

#[test]
fn frame_line_errors() {
    assert_eq!(Frame::try_from(&"1 2 3 Rx 4 5 6 7 8 9".to_string()).err(), Some(ParseError::InvalidFormat));
    assert_eq!(Frame::try_from(&"1 2 3 Rx zz 5 6 7 8 1 00".to_string()).err(), Some(ParseError::InvalidNumber));
    assert_eq!(Frame::try_from(&"1 2 3 Rx 10 5 6 7 8 x 00".to_string()).err(), Some(ParseError::InvalidNumber));
    assert_eq!(Frame::try_from(&"1 2 3 Rx 10 5 6 7 8 3 00 01".to_string()).err(), Some(ParseError::InvalidFrameBuffer));
    assert_eq!(Frame::try_from(&"1 2 3 Rx 10 5 6 7 8 2 00 1ff".to_string()).err(), Some(ParseError::InvalidNumber));
}

fn text(s: &str) -> Cell {
    Cell::Text(s.to_string())
}

fn meta() -> Vec<Message> {
    let mut m: Vec<Cell> = (0..25).map(|_| Cell::Empty).collect();
    m[0] = text("Obj");
    m[2] = text("0x1A2");
    m[5] = text("8");
    m[24] = text("s");
    let mut s: Vec<Cell> = (0..25).map(|_| Cell::Empty).collect();
    s[6] = text("First");
    s[9] = text("0");
    s[10] = text("7");
    s[11] = text("8");
    s[13] = text("Unsigned");
    for k in 14..18 {
        s[k] = text("1");
    }
    s[24] = text("s");
    let mut end = m.clone();
    end[0] = text("End");
    Matrix::from_rows(&vec![m, s, end]).unwrap().msg_s
}

#[test]
fn frames_decoded_with_the_matrix() {
    let meta = meta();
    assert_eq!(meta.len(), 1);
    let l = lines(&[
        "Start of measurement",
        "1.0 1 CAN Rx 1A2 Obj x d 8 2 0A ff",
        "1.1 1 CAN Tx 33 Other x d 8 1 05",
    ]);
    let v = asc_to_frame_strings(&l, &meta).unwrap();
    assert_eq!(v.len(), 2);
    assert_eq!(v[0].msg_id, 0x1a2);
    assert_eq!(v[0].direction, "Rx");
    assert_eq!(v[0].meta_index, Some(0));
    assert_eq!(v[0].raw_values, vec![0x0a]);
    assert_eq!(v[1].direction, "Tx");
    assert_eq!(v[1].meta_index, None);
    assert!(v[1].raw_values.is_empty());
    let bad = lines(&["Start of measurement", "1 Rx", "1.0 1 CAN Rx 1A2 Obj x d 8 2 0A ff"]);
    assert_eq!(asc_to_frame_strings(&bad, &meta).err(), Some(ParseError::InvalidFormat));
    let f = Frame { is_rx: false, msg_id: 0x1a2, msg_name: "Obj".to_string(), data: vec![0x77] };
    let s = update_signals(&f, &meta).unwrap();
    assert_eq!(s.raw_values, vec![0x77]);
}

#[test]
fn message_groups() {
    let row = |a: bool, c: bool| -> Vec<Cell> {
        let mut r: Vec<Cell> = (0..3).map(|_| Cell::Empty).collect();
        if a {
            r[0] = text("m");
        }
        if c {
            r[2] = text("1");
        }
        r
    };
    let table = vec![row(false, false), row(true, true), row(false, true), row(true, false), row(true, true), row(true, true)];
    assert!(is_msg_row(&table[1]));
    assert!(is_signal_row(&table[3]));
    assert!(!is_msg_row(&vec![text("a")]));
    let g = get_metadata_groups(&table, &vec![0, 1, 2, 3, 4, 5]);
    assert_eq!(g, vec![(1, vec![2, 3]), (4, vec![])]);
    let g = get_metadata_groups(&table, &vec![5, 0, 1]);
    assert_eq!(g, vec![(5, vec![0])]);
}

#[test]
fn utf8_or_gbk() {
    let utf8 = "中文".as_bytes().to_vec();
    assert!(is_valid_utf8(&utf8));
    assert_eq!(to_utf8(utf8.clone()), Ok(utf8.clone()));
    let gbk = vec![0xd6u8, 0xd0, 0xce, 0xc4];
    assert!(!is_valid_utf8(&gbk));
    assert_eq!(to_utf8(gbk), Ok(utf8));
    assert_eq!(to_utf8(vec![0x81, 0x20]), Err(ParseError::InvalidEncoding));
    for b in [vec![0xc0u8, 0x80], vec![0xed, 0xa0, 0x80], vec![0xf4, 0x90, 0x80, 0x80], vec![0xe2, 0x82]] {
        assert_eq!(is_valid_utf8(&b), std::str::from_utf8(&b).is_ok());
    }
}

#[test]
fn round_trips() {
    assert_eq!(on_phase(Phase::Ping(100), 250), ServerAction::Reply(Phase::Pong(100, 250)));
    assert_eq!(on_phase(Phase::Pong(100, 250), 400), ServerAction::RecordRtt(300));
    let mut s = Statistics::new();
    s.add_ping();
    s.add_ping();
    s.add_rtt(1_000, 300);
    assert_eq!(s.ping_num, 2);
    assert_eq!(s.rtt_s, vec![(1_000, 300)]);
    assert_eq!(s.lost(), 1);
    let mut full = Statistics { ping_num: usize::MAX, rtt_s: vec![] };
    full.add_ping();
    assert_eq!(full.ping_num, 0);
}

#[test]
fn dbc_entries() {
    assert_eq!(message_entry(&"Radar".to_string(), 0x1a2), "Radar(0X1A2)");
    assert_eq!(message_entry(&"M".to_string(), 0), "M(0X0)");
    assert_eq!(message_entry(&"M".to_string(), 0x8000_00ff), format!("M(0X{:X})", 0x8000_00ffu32));
    assert_eq!(entry_message_name(&"Radar(0X1A2)".to_string()), "Radar");
    assert_eq!(entry_message_name(&"plain".to_string()), "plain");
    let h: String = to_hex_upper(0xdead).iter().collect();
    assert_eq!(h, "DEAD");
    for (name, id) in [("Radar", 0x1a2u32), ("FMRadar_Obj_01", 0x800002a0), ("", 7)] {
        let entry = message_entry(&name.to_string(), id);
        assert_eq!(entry_message_name(&entry), name);
    }
}

#[test]
fn trace_header() {
    let hops = vec![Some("10.0.0.1".to_string()), None, Some("8.8.8.8".to_string())];
    assert_eq!(route_header_line(&hops), ",10.0.0.1,,8.8.8.8,");
    assert_eq!(route_header_line(&vec![]), ",");
}

#[test]
fn gbk_output_is_utf8() {
    let out = to_utf8(vec![0xc4u8, 0xe3, 0xba, 0xc3, 0x41]).unwrap();
    assert_eq!(String::from_utf8(out).unwrap(), "你好A");
}

#[test]
fn trace_bounds_checks() {
    assert!(frame_line_in_range(&"1 2 3 Rx 10 5 6 7 8 2 00 01".to_string()));
    assert!(!frame_line_in_range(&"1 2 3 Rx 10 5 6 7 8 18446744073709551615 00".to_string()));
    // an earlier error stops reading before the line whose length overflows
    assert!(frame_line_in_range(&"1 2 3 Rx zz 5 6 7 8 18446744073709551615 00".to_string()));
    let meta = meta();
    let ok = lines(&["Start of measurement", "1.0 1 CAN Rx 1A2 Obj x d 8 1 0A"]);
    assert!(asc_in_bounds(&ok, &meta));
    // the message of id 1A2 reads one byte, and the frame has none
    let short = lines(&["Start of measurement", "1.0 1 CAN Rx 1A2 Obj x d 8 0 0A"]);
    assert!(!asc_in_bounds(&short, &meta));
}

#[test]
fn stopwatch_readings() {
    assert_eq!(stopwatch_reading(0), "000");
    assert_eq!(stopwatch_reading(7), "007");
    assert_eq!(stopwatch_reading(42), "042");
    assert_eq!(stopwatch_reading(999), "999");
    assert_eq!(stopwatch_reading(1234), "1234");
    for ms in [0u128, 5, 10, 99, 100, 101, 1000, 65535, 123456789, u128::MAX] {
        assert_eq!(stopwatch_reading(ms), format!("{:03}", ms));
    }
}

#[test]
fn listen_addresses() {
    assert_eq!(listen_addr(8080), "0.0.0.0:8080");
    assert_eq!(listen_addr(0), "0.0.0.0:0");
    assert_eq!(listen_addr(-1), "0.0.0.0:-1");
    for p in [1i32, 9, 10, 443, 65535, i32::MAX, i32::MIN, -42] {
        assert_eq!(listen_addr(p), format!("{}:{}", "0.0.0.0", p));
    }
}

const SAMPLE_DBC: &str = "VERSION \"0.1\"\n\nNS_ :\n\nBS_:\n\nBU_: PC X\n\nBO_ 291 Msg1: 8 PC\n    SG_ Speed : 0|16@1+ (0.1,0) [0|6553.5] \"km/h\" X\n\nBO_ 2147484320 ExtMsg: 8 PC\n    SG_ Temp : 7|8@0- (1,-40) [-40|215] \"C\" X\n\nBO_ 2000 Msg1: 4 PC\n    SG_ Level : 0|8@1+ (1,0) [0|255] \"\" X\n";

#[test]
fn dbc_message_lists() {
    let list = message_list(&Ok(SAMPLE_DBC.to_string()));
    assert_eq!(list, vec!["Msg1(0X123)", "ExtMsg(0X800002A0)", "Msg1(0X7D0)"]);
    let err = message_list(&Err("No such file or directory (os error 2)".to_string()));
    assert_eq!(err, vec!["No such file or directory (os error 2)"]);
    let refused = message_list(&Ok("BO_ 12 : : :".to_string()));
    assert_eq!(refused, vec!["dbc does not support reading"]);
    let of = message_list_of(&Ok(vec![("A".to_string(), 0), ("B".to_string(), 255)]));
    assert_eq!(of, vec!["A(0X0)", "B(0XFF)"]);
    assert_eq!(message_list_of(&Err("e".to_string())), vec!["e"]);
    assert!(message_list_of(&Ok(vec![])).is_empty());
}

#[test]
fn dbc_selection() {
    let names: Vec<String> = ["Msg1", "ExtMsg", "Msg1", "Msg10"].iter().map(|s| s.to_string()).collect();
    assert_eq!(selected_messages(&names, &"Msg1(0X123)".to_string()), vec![0, 2]);
    assert_eq!(selected_messages(&names, &"ExtMsg(0X800002A0)".to_string()), vec![1]);
    assert_eq!(selected_messages(&names, &"Msg10".to_string()), vec![3]);
    assert_eq!(selected_messages(&names, &"Other(0X1)".to_string()), Vec::<usize>::new());
    assert_eq!(selected_messages(&vec![], &"Msg1".to_string()), Vec::<usize>::new());
}
