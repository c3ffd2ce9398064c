//! ASC trace files: picking the frame lines of a measurement, reading each frame, and
//! decoding the raw signal values of each frame with the CAN matrix.

use vstd::prelude::*;
use crate::error::ParseError;
use crate::matrix::{find_message, first_message_with_id, raw_signal_values, raw_value, signals_fit, signals_fit_len, Message};
use crate::text::{
    chars_equal, chars_of, contains_chars, has_substring, parse_uint, parse_uint_in, parse_uint_max,
    split_whitespace, string_from_chars, words,
};

verus! {

/// The text of the line that opens a measurement.
pub open spec fn measurement_marker() -> Seq<char> {
    seq![
        'S', 't', 'a', 'r', 't', ' ', 'o', 'f', ' ', 'm', 'e', 'a', 's', 'u', 'r', 'e', 'm', 'e',
        'n', 't',
    ]
}

/// A line that carries a received or sent frame: it contains `Rx` or `Tx`.
pub open spec fn frame_line(line: Seq<char>) -> bool {
    has_substring(line, seq!['R', 'x']) || has_substring(line, seq!['T', 'x'])
}

/// The frame lines among `lines`, when `started` says whether the measurement has begun:
/// before the first line containing the marker nothing is taken (the marker line neither);
/// after it, every line containing `Rx` or `Tx` is taken, in order.
pub open spec fn frame_lines_from(lines: Seq<Seq<char>>, started: bool) -> Seq<Seq<char>>
    decreases lines.len(),
{
    if lines.len() == 0 {
        seq![]
    } else if started {
        (if frame_line(lines[0]) {
            seq![lines[0]]
        } else {
            seq![]
        }) + frame_lines_from(lines.drop_first(), true)
    } else {
        frame_lines_from(lines.drop_first(), has_substring(lines[0], measurement_marker()))
    }
}

/// Every line picked as a frame line contains `Rx` or `Tx`, and is one of the given lines.
pub proof fn lemma_frame_lines_are_frames(lines: Seq<Seq<char>>, started: bool)
    ensures
        forall|k: int|
            0 <= k < frame_lines_from(lines, started).len() ==> frame_line(
                #[trigger] frame_lines_from(lines, started)[k],
            ) && lines.contains(frame_lines_from(lines, started)[k]),
    decreases lines.len(),
{
    if lines.len() > 0 {
        let t = lines.drop_first();
        let next = if started {
            true
        } else {
            has_substring(lines[0], measurement_marker())
        };
        lemma_frame_lines_are_frames(t, next);
        let rest = frame_lines_from(t, next);
        let all = frame_lines_from(lines, started);
        assert forall|k: int| 0 <= k < all.len() implies frame_line(#[trigger] all[k]) && lines.contains(all[k]) by {
            if started && frame_line(lines[0]) {
                assert(all == seq![lines[0]] + rest);
                if k == 0 {
                    assert(lines[0] == all[k]);
                } else {
                    assert(all[k] == rest[k - 1]);
                    let j = choose|j: int| 0 <= j < t.len() && t[j] == rest[k - 1];
                    assert(lines[j + 1] == t[j]);
                }
            } else {
                if started {
                    assert(all =~= rest);
                }
                assert(all[k] == rest[k]);
                let j = choose|j: int| 0 <= j < t.len() && t[j] == rest[k];
                assert(lines[j + 1] == t[j]);
            }
        }
    }
}

/// The words that drive the selection: a measurement begins at the first line containing
/// `Start of measurement`, and a frame line is one containing `Rx` or `Tx`. Lines before the
/// measurement, and the marker line itself, are never taken.
pub proof fn lemma_frame_line_words(line: Seq<char>, rest: Seq<Seq<char>>)
    ensures
        measurement_marker() =~= seq![
            'S', 't', 'a', 'r', 't', ' ', 'o', 'f', ' ', 'm', 'e', 'a', 's', 'u', 'r', 'e', 'm',
            'e', 'n', 't',
        ],
        frame_line(line) <==> (has_substring(line, seq!['R', 'x']) || has_substring(line, seq!['T', 'x'])),
        !has_substring(line, measurement_marker()) ==> frame_lines_from(seq![line] + rest, false)
            == frame_lines_from(rest, false),
        has_substring(line, measurement_marker()) ==> frame_lines_from(seq![line] + rest, false)
            == frame_lines_from(rest, true),
{
    assert((seq![line] + rest).drop_first() =~= rest);
}

/// The views of a sequence of strings.
pub open spec fn views(lines: Seq<String>) -> Seq<Seq<char>> {
    lines.map_values(|s: String| s@)
}

/// The frame lines of the measurement in the lines of a trace file.
pub fn get_all_frames(lines: &Vec<String>) -> (r: Vec<String>)
    ensures
        views(r@) == frame_lines_from(views(lines@), false),
{
    let marker = vec![
        'S', 't', 'a', 'r', 't', ' ', 'o', 'f', ' ', 'm', 'e', 'a', 's', 'u', 'r', 'e', 'm', 'e',
        'n', 't',
    ];
    let rx = vec!['R', 'x'];
    let tx = vec!['T', 'x'];
    assert(marker@ =~= measurement_marker());
    assert(rx@ =~= seq!['R', 'x']);
    assert(tx@ =~= seq!['T', 'x']);
    let mut v: Vec<String> = Vec::new();
    let mut start = false;
    let mut i: usize = 0;
    assert(views(lines@).skip(0) =~= views(lines@));
    assert(views(v@) =~= Seq::<Seq<char>>::empty());
    while i < lines.len()
        invariant
            i <= lines@.len(),
            marker@ == measurement_marker(),
            rx@ == seq!['R', 'x'],
            tx@ == seq!['T', 'x'],
            views(v@) + frame_lines_from(views(lines@).skip(i as int), start) == frame_lines_from(
                views(lines@),
                false,
            ),
        decreases lines@.len() - i,
    {
        let line = &lines[i];
        let cs = chars_of(line.as_str());
        let ghost rest = views(lines@).skip(i as int);
        assert(rest.drop_first() =~= views(lines@).skip(i + 1));
        assert(rest[0] == line@);
        if start {
            if contains_chars(&cs, &rx) || contains_chars(&cs, &tx) {
                let ghost before = views(v@);
                v.push(line.clone());
                assert(views(v@) =~= before.push(line@));
                assert(before + (seq![line@] + frame_lines_from(views(lines@).skip(i + 1), true))
                    =~= before.push(line@) + frame_lines_from(views(lines@).skip(i + 1), true));
            } else {
                assert(views(v@) + (Seq::<Seq<char>>::empty() + frame_lines_from(
                    views(lines@).skip(i + 1),
                    true,
                )) =~= views(v@) + frame_lines_from(views(lines@).skip(i + 1), true));
            }
        } else {
            if contains_chars(&cs, &marker) {
                start = true;
            }
        }
        i = i + 1;
    }
    assert(views(lines@).skip(i as int) =~= Seq::<Seq<char>>::empty());
    assert(views(v@) + Seq::<Seq<char>>::empty() =~= views(v@));
    v
}

/// One CAN frame of a trace.
#[derive(Debug)]
pub struct Frame {
    pub is_rx: bool,
    pub msg_id: usize,
    pub msg_name: String,
    pub data: Vec<u8>,
}

/// What a frame line says.
pub struct FrameFields {
    pub is_rx: bool,
    pub msg_id: usize,
    pub msg_name: Seq<char>,
    pub data: Seq<u8>,
}

/// What the frame line `line` says, or why it cannot be read; `None` where the announced
/// data length is so large that adding ten to it leaves the range of `usize`.
/// The fields, separated by whitespace, are: the direction in field 3 (`Rx` or anything
/// else for sent), the hexadecimal id in field 4, the name in field 5, the decimal data
/// length in field 9, and that many hexadecimal data bytes from field 10 on.
pub open spec fn frame_fields(line: Seq<char>) -> Option<Result<FrameFields, ParseError>> {
    let items = words(line);
    if items.len() <= 10 {
        Some(Err(ParseError::InvalidFormat))
    } else if parse_uint_max(items[4], 16, usize::MAX as nat) is None {
        Some(Err(ParseError::InvalidNumber))
    } else if parse_uint_max(items[9], 10, usize::MAX as nat) is None {
        Some(Err(ParseError::InvalidNumber))
    } else {
        let len = parse_uint_max(items[9], 10, usize::MAX as nat).unwrap();
        if len + 10 > usize::MAX {
            None
        } else if items.len() < len + 10 {
            Some(Err(ParseError::InvalidFrameBuffer))
        } else if exists|k: int| 0 <= k < len && #[trigger] parse_uint_max(items[10 + k], 16, 255) is None {
            Some(Err(ParseError::InvalidNumber))
        } else {
            Some(
                Ok(
                    FrameFields {
                        is_rx: items[3] == seq!['R', 'x'],
                        msg_id: parse_uint_max(items[4], 16, usize::MAX as nat).unwrap() as usize,
                        msg_name: items[5],
                        data: Seq::new(len, |k: int| parse_uint_max(items[10 + k], 16, 255).unwrap() as u8),
                    },
                ),
            )
        }
    }
}

/// The layout of a frame line, read as whitespace-separated fields: a line with at most ten
/// fields is refused. A frame read from a line is received when field 3 is `Rx`, has the
/// hexadecimal id of field 4 and the name of field 5, and holds as many data bytes as the
/// decimal field 9 says, each the hexadecimal value of the fields from 10 on, in order.
pub proof fn lemma_frame_layout(line: Seq<char>)
    ensures
        words(line).len() <= 10 ==> frame_fields(line) == Some(
            Err::<FrameFields, ParseError>(ParseError::InvalidFormat),
        ),
        frame_fields(line) matches Some(Ok(ff)) ==> {
            let w = words(line);
            &&& w.len() > 10
            &&& (ff.is_rx <==> w[3] == seq!['R', 'x'])
            &&& parse_uint(w[4], 16) == Some(ff.msg_id as nat)
            &&& ff.msg_name == w[5]
            &&& parse_uint(w[9], 10) == Some(ff.data.len())
            &&& 10 + ff.data.len() <= w.len()
            &&& forall|k: int|
                0 <= k < ff.data.len() ==> parse_uint(w[10 + k], 16) == Some(#[trigger] ff.data[k] as nat)
        },
{
    if let Some(Ok(ff)) = frame_fields(line) {
        let w = words(line);
        assert forall|k: int| 0 <= k < ff.data.len() implies parse_uint(w[10 + k], 16) == Some(
            #[trigger] ff.data[k] as nat,
        ) by {
            assert(parse_uint_max(w[10 + k], 16, 255) is Some);
        }
    }
}

/// `f` holds the fields `ff`.
pub open spec fn frame_holds(f: Frame, ff: FrameFields) -> bool {
    &&& f.is_rx == ff.is_rx
    &&& f.msg_id == ff.msg_id
    &&& f.msg_name@ == ff.msg_name
    &&& f.data@ == ff.data
}

impl Frame {
    /// Reads a frame line of a trace.
    #[verifier::loop_isolation(false)]
    pub fn try_from(value: &String) -> (r: Result<Frame, ParseError>)
        requires
            frame_fields(value@) is Some,
        ensures
            match frame_fields(value@) {
                Some(Ok(ff)) => r matches Ok(f) && frame_holds(f, ff),
                Some(Err(e)) => r matches Err(e2) && e2 == e,
                None => false,
            },
    {
        let cs = chars_of(value.as_str());
        let items = split_whitespace(&cs);
        let ghost ws = words(value@);
        if items.len() <= 10 {
            return Err(ParseError::InvalidFormat);
        }
        let rx = vec!['R', 'x'];
        assert(rx@ =~= seq!['R', 'x']);
        let is_rx = chars_equal(&items[3], &rx);
        assert(items@[4]@.subrange(0, items@[4]@.len() as int) =~= ws[4]);
        let msg_id = match parse_uint_in(&items[4], 0, items[4].len(), 16, usize::MAX as u64) {
            Some(x) => x as usize,
            None => {
                return Err(ParseError::InvalidNumber);
            },
        };
        assert(items@[9]@.subrange(0, items@[9]@.len() as int) =~= ws[9]);
        let len = match parse_uint_in(&items[9], 0, items[9].len(), 10, usize::MAX as u64) {
            Some(x) => x as usize,
            None => {
                return Err(ParseError::InvalidNumber);
            },
        };
        if items.len() < len + 10 {
            return Err(ParseError::InvalidFrameBuffer);
        }
        assert(items@[5]@.subrange(0, items@[5]@.len() as int) =~= ws[5]);
        let msg_name = string_from_chars(&items[5], 0, items[5].len());
        let mut data: Vec<u8> = Vec::new();
        let mut k: usize = 0;
        while k < len
            invariant
                k <= len,
                len + 10 <= items.len(),
                items@.len() == ws.len(),
                forall|j: int| 0 <= j < items@.len() ==> #[trigger] items@[j]@ == ws[j],
                data@.len() == k,
                forall|j: int| 0 <= j < k ==> (parse_uint_max(#[trigger] ws[10 + j], 16, 255) matches Some(b) && data@[j] == b as u8),
            decreases len - k,
        {
            let item = &items[10 + k];
            assert(item@.subrange(0, item@.len() as int) =~= ws[10 + k]);
            match parse_uint_in(item, 0, item.len(), 16, 255) {
                Some(b) => {
                    data.push(b as u8);
                },
                None => {
                    return Err(ParseError::InvalidNumber);
                },
            }
            k = k + 1;
        }
        let ghost expected = Seq::new(len as nat, |j: int| parse_uint_max(ws[10 + j], 16, 255).unwrap() as u8);
        assert(data@ =~= expected);
        Ok(Frame { is_rx, msg_id, msg_name, data })
    }
}


/// The raw signal values of one frame of a trace.
#[derive(Debug)]
pub struct FrameSignals {
    pub msg_id: usize,
    pub msg_name: String,
    /// `Rx` for a received frame, `Tx` for a sent one.
    pub direction: String,
    /// The position of the matrix message with the frame's id, if there is one.
    pub meta_index: Option<usize>,
    /// The raw value of each signal of that message, in matrix order; empty without one.
    pub raw_values: Vec<u64>,
}

/// The signals of the matrix message for a frame with id `msg_id` can be read from its
/// `len` bytes of data.
pub open spec fn frame_signals_fit(meta: Seq<Message>, msg_id: usize, len: int) -> bool {
    first_message_with_id(meta, msg_id as u64) matches Some(i) ==> signals_fit(meta[i].signals@, len)
}

/// `s` is what decoding a frame with id `msg_id`, name `name`, direction `is_rx` and data
/// `data` against the matrix messages `meta` gives: the first message with that id, and the
/// raw value of each of its signals.
pub open spec fn decoded_frame(
    s: FrameSignals,
    msg_id: usize,
    name: Seq<char>,
    is_rx: bool,
    data: Seq<u8>,
    meta: Seq<Message>,
) -> bool {
    &&& s.msg_id == msg_id
    &&& s.msg_name@ == name
    &&& s.direction@ == (if is_rx {
        seq!['R', 'x']
    } else {
        seq!['T', 'x']
    })
    &&& match first_message_with_id(meta, msg_id as u64) {
        None => s.meta_index is None && s.raw_values@.len() == 0,
        Some(i) => {
            &&& s.meta_index == Some(i as usize)
            &&& s.raw_values@.len() == meta[i].signals@.len()
            &&& forall|k: int|
                0 <= k < s.raw_values@.len() ==> #[trigger] s.raw_values@[k] == raw_value(
                    data,
                    meta[i].signals@[k],
                )
        },
    }
}

/// A decoded frame keeps the frame's id and name, has the direction `Rx` for a received frame
/// and `Tx` for a sent one, and refers to the first matrix message with the frame's id.
pub proof fn lemma_decoded_frame_direction(
    s: FrameSignals,
    msg_id: usize,
    name: Seq<char>,
    is_rx: bool,
    data: Seq<u8>,
    meta: Seq<Message>,
)
    requires
        decoded_frame(s, msg_id, name, is_rx, data, meta),
        meta.len() <= usize::MAX,
    ensures
        s.msg_id == msg_id,
        s.msg_name@ == name,
        is_rx ==> s.direction@ == seq!['R', 'x'],
        !is_rx ==> s.direction@ == seq!['T', 'x'],
        s.meta_index matches Some(i) ==> i < meta.len() && meta[i as int].msg_id == msg_id as u64
            && forall|j: int| 0 <= j < i ==> #[trigger] meta[j].msg_id != msg_id as u64,
        s.meta_index is None ==> forall|j: int| 0 <= j < meta.len() ==> #[trigger] meta[j].msg_id != msg_id as u64,
{
    crate::matrix::lemma_first_message_is_first(meta, msg_id as u64);
}

/// Decodes one frame with the matrix: finds the first message with the frame's id and reads
/// the raw value of each of its signals from the frame data. A frame without a message keeps
/// no values. This never fails.
pub fn update_signals(frame: &Frame, meta_data_s: &Vec<Message>) -> (r: Result<FrameSignals, ParseError>)
    requires
        frame_signals_fit(meta_data_s@, frame.msg_id, frame.data@.len() as int),
    ensures
        r matches Ok(s) && decoded_frame(s, frame.msg_id, frame.msg_name@, frame.is_rx, frame.data@, meta_data_s@),
{
    let dir = if frame.is_rx {
        vec!['R', 'x']
    } else {
        vec!['T', 'x']
    };
    assert(dir@ =~= (if frame.is_rx { seq!['R', 'x'] } else { seq!['T', 'x'] }));
    assert(dir@.subrange(0, 2) =~= dir@);
    let direction = string_from_chars(&dir, 0, 2);
    let meta_index = find_message(meta_data_s, frame.msg_id as u64);
    let raw_values = match meta_index {
        Some(i) => raw_signal_values(frame.data.as_slice(), &meta_data_s[i].signals),
        None => Vec::new(),
    };
    Ok(FrameSignals { msg_id: frame.msg_id, msg_name: frame.msg_name.clone(), direction, meta_index, raw_values })
}

/// The frames of the lines `lines`, or the first error; `None` where a line's data length
/// leaves the range of `usize` before an earlier line has failed.
pub open spec fn parse_frames(lines: Seq<Seq<char>>) -> Option<Result<Seq<FrameFields>, ParseError>>
    decreases lines.len(),
{
    if lines.len() == 0 {
        Some(Ok(seq![]))
    } else {
        match frame_fields(lines[0]) {
            None => None,
            Some(Err(e)) => Some(Err(e)),
            Some(Ok(f)) => match parse_frames(lines.drop_first()) {
                Some(Ok(fs)) => Some(Ok(seq![f] + fs)),
                other => other,
            },
        }
    }
}

/// Decoding the frames of the trace lines `lines` with `meta` stays in bounds: the frame lines
/// can be read without overflow, and the signals of each frame's message fit its data.
pub open spec fn asc_decodable(lines: Seq<Seq<char>>, meta: Seq<Message>) -> bool {
    let sel = frame_lines_from(lines, false);
    &&& parse_frames(sel) is Some
    &&& parse_frames(sel) matches Some(Ok(fs)) ==> forall|k: int|
        0 <= k < fs.len() ==> frame_signals_fit(meta, #[trigger] fs[k].msg_id, fs[k].data.len() as int)
}

/// Whether reading the frame line `line` stays in range: where the fields up to the data
/// length can be read, ten more than the length fits a `usize`.
pub fn frame_line_in_range(line: &String) -> (r: bool)
    ensures
        r == (frame_fields(line@) is Some),
{
    let cs = chars_of(line.as_str());
    let items = split_whitespace(&cs);
    let ghost ws = words(line@);
    if items.len() <= 10 {
        return true;
    }
    assert(items@[4]@.subrange(0, items@[4]@.len() as int) =~= ws[4]);
    assert(items@[9]@.subrange(0, items@[9]@.len() as int) =~= ws[9]);
    if parse_uint_in(&items[4], 0, items[4].len(), 16, usize::MAX as u64).is_none() {
        return true;
    }
    match parse_uint_in(&items[9], 0, items[9].len(), 10, usize::MAX as u64) {
        None => true,
        Some(len) => len <= (usize::MAX - 10) as u64,
    }
}

/// Whether decoding the trace lines `lines` with `meta_data_s` stays in bounds.
#[verifier::loop_isolation(false)]
pub fn asc_in_bounds(lines: &Vec<String>, meta_data_s: &Vec<Message>) -> (r: bool)
    ensures
        r == asc_decodable(views(lines@), meta_data_s@),
{
    let ss = get_all_frames(lines);
    let ghost sel = views(ss@);
    let mut frames: Vec<Frame> = Vec::new();
    let ghost mut done: Seq<FrameFields> = seq![];
    let mut i: usize = 0;
    assert(sel.skip(0) =~= sel);
    while i < ss.len()
        invariant
            i <= ss@.len(),
            sel == views(ss@),
            frames@.len() == done.len(),
            forall|k: int| 0 <= k < done.len() ==> frame_holds(#[trigger] frames@[k], done[k]),
            parse_frames(sel) == match parse_frames(sel.skip(i as int)) {
                Some(Ok(fs)) => Some(Ok(done + fs)),
                other => other,
            },
        decreases ss@.len() - i,
    {
        let ghost rest = sel.skip(i as int);
        assert(rest.drop_first() =~= sel.skip(i + 1));
        assert(rest[0] == ss@[i as int]@);
        if !frame_line_in_range(&ss[i]) {
            return false;
        }
        match Frame::try_from(&ss[i]) {
            Err(_) => {
                return true;
            },
            Ok(f) => {
                let ghost ff = frame_fields(ss@[i as int]@)->Some_0->Ok_0;
                proof {
                    match parse_frames(sel.skip(i + 1)) {
                        Some(Ok(fs)) => {
                            assert(done + (seq![ff] + fs) =~= done.push(ff) + fs);
                        },
                        _ => {},
                    }
                    done = done.push(ff);
                }
                frames.push(f);
            },
        }
        i = i + 1;
    }
    assert(sel.skip(i as int) =~= Seq::<Seq<char>>::empty());
    assert(done + Seq::<FrameFields>::empty() =~= done);
    assert(parse_frames(sel) == Some(Ok::<Seq<FrameFields>, ParseError>(done)));
    let mut k: usize = 0;
    while k < frames.len()
        invariant
            k <= frames@.len(),
            frames@.len() == done.len(),
            forall|j: int| 0 <= j < done.len() ==> frame_holds(#[trigger] frames@[j], done[j]),
            forall|j: int| 0 <= j < k ==> frame_signals_fit(meta_data_s@, #[trigger] done[j].msg_id, done[j].data.len() as int),
        decreases frames@.len() - k,
    {
        let f = &frames[k];
        assert(frame_holds(frames@[k as int], done[k as int]));
        match find_message(meta_data_s, f.msg_id as u64) {
            None => {},
            Some(m) => {
                if !signals_fit_len(&meta_data_s[m].signals, f.data.len()) {
                    assert(!frame_signals_fit(meta_data_s@, done[k as int].msg_id, done[k as int].data.len() as int));
                    return false;
                }
            },
        }
        k = k + 1;
    }
    true
}

/// Decodes a trace: picks the frame lines of the measurement, reads every frame (stopping at
/// the first line that cannot be read), then decodes each frame with the matrix.
#[verifier::loop_isolation(false)]
pub fn asc_to_frame_strings(lines: &Vec<String>, meta_data_s: &Vec<Message>) -> (r: Result<Vec<FrameSignals>, ParseError>)
    requires
        asc_decodable(views(lines@), meta_data_s@),
    ensures
        match parse_frames(frame_lines_from(views(lines@), false)) {
            Some(Ok(fs)) => r matches Ok(v) && v@.len() == fs.len() && forall|k: int|
                0 <= k < fs.len() ==> decoded_frame(
                    #[trigger] v@[k],
                    fs[k].msg_id,
                    fs[k].msg_name,
                    fs[k].is_rx,
                    fs[k].data,
                    meta_data_s@,
                ),
            Some(Err(e)) => r matches Err(e2) && e2 == e,
            None => false,
        },
{
    let ss = get_all_frames(lines);
    let ghost sel = views(ss@);
    let mut frames: Vec<Frame> = Vec::new();
    let ghost mut done: Seq<FrameFields> = seq![];
    let mut i: usize = 0;
    assert(sel.skip(0) =~= sel);
    while i < ss.len()
        invariant
            i <= ss@.len(),
            sel == views(ss@),
            frames@.len() == done.len(),
            forall|k: int| 0 <= k < done.len() ==> frame_holds(#[trigger] frames@[k], done[k]),
            parse_frames(sel) == match parse_frames(sel.skip(i as int)) {
                Some(Ok(fs)) => Some(Ok(done + fs)),
                other => other,
            },
        decreases ss@.len() - i,
    {
        let ghost rest = sel.skip(i as int);
        assert(rest.drop_first() =~= sel.skip(i + 1));
        assert(rest[0] == ss@[i as int]@);
        let f = Frame::try_from(&ss[i])?;
        let ghost ff = frame_fields(ss@[i as int]@)->Some_0->Ok_0;
        proof {
            match parse_frames(sel.skip(i + 1)) {
                Some(Ok(fs)) => {
                    assert(done + (seq![ff] + fs) =~= done.push(ff) + fs);
                },
                _ => {},
            }
            done = done.push(ff);
        }
        frames.push(f);
        i = i + 1;
    }
    assert(sel.skip(i as int) =~= Seq::<Seq<char>>::empty());
    assert(done + Seq::<FrameFields>::empty() =~= done);
    let mut out: Vec<FrameSignals> = Vec::new();
    let mut k: usize = 0;
    assert(parse_frames(sel) == Some(Ok::<Seq<FrameFields>, ParseError>(done)));
    assert forall|j: int| 0 <= j < done.len() implies frame_signals_fit(
        meta_data_s@,
        #[trigger] done[j].msg_id,
        done[j].data.len() as int,
    ) by {
        let fs = parse_frames(sel)->Some_0->Ok_0;
        assert(fs == done);
        assert(frame_signals_fit(meta_data_s@, fs[j].msg_id, fs[j].data.len() as int));
    }
    while k < frames.len()
        invariant
            k <= frames@.len(),
            frames@.len() == done.len(),
            forall|j: int| 0 <= j < done.len() ==> frame_holds(#[trigger] frames@[j], done[j]),
            parse_frames(sel) == Some(Ok::<Seq<FrameFields>, ParseError>(done)),
            out@.len() == k,
            forall|j: int|
                0 <= j < k ==> decoded_frame(
                    #[trigger] out@[j],
                    done[j].msg_id,
                    done[j].msg_name,
                    done[j].is_rx,
                    done[j].data,
                    meta_data_s@,
                ),
        decreases frames@.len() - k,
    {
        assert(frame_holds(frames@[k as int], done[k as int]));
        assert(frame_signals_fit(meta_data_s@, done[k as int].msg_id, done[k as int].data.len() as int));
        let s = update_signals(&frames[k], meta_data_s)?;
        out.push(s);
        k = k + 1;
    }
    Ok(out)
}

} // verus!
