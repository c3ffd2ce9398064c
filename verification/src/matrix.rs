//! The CAN matrix: which messages exist, their ids, and where each signal lies in the
//! CAN data. The matrix comes as a table of cells read from a spreadsheet.

use vstd::prelude::*;
use crate::bits::{motorola_msb_get, motorola_msb_value, msb_field_fits};
use crate::error::ParseError;
use crate::text::{
    chars_equal, chars_of, hex_str_to_u64, is_float_literal, option_string_to_float_text,
    option_string_to_string, option_string_to_t, parse_uint, spec_float_text, spec_hex_str_to_u64,
    spec_option_string_to_u64, strip_hex_prefixes, trim,
};

verus! {

/// A spreadsheet cell as the matrix reads it: empty, holding text (a text cell, or a number
/// written out as text), or holding something else without a text form.
#[derive(Debug, Clone)]
pub enum Cell {
    Empty,
    Text(String),
    Opaque,
}

impl Cell {
    /// The text of the cell, if it has one.
    pub open spec fn text(self) -> Option<Seq<char>> {
        match self {
            Cell::Text(s) => Some(s@),
            _ => None,
        }
    }

    /// The cell is empty.
    pub open spec fn blank(self) -> bool {
        self is Empty
    }
}

/// The view of an optional string.
pub open spec fn opt_chars(o: Option<String>) -> Option<Seq<char>> {
    match o {
        Some(s) => Some(s@),
        None => None,
    }
}

/// The text of a cell, if it has one.
pub fn cell_text(c: &Cell) -> (r: Option<String>)
    ensures
        opt_chars(r) == c.text(),
{
    match c {
        Cell::Text(s) => Some(s.clone()),
        _ => None,
    }
}

/// The error that a result holds, if any.
pub open spec fn err_of<T>(r: Result<T, ParseError>) -> Option<ParseError> {
    match r {
        Ok(_) => None,
        Err(e) => Some(e),
    }
}

/// The data type text that marks an unsigned signal.
pub open spec fn unsigned_word() -> Seq<char> {
    seq!['U', 'n', 's', 'i', 'g', 'n', 'e', 'd']
}

/// Where a signal lies in the CAN data of its message, and how its raw value is scaled.
/// The scaling quantities are kept as the decimal text of the matrix, which is known to
/// be text that `f64::from_str` accepts.
#[derive(Debug)]
pub struct Signal {
    pub signal_name: String,
    pub byte_index: u64,
    pub start_bit: u64,
    pub bit_length: u64,
    pub resolution: String,
    pub offset: String,
    pub min_value: String,
    pub max_value: String,
    pub is_signed: bool,
}

/// The first field of a signal row that cannot be read, if any, in the order they are read:
/// name, start bit, byte index, bit length, resolution, data type, offset, minimum, maximum.
pub open spec fn signal_error(row: Seq<Cell>) -> Option<ParseError> {
    if row[6].text() is None {
        Some(ParseError::MissingValue)
    } else if err_of(spec_option_string_to_u64(row[10].text())) is Some {
        err_of(spec_option_string_to_u64(row[10].text()))
    } else if err_of(spec_option_string_to_u64(row[9].text())) is Some {
        err_of(spec_option_string_to_u64(row[9].text()))
    } else if err_of(spec_option_string_to_u64(row[11].text())) is Some {
        err_of(spec_option_string_to_u64(row[11].text()))
    } else if err_of(spec_float_text(row[14].text())) is Some {
        err_of(spec_float_text(row[14].text()))
    } else if row[13].text() is None {
        Some(ParseError::MissingValue)
    } else if err_of(spec_float_text(row[15].text())) is Some {
        err_of(spec_float_text(row[15].text()))
    } else if err_of(spec_float_text(row[16].text())) is Some {
        err_of(spec_float_text(row[16].text()))
    } else {
        err_of(spec_float_text(row[17].text()))
    }
}

/// `sig` holds what the signal row `row` says: name in column 6, byte index in 9, start
/// bit in 10, bit length in 11, data type in 13, resolution, offset, minimum and maximum
/// in 14 to 17; a signal is signed unless its data type is `Unsigned`.
pub open spec fn signal_of_row(sig: Signal, row: Seq<Cell>) -> bool {
    &&& Some(sig.signal_name@) == row[6].text()
    &&& Ok::<u64, ParseError>(sig.start_bit) == spec_option_string_to_u64(row[10].text())
    &&& Ok::<u64, ParseError>(sig.byte_index) == spec_option_string_to_u64(row[9].text())
    &&& Ok::<u64, ParseError>(sig.bit_length) == spec_option_string_to_u64(row[11].text())
    &&& Ok::<Seq<char>, ParseError>(sig.resolution@) == spec_float_text(row[14].text())
    &&& Ok::<Seq<char>, ParseError>(sig.offset@) == spec_float_text(row[15].text())
    &&& Ok::<Seq<char>, ParseError>(sig.min_value@) == spec_float_text(row[16].text())
    &&& Ok::<Seq<char>, ParseError>(sig.max_value@) == spec_float_text(row[17].text())
    &&& sig.is_signed == (row[13].text() != Some(unsigned_word()))
}

/// Each field of a signal read from a row comes from its own column of the row: the name is
/// the text of column 6; the byte index, start bit and bit length are the decimal numbers in
/// columns 9, 10 and 11; resolution, offset, minimum and maximum are the trimmed float texts
/// of columns 14, 15, 16 and 17; and the signal is signed unless column 13 reads `Unsigned`.
pub proof fn lemma_signal_columns(sig: Signal, row: Seq<Cell>)
    requires
        signal_of_row(sig, row),
    ensures
        row[6].text() == Some(sig.signal_name@),
        row[9].text() matches Some(t) && parse_uint(trim(t), 10) == Some(sig.byte_index as nat),
        row[10].text() matches Some(t) && parse_uint(trim(t), 10) == Some(sig.start_bit as nat),
        row[11].text() matches Some(t) && parse_uint(trim(t), 10) == Some(sig.bit_length as nat),
        row[14].text() matches Some(t) && sig.resolution@ == trim(t) && is_float_literal(trim(t)),
        row[15].text() matches Some(t) && sig.offset@ == trim(t) && is_float_literal(trim(t)),
        row[16].text() matches Some(t) && sig.min_value@ == trim(t) && is_float_literal(trim(t)),
        row[17].text() matches Some(t) && sig.max_value@ == trim(t) && is_float_literal(trim(t)),
        sig.is_signed <==> row[13].text() != Some(seq!['U', 'n', 's', 'i', 'g', 'n', 'e', 'd']),
{
}

impl Signal {
    /// Reads a signal row of the matrix.
    pub fn try_from(value: &Vec<Cell>) -> (r: Result<Signal, ParseError>)
        requires
            value@.len() >= 18,
        ensures
            match signal_error(value@) {
                Some(e) => r matches Err(e2) && e2 == e,
                None => r matches Ok(s) && signal_of_row(s, value@),
            },
    {
        let signal_name = option_string_to_string(cell_text(&value[6]))?;
        let start_bit = option_string_to_t(cell_text(&value[10]))?;
        let byte_index = option_string_to_t(cell_text(&value[9]))?;
        let bit_length = option_string_to_t(cell_text(&value[11]))?;
        let resolution = option_string_to_float_text(cell_text(&value[14]))?;
        let data_type = option_string_to_string(cell_text(&value[13]))?;
        let offset = option_string_to_float_text(cell_text(&value[15]))?;
        let min_value = option_string_to_float_text(cell_text(&value[16]))?;
        let max_value = option_string_to_float_text(cell_text(&value[17]))?;
        let unsigned = vec!['U', 'n', 's', 'i', 'g', 'n', 'e', 'd'];
        assert(unsigned@ =~= unsigned_word());
        let is_unsigned = chars_equal(&chars_of(data_type.as_str()), &unsigned);
        Ok(Signal {
            signal_name,
            byte_index,
            start_bit,
            bit_length,
            resolution,
            offset,
            min_value,
            max_value,
            is_signed: !is_unsigned,
        })
    }
}

/// A message of the matrix with its signals.
#[derive(Debug)]
pub struct Message {
    pub msg_name: String,
    pub msg_id_str: String,
    pub msg_id: u64,
    pub msg_len: u64,
    pub signals: Vec<Signal>,
}

/// The first signal row among `rows` (indices into `table`) that cannot be read, if any.
pub open spec fn signals_error(table: Seq<Vec<Cell>>, rows: Seq<usize>) -> Option<ParseError>
    decreases rows.len(),
{
    if rows.len() == 0 {
        None
    } else if signal_error(table[rows[0] as int]@) is Some {
        signal_error(table[rows[0] as int]@)
    } else {
        signals_error(table, rows.drop_first())
    }
}

/// Every row index of `rows` lies in `table`.
pub open spec fn rows_in_table(table: Seq<Vec<Cell>>, rows: Seq<usize>) -> bool {
    forall|k: int| 0 <= k < rows.len() ==> #[trigger] rows[k] < table.len()
}

/// The first thing that stops the message row `msg` with signal rows `rows` from being read:
/// a row with fewer than 18 columns, then the name, id and length of the message, then its
/// signals in order.
pub open spec fn message_error(table: Seq<Vec<Cell>>, msg: usize, rows: Seq<usize>) -> Option<
    ParseError,
> {
    let m = table[msg as int]@;
    if m.len() < 18 || exists|k: int| 0 <= k < rows.len() && #[trigger] table[rows[k] as int]@.len() < 18 {
        Some(ParseError::InvalidData)
    } else if m[0].text() is None {
        Some(ParseError::MissingValue)
    } else if m[2].text() is None {
        Some(ParseError::MissingValue)
    } else if err_of(spec_hex_str_to_u64(m[2].text().unwrap())) is Some {
        err_of(spec_hex_str_to_u64(m[2].text().unwrap()))
    } else if err_of(spec_option_string_to_u64(m[5].text())) is Some {
        err_of(spec_option_string_to_u64(m[5].text()))
    } else {
        signals_error(table, rows)
    }
}

/// `m` holds what the message row `msg` and the signal rows `rows` say: name in column 0,
/// hexadecimal id in column 2, length in column 5, and one signal per signal row, in order.
pub open spec fn message_of_rows(m: Message, table: Seq<Vec<Cell>>, msg: usize, rows: Seq<usize>) -> bool {
    let row = table[msg as int]@;
    &&& Some(m.msg_name@) == row[0].text()
    &&& Some(m.msg_id_str@) == row[2].text()
    &&& Ok::<u64, ParseError>(m.msg_id) == spec_hex_str_to_u64(m.msg_id_str@)
    &&& Ok::<u64, ParseError>(m.msg_len) == spec_option_string_to_u64(row[5].text())
    &&& m.signals@.len() == rows.len()
    &&& forall|k: int| 0 <= k < rows.len() ==> signal_of_row(#[trigger] m.signals@[k], table[rows[k] as int]@)
}

/// A message read from its rows takes its name from column 0 of the message row, its id
/// text from column 2 (the id is that text read in hexadecimal after any leading `0x`),
/// its length from the decimal number in column 5, and one signal from each signal row,
/// in order.
pub proof fn lemma_message_columns(m: Message, table: Seq<Vec<Cell>>, msg: usize, rows: Seq<usize>)
    requires
        message_of_rows(m, table, msg, rows),
    ensures
        table[msg as int]@[0].text() == Some(m.msg_name@),
        table[msg as int]@[2].text() == Some(m.msg_id_str@),
        parse_uint(trim(strip_hex_prefixes(m.msg_id_str@)), 16) == Some(m.msg_id as nat),
        table[msg as int]@[5].text() matches Some(t) && parse_uint(trim(t), 10) == Some(
            m.msg_len as nat,
        ),
        m.signals@.len() == rows.len(),
        forall|k: int| 0 <= k < rows.len() ==> signal_of_row(#[trigger] m.signals@[k], table[rows[k] as int]@),
{
}

impl Message {
    /// Reads a message from its row `group.0` of `table` and its signal rows `group.1`.
    #[verifier::loop_isolation(false)]
    pub fn try_from(table: &Vec<Vec<Cell>>, group: &(usize, Vec<usize>)) -> (r: Result<Message, ParseError>)
        requires
            group.0 < table@.len(),
            rows_in_table(table@, group.1@),
        ensures
            match message_error(table@, group.0, group.1@) {
                Some(e) => r matches Err(e2) && e2 == e,
                None => r matches Ok(m) && message_of_rows(m, table@, group.0, group.1@),
            },
    {
        let msg_row = &table[group.0];
        let rows = &group.1;
        let mut short = msg_row.len() < 18;
        let mut k: usize = 0;
        while k < rows.len()
            invariant
                k <= rows@.len(),
                rows_in_table(table@, rows@),
                short == (table[group.0 as int]@.len() < 18 || exists|j: int|
                    0 <= j < k && #[trigger] table[rows[j] as int]@.len() < 18),
            decreases rows@.len() - k,
        {
            if table[rows[k]].len() < 18 {
                short = true;
            }
            k = k + 1;
        }
        if short {
            return Err(ParseError::InvalidData);
        }
        let msg_name = option_string_to_string(cell_text(&msg_row[0]))?;
        let msg_id_str = option_string_to_string(cell_text(&msg_row[2]))?;
        let msg_id = hex_str_to_u64(&msg_id_str)?;
        let msg_len = option_string_to_t(cell_text(&msg_row[5]))?;
        let mut signals: Vec<Signal> = Vec::new();
        let mut k: usize = 0;
        assert(rows@.skip(0) =~= rows@);
        while k < rows.len()
            invariant
                k <= rows@.len(),
                rows_in_table(table@, rows@),
                forall|j: int| 0 <= j < rows@.len() ==> #[trigger] table[rows[j] as int]@.len() >= 18,
                signals_error(table@, rows@) == signals_error(table@, rows@.skip(k as int)),
                signals@.len() == k,
                forall|j: int| 0 <= j < k ==> signal_of_row(#[trigger] signals@[j], table[rows[j] as int]@),
            decreases rows@.len() - k,
        {
            let ghost rest = rows@.skip(k as int);
            assert(rest.drop_first() =~= rows@.skip(k + 1));
            assert(rest[0] == rows@[k as int]);
            let sig = Signal::try_from(&table[rows[k]])?;
            signals.push(sig);
            k = k + 1;
        }
        assert(rows@.skip(k as int) =~= Seq::<usize>::empty());
        Ok(Message { msg_name, msg_id_str, msg_id, msg_len, signals })
    }
}


/// A row that starts a message: its first and third cells are not empty.
pub open spec fn msg_row(cols: Seq<Cell>) -> bool {
    cols.len() >= 3 && !cols[0].blank() && !cols[2].blank()
}

/// Whether a row starts a message. A row of exactly two cells is left out: its third
/// cell cannot be looked at.
pub fn is_msg_row(cols: &Vec<Cell>) -> (r: bool)
    requires
        cols@.len() != 2,
    ensures
        r == msg_row(cols@),
{
    if cols.len() < 2 {
        return false;
    }
    let c0 = &cols[0];
    let c2 = &cols[2];
    !matches!(c0, Cell::Empty) && !matches!(c2, Cell::Empty)
}

/// Whether a row belongs to the signals of the message above it.
pub fn is_signal_row(cols: &Vec<Cell>) -> (r: bool)
    requires
        cols@.len() != 2,
    ensures
        r == !msg_row(cols@),
{
    !is_msg_row(cols)
}

/// The groups found from position `i` of `rows` (indices into `table`) on, when `m` is the
/// position of the last message row seen: each message row is paired with the rows after it
/// up to the next message row. A message row is only paired when a later message row closes
/// its group, so the last message row starts no group; rows before the first message row
/// belong to no group.
pub open spec fn groups_from(table: Seq<Vec<Cell>>, rows: Seq<usize>, i: int, m: Option<int>) -> Seq<
    (usize, Seq<usize>),
>
    decreases rows.len() - i,
{
    if i >= rows.len() || i < 0 {
        seq![]
    } else if msg_row(table[rows[i] as int]@) {
        match m {
            None => groups_from(table, rows, i + 1, Some(i)),
            Some(mm) => seq![(rows[mm], rows.subrange(mm + 1, i))] + groups_from(
                table,
                rows,
                i + 1,
                Some(i),
            ),
        }
    } else {
        groups_from(table, rows, i + 1, m)
    }
}

/// The message groups of the rows `rows` of `table`.
pub open spec fn metadata_groups(table: Seq<Vec<Cell>>, rows: Seq<usize>) -> Seq<(usize, Seq<usize>)> {
    groups_from(table, rows, 0, None)
}

/// Every row that `rows` names has a column count other than two.
pub open spec fn rows_not_two_wide(table: Seq<Vec<Cell>>, rows: Seq<usize>) -> bool {
    forall|k: int| 0 <= k < rows.len() ==> #[trigger] table[rows[k] as int]@.len() != 2
}

/// Splits the rows `rows` of `table` into message groups: each message row with the
/// signal rows that follow it.
pub fn get_metadata_groups(table: &Vec<Vec<Cell>>, rows: &Vec<usize>) -> (r: Vec<(usize, Vec<usize>)>)
    requires
        rows_in_table(table@, rows@),
        rows_not_two_wide(table@, rows@),
    ensures
        r@.len() == metadata_groups(table@, rows@).len(),
        forall|k: int|
            0 <= k < r@.len() ==> (#[trigger] r@[k]).0 == metadata_groups(table@, rows@)[k].0
                && r@[k].1@ == metadata_groups(table@, rows@)[k].1,
{
    let mut v: Vec<(usize, Vec<usize>)> = Vec::new();
    let mut msg_index: Option<usize> = None;
    let mut signals: Vec<usize> = Vec::new();
    let ghost mut done: Seq<(usize, Seq<usize>)> = seq![];
    let mut i: usize = 0;
    while i < rows.len()
        invariant
            i <= rows@.len(),
            rows_in_table(table@, rows@),
            rows_not_two_wide(table@, rows@),
            v@.len() == done.len(),
            forall|k: int| 0 <= k < v@.len() ==> (#[trigger] v@[k]).0 == done[k].0 && v@[k].1@ == done[k].1,
            done + groups_from(
                table@,
                rows@,
                i as int,
                match msg_index {
                    Some(mm) => Some(mm as int),
                    None => None,
                },
            ) == metadata_groups(table@, rows@),
            match msg_index {
                Some(mm) => mm < i && signals@ == rows@.subrange(mm + 1, i as int),
                None => signals@.len() == 0,
            },
        decreases rows@.len() - i,
    {
        let row = &table[rows[i]];
        match msg_index {
            None => {
                if is_msg_row(row) {
                    msg_index = Some(i);
                    assert(signals@ =~= rows@.subrange(i + 1, i + 1));
                }
            },
            Some(mm) => {
                if is_signal_row(row) {
                    signals.push(rows[i]);
                    assert(signals@ =~= rows@.subrange(mm + 1, i + 1));
                } else {
                    let ghost g = (rows@[mm as int], rows@.subrange(mm + 1, i as int));
                    let group = (rows[mm], signals);
                    v.push(group);
                    signals = Vec::new();
                    msg_index = Some(i);
                    proof {
                        assert(done + (seq![g] + groups_from(table@, rows@, i + 1, Some(i as int)))
                            =~= done.push(g) + groups_from(table@, rows@, i + 1, Some(i as int)));
                        done = done.push(g);
                    }
                    assert(signals@ =~= rows@.subrange(i + 1, i + 1));
                }
            },
        }
        i = i + 1;
    }
    assert(done =~= metadata_groups(table@, rows@));
    v
}

/// A row that belongs to the matrix: its column 24 holds the text `s` or `r`.
pub open spec fn matrix_row(row: Seq<Cell>) -> bool {
    row[24].text() == Some(seq!['s']) || row[24].text() == Some(seq!['r'])
}

/// The indices of the first `n` rows of `table` that belong to the matrix, in order.
pub open spec fn matrix_rows_upto(table: Seq<Vec<Cell>>, n: int) -> Seq<usize>
    decreases n,
{
    if n <= 0 {
        seq![]
    } else if matrix_row(table[n - 1]@) {
        matrix_rows_upto(table, n - 1).push((n - 1) as usize)
    } else {
        matrix_rows_upto(table, n - 1)
    }
}

/// The indices of the rows of `table` that belong to the matrix, in order.
pub open spec fn matrix_rows(table: Seq<Vec<Cell>>) -> Seq<usize> {
    matrix_rows_upto(table, table.len() as int)
}

/// Every row of `table` has at least 25 columns.
pub open spec fn table_wide_enough(table: Seq<Vec<Cell>>) -> bool {
    forall|i: int| 0 <= i < table.len() ==> #[trigger] table[i]@.len() > 24
}

proof fn lemma_matrix_rows_in_table(table: Seq<Vec<Cell>>, n: int)
    requires
        0 <= n <= table.len(),
    ensures
        forall|k: int| 0 <= k < matrix_rows_upto(table, n).len() ==> #[trigger] matrix_rows_upto(table, n)[k] < n,
    decreases n,
{
    if n > 0 {
        lemma_matrix_rows_in_table(table, n - 1);
        let prev = matrix_rows_upto(table, n - 1);
        assert forall|k: int| 0 <= k < matrix_rows_upto(table, n).len() implies #[trigger] matrix_rows_upto(table, n)[k] < n by {
            if k < prev.len() {
                assert(matrix_rows_upto(table, n)[k] == prev[k]);
            }
        }
    }
}

/// The indices of the rows of `table` that belong to the matrix.
pub fn select_matrix_rows(table: &Vec<Vec<Cell>>) -> (r: Vec<usize>)
    requires
        table_wide_enough(table@),
    ensures
        r@ == matrix_rows(table@),
{
    let mut out: Vec<usize> = Vec::new();
    let mut i: usize = 0;
    let s = vec!['s'];
    let rr = vec!['r'];
    assert(s@ =~= seq!['s']);
    assert(rr@ =~= seq!['r']);
    while i < table.len()
        invariant
            i <= table@.len(),
            table_wide_enough(table@),
            s@ == seq!['s'],
            rr@ == seq!['r'],
            out@ == matrix_rows_upto(table@, i as int),
        decreases table@.len() - i,
    {
        let keep = match &table[i][24] {
            Cell::Text(t) => {
                let cs = chars_of(t.as_str());
                chars_equal(&cs, &s) || chars_equal(&cs, &rr)
            },
            _ => false,
        };
        if keep {
            out.push(i);
        }
        i = i + 1;
    }
    out
}

/// The first message group of `groups` that cannot be read, if any.
pub open spec fn messages_error(table: Seq<Vec<Cell>>, groups: Seq<(usize, Seq<usize>)>) -> Option<
    ParseError,
>
    decreases groups.len(),
{
    if groups.len() == 0 {
        None
    } else if message_error(table, groups[0].0, groups[0].1) is Some {
        message_error(table, groups[0].0, groups[0].1)
    } else {
        messages_error(table, groups.drop_first())
    }
}

/// All the messages of the CAN matrix.
#[derive(Debug)]
pub struct Matrix {
    pub msg_s: Vec<Message>,
}

/// Every group is a row of `table` with signal rows of `table`.
pub open spec fn groups_in_table(table: Seq<Vec<Cell>>, gs: Seq<(usize, Seq<usize>)>) -> bool {
    forall|k: int| 0 <= k < gs.len() ==> #[trigger] gs[k].0 < table.len() && rows_in_table(table, gs[k].1)
}

proof fn lemma_groups_in_table(table: Seq<Vec<Cell>>, rows: Seq<usize>, i: int, m: Option<int>)
    requires
        rows_in_table(table, rows),
        m matches Some(mm) ==> 0 <= mm < i,
    ensures
        groups_in_table(table, groups_from(table, rows, i, m)),
    decreases rows.len() - i,
{
    if i >= rows.len() || i < 0 {
    } else if msg_row(table[rows[i] as int]@) {
        lemma_groups_in_table(table, rows, i + 1, Some(i));
        let rest = groups_from(table, rows, i + 1, Some(i));
        match m {
            None => {
                assert(groups_from(table, rows, i, m) == rest);
            },
            Some(mm) => {
                let g = (rows[mm], rows.subrange(mm + 1, i));
                assert(g.0 < table.len());
                assert(rows_in_table(table, g.1)) by {
                    assert forall|j: int| 0 <= j < g.1.len() implies #[trigger] g.1[j] < table.len() by {
                        assert(g.1[j] == rows[mm + 1 + j]);
                    }
                }
                let all = groups_from(table, rows, i, m);
                assert(all == seq![g] + rest);
                assert forall|k: int| 0 <= k < all.len() implies #[trigger] all[k].0 < table.len()
                    && rows_in_table(table, all[k].1) by {
                    if k > 0 {
                        assert(all[k] == rest[k - 1]);
                    } else {
                        assert(all[k] == g);
                    }
                }
            },
        }
    } else {
        lemma_groups_in_table(table, rows, i + 1, m);
        assert(groups_from(table, rows, i, m) == groups_from(table, rows, i + 1, m));
    }
}

impl Matrix {
    /// Reads the matrix from a table of cells: keeps the rows marked `s` or `r` in column 24,
    /// splits them into message groups and reads each message, stopping at the first that
    /// cannot be read.
    #[verifier::loop_isolation(false)]
    pub fn from_rows(table: &Vec<Vec<Cell>>) -> (r: Result<Matrix, ParseError>)
        requires
            table_wide_enough(table@),
        ensures
            ({
                let groups = metadata_groups(table@, matrix_rows(table@));
                match messages_error(table@, groups) {
                    Some(e) => r matches Err(e2) && e2 == e,
                    None => r matches Ok(mat) && mat.msg_s@.len() == groups.len() && forall|k: int|
                        0 <= k < groups.len() ==> message_of_rows(
                            #[trigger] mat.msg_s@[k],
                            table@,
                            groups[k].0,
                            groups[k].1,
                        ),
                }
            }),
    {
        let rows = select_matrix_rows(table);
        proof {
            lemma_matrix_rows_in_table(table@, table@.len() as int);
            lemma_groups_in_table(table@, rows@, 0, None);
        }
        let groups = get_metadata_groups(table, &rows);
        let ghost gs = metadata_groups(table@, rows@);
        let mut msg_s: Vec<Message> = Vec::new();
        let mut k: usize = 0;
        assert(gs.skip(0) =~= gs);
        while k < groups.len()
            invariant
                k <= groups@.len(),
                groups@.len() == gs.len(),
                forall|j: int| 0 <= j < groups@.len() ==> (#[trigger] groups@[j]).0 == gs[j].0 && groups@[j].1@ == gs[j].1,
                groups_in_table(table@, gs),
                messages_error(table@, gs) == messages_error(table@, gs.skip(k as int)),
                msg_s@.len() == k,
                forall|j: int| 0 <= j < k ==> message_of_rows(#[trigger] msg_s@[j], table@, gs[j].0, gs[j].1),
            decreases groups@.len() - k,
        {
            let ghost rest = gs.skip(k as int);
            assert(rest.drop_first() =~= gs.skip(k + 1));
            assert(rest[0] == gs[k as int]);
            let m = Message::try_from(table, &groups[k])?;
            msg_s.push(m);
            k = k + 1;
        }
        assert(gs.skip(k as int) =~= Seq::<(usize, Seq<usize>)>::empty());
        Ok(Matrix { msg_s })
    }
}


/// Each group of `groups` starts at a message row, and its signal rows are not message rows.
pub open spec fn groups_well_shaped(table: Seq<Vec<Cell>>, gs: Seq<(usize, Seq<usize>)>) -> bool {
    forall|k: int|
        0 <= k < gs.len() ==> {
            let g = #[trigger] gs[k];
            &&& msg_row(table[g.0 as int]@)
            &&& forall|j: int| 0 <= j < g.1.len() ==> !msg_row(#[trigger] table[g.1[j] as int]@)
        }
}

proof fn lemma_groups_shape(table: Seq<Vec<Cell>>, rows: Seq<usize>, i: int, m: Option<int>)
    requires
        0 <= i,
        m matches Some(mm) ==> {
            &&& 0 <= mm < i <= rows.len()
            &&& msg_row(table[rows[mm] as int]@)
            &&& forall|j: int| mm < j < i ==> !msg_row(#[trigger] table[rows[j] as int]@)
        },
    ensures
        groups_well_shaped(table, groups_from(table, rows, i, m)),
    decreases rows.len() - i,
{
    if i < rows.len() {
        if msg_row(table[rows[i] as int]@) {
            lemma_groups_shape(table, rows, i + 1, Some(i));
            match m {
                None => {},
                Some(mm) => {
                    let g = (rows[mm], rows.subrange(mm + 1, i));
                    let rest = groups_from(table, rows, i + 1, Some(i));
                    let all = groups_from(table, rows, i, m);
                    assert(all == seq![g] + rest);
                    assert forall|k: int| 0 <= k < all.len() implies {
                        let g2 = #[trigger] all[k];
                        &&& msg_row(table[g2.0 as int]@)
                        &&& forall|j: int| 0 <= j < g2.1.len() ==> !msg_row(#[trigger] table[g2.1[j] as int]@)
                    } by {
                        if k > 0 {
                            assert(all[k] == rest[k - 1]);
                        } else {
                            assert(all[k] == g);
                            assert forall|j: int| 0 <= j < g.1.len() implies !msg_row(
                                #[trigger] table[g.1[j] as int]@,
                            ) by {
                                assert(g.1[j] == rows[mm + 1 + j]);
                            }
                        }
                    }
                },
            }
        } else {
            lemma_groups_shape(table, rows, i + 1, m);
        }
    }
}

/// Every message group starts at a message row, and none of its signal rows is a message row.
pub proof fn lemma_metadata_groups_shape(table: Seq<Vec<Cell>>, rows: Seq<usize>)
    ensures
        groups_well_shaped(table, metadata_groups(table, rows)),
{
    lemma_groups_shape(table, rows, 0, None);
}

/// The position of the first message of `msg_s` with id `msg_id`, if any.
pub open spec fn first_message_with_id(msg_s: Seq<Message>, msg_id: u64) -> Option<int>
    decreases msg_s.len(),
{
    if msg_s.len() == 0 {
        None
    } else if msg_s[0].msg_id == msg_id {
        Some(0)
    } else {
        match first_message_with_id(msg_s.drop_first(), msg_id) {
            Some(i) => Some(i + 1),
            None => None,
        }
    }
}

proof fn lemma_first_message_with_id(msg_s: Seq<Message>, msg_id: u64, k: int)
    requires
        0 <= k <= msg_s.len(),
        forall|j: int| 0 <= j < k ==> msg_s[j].msg_id != msg_id,
    ensures
        k < msg_s.len() && msg_s[k].msg_id == msg_id ==> first_message_with_id(msg_s, msg_id) == Some(k),
        k == msg_s.len() ==> first_message_with_id(msg_s, msg_id) is None,
    decreases k,
{
    if k > 0 {
        let t = msg_s.drop_first();
        assert forall|j: int| 0 <= j < k - 1 implies t[j].msg_id != msg_id by {
            assert(t[j] == msg_s[j + 1]);
        }
        lemma_first_message_with_id(t, msg_id, k - 1);
    }
}

/// The position of the first message with id `msg_id`, as `iter().find` gives it.
pub fn find_message(msg_s: &Vec<Message>, msg_id: u64) -> (r: Option<usize>)
    ensures
        first_message_with_id(msg_s@, msg_id) == match r {
            Some(i) => Some(i as int),
            None => None::<int>,
        },
        r matches Some(i) ==> i < msg_s@.len() && msg_s@[i as int].msg_id == msg_id,
{
    let mut i: usize = 0;
    while i < msg_s.len()
        invariant
            i <= msg_s@.len(),
            forall|j: int| 0 <= j < i ==> msg_s@[j].msg_id != msg_id,
        decreases msg_s@.len() - i,
    {
        if msg_s[i].msg_id == msg_id {
            proof {
                lemma_first_message_with_id(msg_s@, msg_id, i as int);
            }
            return Some(i);
        }
        i = i + 1;
    }
    proof {
        lemma_first_message_with_id(msg_s@, msg_id, i as int);
    }
    None
}

/// The signal can be read from CAN data of `len` bytes.
pub open spec fn signal_fits(sig: Signal, len: int) -> bool {
    msb_field_fits(len, sig.byte_index as int, sig.start_bit as int, sig.bit_length as int)
}

/// Every signal of `sigs` can be read from CAN data of `len` bytes.
pub open spec fn signals_fit(sigs: Seq<Signal>, len: int) -> bool {
    forall|k: int| 0 <= k < sigs.len() ==> signal_fits(#[trigger] sigs[k], len)
}

/// Whether the signal can be read from CAN data of `len` bytes.
pub fn signal_fits_len(sig: &Signal, len: usize) -> (r: bool)
    ensures
        r == signal_fits(*sig, len as int),
{
    if sig.bit_length < 1 || sig.bit_length > 64 {
        return false;
    }
    let span_bits = sig.bit_length + 7 - sig.start_bit % 8;
    if span_bits > 64 {
        return false;
    }
    let span_bytes = (span_bits + 7) / 8;
    (sig.byte_index as u128) + (span_bytes as u128) <= len as u128
}

/// Whether every signal of `sigs` can be read from CAN data of `len` bytes.
pub fn signals_fit_len(sigs: &Vec<Signal>, len: usize) -> (r: bool)
    ensures
        r == signals_fit(sigs@, len as int),
{
    let mut k: usize = 0;
    while k < sigs.len()
        invariant
            k <= sigs@.len(),
            forall|j: int| 0 <= j < k ==> signal_fits(#[trigger] sigs@[j], len as int),
        decreases sigs@.len() - k,
    {
        if !signal_fits_len(&sigs[k], len) {
            return false;
        }
        k = k + 1;
    }
    true
}

/// The raw value of `sig` in the CAN data `buf`.
pub open spec fn raw_value(buf: Seq<u8>, sig: Signal) -> nat {
    motorola_msb_value(buf, sig.byte_index as int, sig.start_bit as int, sig.bit_length as int)
}

/// The raw value of each signal of `sigs` in the CAN data `buf`, in order.
pub fn raw_signal_values(buf: &[u8], sigs: &Vec<Signal>) -> (r: Vec<u64>)
    requires
        signals_fit(sigs@, buf@.len() as int),
    ensures
        r@.len() == sigs@.len(),
        forall|k: int| 0 <= k < sigs@.len() ==> #[trigger] r@[k] == raw_value(buf@, sigs@[k]),
{
    let mut out: Vec<u64> = Vec::new();
    let mut k: usize = 0;
    let n = buf.len();
    while k < sigs.len()
        invariant
            k <= sigs@.len(),
            n == buf@.len(),
            signals_fit(sigs@, buf@.len() as int),
            out@.len() == k,
            forall|j: int| 0 <= j < k ==> #[trigger] out@[j] == raw_value(buf@, sigs@[j]),
        decreases sigs@.len() - k,
    {
        let sig = &sigs[k];
        assert(signal_fits(*sig, buf@.len() as int));
        let start = (sig.start_bit % 8) as usize;
        assert(start as int % 8 == sig.start_bit as int % 8);
        assert(motorola_msb_value(buf@, sig.byte_index as int, start as int, sig.bit_length as int)
            == raw_value(buf@, *sig));
        let v = motorola_msb_get(buf, sig.byte_index as usize, start, sig.bit_length as usize, sig.is_signed);
        out.push(v);
        k = k + 1;
    }
    out
}

/// The message found for an id is the first one with that id: it has the id and no earlier
/// message has it; none is found exactly when no message has the id.
pub proof fn lemma_first_message_is_first(msg_s: Seq<Message>, msg_id: u64)
    ensures
        first_message_with_id(msg_s, msg_id) matches Some(i) ==> {
            &&& 0 <= i < msg_s.len()
            &&& msg_s[i].msg_id == msg_id
            &&& forall|j: int| 0 <= j < i ==> #[trigger] msg_s[j].msg_id != msg_id
        },
        first_message_with_id(msg_s, msg_id) is None <==> forall|j: int|
            0 <= j < msg_s.len() ==> #[trigger] msg_s[j].msg_id != msg_id,
    decreases msg_s.len(),
{
    if msg_s.len() > 0 {
        let t = msg_s.drop_first();
        lemma_first_message_is_first(t, msg_id);
        assert forall|j: int| 1 <= j < msg_s.len() implies msg_s[j] == t[j - 1] by {}
        if msg_s[0].msg_id != msg_id {
            if first_message_with_id(t, msg_id) is None {
                assert forall|j: int| 0 <= j < msg_s.len() implies #[trigger] msg_s[j].msg_id != msg_id by {
                    if j > 0 {
                        assert(msg_s[j] == t[j - 1]);
                    }
                }
            } else {
                let i = first_message_with_id(t, msg_id)->Some_0;
                assert(msg_s[i + 1] == t[i]);
                assert forall|j: int| 0 <= j < i + 1 implies #[trigger] msg_s[j].msg_id != msg_id by {
                    if j > 0 {
                        assert(msg_s[j] == t[j - 1]);
                    }
                }
            }
        }
    }
}

/// The raw value of a signal is the Motorola field of the data at the signal's byte index and
/// start bit, as many bits long as the signal.
pub proof fn lemma_raw_value_field(buf: Seq<u8>, sig: Signal)
    ensures
        raw_value(buf, sig) == motorola_msb_value(
            buf,
            sig.byte_index as int,
            sig.start_bit as int,
            sig.bit_length as int,
        ),
{
}

/// The rows of the matrix are exactly the rows whose column 24 reads `s` or `r`, in table
/// order; a row starts a message exactly when it has at least three cells and neither its
/// first nor its third cell is empty.
pub proof fn lemma_matrix_rows(table: Seq<Vec<Cell>>, cols: Seq<Cell>)
    requires
        table.len() <= usize::MAX,
    ensures
        forall|i: int|
            0 <= i < matrix_rows(table).len() ==> #[trigger] matrix_rows(table)[i] < table.len() && (
            table[matrix_rows(table)[i] as int]@[24].text() == Some(seq!['s'])
                || table[matrix_rows(table)[i] as int]@[24].text() == Some(seq!['r'])),
        forall|i: int, j: int|
            0 <= i < j < matrix_rows(table).len() ==> #[trigger] matrix_rows(table)[i]
                < #[trigger] matrix_rows(table)[j],
        forall|k: int|
            0 <= k < table.len() && (table[k]@[24].text() == Some(seq!['s']) || table[k]@[24].text()
                == Some(seq!['r'])) ==> #[trigger] matrix_rows(table).contains(k as usize),
        msg_row(cols) <==> (cols.len() >= 3 && !(cols[0] is Empty) && !(cols[2] is Empty)),
{
    lemma_matrix_rows_upto(table, table.len() as int);
}

proof fn lemma_matrix_rows_upto(table: Seq<Vec<Cell>>, n: int)
    requires
        0 <= n <= table.len(),
        table.len() <= usize::MAX,
    ensures
        forall|i: int|
            0 <= i < matrix_rows_upto(table, n).len() ==> #[trigger] matrix_rows_upto(table, n)[i]
                < n && matrix_row(table[matrix_rows_upto(table, n)[i] as int]@),
        forall|i: int, j: int|
            0 <= i < j < matrix_rows_upto(table, n).len() ==> #[trigger] matrix_rows_upto(table, n)[i]
                < #[trigger] matrix_rows_upto(table, n)[j],
        forall|k: int|
            0 <= k < n && matrix_row(table[k]@) ==> #[trigger] matrix_rows_upto(table, n).contains(
                k as usize,
            ),
    decreases n,
{
    if n > 0 {
        lemma_matrix_rows_upto(table, n - 1);
        let prev = matrix_rows_upto(table, n - 1);
        let cur = matrix_rows_upto(table, n);
        if matrix_row(table[n - 1]@) {
            assert(cur == prev.push((n - 1) as usize));
            assert forall|k: int| 0 <= k < n && matrix_row(table[k]@) implies #[trigger] cur.contains(
                k as usize,
            ) by {
                if k < n - 1 {
                    assert(prev.contains(k as usize));
                    let w = choose|w: int| 0 <= w < prev.len() && prev[w] == k as usize;
                    assert(cur[w] == prev[w]);
                } else {
                    assert(cur[prev.len() as int] == (n - 1) as usize);
                }
            }
            assert forall|i: int, j: int| 0 <= i < j < cur.len() implies #[trigger] cur[i] < #[trigger] cur[j] by {
                if j < prev.len() {
                    assert(cur[i] == prev[i] && cur[j] == prev[j]);
                    assert(prev[i] < prev[j]);
                } else {
                    assert(cur[i] == prev[i]);
                    assert(prev[i] < n - 1);
                    assert(cur[j] == (n - 1) as usize);
                }
            }
            assert forall|i: int| 0 <= i < cur.len() implies #[trigger] cur[i] < n && matrix_row(
                table[cur[i] as int]@,
            ) by {
                if i < prev.len() {
                    assert(cur[i] == prev[i]);
                    assert(prev[i] < n - 1 && matrix_row(table[prev[i] as int]@));
                } else {
                    assert(cur[i] == (n - 1) as usize);
                }
            }
        } else {
            assert(cur == prev);
            assert forall|k: int| 0 <= k < n && matrix_row(table[k]@) implies #[trigger] cur.contains(
                k as usize,
            ) by {
                assert(k < n - 1);
            }
        }
    }
}

} // verus!
