//! The message list of the DBC viewer: each message is listed as its name followed by its
//! id in upper-case hexadecimal, and a selected entry is matched back by its name.

use vstd::prelude::*;
use can_dbc::Dbc;
use crate::text::{chars_equal, chars_of, first_of, hex_digit_char, hex_text, string_from_chars};

verus! {

/// The list entry of a message: its name, then `(0X`, its id in upper-case hexadecimal,
/// and `)`.
pub open spec fn message_entry_text(name: Seq<char>, id: u32) -> Seq<char> {
    name + seq!['(', '0', 'X'] + hex_text(id as nat, true) + seq![')']
}

/// The name part of a list entry: everything before its first `(`, or all of it.
pub open spec fn entry_name(entry: Seq<char>) -> Seq<char> {
    entry.take(first_of(entry, '(', '('))
}

/// Selecting the list entry of a message gives back its name, when the name holds no `(`.
pub proof fn lemma_entry_name_of_entry(name: Seq<char>, id: u32)
    requires
        forall|i: int| 0 <= i < name.len() ==> name[i] != '(',
    ensures
        entry_name(message_entry_text(name, id)) == name,
{
    let e = message_entry_text(name, id);
    assert(e[name.len() as int] == '(');
    assert forall|i: int| 0 <= i < name.len() implies e[i] != '(' && e[i] != '(' by {
        assert(e[i] == name[i]);
    }
    crate::text::lemma_first_of_is(e, '(', '(', name.len() as int);
    assert(e.take(name.len() as int) =~= name);
}

fn hex_char(d: u32) -> (c: char)
    requires
        d < 16,
    ensures
        c == hex_digit_char(d as nat, true),
{
    let digits = vec!['0', '1', '2', '3', '4', '5', '6', '7', '8', '9', 'A', 'B', 'C', 'D', 'E', 'F'];
    assert(digits@ =~= Seq::new(16, |i: int| hex_digit_char(i as nat, true)));
    digits[d as usize]
}

/// `n` in upper-case hexadecimal.
pub fn to_hex_upper(n: u32) -> (r: Vec<char>)
    ensures
        r@ == hex_text(n as nat, true),
    decreases n,
{
    if n < 16 {
        let mut v = Vec::new();
        v.push(hex_char(n));
        assert(v@ =~= seq![hex_digit_char(n as nat, true)]);
        v
    } else {
        let mut v = to_hex_upper(n / 16);
        v.push(hex_char(n % 16));
        v
    }
}

/// The list entry of a message with name `name` and raw id `id`.
pub fn message_entry(name: &String, id: u32) -> (r: String)
    ensures
        r@ == message_entry_text(name@, id),
{
    let mut v = chars_of(name.as_str());
    v.push('(');
    v.push('0');
    v.push('X');
    let hex = to_hex_upper(id);
    let mut k: usize = 0;
    let ghost start = v@;
    while k < hex.len()
        invariant
            k <= hex@.len(),
            v@ == start + hex@.take(k as int),
        decreases hex@.len() - k,
    {
        v.push(hex[k]);
        assert(hex@.take(k + 1) =~= hex@.take(k as int).push(hex@[k as int]));
        k = k + 1;
    }
    v.push(')');
    assert(hex@.take(k as int) =~= hex@);
    assert(v@ =~= message_entry_text(name@, id));
    string_from_chars(&v, 0, v.len())
}

/// The message name of a selected list entry.
pub fn entry_message_name(entry: &String) -> (r: String)
    ensures
        r@ == entry_name(entry@),
{
    let v = chars_of(entry.as_str());
    let mut k: usize = 0;
    while k < v.len() && v[k] != '('
        invariant
            k <= v@.len(),
            forall|j: int| 0 <= j < k ==> v@[j] != '(',
        decreases v@.len() - k,
    {
        k = k + 1;
    }
    proof {
        crate::text::lemma_first_of_is(v@, '(', '(', k as int);
    }
    assert(v@.subrange(0, k as int) =~= v@.take(k as int));
    string_from_chars(&v, 0, k)
}

/// The name and raw id of each message that `can_dbc` reads from the text of a DBC file, in
/// file order; `None` where it refuses the text.
pub uninterp spec fn dbc_messages(text: Seq<char>) -> Option<Seq<(Seq<char>, u32)>>;

/// The views of a list of message names and ids.
pub open spec fn message_views(ms: Seq<(String, u32)>) -> Seq<(Seq<char>, u32)> {
    ms.map_values(|p: (String, u32)| (p.0@, p.1))
}

/// `Dbc::try_from` of `can_dbc` on the text of a DBC file, with the name and the
/// `MessageId::raw` of each message it holds. Which texts the DBC grammar accepts, and what
/// it reads from them, is not stated: the result is the name above.
#[verifier::external_body]
fn parse_dbc_messages(text: &str) -> (r: Option<Vec<(String, u32)>>)
    ensures
        match r {
            None => dbc_messages(text@) is None,
            Some(v) => dbc_messages(text@) == Some(message_views(v@)),
        },
{
    let dbc = Dbc::try_from(text).ok()?;
    Some(dbc.messages.into_iter().map(|m| (m.name, m.id.raw())).collect())
}

/// The text shown in place of the list for a DBC text that cannot be read.
pub open spec fn unreadable_text() -> Seq<char> {
    seq![
        'd', 'b', 'c', ' ', 'd', 'o', 'e', 's', ' ', 'n', 'o', 't', ' ', 's', 'u', 'p', 'p', 'o',
        'r', 't', ' ', 'r', 'e', 'a', 'd', 'i', 'n', 'g',
    ]
}

/// The list entries for the messages `ms`, in order.
pub open spec fn entries_of(ms: Seq<(Seq<char>, u32)>) -> Seq<Seq<char>> {
    Seq::new(ms.len(), |k: int| message_entry_text(ms[k].0, ms[k].1))
}

/// The views of a list of strings.
pub open spec fn string_views(v: Seq<String>) -> Seq<Seq<char>> {
    v.map_values(|s: String| s@)
}

/// The message list for a loaded DBC file: one entry per message, in order; or, where the
/// file could not be loaded, its error text alone.
pub fn message_list_of(loaded: &Result<Vec<(String, u32)>, String>) -> (r: Vec<String>)
    ensures
        match loaded {
            Ok(ms) => string_views(r@) == entries_of(message_views(ms@)),
            Err(e) => string_views(r@) == seq![e@],
        },
{
    match loaded {
        Err(e) => {
            let mut v = Vec::new();
            v.push(e.clone());
            assert(string_views(v@) =~= seq![e@]);
            v
        },
        Ok(ms) => {
            let mut v: Vec<String> = Vec::new();
            let mut k: usize = 0;
            while k < ms.len()
                invariant
                    k <= ms@.len(),
                    string_views(v@) == entries_of(message_views(ms@)).take(k as int),
                decreases ms@.len() - k,
            {
                let e = message_entry(&ms[k].0, ms[k].1);
                let ghost before = string_views(v@);
                v.push(e);
                assert(string_views(v@) =~= before.push(e@));
                assert(entries_of(message_views(ms@)).take(k + 1) =~= entries_of(message_views(ms@)).take(
                    k as int,
                ).push(e@));
                k = k + 1;
            }
            assert(entries_of(message_views(ms@)).take(k as int) =~= entries_of(message_views(ms@)));
            v
        },
    }
}

/// The message list for a DBC file: `text` is its text, or the error met while reading it.
/// A text that `can_dbc` refuses gives the single entry `dbc does not support reading`.
pub fn message_list(text: &Result<String, String>) -> (r: Vec<String>)
    ensures
        match text {
            Err(e) => string_views(r@) == seq![e@],
            Ok(t) => match dbc_messages(t@) {
                None => string_views(r@) == seq![unreadable_text()],
                Some(ms) => string_views(r@) == entries_of(ms),
            },
        },
{
    let loaded: Result<Vec<(String, u32)>, String> = match text {
        Err(e) => Err(e.clone()),
        Ok(t) => match parse_dbc_messages(t.as_str()) {
            Some(ms) => Ok(ms),
            None => {
                let msg = vec![
                    'd', 'b', 'c', ' ', 'd', 'o', 'e', 's', ' ', 'n', 'o', 't', ' ', 's', 'u', 'p',
                    'p', 'o', 'r', 't', ' ', 'r', 'e', 'a', 'd', 'i', 'n', 'g',
                ];
                assert(msg@.subrange(0, msg@.len() as int) =~= unreadable_text());
                Err(string_from_chars(&msg, 0, msg.len()))
            },
        },
    };
    message_list_of(&loaded)
}

/// The positions of the messages that a selected list entry stands for: those whose name is
/// the entry's name part, in order.
pub open spec fn selected_positions(names: Seq<Seq<char>>, entry: Seq<char>) -> Seq<int>
    decreases names.len(),
{
    if names.len() == 0 {
        seq![]
    } else {
        let rest = selected_positions(names.drop_last(), entry);
        if names.last() == entry_name(entry) {
            rest.push(names.len() - 1)
        } else {
            rest
        }
    }
}

/// The positions of the messages named `names` that the selected entry `entry` stands for.
pub fn selected_messages(names: &Vec<String>, entry: &String) -> (r: Vec<usize>)
    ensures
        r@.map_values(|k: usize| k as int) == selected_positions(string_views(names@), entry@),
{
    let name = entry_message_name(entry);
    let target = chars_of(name.as_str());
    let mut out: Vec<usize> = Vec::new();
    let mut k: usize = 0;
    while k < names.len()
        invariant
            k <= names@.len(),
            target@ == entry_name(entry@),
            out@.map_values(|j: usize| j as int) == selected_positions(string_views(names@).take(k as int), entry@),
        decreases names@.len() - k,
    {
        let cs = chars_of(names[k].as_str());
        let ghost before = string_views(names@).take(k as int);
        let ghost after = string_views(names@).take(k + 1);
        assert(after.drop_last() =~= before);
        assert(after.last() == names@[k as int]@);
        if chars_equal(&cs, &target) {
            let ghost prev = out@.map_values(|j: usize| j as int);
            out.push(k);
            assert(out@.map_values(|j: usize| j as int) =~= prev.push(k as int));
        }
        k = k + 1;
    }
    assert(string_views(names@).take(k as int) =~= string_views(names@));
    out
}

} // verus!
