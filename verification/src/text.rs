//! Text handling: whitespace trimming, word splitting, substring search and the
//! decimal and hexadecimal number formats read from spreadsheets and traces.

use vstd::prelude::*;
use crate::error::ParseError;

verus! {

/// Unicode `White_Space`, the set that `char::is_whitespace` documents.
pub open spec fn is_ws(c: char) -> bool {
    ||| ('\u{9}' <= c && c <= '\u{d}')
    ||| c == ' '
    ||| c == '\u{85}'
    ||| c == '\u{a0}'
    ||| c == '\u{1680}'
    ||| ('\u{2000}' <= c && c <= '\u{200a}')
    ||| c == '\u{2028}'
    ||| c == '\u{2029}'
    ||| c == '\u{202f}'
    ||| c == '\u{205f}'
    ||| c == '\u{3000}'
}

/// Whether `c` is Unicode whitespace.
pub fn is_whitespace(c: char) -> (r: bool)
    ensures
        r == is_ws(c),
{
    ('\u{9}' <= c && c <= '\u{d}') || c == ' ' || c == '\u{85}' || c == '\u{a0}' || c == '\u{1680}'
        || ('\u{2000}' <= c && c <= '\u{200a}') || c == '\u{2028}' || c == '\u{2029}' || c
        == '\u{202f}' || c == '\u{205f}' || c == '\u{3000}'
}

/// `s` without its leading whitespace.
pub open spec fn trim_start(s: Seq<char>) -> Seq<char>
    decreases s.len(),
{
    if s.len() > 0 && is_ws(s[0]) {
        trim_start(s.drop_first())
    } else {
        s
    }
}

/// `s` without its trailing whitespace.
pub open spec fn trim_end(s: Seq<char>) -> Seq<char>
    decreases s.len(),
{
    if s.len() > 0 && is_ws(s.last()) {
        trim_end(s.drop_last())
    } else {
        s
    }
}

/// `s` without leading and trailing whitespace, as `str::trim` gives it.
pub open spec fn trim(s: Seq<char>) -> Seq<char> {
    trim_end(trim_start(s))
}

/// `s` with every leading repetition of `"0x"` removed, as `trim_start_matches("0x")` gives it.
pub open spec fn strip_hex_prefixes(s: Seq<char>) -> Seq<char>
    decreases s.len(),
{
    if s.len() >= 2 && s[0] == '0' && s[1] == 'x' {
        strip_hex_prefixes(s.skip(2))
    } else {
        s
    }
}

/// The digit value of `c` in any radix up to 36, as `char::to_digit` reads it.
pub open spec fn char_digit(c: char) -> Option<nat> {
    if '0' <= c && c <= '9' {
        Some((c as nat - '0' as nat) as nat)
    } else if 'a' <= c && c <= 'z' {
        Some((c as nat - 'a' as nat + 10) as nat)
    } else if 'A' <= c && c <= 'Z' {
        Some((c as nat - 'A' as nat + 10) as nat)
    } else {
        None
    }
}

/// `c` is a digit of `radix`.
pub open spec fn is_digit(c: char, radix: nat) -> bool {
    char_digit(c) matches Some(d) && d < radix
}

/// Every character of `ds` is a digit of `radix`.
pub open spec fn all_digits(ds: Seq<char>, radix: nat) -> bool {
    forall|i: int| 0 <= i < ds.len() ==> #[trigger] is_digit(ds[i], radix)
}

/// The value of the digit string `ds` in `radix`, most significant digit first.
pub open spec fn digits_value(ds: Seq<char>, radix: nat) -> nat
    decreases ds.len(),
{
    if ds.len() == 0 {
        0
    } else {
        digits_value(ds.drop_last(), radix) * radix + char_digit(ds.last()).unwrap_or(0)
    }
}

/// The unsigned number that `from_str_radix` reads from `s`: an optional `+`, then at
/// least one digit of `radix`, and nothing else.
pub open spec fn parse_uint(s: Seq<char>, radix: nat) -> Option<nat> {
    let ds = if s.len() > 0 && s[0] == '+' {
        s.drop_first()
    } else {
        s
    };
    if ds.len() == 0 || !all_digits(ds, radix) {
        None
    } else {
        Some(digits_value(ds, radix))
    }
}

/// `parse_uint` for a target type whose largest value is `max`: a larger number is refused.
pub open spec fn parse_uint_max(s: Seq<char>, radix: nat, max: nat) -> Option<nat> {
    match parse_uint(s, radix) {
        Some(v) => if v <= max {
            Some(v)
        } else {
            None
        },
        None => None,
    }
}

/// The characters of `s`.
pub fn chars_of(s: &str) -> (v: Vec<char>)
    ensures
        v@ == s@,
{
    let mut v: Vec<char> = Vec::new();
    for c in it: s.chars()
        invariant
            v@ == it.seq().take(it.index() as int),
            it.seq() == s@,
    {
        v.push(c);
    }
    v
}


/// Builds a `String` from the characters `v[lo..hi]`.
///
/// Trusted: `String: FromIterator<&char>` appends the characters in order, so the
/// string holds exactly those characters.
#[verifier::external_body]
pub(crate) fn string_from_chars(v: &Vec<char>, lo: usize, hi: usize) -> (s: String)
    requires
        lo <= hi <= v@.len(),
    ensures
        s@ == v@.subrange(lo as int, hi as int),
{
    v[lo..hi].iter().collect()
}

proof fn lemma_trim_start_step(s: Seq<char>, i: int, hi: int)
    requires
        0 <= i < hi <= s.len(),
        is_ws(s[i]),
    ensures
        trim_start(s.subrange(i, hi)) == trim_start(s.subrange(i + 1, hi)),
{
    assert(s.subrange(i, hi).drop_first() =~= s.subrange(i + 1, hi));
}

proof fn lemma_trim_end_step(s: Seq<char>, lo: int, j: int)
    requires
        0 <= lo < j <= s.len(),
        is_ws(s[j - 1]),
    ensures
        trim_end(s.subrange(lo, j)) == trim_end(s.subrange(lo, j - 1)),
{
    assert(s.subrange(lo, j).drop_last() =~= s.subrange(lo, j - 1));
}

/// The bounds of `v[lo..hi]` once whitespace is trimmed from both ends.
pub fn trim_bounds(v: &Vec<char>, lo: usize, hi: usize) -> (r: (usize, usize))
    requires
        lo <= hi <= v@.len(),
    ensures
        lo <= r.0 <= r.1 <= hi,
        v@.subrange(r.0 as int, r.1 as int) == trim(v@.subrange(lo as int, hi as int)),
{
    let mut i = lo;
    while i < hi && is_whitespace(v[i])
        invariant
            lo <= i <= hi <= v@.len(),
            trim_start(v@.subrange(lo as int, hi as int)) == trim_start(
                v@.subrange(i as int, hi as int),
            ),
        decreases hi - i,
    {
        proof {
            lemma_trim_start_step(v@, i as int, hi as int);
        }
        i = i + 1;
    }
    assert(trim_start(v@.subrange(i as int, hi as int)) == v@.subrange(i as int, hi as int));
    let mut j = hi;
    while j > i && is_whitespace(v[j - 1])
        invariant
            lo <= i <= j <= hi <= v@.len(),
            trim_end(v@.subrange(i as int, hi as int)) == trim_end(v@.subrange(i as int, j as int)),
        decreases j - i,
    {
        proof {
            lemma_trim_end_step(v@, i as int, j as int);
        }
        j = j - 1;
    }
    assert(trim_end(v@.subrange(i as int, j as int)) == v@.subrange(i as int, j as int));
    (i, j)
}

/// The start of `v[lo..hi]` once every leading `"0x"` is removed.
pub fn strip_hex_prefixes_from(v: &Vec<char>, lo: usize, hi: usize) -> (r: usize)
    requires
        lo <= hi <= v@.len(),
    ensures
        lo <= r <= hi,
        v@.subrange(r as int, hi as int) == strip_hex_prefixes(v@.subrange(lo as int, hi as int)),
{
    let mut i = lo;
    while hi - i >= 2 && v[i] == '0' && v[i + 1] == 'x'
        invariant
            lo <= i <= hi <= v@.len(),
            strip_hex_prefixes(v@.subrange(lo as int, hi as int)) == strip_hex_prefixes(
                v@.subrange(i as int, hi as int),
            ),
        decreases hi - i,
    {
        assert(v@.subrange(i as int, hi as int).skip(2) =~= v@.subrange(i + 2, hi as int));
        i = i + 2;
    }
    i
}

/// The digit value of `c`, as `char::to_digit` with a radix of 36 reads it.
pub fn char_to_digit(c: char) -> (r: Option<u32>)
    ensures
        match char_digit(c) {
            Some(d) => r == Some(d as u32),
            None => r is None,
        },
{
    if '0' <= c && c <= '9' {
        Some((c as u32) - ('0' as u32))
    } else if 'a' <= c && c <= 'z' {
        Some((c as u32) - ('a' as u32) + 10)
    } else if 'A' <= c && c <= 'Z' {
        Some((c as u32) - ('A' as u32) + 10)
    } else {
        None
    }
}

proof fn lemma_digits_value_take(ds: Seq<char>, radix: nat, k: int)
    requires
        0 <= k < ds.len(),
    ensures
        digits_value(ds.take(k + 1), radix) == digits_value(ds.take(k), radix) * radix
            + char_digit(ds[k]).unwrap_or(0),
{
    assert(ds.take(k + 1).drop_last() =~= ds.take(k));
}

/// A longer digit string has at least the value of its prefix.
proof fn lemma_digits_value_prefix(ds: Seq<char>, radix: nat, k: int)
    requires
        0 <= k <= ds.len(),
        radix >= 1,
    ensures
        digits_value(ds.take(k), radix) <= digits_value(ds, radix),
    decreases ds.len(),
{
    if k < ds.len() {
        let dl = ds.drop_last();
        lemma_digits_value_prefix(dl, radix, k);
        assert(dl.take(k) =~= ds.take(k));
        assert(digits_value(dl, radix) <= digits_value(dl, radix) * radix) by (nonlinear_arith)
            requires
                radix >= 1,
        ;
    } else {
        assert(ds.take(k) =~= ds);
    }
}

/// Reads `v[lo..hi]` as `from_str_radix` does for an unsigned type whose largest value is `max`.
pub fn parse_uint_in(v: &Vec<char>, lo: usize, hi: usize, radix: u32, max: u64) -> (r: Option<u64>)
    requires
        lo <= hi <= v@.len(),
        2 <= radix <= 36,
    ensures
        match parse_uint_max(v@.subrange(lo as int, hi as int), radix as nat, max as nat) {
            Some(n) => r == Some(n as u64),
            None => r is None,
        },
{
    let ghost s = v@.subrange(lo as int, hi as int);
    let mut start = lo;
    if lo < hi && v[lo] == '+' {
        start = lo + 1;
    }
    let ghost ds = v@.subrange(start as int, hi as int);
    assert(ds =~= (if s.len() > 0 && s[0] == '+' { s.drop_first() } else { s }));
    if start == hi {
        return None;
    }
    let mut acc: u64 = 0;
    let mut i = start;
    assert(ds.take(0) =~= Seq::<char>::empty());
    while i < hi
        invariant
            lo <= start <= i <= hi <= v@.len(),
            start < hi,
            2 <= radix <= 36,
            ds == v@.subrange(start as int, hi as int),
            s == v@.subrange(lo as int, hi as int),
            ds == (if s.len() > 0 && s[0] == '+' { s.drop_first() } else { s }),
            all_digits(ds.take(i - start), radix as nat),
            acc == digits_value(ds.take(i - start), radix as nat),
            acc <= max,
        decreases hi - i,
    {
        let k = i - start;
        proof {
            lemma_digits_value_take(ds, radix as nat, k as int);
        }
        match char_to_digit(v[i]) {
            Some(d) => {
                if d >= radix {
                    assert(!is_digit(ds[k as int], radix as nat));
                    return None;
                }
                assert((acc as u128) * (radix as u128) <= 36 * 0xffff_ffff_ffff_ffffu128)
                    by (nonlinear_arith)
                    requires
                        acc <= 0xffff_ffff_ffff_ffffu64,
                        radix <= 36,
                ;
                let w: u128 = (acc as u128) * (radix as u128) + (d as u128);
                if w > max as u128 {
                    proof {
                        if all_digits(ds, radix as nat) {
                            lemma_digits_value_prefix(ds, radix as nat, k + 1);
                        }
                    }
                    return None;
                }
                acc = w as u64;
                assert(all_digits(ds.take(k + 1), radix as nat)) by {
                    assert forall|j: int| 0 <= j < k + 1 implies #[trigger] is_digit(
                        ds.take(k + 1)[j],
                        radix as nat,
                    ) by {
                        if j < k {
                            assert(ds.take(k + 1)[j] == ds.take(k as int)[j]);
                        }
                    }
                }
            },
            None => {
                assert(!is_digit(ds[k as int], radix as nat));
                return None;
            },
        }
        i = i + 1;
    }
    assert(ds.take(hi - start) =~= ds);
    Some(acc)
}

/// The value that `str::parse::<u64>` gives for `opt` after trimming, or why there is none.
pub open spec fn spec_option_string_to_u64(opt: Option<Seq<char>>) -> Result<u64, ParseError> {
    match opt {
        None => Err(ParseError::MissingValue),
        Some(s) => match parse_uint_max(trim(s), 10, u64::MAX as nat) {
            Some(n) => Ok(n as u64),
            None => Err(ParseError::InvalidNumber),
        },
    }
}

/// The value of a hexadecimal id such as `0x1A2`: leading `"0x"` repetitions are removed,
/// then surrounding whitespace, then the rest is read in base 16.
pub open spec fn spec_hex_str_to_u64(s: Seq<char>) -> Result<u64, ParseError> {
    match parse_uint_max(trim(strip_hex_prefixes(s)), 16, u64::MAX as nat) {
        Some(n) => Ok(n as u64),
        None => Err(ParseError::InvalidNumber),
    }
}

/// The hexadecimal digit of `d`, upper- or lower-case.
pub open spec fn hex_digit_char(d: nat, upper: bool) -> char {
    if d < 10 {
        ('0' as nat + d) as char
    } else if upper {
        ('A' as nat + d - 10) as char
    } else {
        ('a' as nat + d - 10) as char
    }
}

/// `n` in hexadecimal without leading zeros, as `format!("{:X}", n)` (upper) or
/// `format!("{:x}", n)` writes it.
pub open spec fn hex_text(n: nat, upper: bool) -> Seq<char>
    decreases n,
{
    if n < 16 {
        seq![hex_digit_char(n, upper)]
    } else {
        hex_text(n / 16, upper).push(hex_digit_char(n % 16, upper))
    }
}

/// Every character of `s` is whitespace.
pub open spec fn all_ws(s: Seq<char>) -> bool {
    forall|i: int| 0 <= i < s.len() ==> #[trigger] is_ws(s[i])
}

proof fn lemma_hex_digit(d: nat, upper: bool)
    requires
        d < 16,
    ensures
        char_digit(hex_digit_char(d, upper)) == Some(d),
        hex_digit_char(d, upper) != 'x',
        hex_digit_char(d, upper) != '+',
        !is_ws(hex_digit_char(d, upper)),
{
}

/// The hexadecimal text of `n` is a non-empty string of hexadecimal digits, none of them
/// whitespace or `x`, whose value is `n`.
proof fn lemma_hex_text_digits(n: nat, upper: bool)
    ensures
        hex_text(n, upper).len() >= 1,
        all_digits(hex_text(n, upper), 16),
        digits_value(hex_text(n, upper), 16) == n,
        forall|i: int|
            0 <= i < hex_text(n, upper).len() ==> #[trigger] hex_text(n, upper)[i] != 'x'
                && hex_text(n, upper)[i] != '+' && !is_ws(hex_text(n, upper)[i]),
    decreases n,
{
    let t = hex_text(n, upper);
    if n < 16 {
        lemma_hex_digit(n, upper);
        assert(t.drop_last() =~= Seq::<char>::empty());
        assert(t.last() == hex_digit_char(n, upper));
        assert(digits_value(t.drop_last(), 16) == 0);
        assert(digits_value(t, 16) == digits_value(t.drop_last(), 16) * 16 + char_digit(t.last()).unwrap_or(0));
    } else {
        let h = hex_text(n / 16, upper);
        lemma_hex_text_digits(n / 16, upper);
        lemma_hex_digit(n % 16, upper);
        assert(t.drop_last() =~= h);
        assert(t.last() == hex_digit_char(n % 16, upper));
        assert(digits_value(t, 16) == digits_value(h, 16) * 16 + (n % 16));
        assert(n == (n / 16) * 16 + n % 16);
        assert forall|i: int| 0 <= i < t.len() implies #[trigger] is_digit(t[i], 16) by {
            if i < h.len() {
                assert(t[i] == h[i]);
                assert(is_digit(h[i], 16));
            }
        }
        assert forall|i: int| 0 <= i < t.len() implies #[trigger] t[i] != 'x' && t[i] != '+'
            && !is_ws(t[i]) by {
            if i < h.len() {
                assert(t[i] == h[i]);
            }
        }
    }
}

proof fn lemma_trim_start_ws(w: Seq<char>, d: Seq<char>)
    requires
        all_ws(w),
        d.len() >= 1,
        !is_ws(d[0]),
    ensures
        trim_start(w + d) == d,
    decreases w.len(),
{
    if w.len() == 0 {
        assert(w + d =~= d);
    } else {
        assert(is_ws(w[0]));
        assert((w + d).drop_first() =~= w.drop_first() + d);
        assert forall|i: int| 0 <= i < w.drop_first().len() implies #[trigger] is_ws(w.drop_first()[i]) by {
            assert(w.drop_first()[i] == w[i + 1]);
        }
        lemma_trim_start_ws(w.drop_first(), d);
    }
}

proof fn lemma_trim_end_ws(d: Seq<char>, w: Seq<char>)
    requires
        all_ws(w),
        d.len() >= 1,
        !is_ws(d.last()),
    ensures
        trim_end(d + w) == d,
    decreases w.len(),
{
    if w.len() == 0 {
        assert(d + w =~= d);
    } else {
        assert(is_ws(w.last()));
        assert((d + w).drop_last() =~= d + w.drop_last());
        assert forall|i: int| 0 <= i < w.drop_last().len() implies #[trigger] is_ws(w.drop_last()[i]) by {
            assert(w.drop_last()[i] == w[i]);
        }
        lemma_trim_end_ws(d, w.drop_last());
    }
}

/// Reading a hexadecimal id undoes writing one: for every `u64`, its digits in upper or lower
/// case, after an optional `0x` and with any whitespace around them, read back as the number.
pub proof fn lemma_hex_str_round_trip(n: u64, upper: bool, prefixed: bool, lead: Seq<char>, trail: Seq<char>)
    requires
        all_ws(lead),
        all_ws(trail),
    ensures
        spec_hex_str_to_u64(
            (if prefixed {
                seq!['0', 'x']
            } else {
                Seq::<char>::empty()
            }) + lead + hex_text(n as nat, upper) + trail,
        ) == Ok::<u64, ParseError>(n),
{
    let d = hex_text(n as nat, upper);
    lemma_hex_text_digits(n as nat, upper);
    let body = lead + d + trail;
    let p: Seq<char> = if prefixed {
        seq!['0', 'x']
    } else {
        Seq::<char>::empty()
    };
    assert(p + lead + d + trail =~= p + body);
    // `strip_hex_prefixes` removes the `0x`, if any, and then stops.
    assert(!(body.len() >= 2 && body[0] == '0' && body[1] == 'x')) by {
        if body.len() >= 2 && body[0] == '0' && body[1] == 'x' {
            if lead.len() > 0 {
                assert(is_ws(lead[0]));
                assert(body[0] == lead[0]);
            } else if d.len() >= 2 {
                assert(body[1] == d[1]);
            } else {
                assert(body[1] == trail[0]);
                assert(is_ws(trail[0]));
            }
        }
    }
    assert(strip_hex_prefixes(body) == body);
    if prefixed {
        assert((p + body).skip(2) =~= body);
    } else {
        assert(p + body =~= body);
    }
    assert(strip_hex_prefixes(p + body) == body);
    // `trim` then leaves the digits.
    assert(lead + d + trail =~= lead + (d + trail));
    assert((d + trail)[0] == d[0]);
    lemma_trim_start_ws(lead, d + trail);
    lemma_trim_end_ws(d, trail);
    assert(trim(body) == d);
    assert(parse_uint(d, 16) == Some(n as nat));
}

/// The text of a cell that must be present.
pub fn option_string_to_string(s: Option<String>) -> (r: Result<String, ParseError>)
    ensures
        match s {
            Some(v) => r == Ok::<String, ParseError>(v),
            None => r == Err::<String, ParseError>(ParseError::MissingValue),
        },
{
    match s {
        Some(v) => Ok(v),
        None => Err(ParseError::MissingValue),
    }
}

/// The decimal number in a cell that must be present, surrounding whitespace ignored.
pub fn option_string_to_t(s: Option<String>) -> (r: Result<u64, ParseError>)
    ensures
        r == spec_option_string_to_u64(
            match s {
                Some(v) => Some(v@),
                None => None,
            },
        ),
{
    let v = option_string_to_string(s)?;
    let cs = chars_of(v.as_str());
    let (a, b) = trim_bounds(&cs, 0, cs.len());
    assert(cs@.subrange(0, cs@.len() as int) =~= cs@);
    match parse_uint_in(&cs, a, b, 10, u64::MAX) {
        Some(x) => Ok(x),
        None => Err(ParseError::InvalidNumber),
    }
}

/// A message id such as `0x1A2` read as a number.
pub fn hex_str_to_u64(msg_id: &String) -> (r: Result<u64, ParseError>)
    ensures
        r == spec_hex_str_to_u64(msg_id@),
{
    let cs = chars_of(msg_id.as_str());
    assert(cs@.subrange(0, cs@.len() as int) =~= cs@);
    let p = strip_hex_prefixes_from(&cs, 0, cs.len());
    let (a, b) = trim_bounds(&cs, p, cs.len());
    match parse_uint_in(&cs, a, b, 16, u64::MAX) {
        Some(x) => Ok(x),
        None => Err(ParseError::InvalidNumber),
    }
}

/// A data byte of a trace line, written in hexadecimal.
pub fn to_u8(s: &str) -> (r: Result<u8, ParseError>)
    ensures
        match parse_uint_max(s@, 16, 255) {
            Some(n) => r == Ok::<u8, ParseError>(n as u8),
            None => r == Err::<u8, ParseError>(ParseError::InvalidNumber),
        },
{
    let cs = chars_of(s);
    assert(cs@.subrange(0, cs@.len() as int) =~= cs@);
    match parse_uint_in(&cs, 0, cs.len(), 16, 255) {
        Some(x) => Ok(x as u8),
        None => Err(ParseError::InvalidNumber),
    }
}


/// The words of `s` still to come when `cur` holds the characters of the word being read:
/// maximal runs of non-whitespace characters, in order, as `str::split_whitespace` gives them.
pub open spec fn words_from(s: Seq<char>, cur: Seq<char>) -> Seq<Seq<char>>
    decreases s.len(),
{
    if s.len() == 0 {
        if cur.len() > 0 {
            seq![cur]
        } else {
            seq![]
        }
    } else if is_ws(s[0]) {
        (if cur.len() > 0 {
            seq![cur]
        } else {
            seq![]
        }) + words_from(s.drop_first(), seq![])
    } else {
        words_from(s.drop_first(), cur.push(s[0]))
    }
}

/// The words of `s`, as `str::split_whitespace` gives them.
pub open spec fn words(s: Seq<char>) -> Seq<Seq<char>> {
    words_from(s, seq![])
}

/// The words of `v`, each as its characters.
pub fn split_whitespace(v: &Vec<char>) -> (r: Vec<Vec<char>>)
    ensures
        r@.len() == words(v@).len(),
        forall|k: int| 0 <= k < r@.len() ==> #[trigger] r@[k]@ == words(v@)[k],
{
    let mut out: Vec<Vec<char>> = Vec::new();
    let mut cur: Vec<char> = Vec::new();
    let ghost mut done: Seq<Seq<char>> = seq![];
    let mut i: usize = 0;
    assert(v@.skip(0) =~= v@);
    while i < v.len()
        invariant
            i <= v@.len(),
            out@.len() == done.len(),
            forall|k: int| 0 <= k < out@.len() ==> #[trigger] out@[k]@ == done[k],
            done + words_from(v@.skip(i as int), cur@) == words(v@),
        decreases v@.len() - i,
    {
        let c = v[i];
        let ghost rest = v@.skip(i as int);
        assert(rest.drop_first() =~= v@.skip(i + 1));
        if is_whitespace(c) {
            if cur.len() > 0 {
                let ghost w = cur@;
                out.push(cur);
                cur = Vec::new();
                proof {
                    assert(done + (seq![w] + words_from(v@.skip(i + 1), seq![])) =~= done.push(w)
                        + words_from(v@.skip(i + 1), cur@));
                    done = done.push(w);
                }
            } else {
                assert(cur@ =~= seq![]);
                assert(done + (Seq::<Seq<char>>::empty() + words_from(v@.skip(i + 1), seq![]))
                    =~= done + words_from(v@.skip(i + 1), cur@));
            }
        } else {
            cur.push(c);
        }
        i = i + 1;
    }
    if cur.len() > 0 {
        let ghost w = cur@;
        out.push(cur);
        proof {
            done = done.push(w);
        }
    }
    assert(done =~= words(v@));
    out
}

/// `needle` occurs in `hay` as a run of consecutive characters.
pub open spec fn has_substring(hay: Seq<char>, needle: Seq<char>) -> bool {
    exists|i: int|
        0 <= i && i + needle.len() <= hay.len() && #[trigger] hay.subrange(i, i + needle.len())
            == needle
}

/// Whether `needle` occurs at position `at` of `hay`.
fn matches_at(hay: &Vec<char>, needle: &Vec<char>, at: usize) -> (r: bool)
    requires
        at + needle@.len() <= hay@.len(),
    ensures
        r == (hay@.subrange(at as int, at + needle@.len()) == needle@),
{
    let mut j: usize = 0;
    while j < needle.len()
        invariant
            j <= needle@.len(),
            at + needle.len() <= hay.len(),
            forall|k: int| 0 <= k < j ==> hay@[at + k] == needle@[k],
        decreases needle@.len() - j,
    {
        if hay[at + j] != needle[j] {
            assert(hay@.subrange(at as int, at + needle@.len())[j as int] != needle@[j as int]);
            return false;
        }
        j = j + 1;
    }
    assert(hay@.subrange(at as int, at + needle@.len()) =~= needle@);
    true
}

/// Whether `needle` occurs in `hay`, as `str::contains` with a string pattern answers.
pub fn contains_chars(hay: &Vec<char>, needle: &Vec<char>) -> (r: bool)
    ensures
        r == has_substring(hay@, needle@),
{
    if needle.len() > hay.len() {
        return false;
    }
    let last = hay.len() - needle.len();
    let mut i: usize = 0;
    while i < last
        invariant
            i <= last,
            last + needle@.len() == hay@.len(),
            forall|k: int|
                0 <= k < i ==> #[trigger] hay@.subrange(k, k + needle@.len()) != needle@,
        decreases last - i,
    {
        if matches_at(hay, needle, i) {
            return true;
        }
        i = i + 1;
    }
    matches_at(hay, needle, last)
}


/// `c` is one of `0` to `9`.
pub open spec fn is_dec_digit(c: char) -> bool {
    '0' <= c && c <= '9'
}

/// Every character of `s` is one of `0` to `9`.
pub open spec fn all_dec_digits(s: Seq<char>) -> bool {
    forall|i: int| 0 <= i < s.len() ==> #[trigger] is_dec_digit(s[i])
}

/// The position of the first `a` or `b` in `s`, or the length of `s` if there is none.
pub open spec fn first_of(s: Seq<char>, a: char, b: char) -> int
    decreases s.len(),
{
    if s.len() == 0 {
        0
    } else if s[0] == a || s[0] == b {
        0
    } else {
        1 + first_of(s.drop_first(), a, b)
    }
}

/// `s` spells the word given by `lower` and `upper`, its lower- and upper-case spellings,
/// with each letter in either case.
pub open spec fn eq_ignore_case(s: Seq<char>, lower: Seq<char>, upper: Seq<char>) -> bool {
    &&& s.len() == lower.len()
    &&& forall|i: int| 0 <= i < s.len() ==> #[trigger] s[i] == lower[i] || s[i] == upper[i]
}

/// `s` without one leading `+` or `-`.
pub open spec fn drop_sign(s: Seq<char>) -> Seq<char> {
    if s.len() > 0 && (s[0] == '+' || s[0] == '-') {
        s.drop_first()
    } else {
        s
    }
}

/// Digits with at most one `.`, and at least one digit: `12`, `12.`, `.5`, `1.5`.
pub open spec fn is_decimal_mantissa(m: Seq<char>) -> bool {
    let q = first_of(m, '.', '.');
    if q == m.len() {
        m.len() > 0 && all_dec_digits(m)
    } else {
        all_dec_digits(m.take(q)) && all_dec_digits(m.skip(q + 1)) && m.len() > 1
    }
}

/// A number as `f64::from_str` documents it: a mantissa, then optionally `e` or `E`,
/// an optional sign and at least one digit.
pub open spec fn is_decimal_number(b: Seq<char>) -> bool {
    let p = first_of(b, 'e', 'E');
    &&& is_decimal_mantissa(b.take(p))
    &&& (p == b.len() || {
        let e = drop_sign(b.skip(p + 1));
        e.len() > 0 && all_dec_digits(e)
    })
}

/// The text that `f64::from_str` accepts: an optional sign, then a decimal number or one of
/// `inf`, `infinity` and `nan` in any case. Surrounding whitespace is not accepted.
pub open spec fn is_float_literal(s: Seq<char>) -> bool {
    let b = drop_sign(s);
    ||| is_decimal_number(b)
    ||| eq_ignore_case(b, seq!['i', 'n', 'f'], seq!['I', 'N', 'F'])
    ||| eq_ignore_case(
        b,
        seq!['i', 'n', 'f', 'i', 'n', 'i', 't', 'y'],
        seq!['I', 'N', 'F', 'I', 'N', 'I', 'T', 'Y'],
    )
    ||| eq_ignore_case(b, seq!['n', 'a', 'n'], seq!['N', 'A', 'N'])
}

/// `first_of` is the first position holding `a` or `b`.
pub proof fn lemma_first_of_is(s: Seq<char>, a: char, b: char, k: int)
    requires
        0 <= k <= s.len(),
        k < s.len() ==> (s[k] == a || s[k] == b),
        forall|i: int| 0 <= i < k ==> s[i] != a && s[i] != b,
    ensures
        first_of(s, a, b) == k,
    decreases s.len(),
{
    if s.len() > 0 && k > 0 {
        assert(s[0] != a && s[0] != b);
        assert forall|i: int| 0 <= i < k - 1 implies s.drop_first()[i] != a && s.drop_first()[i]
            != b by {
            assert(s.drop_first()[i] == s[i + 1]);
        }
        lemma_first_of_is(s.drop_first(), a, b, k - 1);
    }
}

/// The first position in `v[lo..hi]` (relative to `lo`) that holds `a` or `b`.
fn find_first_of(v: &Vec<char>, lo: usize, hi: usize, a: char, b: char) -> (r: usize)
    requires
        lo <= hi <= v@.len(),
    ensures
        r == first_of(v@.subrange(lo as int, hi as int), a, b),
        r <= hi - lo,
{
    let ghost s = v@.subrange(lo as int, hi as int);
    let mut k = lo;
    while k < hi && v[k] != a && v[k] != b
        invariant
            lo <= k <= hi <= v@.len(),
            s == v@.subrange(lo as int, hi as int),
            forall|i: int| 0 <= i < k - lo ==> s[i] != a && s[i] != b,
        decreases hi - k,
    {
        k = k + 1;
    }
    proof {
        lemma_first_of_is(s, a, b, k - lo);
    }
    k - lo
}

/// Whether `v[lo..hi]` is all decimal digits.
fn all_dec_digits_in(v: &Vec<char>, lo: usize, hi: usize) -> (r: bool)
    requires
        lo <= hi <= v@.len(),
    ensures
        r == all_dec_digits(v@.subrange(lo as int, hi as int)),
{
    let mut k = lo;
    while k < hi
        invariant
            lo <= k <= hi <= v@.len(),
            forall|i: int| lo <= i < k ==> is_dec_digit(v@[i]),
        decreases hi - k,
    {
        if !('0' <= v[k] && v[k] <= '9') {
            assert(!is_dec_digit(v@.subrange(lo as int, hi as int)[k - lo]));
            return false;
        }
        k = k + 1;
    }
    assert forall|i: int| 0 <= i < hi - lo implies #[trigger] is_dec_digit(
        v@.subrange(lo as int, hi as int)[i],
    ) by {
        assert(v@.subrange(lo as int, hi as int)[i] == v@[lo + i]);
    }
    true
}

/// Whether `v[lo..hi]` spells the word given in `lower` and `upper` case, letter by letter
/// in either case.
fn eq_ignore_case_in(v: &Vec<char>, lo: usize, hi: usize, lower: &Vec<char>, upper: &Vec<char>) -> (r: bool)
    requires
        lo <= hi <= v@.len(),
        lower@.len() == upper@.len(),
    ensures
        r == eq_ignore_case(v@.subrange(lo as int, hi as int), lower@, upper@),
{
    if hi - lo != lower.len() {
        return false;
    }
    let mut k: usize = 0;
    while k < lower.len()
        invariant
            lo <= hi <= v@.len(),
            hi - lo == lower@.len(),
            lower@.len() == upper@.len(),
            k <= lower@.len(),
            forall|i: int| 0 <= i < k ==> v@[lo + i] == lower@[i] || v@[lo + i] == upper@[i],
        decreases lower@.len() - k,
    {
        let c = v[lo + k];
        if c != lower[k] && c != upper[k] {
            assert(v@.subrange(lo as int, hi as int)[k as int] == c);
            return false;
        }
        k = k + 1;
    }
    assert forall|i: int| 0 <= i < hi - lo implies #[trigger] v@.subrange(lo as int, hi as int)[i]
        == lower@[i] || v@.subrange(lo as int, hi as int)[i] == upper@[i] by {
        assert(v@.subrange(lo as int, hi as int)[i] == v@[lo + i]);
    }
    true
}

/// Whether `v[lo..hi]` is text that `f64::from_str` accepts.
pub fn is_float_literal_in(v: &Vec<char>, lo: usize, hi: usize) -> (r: bool)
    requires
        lo <= hi <= v@.len(),
    ensures
        r == is_float_literal(v@.subrange(lo as int, hi as int)),
{
    let ghost s = v@.subrange(lo as int, hi as int);
    let mut b0 = lo;
    if lo < hi && (v[lo] == '+' || v[lo] == '-') {
        b0 = lo + 1;
    }
    let ghost b = v@.subrange(b0 as int, hi as int);
    assert(b =~= drop_sign(s));
    let inf = vec!['i', 'n', 'f'];
    let inf_up = vec!['I', 'N', 'F'];
    let infinity = vec!['i', 'n', 'f', 'i', 'n', 'i', 't', 'y'];
    let infinity_up = vec!['I', 'N', 'F', 'I', 'N', 'I', 'T', 'Y'];
    let nan = vec!['n', 'a', 'n'];
    let nan_up = vec!['N', 'A', 'N'];
    assert(inf@ =~= seq!['i', 'n', 'f']);
    assert(inf_up@ =~= seq!['I', 'N', 'F']);
    assert(infinity@ =~= seq!['i', 'n', 'f', 'i', 'n', 'i', 't', 'y']);
    assert(infinity_up@ =~= seq!['I', 'N', 'F', 'I', 'N', 'I', 'T', 'Y']);
    assert(nan@ =~= seq!['n', 'a', 'n']);
    assert(nan_up@ =~= seq!['N', 'A', 'N']);
    if eq_ignore_case_in(v, b0, hi, &inf, &inf_up) || eq_ignore_case_in(
        v,
        b0,
        hi,
        &infinity,
        &infinity_up,
    ) || eq_ignore_case_in(v, b0, hi, &nan, &nan_up) {
        return true;
    }
    // the mantissa ends at the first `e` or `E`
    let p = find_first_of(v, b0, hi, 'e', 'E');
    let m_end = b0 + p;
    assert(b.take(p as int) =~= v@.subrange(b0 as int, m_end as int));
    let q = find_first_of(v, b0, m_end, '.', '.');
    let ghost m = v@.subrange(b0 as int, m_end as int);
    let mantissa_ok = if q == p {
        p > 0 && all_dec_digits_in(v, b0, m_end)
    } else {
        assert(m.take(q as int) =~= v@.subrange(b0 as int, b0 + q));
        assert(m.skip(q + 1) =~= v@.subrange(b0 + q + 1, m_end as int));
        all_dec_digits_in(v, b0, b0 + q) && all_dec_digits_in(v, b0 + q + 1, m_end) && p > 1
    };
    if !mantissa_ok {
        return false;
    }
    if m_end == hi {
        return true;
    }
    let ghost e_all = b.skip(p + 1);
    assert(e_all =~= v@.subrange(m_end + 1, hi as int));
    let mut e0 = m_end + 1;
    if e0 < hi && (v[e0] == '+' || v[e0] == '-') {
        e0 = e0 + 1;
    }
    assert(drop_sign(e_all) =~= v@.subrange(e0 as int, hi as int));
    e0 < hi && all_dec_digits_in(v, e0, hi)
}


/// The floating-point text of a cell that must be present: the trimmed text, when
/// `str::parse::<f64>` accepts it, or why it is refused.
pub open spec fn spec_float_text(opt: Option<Seq<char>>) -> Result<Seq<char>, ParseError> {
    match opt {
        None => Err(ParseError::MissingValue),
        Some(s) => if is_float_literal(trim(s)) {
            Ok(trim(s))
        } else {
            Err(ParseError::InvalidNumber)
        },
    }
}

/// The trimmed text of a cell that must hold a floating-point number.
pub fn option_string_to_float_text(s: Option<String>) -> (r: Result<String, ParseError>)
    ensures
        match spec_float_text(
            match s {
                Some(v) => Some(v@),
                None => None,
            },
        ) {
            Ok(t) => r matches Ok(x) && x@ == t,
            Err(e) => r == Err::<String, ParseError>(e),
        },
{
    let v = option_string_to_string(s)?;
    let cs = chars_of(v.as_str());
    let (a, b) = trim_bounds(&cs, 0, cs.len());
    assert(cs@.subrange(0, cs@.len() as int) =~= cs@);
    if is_float_literal_in(&cs, a, b) {
        Ok(string_from_chars(&cs, a, b))
    } else {
        Err(ParseError::InvalidNumber)
    }
}

/// Whether two character sequences are equal.
pub fn chars_equal(a: &Vec<char>, b: &Vec<char>) -> (r: bool)
    ensures
        r == (a@ == b@),
{
    if a.len() != b.len() {
        return false;
    }
    let mut k: usize = 0;
    while k < a.len()
        invariant
            a@.len() == b@.len(),
            k <= a@.len(),
            forall|i: int| 0 <= i < k ==> a@[i] == b@[i],
        decreases a@.len() - k,
    {
        if a[k] != b[k] {
            return false;
        }
        k = k + 1;
    }
    assert(a@ =~= b@);
    true
}

} // verus!
