//! Text files that are either UTF-8 or GBK, turned into UTF-8 bytes.

use vstd::prelude::*;
use vstd::utf8::*;
use vstd::string::StringSliceAdditionalSpecFns;
use vstd::slice::slice_to_vec;
use encoding::all::GBK;
use encoding::{DecoderTrap, Encoding};
use crate::error::ParseError;
use crate::matrix::opt_chars;

verus! {

/// The text that strict GBK decoding gives for `bytes`, or `None` where `bytes` is not GBK.
pub uninterp spec fn gbk_decode_strict(bytes: Seq<u8>) -> Option<Seq<char>>;

/// `GBK.decode(bytes, DecoderTrap::Strict)` of the `encoding` crate. With the strict trap,
/// decoding stops at the first error and no text is given; otherwise the decoded text is.
/// Nothing is stated of which byte sequences are GBK: the result is the name above.
#[verifier::external_body]
fn decode_gbk(bytes: &Vec<u8>) -> (r: Option<String>)
    ensures
        opt_chars(r) == gbk_decode_strict(bytes@),
{
    GBK.decode(bytes, DecoderTrap::Strict).ok()
}

/// The length of the UTF-8 encoding that starts at position `i` of `b`, when it is a valid
/// encoding of one Unicode scalar.
fn first_scalar_len(b: &Vec<u8>, i: usize) -> (r: Option<usize>)
    requires
        i < b@.len(),
    ensures
        valid_first_scalar(b@.skip(i as int)) ==> r == Some(
            length_of_first_scalar(b@.skip(i as int)) as usize,
        ),
        !valid_first_scalar(b@.skip(i as int)) ==> r is None,
{
    let ghost s = b@.skip(i as int);
    let n = b.len();
    let b0 = b[i];
    assert(s[0] == b0);
    if b0 <= 0x7f {
        Some(1)
    } else if 0xc0 <= b0 && b0 <= 0xdf {
        if n - i < 2 {
            return None;
        }
        let b1 = b[i + 1];
        assert(s[1] == b1);
        if !(0x80 <= b1 && b1 <= 0xbf) {
            return None;
        }
        let cp: u32 = (((b0 & 0x1f) as u32) << 6) | ((b1 & 0x3f) as u32);
        if cp >= 0x80 && !(0xd800 <= cp && cp <= 0xdfff) {
            Some(2)
        } else {
            None
        }
    } else if 0xe0 <= b0 && b0 <= 0xef {
        if n - i < 3 {
            return None;
        }
        let b1 = b[i + 1];
        let b2 = b[i + 2];
        assert(s[1] == b1 && s[2] == b2);
        if !(0x80 <= b1 && b1 <= 0xbf) || !(0x80 <= b2 && b2 <= 0xbf) {
            return None;
        }
        let cp: u32 = (((b0 & 0x0f) as u32) << 12) | (((b1 & 0x3f) as u32) << 6) | ((b2 & 0x3f) as u32);
        if cp >= 0x800 && !(0xd800 <= cp && cp <= 0xdfff) {
            Some(3)
        } else {
            None
        }
    } else if 0xf0 <= b0 && b0 <= 0xf7 {
        if n - i < 4 {
            return None;
        }
        let b1 = b[i + 1];
        let b2 = b[i + 2];
        let b3 = b[i + 3];
        assert(s[1] == b1 && s[2] == b2 && s[3] == b3);
        if !(0x80 <= b1 && b1 <= 0xbf) || !(0x80 <= b2 && b2 <= 0xbf) || !(0x80 <= b3 && b3
            <= 0xbf) {
            return None;
        }
        let cp: u32 = (((b0 & 0x07) as u32) << 18) | (((b1 & 0x3f) as u32) << 12) | (((b2
            & 0x3f) as u32) << 6) | ((b3 & 0x3f) as u32);
        if 0x10000 <= cp && cp <= 0x10ffff && !(0xd800 <= cp && cp <= 0xdfff) {
            Some(4)
        } else {
            None
        }
    } else {
        None
    }
}

/// Whether `b` is valid UTF-8, as `std::str::from_utf8` decides it.
pub fn is_valid_utf8(b: &Vec<u8>) -> (r: bool)
    ensures
        r == valid_utf8(b@),
{
    let mut i: usize = 0;
    assert(b@.skip(0) =~= b@);
    while i < b.len()
        invariant
            i <= b@.len(),
            valid_utf8(b@) == valid_utf8(b@.skip(i as int)),
        decreases b@.len() - i,
    {
        match first_scalar_len(b, i) {
            None => {
                return false;
            },
            Some(l) => {
                let ghost s = b@.skip(i as int);
                assert(pop_first_scalar(s) =~= b@.skip(i + l));
                i = i + l;
            },
        }
    }
    assert(b@.skip(i as int) =~= Seq::<u8>::empty());
    true
}

/// The contents of a text file as UTF-8: kept as they are when they are UTF-8 already,
/// otherwise decoded as GBK and encoded as UTF-8.
pub fn to_utf8(contents: Vec<u8>) -> (r: Result<Vec<u8>, ParseError>)
    ensures
        valid_utf8(contents@) ==> r == Ok::<Vec<u8>, ParseError>(contents),
        !valid_utf8(contents@) ==> match gbk_decode_strict(contents@) {
            Some(t) => r matches Ok(v) && v@ == encode_utf8(t),
            None => r == Err::<Vec<u8>, ParseError>(ParseError::InvalidEncoding),
        },
{
    if is_valid_utf8(&contents) {
        return Ok(contents);
    }
    match decode_gbk(&contents) {
        Some(s) => {
            let bytes = s.as_str().as_bytes();
            Ok(slice_to_vec(bytes))
        },
        None => Err(ParseError::InvalidEncoding),
    }
}


/// Whatever `to_utf8` gives back is valid UTF-8.
pub proof fn lemma_to_utf8_output_valid(contents: Seq<u8>, out: Seq<u8>)
    requires
        valid_utf8(contents) ==> out == contents,
        !valid_utf8(contents) ==> (gbk_decode_strict(contents) matches Some(t) && out == encode_utf8(t)),
    ensures
        valid_utf8(out),
{
    if !valid_utf8(contents) {
        encode_utf8_valid_utf8(gbk_decode_strict(contents)->Some_0);
    }
}

} // verus!
