//! The `Content-Length` header: a scalar byte count.

use crate::decimal::decimal_digits;
use crate::decimal::digits_value;
use crate::decimal::is_u64_decimal;
use crate::decimal::lemma_decimal_round_trip;
use crate::decimal::parse_u64_decimal;
use crate::decimal::u64_to_decimal_string;
use crate::header::Header;
use crate::header::HeaderFormat;
use crate::util::merge_to_single_string;
use vstd::prelude::*;
use vstd::utf8::decode_utf8;
use vstd::utf8::encode_utf8;
use vstd::utf8::valid_utf8;

verus! {

/// The `Content-Length` header.
///
/// A wrapper around an unsigned 64-bit byte count, with direct access to the
/// wrapped value through its public field.
#[derive(Copy, Clone, Debug, PartialEq, Eq, Structural)]
pub struct ContentLength(pub u64);

impl Header for ContentLength {
    open spec fn spec_name() -> Seq<char> {
        "Content-Length"@
    }

    open spec fn decodes_to(raw: Seq<Seq<u8>>, r: Option<ContentLength>) -> bool {
        &&& (r is Some <==> raw.len() == 1 && valid_utf8(raw[0]) && is_u64_decimal(
            decode_utf8(raw[0]),
        ))
        &&& (r is Some ==> (r->0).0 as int == digits_value(decode_utf8(raw[0])))
    }

    fn header_name() -> (r: &'static str) {
        "Content-Length"
    }

    /// Decodes exactly one raw line of ASCII digits whose value fits a `u64`.
    /// Zero lines, repeated lines, any other character, or overflow all read
    /// as absent, never as a default.
    fn parse_header(raw: &Vec<Vec<u8>>) -> (r: Option<ContentLength>) {
        match merge_to_single_string(raw) {
            None => None,
            Some(s) => match parse_u64_decimal(s.as_str()) {
                None => None,
                Some(n) => Some(ContentLength(n)),
            },
        }
    }
}

impl HeaderFormat for ContentLength {
    open spec fn spec_format(&self) -> Seq<char> {
        decimal_digits(self.0 as int)
    }

    /// Writes the byte count's decimal text: digits only, no sign, no
    /// separators, no leading zeros.
    fn fmt_header(&self) -> (r: String) {
        u64_to_decimal_string(self.0)
    }
}

/// Round trip: the formatted text of any byte count, carried as the single
/// raw line of a line set, decodes back to that same byte count.
pub proof fn lemma_content_length_round_trip(n: u64)
    ensures
        ContentLength::decodes_to(
            seq![encode_utf8(decimal_digits(n as int))],
            Some(ContentLength(n)),
        ),
{
    broadcast use vstd::utf8::encode_utf8_valid_utf8;
    broadcast use vstd::utf8::encode_utf8_decode_utf8;

    lemma_decimal_round_trip(n);
    let s = decimal_digits(n as int);
    let raw = seq![encode_utf8(s)];
    assert(raw.len() == 1);
    assert(raw[0] == encode_utf8(s));
    assert(decode_utf8(encode_utf8(s)) == s);
}

} // verus!
