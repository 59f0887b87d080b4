//! The `Transfer-Encoding` header: the comma-separated chain of encodings
//! applied to a message body, outermost last.

use crate::header::Header;
use crate::header::HeaderFormat;
use crate::util::format_token_sequence;
use crate::util::join_texts;
use crate::util::lemma_line_texts_join;
use crate::util::line_texts;
use crate::util::lines_decodable;
use crate::util::lines_texts;
use crate::util::merge_to_token_sequence;
use crate::util::texts_of;
use crate::util::token_clean;
use crate::util::tokens_parse;
use crate::util::Token;
use vstd::prelude::*;
use vstd::string::StringExecFns;
use vstd::utf8::decode_utf8;
use vstd::utf8::encode_utf8;

verus! {

/// The `Transfer-Encoding` header.
///
/// Wraps the ordered encoding chain, with direct access to the wrapped
/// vector through its public field. Order is semantically significant and
/// survives a round trip.
#[derive(Clone, Debug, PartialEq)]
pub struct TransferEncoding(pub Vec<Encoding>);

/// A value used with the `Transfer-Encoding` header: one well-known encoding,
/// or any other token carried verbatim.
#[derive(Clone, Debug, PartialEq)]
pub enum Encoding {
    /// The `chunked` encoding.
    Chunked,
    /// The `gzip` encoding.
    Gzip,
    /// The `deflate` encoding.
    Deflate,
    /// The `compress` encoding.
    Compress,
    /// Some other encoding: its text is compared and written verbatim,
    /// case-sensitively.
    EncodingExt(String),
}

impl Token for Encoding {
    open spec fn text(&self) -> Seq<char> {
        match self {
            Encoding::Chunked => "chunked"@,
            Encoding::Gzip => "gzip"@,
            Encoding::Deflate => "deflate"@,
            Encoding::Compress => "compress"@,
            Encoding::EncodingExt(s) => s@,
        }
    }

    open spec fn is_parse_of(&self, s: Seq<char>) -> bool {
        if s == "chunked"@ {
            *self == Encoding::Chunked
        } else if s == "gzip"@ {
            *self == Encoding::Gzip
        } else if s == "deflate"@ {
            *self == Encoding::Deflate
        } else if s == "compress"@ {
            *self == Encoding::Compress
        } else {
            match self {
                Encoding::EncodingExt(t) => t@ == s,
                _ => false,
            }
        }
    }

    proof fn parse_of_text(&self, s: Seq<char>) {
    }

    fn parse_token(s: &str) -> (t: Encoding) {
        Encoding::from_str(s)
    }

    fn to_text(&self) -> (r: String) {
        Encoding::to_text(self)
    }
}

impl Encoding {
    /// Parses one token text: a case-sensitive exact match against the known
    /// keywords `chunked`, `gzip`, `deflate` and `compress`; any other text
    /// becomes [`Encoding::EncodingExt`] holding that exact text. Total: it
    /// never rejects.
    pub fn from_str(s: &str) -> (e: Encoding)
        ensures
            e.is_parse_of(s@),
    {
        let owned: String = s.to_owned();
        if owned == String::from_str("chunked") {
            Encoding::Chunked
        } else if owned == String::from_str("gzip") {
            Encoding::Gzip
        } else if owned == String::from_str("deflate") {
            Encoding::Deflate
        } else if owned == String::from_str("compress") {
            Encoding::Compress
        } else {
            Encoding::EncodingExt(owned)
        }
    }

    /// Writes this encoding's canonical wire text: the keyword for a
    /// well-known encoding, the carried text verbatim otherwise.
    pub fn to_text(&self) -> (r: String)
        ensures
            r@ == self.text(),
    {
        match self {
            Encoding::Chunked => String::from_str("chunked"),
            Encoding::Gzip => String::from_str("gzip"),
            Encoding::Deflate => String::from_str("deflate"),
            Encoding::Compress => String::from_str("compress"),
            Encoding::EncodingExt(s) => s.clone(),
        }
    }
}

impl Header for TransferEncoding {
    open spec fn spec_name() -> Seq<char> {
        "Transfer-Encoding"@
    }

    open spec fn decodes_to(raw: Seq<Seq<u8>>, r: Option<TransferEncoding>) -> bool {
        &&& (r is Some <==> lines_decodable(raw))
        &&& (r is Some ==> tokens_parse((r->0).0@, lines_texts(raw)))
    }

    fn header_name() -> (r: &'static str) {
        "Transfer-Encoding"
    }

    /// Decodes every raw line as a comma-delimited token list: pieces are
    /// whitespace-trimmed, empty pieces are dropped, and each remaining text
    /// parses to its encoding in wire order. Per-token parsing is total, so
    /// the only failures are an absent header and bytes that are not text.
    fn parse_header(raw: &Vec<Vec<u8>>) -> (r: Option<TransferEncoding>) {
        match merge_to_token_sequence::<Encoding>(raw) {
            None => None,
            Some(v) => Some(TransferEncoding(v)),
        }
    }
}

impl HeaderFormat for TransferEncoding {
    open spec fn spec_format(&self) -> Seq<char> {
        join_texts(texts_of(self.0@))
    }

    fn fmt_header(&self) -> (r: String) {
        format_token_sequence(&self.0)
    }
}

/// The parse of a token's own text: the canonical variant where that text is
/// a known keyword, the token itself otherwise.
pub open spec fn normalize(e: Encoding) -> Encoding {
    if e.text() == "chunked"@ {
        Encoding::Chunked
    } else if e.text() == "gzip"@ {
        Encoding::Gzip
    } else if e.text() == "deflate"@ {
        Encoding::Deflate
    } else if e.text() == "compress"@ {
        Encoding::Compress
    } else {
        e
    }
}

/// Sameness of encodings as wire values: the same variant carrying the same
/// text. Two verbatim tokens with equal texts are the same wire value even
/// when they hold distinct string objects.
pub open spec fn encodings_match(a: Encoding, b: Encoding) -> bool {
    match (a, b) {
        (Encoding::Chunked, Encoding::Chunked) => true,
        (Encoding::Gzip, Encoding::Gzip) => true,
        (Encoding::Deflate, Encoding::Deflate) => true,
        (Encoding::Compress, Encoding::Compress) => true,
        (Encoding::EncodingExt(s), Encoding::EncodingExt(t)) => s@ == t@,
        _ => false,
    }
}

proof fn lemma_parse_of_own_text(d: Encoding, e: Encoding)
    requires
        d.is_parse_of(e.text()),
    ensures
        encodings_match(d, normalize(e)),
{
}

/// Round trip: encoding a non-empty chain and decoding the single resulting
/// line reproduces the chain, order and content, except that a verbatim
/// token whose text equals a known keyword is normalized to that keyword's
/// canonical variant. Texts holding commas or surrounding whitespace, or
/// empty texts, are rewritten by the grammar and are left out here.
pub proof fn lemma_token_round_trip(tokens: Seq<Encoding>, decoded: Seq<Encoding>)
    requires
        tokens.len() >= 1,
        forall|i: int| 0 <= i < tokens.len() ==> token_clean(#[trigger] tokens[i].text()),
        tokens_parse(decoded, lines_texts(seq![encode_utf8(join_texts(texts_of(tokens)))])),
    ensures
        lines_decodable(seq![encode_utf8(join_texts(texts_of(tokens)))]),
        decoded.len() == tokens.len(),
        forall|i: int|
            0 <= i < tokens.len() ==> encodings_match(#[trigger] decoded[i], normalize(tokens[i])),
{
    broadcast use vstd::utf8::encode_utf8_valid_utf8;
    broadcast use vstd::utf8::encode_utf8_decode_utf8;

    let texts = texts_of(tokens);
    let line = join_texts(texts);
    let raw = seq![encode_utf8(line)];
    assert(raw.len() == 1);
    assert(raw[0] == encode_utf8(line));
    assert(decode_utf8(encode_utf8(line)) == line);
    assert(forall|i: int| 0 <= i < texts.len() ==> token_clean(#[trigger] texts[i]));
    lemma_line_texts_join(texts);
    assert(raw.drop_first() =~= Seq::<Seq<u8>>::empty());
    assert(lines_texts(Seq::<Seq<u8>>::empty()) =~= Seq::<Seq<char>>::empty());
    assert(lines_texts(raw) == line_texts(decode_utf8(raw[0])) + lines_texts(raw.drop_first()));
    assert(lines_texts(raw) =~= texts);
    assert forall|i: int| 0 <= i < tokens.len() implies encodings_match(
        #[trigger] decoded[i],
        normalize(tokens[i]),
    ) by {
        assert(decoded[i].is_parse_of(texts[i]));
        assert(texts[i] == tokens[i].text());
        lemma_parse_of_own_text(decoded[i], tokens[i]);
    }
}

} // verus!
