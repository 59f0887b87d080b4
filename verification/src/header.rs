//! The header contract: the two capabilities a header type supplies so that
//! generic code can look a header up, decode it, and render it without
//! knowing its concrete shape.

use vstd::prelude::*;

verus! {

/// Identification and decoding: a compile-time header name, and a parser for
/// the raw line set delivered under that name.
///
/// Decoding yields nothing when the header is absent or not parseable as this
/// type; the two are deliberately not told apart at this layer, and a failure
/// never escalates. The name belongs to the type, never to an instance: it is
/// needed before any value exists.
pub trait Header: Sized {
    /// The header name, as characters.
    spec fn spec_name() -> Seq<char>;

    /// Whether `r` is the decoding of the raw line set `raw`.
    spec fn decodes_to(raw: Seq<Seq<u8>>, r: Option<Self>) -> bool;

    /// The header name the store uses for case-insensitive lookup.
    fn header_name() -> (r: &'static str)
        ensures
            r@ == Self::spec_name(),
    ;

    /// Decodes the raw line set delivered under this header's name.
    fn parse_header(raw: &Vec<Vec<u8>>) -> (r: Option<Self>)
        ensures
            Self::decodes_to(raw.deep_view(), r),
    ;
}

/// Self-formatting: rendering an already parsed value as its canonical
/// single-line wire text.
///
/// Kept apart from [`Header`]: a name is needed before any bytes are parsed,
/// a format only once a value exists.
pub trait HeaderFormat {
    /// The canonical wire text of this value.
    spec fn spec_format(&self) -> Seq<char>;

    /// Writes this value's canonical wire text.
    fn fmt_header(&self) -> (r: String)
        ensures
            r@ == self.spec_format(),
    ;
}

} // verus!
