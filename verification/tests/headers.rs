use typed_headers::content_length::ContentLength;
use typed_headers::header::Header;
use typed_headers::header::HeaderFormat;
use typed_headers::transfer_encoding::Encoding;
use typed_headers::transfer_encoding::TransferEncoding;
use typed_headers::util::format_token_sequence;
use typed_headers::util::merge_to_single_string;
use typed_headers::util::merge_to_token_sequence;

#[test]
fn content_length_decodes_single_line() {
    let raw = vec![b"42349984".to_vec()];
    assert_eq!(ContentLength::parse_header(&raw), Some(ContentLength(42349984)));
}

#[test]
fn content_length_formats_decimal() {
    assert_eq!(ContentLength(42349984).fmt_header(), "42349984");
    assert_eq!(ContentLength(0).fmt_header(), "0");
    assert_eq!(ContentLength(10).fmt_header(), "10");
    assert_eq!(ContentLength(u64::MAX).fmt_header(), "18446744073709551615");
}

#[test]
fn content_length_round_trip() {
    let values: Vec<u64> = vec![0, 1, 9, 10, 99, 100, 4096, 42349984, u64::MAX];
    for v in values {
        let text = ContentLength(v).fmt_header();
        let raw = vec![text.into_bytes()];
        assert_eq!(ContentLength::parse_header(&raw), Some(ContentLength(v)));
    }
}

#[test]
fn content_length_accepts_leading_zeros() {
    let raw = vec![b"007".to_vec()];
    assert_eq!(ContentLength::parse_header(&raw), Some(ContentLength(7)));
    let raw = vec![b"00000000000000000000042".to_vec()];
    assert_eq!(ContentLength::parse_header(&raw), Some(ContentLength(42)));
}

#[test]
fn content_length_absent() {
    let raw: Vec<Vec<u8>> = vec![];
    assert_eq!(ContentLength::parse_header(&raw), None);
}

#[test]
fn content_length_duplicated_is_absent() {
    let raw = vec![b"10".to_vec(), b"20".to_vec()];
    assert_eq!(ContentLength::parse_header(&raw), None);
}

#[test]
fn content_length_rejects_non_digits() {
    for bad in ["", "12a", "-1", "+1", " 42", "42 ", "4 2", "0x10", "1.5"] {
        let raw = vec![bad.as_bytes().to_vec()];
        assert_eq!(ContentLength::parse_header(&raw), None);
    }
}

#[test]
fn content_length_bounds() {
    let raw = vec![b"18446744073709551615".to_vec()];
    assert_eq!(ContentLength::parse_header(&raw), Some(ContentLength(u64::MAX)));
    let raw = vec![b"18446744073709551616".to_vec()];
    assert_eq!(ContentLength::parse_header(&raw), None);
    let raw = vec![b"99999999999999999999999".to_vec()];
    assert_eq!(ContentLength::parse_header(&raw), None);
}

#[test]
fn content_length_rejects_invalid_utf8() {
    let raw = vec![vec![0xffu8, 0x31u8]];
    assert_eq!(ContentLength::parse_header(&raw), None);
}

#[test]
fn header_names() {
    assert_eq!(ContentLength::header_name(), "Content-Length");
    assert_eq!(TransferEncoding::header_name(), "Transfer-Encoding");
}

#[test]
fn transfer_encoding_decodes_chunked_gzip() {
    let raw = vec![b"chunked, gzip".to_vec()];
    let decoded = TransferEncoding::parse_header(&raw);
    assert_eq!(
        decoded,
        Some(TransferEncoding(vec![Encoding::Chunked, Encoding::Gzip]))
    );
    assert_eq!(decoded.unwrap().fmt_header(), "chunked, gzip");
}

#[test]
fn transfer_encoding_decodes_ext() {
    let raw = vec![b"ext".to_vec()];
    let decoded = TransferEncoding::parse_header(&raw);
    assert_eq!(
        decoded,
        Some(TransferEncoding(vec![Encoding::EncodingExt("ext".to_string())]))
    );
    assert_eq!(decoded.unwrap().fmt_header(), "ext");
}

#[test]
fn transfer_encoding_absent() {
    let raw: Vec<Vec<u8>> = vec![];
    assert_eq!(TransferEncoding::parse_header(&raw), None);
}

#[test]
fn transfer_encoding_all_known_tokens() {
    let raw = vec![b"chunked,deflate , gzip,compress".to_vec()];
    assert_eq!(
        TransferEncoding::parse_header(&raw),
        Some(TransferEncoding(vec![
            Encoding::Chunked,
            Encoding::Deflate,
            Encoding::Gzip,
            Encoding::Compress,
        ]))
    );
}

#[test]
fn transfer_encoding_merges_lines_in_wire_order() {
    let raw = vec![b"gzip".to_vec(), b"chunked".to_vec()];
    assert_eq!(
        TransferEncoding::parse_header(&raw),
        Some(TransferEncoding(vec![Encoding::Gzip, Encoding::Chunked]))
    );
}

#[test]
fn transfer_encoding_drops_empty_pieces() {
    let raw = vec![b"gzip,, chunked,".to_vec()];
    assert_eq!(
        TransferEncoding::parse_header(&raw),
        Some(TransferEncoding(vec![Encoding::Gzip, Encoding::Chunked]))
    );
    // A present header whose pieces are all empty is an empty chain, not an
    // absence.
    let raw = vec![b", ,".to_vec()];
    assert_eq!(TransferEncoding::parse_header(&raw), Some(TransferEncoding(vec![])));
}

#[test]
fn transfer_encoding_is_case_sensitive() {
    let raw = vec![b"Chunked".to_vec()];
    assert_eq!(
        TransferEncoding::parse_header(&raw),
        Some(TransferEncoding(vec![Encoding::EncodingExt("Chunked".to_string())]))
    );
}

#[test]
fn transfer_encoding_normalizes_ext_keyword() {
    let chain = TransferEncoding(vec![Encoding::EncodingExt("chunked".to_string())]);
    let text = chain.fmt_header();
    assert_eq!(text, "chunked");
    let raw = vec![text.into_bytes()];
    assert_eq!(
        TransferEncoding::parse_header(&raw),
        Some(TransferEncoding(vec![Encoding::Chunked]))
    );
}

#[test]
fn transfer_encoding_round_trip_mixed() {
    let chain = TransferEncoding(vec![
        Encoding::Gzip,
        Encoding::EncodingExt("br".to_string()),
        Encoding::Chunked,
    ]);
    let text = chain.fmt_header();
    assert_eq!(text, "gzip, br, chunked");
    let raw = vec![text.into_bytes()];
    assert_eq!(TransferEncoding::parse_header(&raw), Some(chain));
}

#[test]
fn transfer_encoding_rejects_invalid_utf8() {
    let raw = vec![b"gzip".to_vec(), vec![0xc0u8]];
    assert_eq!(TransferEncoding::parse_header(&raw), None);
}

#[test]
fn encoding_from_str_matches_keywords() {
    assert_eq!(Encoding::from_str("chunked"), Encoding::Chunked);
    assert_eq!(Encoding::from_str("gzip"), Encoding::Gzip);
    assert_eq!(Encoding::from_str("deflate"), Encoding::Deflate);
    assert_eq!(Encoding::from_str("compress"), Encoding::Compress);
    assert_eq!(
        Encoding::from_str("identity"),
        Encoding::EncodingExt("identity".to_string())
    );
}

#[test]
fn encoding_to_text() {
    assert_eq!(Encoding::Chunked.to_text(), "chunked");
    assert_eq!(Encoding::Gzip.to_text(), "gzip");
    assert_eq!(Encoding::Deflate.to_text(), "deflate");
    assert_eq!(Encoding::Compress.to_text(), "compress");
    assert_eq!(Encoding::EncodingExt("br".to_string()).to_text(), "br");
}

#[test]
fn merge_to_single_string_wants_one_line() {
    assert_eq!(merge_to_single_string(&vec![b"abc".to_vec()]), Some("abc".to_string()));
    assert_eq!(merge_to_single_string(&vec![]), None);
    assert_eq!(merge_to_single_string(&vec![b"a".to_vec(), b"b".to_vec()]), None);
    assert_eq!(merge_to_single_string(&vec![vec![0xf5u8]]), None);
}

#[test]
fn merge_to_token_sequence_trims_and_orders() {
    let raw = vec![b" chunked ,\tgzip".to_vec()];
    let toks: Option<Vec<Encoding>> = merge_to_token_sequence(&raw);
    assert_eq!(toks, Some(vec![Encoding::Chunked, Encoding::Gzip]));
}

#[test]
fn format_token_sequence_joins() {
    let toks: Vec<Encoding> = vec![];
    assert_eq!(format_token_sequence(&toks), "");
    let toks = vec![Encoding::Deflate];
    assert_eq!(format_token_sequence(&toks), "deflate");
    let toks = vec![Encoding::Deflate, Encoding::Compress];
    assert_eq!(format_token_sequence(&toks), "deflate, compress");
}
