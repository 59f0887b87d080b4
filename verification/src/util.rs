//! Raw value utilities: reconciling the raw multi-line byte form of a header
//! with a single logical value, independent of any specific header's grammar.
//!
//! A raw line set is an ordered sequence of byte lines, all delivered under
//! one header name. A scalar grammar demands exactly one line, decoded as
//! UTF-8 ([`merge_to_single_string`]). A list grammar decodes every line,
//! splits each on commas, trims surrounding whitespace from each piece,
//! discards empty pieces, and parses the rest in wire order
//! ([`merge_to_token_sequence`]); [`format_token_sequence`] writes the
//! canonical single-line inverse.

use vstd::prelude::*;
use vstd::string::StrSliceExecFns;
use vstd::string::StringExecFns;
use vstd::utf8::decode_utf8;
use vstd::utf8::valid_utf8;

verus! {

/// Optional whitespace around a token: space or horizontal tab.
pub open spec fn is_ows_char(c: char) -> bool {
    c == ' ' || c == '\t'
}

/// `s` without its leading whitespace.
pub open spec fn trim_start_spec(s: Seq<char>) -> Seq<char>
    decreases s.len(),
{
    if s.len() > 0 && is_ows_char(s[0]) {
        trim_start_spec(s.drop_first())
    } else {
        s
    }
}

/// `s` without its trailing whitespace.
pub open spec fn trim_end_spec(s: Seq<char>) -> Seq<char>
    decreases s.len(),
{
    if s.len() > 0 && is_ows_char(s.last()) {
        trim_end_spec(s.drop_last())
    } else {
        s
    }
}

/// `s` without its surrounding whitespace.
pub open spec fn trim_spec(s: Seq<char>) -> Seq<char> {
    trim_end_spec(trim_start_spec(s))
}

/// The comma-separated pieces of `s`, in order; always at least one piece.
pub open spec fn split_commas(s: Seq<char>) -> Seq<Seq<char>>
    decreases s.len(),
{
    if s.len() == 0 {
        seq![s]
    } else if s[0] == ',' {
        seq![Seq::<char>::empty()] + split_commas(s.drop_first())
    } else {
        let rest = split_commas(s.drop_first());
        seq![seq![s[0]] + rest[0]] + rest.drop_first()
    }
}

/// The trimmed, non-empty texts among the given pieces, in order.
pub open spec fn piece_texts(pieces: Seq<Seq<char>>) -> Seq<Seq<char>>
    decreases pieces.len(),
{
    if pieces.len() == 0 {
        Seq::empty()
    } else {
        let t = trim_spec(pieces[0]);
        let rest = piece_texts(pieces.drop_first());
        if t.len() == 0 {
            rest
        } else {
            seq![t] + rest
        }
    }
}

/// The token texts of one decoded line.
pub open spec fn line_texts(s: Seq<char>) -> Seq<Seq<char>> {
    piece_texts(split_commas(s))
}

/// Whether a raw line set can be decoded at all: at least one line, and every
/// line valid UTF-8.
pub open spec fn lines_decodable(lines: Seq<Seq<u8>>) -> bool {
    &&& lines.len() > 0
    &&& forall|i: int| 0 <= i < lines.len() ==> valid_utf8(#[trigger] lines[i])
}

/// The token texts of a raw line set: encounter order across lines, then
/// within each line.
pub open spec fn lines_texts(lines: Seq<Seq<u8>>) -> Seq<Seq<char>>
    decreases lines.len(),
{
    if lines.len() == 0 {
        Seq::empty()
    } else {
        line_texts(decode_utf8(lines[0])) + lines_texts(lines.drop_first())
    }
}

/// One comma-separated unit of a token-list header grammar.
///
/// A token type states which value each text parses to (`is_parse_of`), that a
/// parsed token carries exactly the text it came from (`parse_of_text`), and
/// supplies the executable conversions both ways. Parsing is total: a text
/// that matches nothing known must still yield a token.
pub trait Token: Sized {
    /// The canonical wire text of this token.
    spec fn text(&self) -> Seq<char>;

    /// Whether this token is what the text `s` parses to.
    spec fn is_parse_of(&self, s: Seq<char>) -> bool;

    /// A token parsed from `s` carries exactly the text `s`.
    proof fn parse_of_text(&self, s: Seq<char>)
        requires
            self.is_parse_of(s),
        ensures
            self.text() == s,
    ;

    /// Parses one token text.
    fn parse_token(s: &str) -> (t: Self)
        ensures
            t.is_parse_of(s@),
    ;

    /// Writes this token's canonical wire text.
    fn to_text(&self) -> (r: String)
        ensures
            r@ == self.text(),
    ;
}

/// The canonical wire texts of a token sequence, in order.
pub open spec fn texts_of<T: Token>(tokens: Seq<T>) -> Seq<Seq<char>> {
    tokens.map_values(|t: T| t.text())
}

/// Whether `tokens` is what the token texts `texts` parse to, one for one.
pub open spec fn tokens_parse<T: Token>(tokens: Seq<T>, texts: Seq<Seq<char>>) -> bool {
    &&& tokens.len() == texts.len()
    &&& forall|i: int| 0 <= i < tokens.len() ==> #[trigger] tokens[i].is_parse_of(texts[i])
}

/// The canonical single-line text of a token text sequence: joined by ", ".
pub open spec fn join_texts(texts: Seq<Seq<char>>) -> Seq<char>
    decreases texts.len(),
{
    if texts.len() == 0 {
        Seq::empty()
    } else if texts.len() == 1 {
        texts[0]
    } else {
        texts[0] + seq![',', ' '] + join_texts(texts.drop_first())
    }
}

/// Relies on `String::from_utf8`: it returns `Ok` exactly when the bytes are
/// valid UTF-8, and the string it then returns is their decoding.
#[verifier::external_body]
fn decode_line(bytes: &Vec<u8>) -> (r: Option<String>)
    ensures
        r is Some <==> valid_utf8(bytes@),
        r is Some ==> r->0@ == decode_utf8(bytes@),
{
    String::from_utf8(bytes.clone()).ok()
}

/// The deep view of a raw line set indexes to each line's own view.
proof fn lemma_line_view(lines: &Vec<Vec<u8>>, i: int)
    requires
        0 <= i < lines@.len(),
    ensures
        lines.deep_view().len() == lines@.len(),
        lines.deep_view()[i] == lines@[i]@,
{
    assert(lines.deep_view()[i] =~= lines@[i]@);
}

/// Reconciles a raw line set whose grammar forbids line folding.
///
/// Yields the decoded text exactly when the set holds one line of valid
/// UTF-8; zero lines, two or more lines, or bytes that are not valid text
/// yield nothing.
pub fn merge_to_single_string(lines: &Vec<Vec<u8>>) -> (r: Option<String>)
    ensures
        r is Some <==> lines.deep_view().len() == 1 && valid_utf8(lines.deep_view()[0]),
        r is Some ==> r->0@ == decode_utf8(lines.deep_view()[0]),
{
    proof {
        assert(lines.deep_view().len() == lines@.len());
    }
    if lines.len() != 1 {
        return None;
    }
    proof {
        lemma_line_view(lines, 0);
    }
    decode_line(&lines[0])
}

proof fn lemma_split_commas_len(s: Seq<char>)
    ensures
        split_commas(s).len() >= 1,
    decreases s.len(),
{
    if s.len() > 0 {
        lemma_split_commas_len(s.drop_first());
    }
}

proof fn lemma_split_commas_none(s: Seq<char>)
    requires
        forall|i: int| 0 <= i < s.len() ==> s[i] != ',',
    ensures
        split_commas(s) == seq![s],
    decreases s.len(),
{
    if s.len() == 0 {
        assert(split_commas(s) =~= seq![s]);
    } else {
        let s1 = s.drop_first();
        lemma_split_commas_none(s1);
        let rest = split_commas(s1);
        assert(rest[0] == s1);
        assert(rest.drop_first() =~= Seq::<Seq<char>>::empty());
        assert(seq![s[0]] + s1 =~= s);
        assert(split_commas(s) =~= seq![s]);
    }
}

proof fn lemma_split_commas_first(s: Seq<char>, k: int)
    requires
        0 <= k < s.len(),
        s[k] == ',',
        forall|i: int| 0 <= i < k ==> s[i] != ',',
    ensures
        split_commas(s) == seq![s.take(k)] + split_commas(s.subrange(k + 1, s.len() as int)),
    decreases k,
{
    if k == 0 {
        assert(s.take(0) =~= Seq::<char>::empty());
        assert(s.drop_first() =~= s.subrange(1, s.len() as int));
        assert(split_commas(s) =~= seq![s.take(0)] + split_commas(
            s.subrange(1, s.len() as int),
        ));
    } else {
        let s1 = s.drop_first();
        assert(forall|i: int| 0 <= i < k - 1 ==> s1[i] != ',');
        assert(s1[k - 1] == ',');
        lemma_split_commas_first(s1, k - 1);
        let rest = split_commas(s1);
        assert(rest[0] == s1.take(k - 1));
        assert(seq![s[0]] + s1.take(k - 1) =~= s.take(k));
        assert(s1.subrange(k, s1.len() as int) =~= s.subrange(k + 1, s.len() as int));
        assert(rest.drop_first() == split_commas(s.subrange(k + 1, s.len() as int)));
        assert(split_commas(s) =~= seq![s.take(k)] + split_commas(
            s.subrange(k + 1, s.len() as int),
        ));
    }
}

proof fn lemma_piece_texts_cons(p: Seq<char>, rest: Seq<Seq<char>>)
    ensures
        trim_spec(p).len() == 0 ==> piece_texts(seq![p] + rest) == piece_texts(rest),
        trim_spec(p).len() != 0 ==> piece_texts(seq![p] + rest) == seq![trim_spec(p)]
            + piece_texts(rest),
{
    let pieces = seq![p] + rest;
    assert(pieces[0] == p);
    assert(pieces.drop_first() =~= rest);
}

proof fn lemma_lines_texts_take_succ(lines: Seq<Seq<u8>>, i: int)
    requires
        0 <= i < lines.len(),
    ensures
        lines_texts(lines.take(i + 1)) == lines_texts(lines.take(i)) + line_texts(
            decode_utf8(lines[i]),
        ),
    decreases i,
{
    if i == 0 {
        assert(lines.take(0) =~= Seq::<Seq<u8>>::empty());
        assert(lines.take(1)[0] == lines[0]);
        assert(lines.take(1).drop_first() =~= Seq::<Seq<u8>>::empty());
        assert(lines_texts(lines.take(1)) =~= lines_texts(lines.take(0)) + line_texts(
            decode_utf8(lines[0]),
        ));
    } else {
        let l1 = lines.drop_first();
        lemma_lines_texts_take_succ(l1, i - 1);
        assert(lines.take(i + 1).drop_first() =~= l1.take(i));
        assert(lines.take(i).drop_first() =~= l1.take(i - 1));
        assert(lines.take(i + 1)[0] == lines[0]);
        assert(lines.take(i)[0] == lines[0]);
        assert(l1[i - 1] == lines[i]);
        assert(lines_texts(lines.take(i + 1)) =~= lines_texts(lines.take(i)) + line_texts(
            decode_utf8(lines[i]),
        ));
    }
}

fn is_ows(c: char) -> (r: bool)
    ensures
        r == is_ows_char(c),
{
    c == ' ' || c == '\t'
}

/// Trims the piece `s[from..to]` and, when anything is left, parses it and
/// appends the token.
fn push_piece<T: Token>(s: &str, from: usize, to: usize, out: &mut Vec<T>)
    requires
        from <= to,
        to <= s@.len(),
    ensures
        ({
            let t = trim_spec(s@.subrange(from as int, to as int));
            if t.len() == 0 {
                final(out)@ == old(out)@
            } else {
                final(out)@.len() == old(out)@.len() + 1 && final(out)@.drop_last() == old(out)@
                    && final(out)@.last().is_parse_of(t)
            }
        }),
{
    let ghost whole = s@.subrange(from as int, to as int);
    let mut a = from;
    let mut b = to;
    while a < b && is_ows(s.get_char(a))
        invariant
            from <= a <= b,
            b == to <= s@.len(),
            trim_start_spec(s@.subrange(from as int, to as int)) == trim_start_spec(
                s@.subrange(a as int, to as int),
            ),
        decreases b - a,
    {
        proof {
            assert(s@.subrange(a as int, to as int).drop_first() =~= s@.subrange(
                a + 1,
                to as int,
            ));
        }
        a = a + 1;
    }
    proof {
        if a == to {
            assert(s@.subrange(a as int, to as int) =~= Seq::<char>::empty());
        }
        assert(trim_start_spec(whole) == s@.subrange(a as int, to as int));
    }
    while b > a && is_ows(s.get_char(b - 1))
        invariant
            from <= a <= b <= to <= s@.len(),
            trim_start_spec(s@.subrange(from as int, to as int)) == s@.subrange(
                a as int,
                to as int,
            ),
            trim_end_spec(s@.subrange(a as int, to as int)) == trim_end_spec(
                s@.subrange(a as int, b as int),
            ),
        decreases b - a,
    {
        proof {
            assert(s@.subrange(a as int, b as int).last() == s@[b - 1]);
            assert(s@.subrange(a as int, b as int).drop_last() =~= s@.subrange(
                a as int,
                b - 1,
            ));
        }
        b = b - 1;
    }
    proof {
        if a == b {
            assert(s@.subrange(a as int, b as int) =~= Seq::<char>::empty());
        }
        assert(trim_spec(whole) == s@.subrange(a as int, b as int));
    }
    if a < b {
        let piece = s.substring_char(a, b);
        let t = T::parse_token(piece);
        out.push(t);
        proof {
            assert(out@.drop_last() =~= old(out)@);
        }
    }
}

/// Parses the token texts of one decoded line, in order, appending to `out`.
fn line_tokens<T: Token>(s: &str, out: &mut Vec<T>)
    requires
        tokens_parse(old(out)@, texts_of(old(out)@)),
    ensures
        final(out)@.len() >= old(out)@.len(),
        texts_of(final(out)@) == texts_of(old(out)@) + line_texts(s@),
        tokens_parse(final(out)@, texts_of(final(out)@)),
{
    let n = s.unicode_len();
    let ghost base = out@;
    let mut start: usize = 0;
    let mut j: usize = 0;
    proof {
        assert(s@.subrange(0, n as int) =~= s@);
    }
    while j < n
        invariant
            n == s@.len(),
            0 <= start <= j <= n,
            forall|k: int| start <= k < j ==> s@[k] != ',',
            out@.len() >= base.len(),
            tokens_parse(out@, texts_of(out@)),
            texts_of(base) + line_texts(s@) == texts_of(out@) + piece_texts(
                split_commas(s@.subrange(start as int, n as int)),
            ),
        decreases n - j,
    {
        let c = s.get_char(j);
        if c == ',' {
            let ghost rem = s@.subrange(start as int, n as int);
            proof {
                assert(forall|i: int| 0 <= i < j - start ==> rem[i] != ',');
                assert(rem[j - start] == ',');
                lemma_split_commas_first(rem, j - start);
                assert(rem.take(j - start) =~= s@.subrange(start as int, j as int));
                assert(rem.subrange(j - start + 1, rem.len() as int) =~= s@.subrange(
                    j + 1,
                    n as int,
                ));
                lemma_piece_texts_cons(
                    s@.subrange(start as int, j as int),
                    split_commas(s@.subrange(j + 1, n as int)),
                );
            }
            let ghost before = out@;
            push_piece(s, start, j, out);
            proof {
                let t = trim_spec(s@.subrange(start as int, j as int));
                if t.len() != 0 {
                    out@.last().parse_of_text(t);
                    assert(texts_of(out@) =~= texts_of(before).push(t));
                    assert(out@.drop_last() =~= before);
                    assert forall|i: int| 0 <= i < out@.len() implies #[trigger] out@[i].is_parse_of(
                        texts_of(out@)[i],
                    ) by {
                        if i < before.len() {
                            assert(before[i].is_parse_of(texts_of(before)[i]));
                            assert(out@[i] == before[i]);
                            assert(texts_of(out@)[i] == texts_of(before)[i]);
                        }
                    }
                    assert(texts_of(before).push(t) =~= texts_of(before) + seq![t]);
                }
                assert(texts_of(base) + line_texts(s@) == texts_of(out@) + piece_texts(
                    split_commas(s@.subrange(j + 1, n as int)),
                ));
            }
            start = j + 1;
        }
        j = j + 1;
    }
    let ghost rem = s@.subrange(start as int, n as int);
    proof {
        assert(forall|i: int| 0 <= i < rem.len() ==> rem[i] != ',');
        lemma_split_commas_none(rem);
        lemma_piece_texts_cons(rem, Seq::<Seq<char>>::empty());
        assert(seq![rem] + Seq::<Seq<char>>::empty() =~= seq![rem]);
        assert(piece_texts(Seq::<Seq<char>>::empty()) =~= Seq::<Seq<char>>::empty());
    }
    let ghost before = out@;
    push_piece(s, start, n, out);
    proof {
        let t = trim_spec(rem);
        if t.len() != 0 {
            out@.last().parse_of_text(t);
            assert(texts_of(out@) =~= texts_of(before).push(t));
            assert(out@.drop_last() =~= before);
            assert forall|i: int| 0 <= i < out@.len() implies #[trigger] out@[i].is_parse_of(
                texts_of(out@)[i],
            ) by {
                if i < before.len() {
                    assert(before[i].is_parse_of(texts_of(before)[i]));
                    assert(out@[i] == before[i]);
                    assert(texts_of(out@)[i] == texts_of(before)[i]);
                }
            }
            assert(texts_of(before).push(t) =~= texts_of(before) + seq![t]);
            assert(seq![t] + piece_texts(Seq::<Seq<char>>::empty()) =~= seq![t]);
        } else {
            assert(piece_texts(seq![rem]) =~= Seq::<Seq<char>>::empty());
        }
        assert(texts_of(base) + line_texts(s@) =~= texts_of(out@));
    }
}

/// Reconciles a raw line set under a comma-delimited list grammar.
///
/// Yields tokens exactly when at least one line is present and every line is
/// valid UTF-8; the tokens then parse, one for one and in wire order, the
/// trimmed non-empty comma-separated texts of all lines. A set whose lines
/// hold no non-empty piece yields an empty token sequence, not an absence.
pub fn merge_to_token_sequence<T: Token>(lines: &Vec<Vec<u8>>) -> (r: Option<Vec<T>>)
    ensures
        r is Some <==> lines_decodable(lines.deep_view()),
        r is Some ==> tokens_parse(r->0@, lines_texts(lines.deep_view())),
{
    let ghost ld = lines.deep_view();
    proof {
        assert(ld.len() == lines@.len());
    }
    if lines.len() == 0 {
        return None;
    }
    let mut out: Vec<T> = Vec::new();
    let mut li: usize = 0;
    proof {
        assert(ld.take(0) =~= Seq::<Seq<u8>>::empty());
        assert(texts_of(out@) =~= Seq::<Seq<char>>::empty());
    }
    while li < lines.len()
        invariant
            ld == lines.deep_view(),
            ld.len() == lines@.len(),
            0 <= li <= lines@.len(),
            forall|i: int| 0 <= i < li ==> valid_utf8(#[trigger] ld[i]),
            tokens_parse(out@, texts_of(out@)),
            texts_of(out@) == lines_texts(ld.take(li as int)),
        decreases lines@.len() - li,
    {
        proof {
            lemma_line_view(lines, li as int);
        }
        match decode_line(&lines[li]) {
            None => {
                proof {
                    assert(!valid_utf8(ld[li as int]));
                }
                return None;
            },
            Some(line) => {
                proof {
                    lemma_lines_texts_take_succ(ld, li as int);
                }
                line_tokens::<T>(line.as_str(), &mut out);
            },
        }
        li = li + 1;
    }
    proof {
        assert(ld.take(ld.len() as int) =~= ld);
    }
    Some(out)
}

/// A token text that the list grammar carries through a round trip without
/// change: non-empty, comma-free, and without surrounding whitespace.
pub open spec fn token_clean(s: Seq<char>) -> bool {
    &&& s.len() > 0
    &&& forall|i: int| 0 <= i < s.len() ==> s[i] != ','
    &&& !is_ows_char(s[0])
    &&& !is_ows_char(s[s.len() - 1])
}

proof fn lemma_trim_clean(s: Seq<char>)
    requires
        s.len() > 0,
        !is_ows_char(s[0]),
        !is_ows_char(s[s.len() - 1]),
    ensures
        trim_spec(s) == s,
{
    assert(trim_start_spec(s) == s);
    assert(trim_end_spec(s) == s);
}

proof fn lemma_line_texts_leading_space(w: Seq<char>)
    ensures
        line_texts(seq![' '] + w) == line_texts(w),
{
    let v = seq![' '] + w;
    assert(v[0] == ' ');
    assert(v.drop_first() =~= w);
    let rest = split_commas(w);
    lemma_split_commas_len(w);
    assert(split_commas(v) == seq![seq![' '] + rest[0]] + rest.drop_first());
    assert((seq![' '] + rest[0]).drop_first() =~= rest[0]);
    assert(trim_start_spec(seq![' '] + rest[0]) == trim_start_spec(rest[0]));
    lemma_piece_texts_cons(seq![' '] + rest[0], rest.drop_first());
    assert(rest =~= seq![rest[0]] + rest.drop_first());
    lemma_piece_texts_cons(rest[0], rest.drop_first());
}

/// Splitting the canonical joined line recovers exactly the given texts,
/// when each text is non-empty, comma-free, and not whitespace-padded.
pub proof fn lemma_line_texts_join(texts: Seq<Seq<char>>)
    requires
        texts.len() >= 1,
        forall|i: int| 0 <= i < texts.len() ==> token_clean(#[trigger] texts[i]),
    ensures
        line_texts(join_texts(texts)) == texts,
    decreases texts.len(),
{
    let j = join_texts(texts);
    let t0 = texts[0];
    assert(token_clean(t0));
    lemma_trim_clean(t0);
    if texts.len() == 1 {
        assert(j == t0);
        lemma_split_commas_none(j);
        lemma_piece_texts_cons(j, Seq::<Seq<char>>::empty());
        assert(seq![j] + Seq::<Seq<char>>::empty() =~= seq![j]);
        assert(piece_texts(Seq::<Seq<char>>::empty()) =~= Seq::<Seq<char>>::empty());
        assert(seq![trim_spec(j)] + Seq::<Seq<char>>::empty() =~= seq![t0]);
        assert(line_texts(j) =~= texts);
    } else {
        let rest = texts.drop_first();
        let jr = join_texts(rest);
        assert(j == t0 + seq![',', ' '] + jr);
        let k = t0.len() as int;
        assert(j[k] == ',');
        assert(forall|i: int| 0 <= i < k ==> j[i] == t0[i]);
        lemma_split_commas_first(j, k);
        assert(j.take(k) =~= t0);
        assert(j.subrange(k + 1, j.len() as int) =~= seq![' '] + jr);
        lemma_piece_texts_cons(t0, split_commas(seq![' '] + jr));
        lemma_line_texts_leading_space(jr);
        assert(forall|i: int| 0 <= i < rest.len() ==> token_clean(#[trigger] rest[i]));
        lemma_line_texts_join(rest);
        assert(line_texts(j) =~= seq![t0] + rest);
        assert(seq![t0] + rest =~= texts);
    }
}

proof fn lemma_join_texts_push(texts: Seq<Seq<char>>, t: Seq<char>)
    ensures
        texts.len() == 0 ==> join_texts(texts.push(t)) == t,
        texts.len() > 0 ==> join_texts(texts.push(t)) == join_texts(texts) + seq![',', ' '] + t,
    decreases texts.len(),
{
    if texts.len() == 0 {
        assert(texts.push(t)[0] == t);
        assert(texts.push(t).len() == 1);
    } else if texts.len() == 1 {
        assert(texts.push(t)[0] == texts[0]);
        assert(texts.push(t).drop_first() =~= seq![t]);
        assert(join_texts(seq![t]) == t);
    } else {
        lemma_join_texts_push(texts.drop_first(), t);
        assert(texts.push(t).drop_first() =~= texts.drop_first().push(t));
        assert(texts.push(t)[0] == texts[0]);
        assert(join_texts(texts.push(t)) =~= join_texts(texts) + seq![',', ' '] + t);
    }
}

/// Writes the canonical single-line wire text of a token sequence: each
/// token's text in stored order, joined by a comma and a single space.
pub fn format_token_sequence<T: Token>(tokens: &Vec<T>) -> (r: String)
    ensures
        r@ == join_texts(texts_of(tokens@)),
{
    let mut out = String::new();
    let mut i: usize = 0;
    while i < tokens.len()
        invariant
            0 <= i <= tokens@.len(),
            out@ == join_texts(texts_of(tokens@.take(i as int))),
        decreases tokens@.len() - i,
    {
        proof {
            reveal_strlit(", ");
            assert(", "@ =~= seq![',', ' ']);
            assert(texts_of(tokens@.take(i as int)).len() == i);
            assert(texts_of(tokens@.take(i + 1)) =~= texts_of(tokens@.take(i as int)).push(
                tokens@[i as int].text(),
            ));
            lemma_join_texts_push(texts_of(tokens@.take(i as int)), tokens@[i as int].text());
        }
        if i > 0 {
            out.append(", ");
        }
        let t = tokens[i].to_text();
        out.append(t.as_str());
        i = i + 1;
    }
    proof {
        assert(tokens@.take(tokens@.len() as int) =~= tokens@);
    }
    out
}

} // verus!
