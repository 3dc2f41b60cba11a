use vstd::prelude::*;
use vstd::utf8::*;
use crate::span::Span;
use crate::token::{Token, TokenKind, TokenModel, KindModel, tokens_model};
use crate::parser::{Error, ErrorModel};

verus! {

broadcast use vstd::utf8::char_is_scalar;

/// Whether the character has the Unicode White_Space property.
pub open spec fn is_space(c: char) -> bool {
    let v = c as u32;
    ||| 0x09 <= v <= 0x0D
    ||| v == 0x20 || v == 0x85 || v == 0xA0 || v == 0x1680
    ||| 0x2000 <= v <= 0x200A
    ||| v == 0x2028 || v == 0x2029 || v == 0x202F || v == 0x205F || v == 0x3000
}

/// Whether `char::is_alphabetic` holds of the character (Unicode Alphabetic).
pub uninterp spec fn is_letter(c: char) -> bool;

/// Whether `char::is_alphanumeric` holds of the character.
pub uninterp spec fn is_letter_or_digit(c: char) -> bool;

/// Relies on `char::is_whitespace`: true exactly of the characters with the
/// Unicode White_Space property.
#[verifier::external_body]
fn char_is_whitespace(c: char) -> (r: bool)
    ensures
        r == is_space(c),
{
    c.is_whitespace()
}

/// Relies on `char::is_alphabetic`, which depends on the character alone.
#[verifier::external_body]
fn char_is_alphabetic(c: char) -> (r: bool)
    ensures
        r == is_letter(c),
{
    c.is_alphabetic()
}

/// Relies on `char::is_alphanumeric`, which depends on the character alone and
/// holds of every alphabetic character.
#[verifier::external_body]
fn char_is_alphanumeric(c: char) -> (r: bool)
    ensures
        r == is_letter_or_digit(c),
        is_letter(c) ==> r,
{
    c.is_alphanumeric()
}

/// Relies on `String::push`: appends the character at the end.
#[verifier::external_body]
pub(crate) fn push_char(s: &mut String, c: char)
    ensures
        final(s)@ == old(s)@.push(c),
{
    s.push(c)
}

/// The byte offset, in the UTF-8 encoding of `s`, of its `i`-th character.
pub open spec fn byte_offset(s: Seq<char>, i: int) -> int {
    encode_utf8(s.take(i)).len() as int
}

/// The one-byte span at the `i`-th character of `s`.
pub open spec fn byte_span(s: Seq<char>, i: int) -> Span {
    Span { start: byte_offset(s, i) as u32, end: (byte_offset(s, i) + 1) as u32 }
}

/// The span from the `i`-th character of `s` up to the `j`-th.
pub open spec fn range_span(s: Seq<char>, i: int, j: int) -> Span {
    Span { start: byte_offset(s, i) as u32, end: byte_offset(s, j) as u32 }
}

/// The kind of a one-character punctuation token.
pub open spec fn punct_kind(c: char) -> Option<KindModel> {
    if c == '[' {
        Some(KindModel::BracketOpen)
    } else if c == ']' {
        Some(KindModel::BracketClose)
    } else if c == '{' {
        Some(KindModel::BraceOpen)
    } else if c == '}' {
        Some(KindModel::BraceClose)
    } else if c == '=' {
        Some(KindModel::Equal)
    } else if c == ',' {
        Some(KindModel::Comma)
    } else {
        None
    }
}

/// Where a comment whose text starts at `i` ends: past the next newline, or at the end.
pub open spec fn comment_end(s: Seq<char>, i: int) -> int
    decreases s.len() - i,
{
    if i >= s.len() {
        s.len() as int
    } else if s[i] == '\n' {
        i + 1
    } else {
        comment_end(s, i + 1)
    }
}

/// The index of the first `"` at or after `i`, if any.
pub open spec fn closing_quote(s: Seq<char>, i: int) -> Option<int>
    decreases s.len() - i,
{
    if i >= s.len() {
        None
    } else if s[i] == '"' {
        Some(i)
    } else {
        closing_quote(s, i + 1)
    }
}

/// The end of the run of alphanumeric characters that starts at `i`.
pub open spec fn ident_end(s: Seq<char>, i: int) -> int
    decreases s.len() - i,
{
    if i >= s.len() {
        s.len() as int
    } else if !is_letter_or_digit(s[i]) {
        i
    } else {
        ident_end(s, i + 1)
    }
}

/// `t` in front of the tokens of `r`, or the error of `r`.
pub open spec fn prepend(t: TokenModel, r: Result<Seq<TokenModel>, ErrorModel>) -> Result<
    Seq<TokenModel>,
    ErrorModel,
> {
    match r {
        Ok(ts) => Ok(seq![t] + ts),
        Err(e) => Err(e),
    }
}

/// `ts` in front of the tokens of `r`, or the error of `r`.
pub open spec fn extend(ts: Seq<TokenModel>, r: Result<Seq<TokenModel>, ErrorModel>) -> Result<
    Seq<TokenModel>,
    ErrorModel,
> {
    match r {
        Ok(rest) => Ok(ts + rest),
        Err(e) => Err(e),
    }
}

/// The tokens of `s` from its `i`-th character on, or the first error met there.
pub open spec fn lex_from(s: Seq<char>, i: int) -> Result<Seq<TokenModel>, ErrorModel>
    decreases s.len() - i,
    via lex_from_decreases
{
    if i < 0 || i >= s.len() {
        Ok(seq![])
    } else {
        let c = s[i];
        if is_space(c) {
            lex_from(s, i + 1)
        } else if c == '#' {
            lex_from(s, comment_end(s, i + 1))
        } else if punct_kind(c) is Some {
            prepend(TokenModel { kind: punct_kind(c)->0, span: byte_span(s, i) }, lex_from(s, i + 1))
        } else if c == '"' {
            match closing_quote(s, i + 1) {
                None => Err(ErrorModel::UnterminatedStringLiteral(byte_span(s, i))),
                Some(j) => prepend(
                    TokenModel {
                        kind: KindModel::Str(s.subrange(i + 1, j)),
                        span: range_span(s, i, j + 1),
                    },
                    lex_from(s, j + 1),
                ),
            }
        } else if is_letter(c) {
            let j = ident_end(s, i + 1);
            prepend(
                TokenModel { kind: KindModel::Ident(s.subrange(i, j)), span: range_span(s, i, j) },
                lex_from(s, j),
            )
        } else {
            Err(ErrorModel::InvalidCharacter(c, byte_span(s, i)))
        }
    }
}

#[via_fn]
proof fn lex_from_decreases(s: Seq<char>, i: int) {
    lemma_comment_end(s, i + 1);
    lemma_closing_quote(s, i + 1);
    lemma_ident_end(s, i + 1);
}

proof fn lemma_comment_end(s: Seq<char>, i: int)
    ensures
        i >= s.len() ==> comment_end(s, i) == s.len(),
        i < s.len() ==> i < comment_end(s, i) <= s.len(),
    decreases s.len() - i,
{
    if i < s.len() {
        lemma_comment_end(s, i + 1);
    }
}

proof fn lemma_closing_quote(s: Seq<char>, i: int)
    ensures
        closing_quote(s, i) matches Some(j) ==> i <= j < s.len() && s[j] == '"',
    decreases s.len() - i,
{
    if i < s.len() {
        lemma_closing_quote(s, i + 1);
    }
}

proof fn lemma_ident_end(s: Seq<char>, i: int)
    ensures
        i >= s.len() ==> ident_end(s, i) == s.len(),
        i < s.len() ==> i <= ident_end(s, i) <= s.len(),
    decreases s.len() - i,
{
    if i < s.len() {
        lemma_ident_end(s, i + 1);
    }
}


proof fn lemma_encode_concat(a: Seq<char>, b: Seq<char>)
    ensures
        encode_utf8(a + b) == encode_utf8(a) + encode_utf8(b),
    decreases a.len(),
{
    if a.len() == 0 {
        assert(a + b =~= b);
        assert(encode_utf8(a) + encode_utf8(b) =~= encode_utf8(b));
    } else {
        lemma_encode_concat(a.drop_first(), b);
        assert((a + b).drop_first() =~= a.drop_first() + b);
        assert(encode_utf8(a + b) =~= encode_utf8(a) + encode_utf8(b));
    }
}

/// The byte offset grows by the width of each character, and stays within the encoding.
proof fn lemma_byte_offset_step(s: Seq<char>, i: int)
    requires
        0 <= i < s.len(),
    ensures
        byte_offset(s, i + 1) == byte_offset(s, i) + encode_scalar(s[i] as u32).len(),
        byte_offset(s, i + 1) <= byte_offset(s, s.len() as int),
{
    assert(s.take(i + 1) =~= s.take(i) + seq![s[i]]);
    lemma_encode_concat(s.take(i), seq![s[i]]);
    reveal_with_fuel(encode_utf8, 2);
    assert(seq![s[i]].drop_first() =~= Seq::<char>::empty());
    assert(encode_utf8(seq![s[i]]) =~= encode_scalar(s[i] as u32));
    assert(s.take(s.len() as int) =~= s.take(i + 1) + s.subrange(i + 1, s.len() as int));
    lemma_encode_concat(s.take(i + 1), s.subrange(i + 1, s.len() as int));
}

/// The number of bytes in the UTF-8 encoding of `c`.
fn utf8_width(c: char) -> (w: u32)
    ensures
        w == encode_scalar(c as u32).len(),
        1 <= w <= 4,
{
    let v = c as u32;
    if v <= 0x7F {
        1
    } else if v <= 0x7FF {
        2
    } else if v <= 0xFFFF {
        3
    } else {
        4
    }
}

/// The characters of `s`, in order.
fn chars_of(s: &str) -> (r: Vec<char>)
    ensures
        r@ == s@,
{
    let mut v: Vec<char> = Vec::new();
    for c in it: s.chars()
        invariant
            v@ == it.seq().take(it.index() as int),
    {
        v.push(c);
    }
    v
}

/// The characters of `v` from `from` up to `to`, as a string.
fn string_of(v: &Vec<char>, from: usize, to: usize) -> (r: String)
    requires
        from <= to <= v.len(),
    ensures
        r@ == v@.subrange(from as int, to as int),
{
    let mut r = String::new();
    let mut k: usize = from;
    while k < to
        invariant
            from <= k <= to <= v.len(),
            r@ == v@.subrange(from as int, k as int),
        decreases to - k,
    {
        push_char(&mut r, v[k]);
        k = k + 1;
        assert(r@ =~= v@.subrange(from as int, k as int));
    }
    r
}


/// Skips a comment whose text starts at `i`; returns where it ends and that byte offset.
fn skip_comment(v: &Vec<char>, i: usize, pos: u32) -> (r: (usize, u32))
    requires
        i <= v.len(),
        pos == byte_offset(v@, i as int),
        byte_offset(v@, v.len() as int) < u32::MAX,
    ensures
        r.0 == comment_end(v@, i as int),
        r.1 == byte_offset(v@, r.0 as int),
{
    let mut k = i;
    let mut p = pos;
    while k < v.len()
        invariant
            i <= k <= v.len(),
            p == byte_offset(v@, k as int),
            byte_offset(v@, v.len() as int) < u32::MAX,
            comment_end(v@, i as int) == comment_end(v@, k as int),
        decreases v.len() - k,
    {
        let c = v[k];
        proof {
            lemma_byte_offset_step(v@, k as int);
        }
        p = p + utf8_width(c);
        k = k + 1;
        if c == '\n' {
            return (k, p);
        }
    }
    (k, p)
}

/// Finds the first `"` at or after `i`, with its byte offset.
fn find_quote(v: &Vec<char>, i: usize, pos: u32) -> (r: Option<(usize, u32)>)
    requires
        i <= v.len(),
        pos == byte_offset(v@, i as int),
        byte_offset(v@, v.len() as int) < u32::MAX,
    ensures
        r is None <==> closing_quote(v@, i as int) is None,
        r matches Some(q) ==> closing_quote(v@, i as int) == Some(q.0 as int) && q.1
            == byte_offset(v@, q.0 as int),
{
    let mut k = i;
    let mut p = pos;
    while k < v.len()
        invariant
            i <= k <= v.len(),
            p == byte_offset(v@, k as int),
            byte_offset(v@, v.len() as int) < u32::MAX,
            closing_quote(v@, i as int) == closing_quote(v@, k as int),
        decreases v.len() - k,
    {
        let c = v[k];
        if c == '"' {
            return Some((k, p));
        }
        proof {
            lemma_byte_offset_step(v@, k as int);
        }
        p = p + utf8_width(c);
        k = k + 1;
    }
    None
}

/// Finds the end of the alphanumeric run that starts at `i`, with its byte offset.
fn scan_ident(v: &Vec<char>, i: usize, pos: u32) -> (r: (usize, u32))
    requires
        i <= v.len(),
        pos == byte_offset(v@, i as int),
        byte_offset(v@, v.len() as int) < u32::MAX,
    ensures
        r.0 == ident_end(v@, i as int),
        r.1 == byte_offset(v@, r.0 as int),
{
    let mut k = i;
    let mut p = pos;
    while k < v.len()
        invariant
            i <= k <= v.len(),
            p == byte_offset(v@, k as int),
            byte_offset(v@, v.len() as int) < u32::MAX,
            ident_end(v@, i as int) == ident_end(v@, k as int),
        decreases v.len() - k,
    {
        let c = v[k];
        if !char_is_alphanumeric(c) {
            return (k, p);
        }
        proof {
            lemma_byte_offset_step(v@, k as int);
        }
        p = p + utf8_width(c);
        k = k + 1;
    }
    (k, p)
}

/// The offsets of a span that ends at or before the end of `s` fit in `u32`.
proof fn lemma_byte_offset_mono(s: Seq<char>, i: int, j: int)
    requires
        0 <= i <= j <= s.len(),
    ensures
        byte_offset(s, i) <= byte_offset(s, j),
    decreases j - i,
{
    if i < j {
        lemma_byte_offset_step(s, j - 1);
        lemma_byte_offset_mono(s, i, j - 1);
    }
}

proof fn lemma_extend_prepend(ts: Seq<TokenModel>, t: TokenModel, r: Result<Seq<TokenModel>, ErrorModel>)
    ensures
        extend(ts, prepend(t, r)) == extend(ts.push(t), r),
{
    if let Ok(rest) = r {
        assert(ts + (seq![t] + rest) =~= ts.push(t) + rest);
    }
}

/// The kind of a one-character punctuation token, if `c` is one.
fn punct(c: char) -> (r: Option<TokenKind>)
    ensures
        r is Some <==> punct_kind(c) is Some,
        r matches Some(k) ==> k@ == punct_kind(c)->0,
{
    match c {
        '[' => Some(TokenKind::BracketOpen),
        ']' => Some(TokenKind::BracketClose),
        '{' => Some(TokenKind::BraceOpen),
        '}' => Some(TokenKind::BraceClose),
        '=' => Some(TokenKind::Equal),
        ',' => Some(TokenKind::Comma),
        _ => None,
    }
}

/// Splits source text into tokens, each with its byte-offset span.
///
/// Whitespace and `#` comments (up to and including the next newline) give no
/// token. The result is exactly [`lex`] of the text: its tokens in source
/// order, or the first error met.
pub fn lexer(input: &str) -> (r: Result<Vec<Token>, Error>)
    ensures
        lex_result_model(r) == lex(input@),
{
    let len = input.as_bytes().len();
    if len >= 0xFFFF_FFFFusize {
        return Err(Error::SourceFileTooBig(len));
    }
    let v = chars_of(input);
    let ghost s = v@;
    let n = v.len();
    proof {
        assert(s.take(n as int) =~= s);
        assert(s.take(0) =~= Seq::<char>::empty());
    }
    let mut tokens: Vec<Token> = Vec::new();
    let mut i: usize = 0;
    let mut pos: u32 = 0;
    while i < n
        invariant
            s == v@,
            n == s.len(),
            i <= n,
            pos == byte_offset(s, i as int),
            byte_offset(s, n as int) < u32::MAX,
            lex(input@) == lex_from(s, 0),
            lex_from(s, 0) == extend(tokens_model(tokens@), lex_from(s, i as int)),
        decreases n - i,
    {
        let c = v[i];
        proof {
            lemma_byte_offset_step(s, i as int);
        }
        let next = pos + utf8_width(c);
        let ghost before = tokens_model(tokens@);
        if char_is_whitespace(c) {
            i = i + 1;
            pos = next;
        } else if c == '#' {
            let (k, p) = skip_comment(&v, i + 1, next);
            proof {
                lemma_comment_end(s, i + 1);
            }
            i = k;
            pos = p;
        } else if let Some(kind) = punct(c) {
            let t = Token { span: Span::new(pos, pos + 1), kind };
            proof {
                lemma_extend_prepend(before, t@, lex_from(s, i + 1));
            }
            tokens.push(t);
            proof {
                assert(tokens_model(tokens@) =~= before.push(t@));
            }
            i = i + 1;
            pos = next;
        } else if c == '"' {
            match find_quote(&v, i + 1, next) {
                None => {
                    let e = Error::UnterminatedStringLiteral(Span::new(pos, pos + 1));
                    assert(lex_from(s, i as int) == Err::<Seq<TokenModel>, ErrorModel>(e@));
                    return Err(e);
                },
                Some((j, p)) => {
                    proof {
                        lemma_closing_quote(s, i + 1);
                        lemma_byte_offset_step(s, j as int);
                    }
                    let text = string_of(&v, i + 1, j);
                    proof {
                        lemma_byte_offset_mono(s, i as int, j as int);
                    }
                    let t = Token { span: Span::new(pos, p + 1), kind: TokenKind::String(text) };
                    proof {
                        lemma_extend_prepend(before, t@, lex_from(s, j + 1));
                    }
                    tokens.push(t);
                    proof {
                        assert(tokens_model(tokens@) =~= before.push(t@));
                    }
                    i = j + 1;
                    pos = p + 1;
                },
            }
        } else if char_is_alphabetic(c) {
            let (j, p) = scan_ident(&v, i + 1, next);
            proof {
                lemma_ident_end(s, i + 1);
                lemma_byte_offset_mono(s, i as int, j as int);
            }
            let text = string_of(&v, i, j);
            let t = Token { span: Span::new(pos, p), kind: TokenKind::Ident(text) };
            proof {
                lemma_extend_prepend(before, t@, lex_from(s, j as int));
            }
            tokens.push(t);
            proof {
                assert(tokens_model(tokens@) =~= before.push(t@));
            }
            i = j;
            pos = p;
        } else {
            let e = Error::InvalidCharacter(c, Span::new(pos, pos + 1));
            assert(lex_from(s, i as int) == Err::<Seq<TokenModel>, ErrorModel>(e@));
            return Err(e);
        }
    }
    proof {
        assert(tokens_model(tokens@) + seq![] =~= tokens_model(tokens@));
    }
    Ok(tokens)
}

/// What lexing the whole of `s` gives: an error where its UTF-8 encoding is too
/// long for 32-bit offsets, else its tokens or the first error met.
pub open spec fn lex(s: Seq<char>) -> Result<Seq<TokenModel>, ErrorModel> {
    if encode_utf8(s).len() >= u32::MAX {
        Err(ErrorModel::SourceFileTooBig(encode_utf8(s).len()))
    } else {
        lex_from(s, 0)
    }
}

/// The model of what the lexer returns.
pub open spec fn lex_result_model(r: Result<Vec<Token>, Error>) -> Result<Seq<TokenModel>, ErrorModel> {
    match r {
        Ok(ts) => Ok(tokens_model(ts@)),
        Err(e) => Err(e@),
    }
}


/// The bytes between two character positions are those of the characters between.
proof fn lemma_byte_offset_range(s: Seq<char>, i: int, j: int)
    requires
        0 <= i <= j <= s.len(),
    ensures
        byte_offset(s, j) - byte_offset(s, i) == encode_utf8(s.subrange(i, j)).len(),
{
    assert(s.take(j) =~= s.take(i) + s.subrange(i, j));
    lemma_encode_concat(s.take(i), s.subrange(i, j));
}

/// Whether a token is one of the six punctuation kinds.
pub open spec fn is_punct(k: KindModel) -> bool {
    !(k is Ident || k is Str)
}

/// The width law of spans: a punctuation token is one byte wide, and a string
/// token covers its text and both quotes.
pub open spec fn span_width_law(t: TokenModel) -> bool {
    &&& is_punct(t.kind) ==> t.span.end == t.span.start + 1
    &&& t.kind is Str ==> t.span.end == t.span.start + encode_utf8(t.kind->Str_0).len() + 2
}

proof fn lemma_span_widths_from(s: Seq<char>, i: int)
    requires
        0 <= i,
        encode_utf8(s).len() < u32::MAX,
    ensures
        lex_from(s, i) matches Ok(ts) ==> forall|k: int|
            0 <= k < ts.len() ==> #[trigger] span_width_law(ts[k]),
    decreases s.len() - i,
{
    if i < s.len() {
        let n = s.len() as int;
        assert(s.take(n) =~= s);
        lemma_byte_offset_step(s, i);
        lemma_byte_offset_mono(s, i + 1, n);
        let c = s[i];
        if is_space(c) {
            lemma_span_widths_from(s, i + 1);
        } else if c == '#' {
            lemma_comment_end(s, i + 1);
            lemma_span_widths_from(s, comment_end(s, i + 1));
        } else if punct_kind(c) is Some {
            lemma_span_widths_from(s, i + 1);
        } else if c == '"' {
            lemma_closing_quote(s, i + 1);
            if let Some(j) = closing_quote(s, i + 1) {
                lemma_span_widths_from(s, j + 1);
                lemma_byte_offset_step(s, j);
                lemma_byte_offset_range(s, i + 1, j);
                lemma_byte_offset_mono(s, j + 1, n);
            }
        } else if is_letter(c) {
            lemma_ident_end(s, i + 1);
            lemma_span_widths_from(s, ident_end(s, i + 1));
        }
        if let Ok(ts) = lex_from(s, i) {
            assert forall|k: int| 0 <= k < ts.len() implies #[trigger] span_width_law(ts[k]) by {
                if k > 0 {
                    if is_space(c) || c == '#' {
                    } else if punct_kind(c) is Some {
                        assert(ts[k] == lex_from(s, i + 1)->Ok_0[k - 1]);
                    } else if c == '"' {
                        let j = closing_quote(s, i + 1)->0;
                        assert(ts[k] == lex_from(s, j + 1)->Ok_0[k - 1]);
                    } else {
                        assert(ts[k] == lex_from(s, ident_end(s, i + 1))->Ok_0[k - 1]);
                    }
                }
            }
        }
    }
}

/// Every token of a source that lexes meets the width law of spans: for
/// example `"abc"` at byte `k` spans `[k, k + 5)`.
pub proof fn lemma_span_widths(s: Seq<char>)
    ensures
        lex(s) matches Ok(ts) ==> forall|k: int| 0 <= k < ts.len() ==> #[trigger] span_width_law(ts[k]),
{
    if encode_utf8(s).len() < u32::MAX {
        lemma_span_widths_from(s, 0);
    }
}

/// `b` is `a` with the same kinds and every span moved by `delta` bytes.
pub open spec fn shifted(a: Seq<TokenModel>, b: Seq<TokenModel>, delta: int) -> bool {
    &&& a.len() == b.len()
    &&& forall|k: int|
        0 <= k < a.len() ==> {
            &&& #[trigger] b[k].kind == a[k].kind
            &&& b[k].span.start == a[k].span.start + delta
            &&& b[k].span.end == a[k].span.end + delta
        }
}

/// Both lexings fail, or both succeed with the same tokens but for spans moved by `delta`.
pub open spec fn same_up_to_shift(
    r1: Result<Seq<TokenModel>, ErrorModel>,
    r2: Result<Seq<TokenModel>, ErrorModel>,
    delta: int,
) -> bool {
    match (r1, r2) {
        (Ok(a), Ok(b)) => shifted(a, b, delta),
        (Err(_), Err(_)) => true,
        _ => false,
    }
}

/// Text that the lexer skips whole: a run of whitespace, or one comment line.
pub open spec fn is_skippable(w: Seq<char>) -> bool {
    ||| forall|k: int| 0 <= k < w.len() ==> is_space(#[trigger] w[k])
    ||| {
        &&& w.len() >= 2
        &&& w[0] == '#'
        &&& w[w.len() - 1] == '\n'
        &&& forall|k: int| 1 <= k < w.len() - 1 ==> #[trigger] w[k] != '\n'
    }
}

proof fn lemma_offset_after_prefix(x: Seq<char>, b: Seq<char>, k: int)
    requires
        0 <= k <= b.len(),
    ensures
        byte_offset(x + b, x.len() + k) == encode_utf8(x).len() + encode_utf8(b.take(k)).len(),
{
    assert((x + b).take(x.len() + k) =~= x + b.take(k));
    lemma_encode_concat(x, b.take(k));
}

proof fn lemma_comment_end_local(x: Seq<char>, y: Seq<char>, b: Seq<char>, k: int)
    requires
        0 <= k,
    ensures
        comment_end(x + b, x.len() + k) - x.len() == comment_end(y + b, y.len() + k) - y.len(),
    decreases b.len() - k,
{
    if k < b.len() {
        assert((x + b)[x.len() + k] == b[k]);
        assert((y + b)[y.len() + k] == b[k]);
        lemma_comment_end_local(x, y, b, k + 1);
    }
}

proof fn lemma_closing_quote_local(x: Seq<char>, y: Seq<char>, b: Seq<char>, k: int)
    requires
        0 <= k,
    ensures
        closing_quote(x + b, x.len() + k) is None <==> closing_quote(y + b, y.len() + k) is None,
        closing_quote(x + b, x.len() + k) is Some ==> closing_quote(x + b, x.len() + k)->0 - x.len()
            == closing_quote(y + b, y.len() + k)->0 - y.len(),
    decreases b.len() - k,
{
    if k < b.len() {
        assert((x + b)[x.len() + k] == b[k]);
        assert((y + b)[y.len() + k] == b[k]);
        lemma_closing_quote_local(x, y, b, k + 1);
    }
}

proof fn lemma_ident_end_local(x: Seq<char>, y: Seq<char>, b: Seq<char>, k: int)
    requires
        0 <= k,
    ensures
        ident_end(x + b, x.len() + k) - x.len() == ident_end(y + b, y.len() + k) - y.len(),
    decreases b.len() - k,
{
    if k < b.len() {
        assert((x + b)[x.len() + k] == b[k]);
        assert((y + b)[y.len() + k] == b[k]);
        lemma_ident_end_local(x, y, b, k + 1);
    }
}

proof fn lemma_shift_prepend(
    t1: TokenModel,
    r1: Result<Seq<TokenModel>, ErrorModel>,
    t2: TokenModel,
    r2: Result<Seq<TokenModel>, ErrorModel>,
    delta: int,
)
    requires
        same_up_to_shift(r1, r2, delta),
        t2.kind == t1.kind,
        t2.span.start == t1.span.start + delta,
        t2.span.end == t1.span.end + delta,
    ensures
        same_up_to_shift(prepend(t1, r1), prepend(t2, r2), delta),
{
    if let (Ok(a), Ok(b)) = (r1, r2) {
        let a2 = seq![t1] + a;
        let b2 = seq![t2] + b;
        assert forall|k: int| 0 <= k < a2.len() implies {
            &&& #[trigger] b2[k].kind == a2[k].kind
            &&& b2[k].span.start == a2[k].span.start + delta
            &&& b2[k].span.end == a2[k].span.end + delta
        } by {
            if k > 0 {
                assert(a2[k] == a[k - 1]);
                assert(b2[k] == b[k - 1]);
            }
        }
    }
}

/// What follows a point in the text lexes the same whatever precedes that
/// point, but for spans, which move by the difference in bytes before it.
#[verifier::rlimit(100)]
#[verifier::spinoff_prover]
proof fn lemma_lex_local(x: Seq<char>, y: Seq<char>, b: Seq<char>, m: int)
    requires
        0 <= m,
        encode_utf8(x + b).len() < u32::MAX,
        encode_utf8(y + b).len() < u32::MAX,
    ensures
        same_up_to_shift(
            lex_from(x + b, x.len() + m),
            lex_from(y + b, y.len() + m),
            encode_utf8(y).len() - encode_utf8(x).len(),
        ),
    decreases b.len() - m,
{
    let s1 = x + b;
    let s2 = y + b;
    let i1 = x.len() + m;
    let i2 = y.len() + m;
    let delta = encode_utf8(y).len() - encode_utf8(x).len();
    if m < b.len() {
        let c = b[m];
        assert(s1[i1] == c);
        assert(s2[i2] == c);
        lemma_offset_after_prefix(x, b, m);
        lemma_offset_after_prefix(y, b, m);
        lemma_byte_offset_step(s1, i1);
        lemma_byte_offset_step(s2, i2);
        assert(s1.take(s1.len() as int) =~= s1);
        assert(s2.take(s2.len() as int) =~= s2);
        lemma_byte_offset_mono(s1, i1 + 1, s1.len() as int);
        lemma_byte_offset_mono(s2, i2 + 1, s2.len() as int);
        if is_space(c) {
            lemma_lex_local(x, y, b, m + 1);
        } else if c == '#' {
            lemma_comment_end(s1, i1 + 1);
            lemma_comment_end_local(x, y, b, m + 1);
            lemma_lex_local(x, y, b, comment_end(s1, i1 + 1) - x.len());
        } else if punct_kind(c) is Some {
            lemma_lex_local(x, y, b, m + 1);
            lemma_shift_prepend(
                TokenModel { kind: punct_kind(c)->0, span: byte_span(s1, i1) },
                lex_from(s1, i1 + 1),
                TokenModel { kind: punct_kind(c)->0, span: byte_span(s2, i2) },
                lex_from(s2, i2 + 1),
                delta,
            );
        } else if c == '"' {
            lemma_closing_quote(s1, i1 + 1);
            lemma_closing_quote(s2, i2 + 1);
            lemma_closing_quote_local(x, y, b, m + 1);
            if let Some(j1) = closing_quote(s1, i1 + 1) {
                let j2 = closing_quote(s2, i2 + 1)->0;
                let mj = j1 - x.len();
                lemma_lex_local(x, y, b, mj + 1);
                lemma_offset_after_prefix(x, b, mj + 1);
                lemma_offset_after_prefix(y, b, mj + 1);
                lemma_byte_offset_mono(s1, j1 + 1, s1.len() as int);
                lemma_byte_offset_mono(s2, j2 + 1, s2.len() as int);
                assert(s1.subrange(i1 + 1, j1) =~= s2.subrange(i2 + 1, j2));
                lemma_shift_prepend(
                    TokenModel { kind: KindModel::Str(s1.subrange(i1 + 1, j1)), span: range_span(s1, i1, j1 + 1) },
                    lex_from(s1, j1 + 1),
                    TokenModel { kind: KindModel::Str(s2.subrange(i2 + 1, j2)), span: range_span(s2, i2, j2 + 1) },
                    lex_from(s2, j2 + 1),
                    delta,
                );
            }
        } else if is_letter(c) {
            lemma_ident_end(s1, i1 + 1);
            lemma_ident_end(s2, i2 + 1);
            lemma_ident_end_local(x, y, b, m + 1);
            let j1 = ident_end(s1, i1 + 1);
            let j2 = ident_end(s2, i2 + 1);
            let mj = j1 - x.len();
            lemma_lex_local(x, y, b, mj);
            lemma_offset_after_prefix(x, b, mj);
            lemma_offset_after_prefix(y, b, mj);
            lemma_byte_offset_mono(s1, j1, s1.len() as int);
            lemma_byte_offset_mono(s2, j2, s2.len() as int);
            assert(s1.subrange(i1, j1) =~= s2.subrange(i2, j2));
            lemma_shift_prepend(
                TokenModel { kind: KindModel::Ident(s1.subrange(i1, j1)), span: range_span(s1, i1, j1) },
                lex_from(s1, j1),
                TokenModel { kind: KindModel::Ident(s2.subrange(i2, j2)), span: range_span(s2, i2, j2) },
                lex_from(s2, j2),
                delta,
            );
        }
    } else {
        assert(shifted(seq![], seq![], delta));
    }
}

proof fn lemma_skip_spaces(s: Seq<char>, i: int, e: int)
    requires
        0 <= i <= e <= s.len(),
        forall|k: int| i <= k < e ==> is_space(#[trigger] s[k]),
    ensures
        lex_from(s, i) == lex_from(s, e),
    decreases e - i,
{
    if i < e {
        assert(is_space(s[i]));
        lemma_skip_spaces(s, i + 1, e);
    }
}

proof fn lemma_comment_line_end(s: Seq<char>, i: int, e: int)
    requires
        0 <= i < e <= s.len(),
        s[e - 1] == '\n',
        forall|k: int| i <= k < e - 1 ==> #[trigger] s[k] != '\n',
    ensures
        comment_end(s, i) == e,
    decreases e - i,
{
    if i < e - 1 {
        assert(s[i] != '\n');
        lemma_comment_line_end(s, i + 1, e);
    }
}

/// Inserting whitespace or a comment line at a point where the lexer starts a
/// token leaves the tokens from there on as they were, but for their spans,
/// which move by the bytes inserted.
pub proof fn lemma_insert_skippable(x: Seq<char>, w: Seq<char>, b: Seq<char>)
    requires
        is_skippable(w),
        encode_utf8(x + w + b).len() < u32::MAX,
    ensures
        same_up_to_shift(
            lex_from(x + b, x.len() as int),
            lex_from(x + w + b, x.len() as int),
            encode_utf8(w).len() as int,
        ),
{
    let y = x + w;
    let s = y + b;
    assert(x + w + b =~= s);
    lemma_encode_concat(x, w);
    lemma_encode_concat(y, b);
    lemma_encode_concat(x, b);
    lemma_lex_local(x, y, b, 0);
    if forall|k: int| 0 <= k < w.len() ==> is_space(#[trigger] w[k]) {
        assert forall|k: int| x.len() <= k < y.len() implies is_space(#[trigger] s[k]) by {
            assert(s[k] == w[k - x.len()]);
        }
        lemma_skip_spaces(s, x.len() as int, y.len() as int);
    } else {
        assert(s[x.len() as int] == w[0]);
        assert(!is_space('#'));
        assert(s[y.len() - 1] == w[w.len() - 1]);
        assert forall|k: int| x.len() + 1 <= k < y.len() - 1 implies #[trigger] s[k] != '\n' by {
            assert(s[k] == w[k - x.len()]);
        }
        lemma_comment_line_end(s, x.len() + 1 as int, y.len() as int);
    }
    assert(x.len() + 0 == x.len());
    assert(y.len() + 0 == y.len());
}

/// Where lexing reaches a quote with no closing quote after it, it fails as an
/// unterminated string whose span is the opening quote's byte.
pub proof fn lemma_unterminated_string(s: Seq<char>, i: int)
    requires
        0 <= i < s.len(),
        s[i] == '"',
        forall|k: int| i < k < s.len() ==> #[trigger] s[k] != '"',
    ensures
        lex_from(s, i) == Err::<Seq<TokenModel>, ErrorModel>(
            ErrorModel::UnterminatedStringLiteral(byte_span(s, i)),
        ),
{
    lemma_no_closing_quote(s, i + 1);
    assert(!is_space('"'));
}

proof fn lemma_no_closing_quote(s: Seq<char>, i: int)
    requires
        forall|k: int| i <= k < s.len() ==> #[trigger] s[k] != '"',
    ensures
        closing_quote(s, i) is None,
    decreases s.len() - i,
{
    if i < s.len() {
        assert(s[i] != '"');
        lemma_no_closing_quote(s, i + 1);
    }
}

/// Where lexing reaches a character that starts no token and is not skipped,
/// it fails on that character, at its own byte, whatever follows.
pub proof fn lemma_invalid_character(s: Seq<char>, i: int)
    requires
        0 <= i < s.len(),
        !is_space(s[i]),
        !is_letter(s[i]),
        s[i] != '#',
        s[i] != '"',
        punct_kind(s[i]) is None,
    ensures
        lex_from(s, i) == Err::<Seq<TokenModel>, ErrorModel>(
            ErrorModel::InvalidCharacter(s[i], byte_span(s, i)),
        ),
{
}
} // verus!
