//! The tokenizer: recognizes one lexeme at a time and collects the tokens.
use vstd::prelude::*;
use vstd::slice::slice_subrange;
use vstd::string::StringSliceAdditionalSpecFns;
use vstd::utf8::{
    decode_utf8, encode_utf8, encode_utf8_decode_utf8, encode_utf8_valid_utf8, is_ascii_chars,
    is_ascii_chars_encode_utf8, valid_utf8,
};

use crate::grammar::{
    ascii_text, class_has, lemma_step_consumes, delimiter_token, digits_value, in_class,
    integer_at, is_alpha, is_digit, lemma_span, lexeme_at, pair_token, scan, single_token, span,
    starts_pair, step, string_at, tokens_of, word_at, word_else, word_for, word_if, word_while,
    ByteClass, QUOTE, SLASH, SPACE,
};
use crate::token::{tokens_view, LexError, LexErrorView, Token, TokenView};

verus! {

/// What a recognizer gives, as a value: the token and the number of bytes
/// consumed, or the error.
pub open spec fn outcome_view(r: Result<(Token, usize), LexError>) -> Result<
    (TokenView, int),
    LexErrorView,
> {
    match r {
        Ok((t, k)) => Ok((t@, k as int)),
        Err(e) => Err(e@),
    }
}

/// What [`get_token`] gives on `data`, as a value: the token and the number
/// of bytes consumed, or the error.
pub open spec fn step_view(data: Seq<u8>, r: Result<(&[u8], Token), LexError>) -> Result<
    (TokenView, int),
    LexErrorView,
> {
    match r {
        Ok((rest, t)) => Ok((t@, data.len() - rest@.len())),
        Err(e) => Err(e@),
    }
}

pub open spec fn option_view(o: Option<Token>) -> Option<TokenView> {
    match o {
        Some(t) => Some(t@),
        None => None,
    }
}

/// Relies on `std::str::from_utf8`: it accepts exactly the well-formed UTF-8
/// byte sequences, and the text it returns is made of those very bytes.
#[verifier::external_body]
fn utf8_str<'a>(b: &'a [u8]) -> (r: Option<&'a str>)
    ensures
        r is Some <==> valid_utf8(b@),
        r is Some ==> r->0.spec_bytes() == b@,
{
    std::str::from_utf8(b).ok()
}

/// ASCII bytes are well-formed UTF-8 and decode one character per byte.
proof fn lemma_ascii_utf8(w: Seq<u8>)
    requires
        forall|i: int| 0 <= i < w.len() ==> #[trigger] w[i] < 0x80,
    ensures
        valid_utf8(w),
        decode_utf8(w) == ascii_text(w),
{
    let c = ascii_text(w);
    assert(is_ascii_chars(c));
    is_ascii_chars_encode_utf8(c);
    assert(encode_utf8(c) =~= w);
    encode_utf8_valid_utf8(c);
    encode_utf8_decode_utf8(c);
}

fn delimiter_of(b: u8) -> (r: Option<Token>)
    ensures
        option_view(r) == delimiter_token(b),
{
    if b == 0x28 {
        Some(Token::OpenParen)
    } else if b == 0x29 {
        Some(Token::CloseParen)
    } else if b == 0x7b {
        Some(Token::OpenBrace)
    } else if b == 0x7d {
        Some(Token::CloseBrace)
    } else if b == 0x5b {
        Some(Token::OpenBracket)
    } else if b == 0x5d {
        Some(Token::CloseIndex)
    } else {
        None
    }
}

fn pair_of(a: u8, b: u8) -> (r: Option<Token>)
    ensures
        option_view(r) == pair_token(a, b),
{
    if b != 0x3d {
        None
    } else if a == 0x3c {
        Some(Token::LesserEqual)
    } else if a == 0x3e {
        Some(Token::GreaterEqual)
    } else if a == 0x3d {
        Some(Token::Equal)
    } else if a == 0x21 {
        Some(Token::NotEqual)
    } else if a == 0x3a {
        Some(Token::Assign)
    } else if a == 0x2b {
        Some(Token::AddAssign)
    } else if a == 0x2d {
        Some(Token::SubAssign)
    } else if a == 0x2a {
        Some(Token::MultAssign)
    } else if a == SLASH {
        Some(Token::DivAssign)
    } else {
        None
    }
}

fn single_of(b: u8) -> (r: Option<Token>)
    ensures
        option_view(r) == single_token(b),
{
    if b == 0x3c {
        Some(Token::Lesser)
    } else if b == 0x3e {
        Some(Token::Greater)
    } else if b == 0x2b {
        Some(Token::Plus)
    } else if b == 0x2d {
        Some(Token::Minus)
    } else if b == 0x2a {
        Some(Token::Star)
    } else if b == SLASH {
        Some(Token::Slash)
    } else if b == 0x25 {
        Some(Token::Percent)
    } else {
        None
    }
}

fn is_pair_start(b: u8) -> (r: bool)
    ensures
        r == starts_pair(b),
{
    b == 0x3c || b == 0x3e || b == 0x3d || b == 0x21 || b == 0x3a || b == 0x2b || b == 0x2d
        || b == 0x2a || b == SLASH
}

/// The string literal whose opening quote is at `j`.
fn string_lit(data: &[u8], j: usize) -> (r: Result<(Token, usize), LexError>)
    requires
        j < data@.len(),
        data@[j as int] == QUOTE,
    ensures
        outcome_view(r) == string_at(data@, j as int),
{
    let n = data.len();
    let k = scan(data, j + 1, ByteClass::NotQuote);
    if k >= data.len() {
        return Err(LexError::Incomplete(1));
    }
    let body = slice_subrange(data, j + 1, k);
    match utf8_str(body) {
        Some(text) => {
            proof {
                encode_utf8_decode_utf8(text@);
            }
            Ok((Token::String(text.to_owned()), k + 1))
        },
        None => Err(LexError::Malformed("string literal is not valid UTF-8".to_owned())),
    }
}

/// Whether the bytes of `data` from `j` to `k` are `w`.
fn word_is(data: &[u8], j: usize, k: usize, w: &[u8]) -> (r: bool)
    requires
        j <= k <= data@.len(),
    ensures
        r == (data@.subrange(j as int, k as int) == w@),
{
    if k - j != w.len() {
        return false;
    }
    let mut i: usize = 0;
    while i < w.len()
        invariant
            j <= k <= data@.len(),
            k - j == w@.len(),
            i <= w@.len(),
            forall|m: int| 0 <= m < i ==> data@[j + m] == w@[m],
        decreases w@.len() - i,
    {
        if data[j + i] != w[i] {
            assert(data@.subrange(j as int, k as int)[i as int] != w@[i as int]);
            return false;
        }
        i = i + 1;
    }
    assert(data@.subrange(j as int, k as int) =~= w@);
    true
}

/// The keyword or identifier whose first letter is at `j`.
fn word(data: &[u8], j: usize) -> (r: Result<(Token, usize), LexError>)
    requires
        j < data@.len(),
        is_alpha(data@[j as int]),
    ensures
        outcome_view(r) == word_at(data@, j as int),
{
    let n = data.len();
    let k = scan(data, j + 1, ByteClass::Word);
    proof {
        lemma_span(data@, j + 1, ByteClass::Word);
    }
    let ghost w = data@.subrange(j as int, k as int);
    let kw_if: [u8; 2] = [0x69, 0x66];
    let kw_else: [u8; 4] = [0x65, 0x6c, 0x73, 0x65];
    let kw_for: [u8; 3] = [0x66, 0x6f, 0x72];
    let kw_while: [u8; 5] = [0x77, 0x68, 0x69, 0x6c, 0x65];
    assert(kw_if@ =~= word_if());
    assert(kw_else@ =~= word_else());
    assert(kw_for@ =~= word_for());
    assert(kw_while@ =~= word_while());
    if word_is(data, j, k, kw_if.as_slice()) {
        Ok((Token::If, k))
    } else if word_is(data, j, k, kw_else.as_slice()) {
        if n - k >= 3 && data[k] == SPACE && data[k + 1] == 0x69 && data[k + 2] == 0x66
            && (n - k == 3 || !class_has(ByteClass::Word, data[k + 3])) {
            Ok((Token::ElseIf, k + 3))
        } else {
            Ok((Token::Else, k))
        }
    } else if word_is(data, j, k, kw_for.as_slice()) {
        Ok((Token::For, k))
    } else if word_is(data, j, k, kw_while.as_slice()) {
        Ok((Token::While, k))
    } else {
        let bytes = slice_subrange(data, j, k);
        proof {
            assert forall|i: int| 0 <= i < w.len() implies #[trigger] w[i] < 0x80 by {
                assert(in_class(ByteClass::Word, data@[j + i]));
            }
            lemma_ascii_utf8(w);
        }
        let text = utf8_str(bytes).unwrap();
        proof {
            encode_utf8_decode_utf8(text@);
        }
        Ok((Token::Ident(text.to_owned()), k))
    }
}

/// The digits of a decimal literal are worth no less than any prefix of them.
proof fn lemma_digits_prefix(s: Seq<u8>, j: int, p: int, k: int)
    requires
        0 <= j <= p <= k <= s.len(),
        forall|m: int| j <= m < k ==> is_digit(#[trigger] s[m]),
    ensures
        0 <= digits_value(s.subrange(j, p)) <= digits_value(s.subrange(j, k)),
    decreases k - j,
{
    if k > j {
        assert(s.subrange(j, k).drop_last() =~= s.subrange(j, k - 1));
        if p < k {
            lemma_digits_prefix(s, j, p, k - 1);
        } else {
            lemma_digits_prefix(s, j, k - 1, k - 1);
        }
    }
}

/// The integer literal whose first digit is at `j`.
fn integer(data: &[u8], j: usize) -> (r: Result<(Token, usize), LexError>)
    requires
        j < data@.len(),
        is_digit(data@[j as int]),
    ensures
        outcome_view(r) == integer_at(data@, j as int),
{
    let k = scan(data, j, ByteClass::Digit);
    proof {
        lemma_span(data@, j as int, ByteClass::Digit);
    }
    let mut acc: u64 = 0;
    let mut p: usize = j;
    assert(data@.subrange(j as int, j as int) =~= Seq::<u8>::empty());
    while p < k
        invariant
            j <= p <= k <= data@.len(),
            k == span(data@, j as int, ByteClass::Digit),
            forall|m: int| j <= m < k ==> in_class(ByteClass::Digit, #[trigger] data@[m]),
            acc == digits_value(data@.subrange(j as int, p as int)),
            acc <= i32::MAX,
        decreases k - p,
    {
        assert(in_class(ByteClass::Digit, data@[p as int]));
        assert(data@.subrange(j as int, p + 1).drop_last() =~= data@.subrange(j as int, p as int));
        let next = acc * 10 + (data[p] - 0x30) as u64;
        if next > 2147483647 {
            proof {
                lemma_digits_prefix(data@, j as int, p + 1, k as int);
            }
            return Err(LexError::Malformed("integer literal out of range".to_owned()));
        }
        acc = next;
        p = p + 1;
    }
    Ok((Token::Integer(acc as i32), k))
}

/// The lexeme that starts at `j`, a byte that is no whitespace.
fn lexeme(data: &[u8], j: usize) -> (r: Result<(Token, usize), LexError>)
    requires
        j < data@.len(),
    ensures
        outcome_view(r) == lexeme_at(data@, j as int),
{
    let c = data[j];
    if c == QUOTE {
        return string_lit(data, j);
    }
    if let Some(t) = delimiter_of(c) {
        return Ok((t, j + 1));
    }
    if (0x41 <= c && c <= 0x5a) || (0x61 <= c && c <= 0x7a) {
        return word(data, j);
    }
    if c == SLASH && j + 1 < data.len() && data[j + 1] == SLASH {
        let k = scan(data, j + 2, ByteClass::NotNewline);
        return Ok((Token::Comment, k));
    }
    if j + 1 < data.len() {
        if let Some(t) = pair_of(c, data[j + 1]) {
            return Ok((t, j + 2));
        }
    }
    if j + 1 == data.len() && is_pair_start(c) {
        return Err(LexError::Incomplete(1));
    }
    if let Some(t) = single_of(c) {
        return Ok((t, j + 1));
    }
    if 0x30 <= c && c <= 0x39 {
        return integer(data, j);
    }
    Ok((Token::Char(c as char), j + 1))
}

/// Recognizes one token at the start of `data`, after any whitespace, and
/// returns what is left of `data` with it. At the end of the input the token
/// is `Eof` and nothing is left.
pub fn get_token<'a>(data: &'a [u8]) -> (r: Result<(&'a [u8], Token), LexError>)
    ensures
        step_view(data@, r) == step(data@),
        r is Ok ==> r->Ok_0.0@ == data@.subrange(
            data@.len() - r->Ok_0.0@.len(),
            data@.len() as int,
        ),
{
    let j = scan(data, 0, ByteClass::Space);
    let (t, k) = if j >= data.len() {
        (Token::Eof, data.len())
    } else {
        match lexeme(data, j) {
            Ok(found) => found,
            Err(e) => return Err(e),
        }
    };
    proof {
        lemma_step_consumes(data@);
    }
    Ok((slice_subrange(data, k, data.len()), t))
}

/// A run of the tokenizer, as a value: the values of the tokens, or the error.
pub open spec fn run_view(r: Result<Vec<Token>, LexError>) -> Result<Seq<TokenView>, LexErrorView> {
    match r {
        Ok(v) => Ok(tokens_view(v@)),
        Err(e) => Err(e@),
    }
}

/// `done` followed by the outcome of a run on what is left.
pub open spec fn after(done: Seq<TokenView>, r: Result<Seq<TokenView>, LexErrorView>) -> Result<
    Seq<TokenView>,
    LexErrorView,
> {
    match r {
        Ok(rest) => Ok(done + rest),
        Err(e) => Err(e),
    }
}

/// A tokenizer over a borrowed byte buffer. Its view is the part of the
/// buffer not consumed yet.
pub struct Lexer<'a> {
    data: &'a [u8],
}

impl<'a> View for Lexer<'a> {
    type V = Seq<u8>;

    closed spec fn view(&self) -> Seq<u8> {
        self.data@
    }
}

impl<'a> Lexer<'a> {
    pub fn new(data: &'a [u8]) -> (l: Self)
        ensures
            l@ == data@,
    {
        Lexer { data }
    }

    /// Tokenizes what is left of the buffer. Comments are dropped and the
    /// end of the input adds no token; the first lexeme that cannot be
    /// recognized fails the whole run. The cursor only moves forward, and a
    /// successful run consumes the whole buffer.
    pub fn generate_tokens(&mut self) -> (r: Result<Vec<Token>, LexError>)
        ensures
            run_view(r) == tokens_of(old(self)@),
            final(self)@ == old(self)@.subrange(
                old(self)@.len() - final(self)@.len(),
                old(self)@.len() as int,
            ),
            r is Ok ==> final(self)@.len() == 0,
    {
        let mut tokens: Vec<Token> = Vec::new();
        loop
            invariant
                self@.len() <= old(self)@.len(),
                self@ == old(self)@.subrange(
                    old(self)@.len() - self@.len(),
                    old(self)@.len() as int,
                ),
                after(tokens_view(tokens@), tokens_of(self@)) == tokens_of(old(self)@),
            ensures
                self@.len() == 0,
                after(tokens_view(tokens@), Ok(Seq::empty())) == tokens_of(old(self)@),
            decreases self@.len(),
        {
            let ghost s = self@;
            let ghost done = tokens_view(tokens@);
            proof {
                lemma_step_consumes(s);
            }
            match get_token(self.data) {
                Ok((rest, t)) => {
                    self.data = rest;
                    assert(self@ =~= old(self)@.subrange(
                        old(self)@.len() - self@.len(),
                        old(self)@.len() as int,
                    ));
                    match t {
                        Token::Eof => {
                            break;
                        },
                        Token::Comment => {},
                        other => {
                            tokens.push(other);
                            proof {
                                assert(tokens_view(tokens@) =~= done.push(t@));
                                if let Ok(more) = tokens_of(self@) {
                                    assert(done.push(t@) + more =~= done + (seq![t@] + more));
                                }
                            }
                        },
                    }
                },
                Err(e) => {
                    return Err(e);
                },
            }
        }
        Ok(tokens)
    }
}

/// Tokenizes a whole source file: the complete token list for the parser,
/// or the error that stopped the run.
pub fn run(source: Vec<u8>) -> (r: Result<Vec<Token>, LexError>)
    ensures
        run_view(r) == tokens_of(source@),
{
    let mut lexer = Lexer::new(source.as_slice());
    lexer.generate_tokens()
}

} // verus!
