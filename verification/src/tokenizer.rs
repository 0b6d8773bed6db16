//! The tokenizer: turns source bytes into parentheses, numbers and symbols,
//! skipping whitespace and `;;` comments.
use vstd::prelude::*;
use crate::cursor::Cursor;
use crate::text::{digit_char, int_text, nat_text, push_char};

verus! {

#[derive(Debug, PartialEq, Eq)]
pub enum TokenKind {
    ParenOpen,
    ParenClose,
    Num(i64),
    Sym(String),
}

#[derive(Debug, PartialEq, Eq)]
pub struct Token {
    pub kind: TokenKind,
}

/// The value of a token: symbols are their characters.
pub enum SpecToken {
    ParenOpen,
    ParenClose,
    Num(i64),
    Sym(Seq<char>),
}

impl View for Token {
    type V = SpecToken;

    open spec fn view(&self) -> SpecToken {
        match self.kind {
            TokenKind::ParenOpen => SpecToken::ParenOpen,
            TokenKind::ParenClose => SpecToken::ParenClose,
            TokenKind::Num(n) => SpecToken::Num(n),
            TokenKind::Sym(s) => SpecToken::Sym(s@),
        }
    }
}

/// The values of a sequence of tokens.
pub open spec fn token_views(ts: Seq<Token>) -> Seq<SpecToken> {
    ts.map_values(|t: Token| t@)
}

#[derive(Clone, Copy, PartialEq, Eq, Debug)]
pub enum TokenizationError {
    MalformedNumber,
    UnsupportedBigNumber,
    UnfinishedComment,
}

/// The message of a tokenization error.
pub open spec fn tokenization_error_text(e: TokenizationError) -> Seq<char> {
    match e {
        TokenizationError::MalformedNumber => "malformed number"@,
        TokenizationError::UnsupportedBigNumber => "big numbers are not supported yet"@,
        TokenizationError::UnfinishedComment => "unfinished comment"@,
    }
}

impl TokenizationError {
    /// The message of the error.
    pub fn to_string(&self) -> (s: String)
        ensures
            s@ == tokenization_error_text(*self),
    {
        match self {
            TokenizationError::MalformedNumber => String::from_str("malformed number"),
            TokenizationError::UnsupportedBigNumber => String::from_str("big numbers are not supported yet"),
            TokenizationError::UnfinishedComment => String::from_str("unfinished comment"),
        }
    }
}

pub const OPEN_PAREN: u8 = 0x28;
pub const CLOSE_PAREN: u8 = 0x29;
pub const MINUS: u8 = 0x2d;
pub const SEMICOLON: u8 = 0x3b;
pub const DIGIT_ZERO: u8 = 0x30;
pub const DIGIT_NINE: u8 = 0x39;
pub const SPACE: u8 = 0x20;
pub const TAB: u8 = 0x09;
pub const NEWLINE: u8 = 0x0a;
pub const FORM_FEED: u8 = 0x0c;
pub const CARRIAGE_RETURN: u8 = 0x0d;

/// ASCII whitespace: space, tab, line feed, form feed, carriage return.
pub open spec fn is_whitespace(c: u8) -> bool {
    c == SPACE || c == TAB || c == NEWLINE || c == FORM_FEED || c == CARRIAGE_RETURN
}

pub open spec fn is_digit(c: u8) -> bool {
    DIGIT_ZERO <= c <= DIGIT_NINE
}

/// A parenthesis or whitespace ends a symbol or a number.
pub open spec fn is_delimiter(c: u8) -> bool {
    c == OPEN_PAREN || c == CLOSE_PAREN || is_whitespace(c)
}

/// The position just past the first line feed at or after `p`, or the end.
pub open spec fn line_end(s: Seq<u8>, p: int) -> int
    decreases s.len() - p,
{
    if p >= s.len() {
        s.len() as int
    } else if s[p] == NEWLINE {
        p + 1
    } else {
        line_end(s, p + 1)
    }
}

pub proof fn lemma_line_end(s: Seq<u8>, p: int)
    requires
        0 <= p,
    ensures
        p < s.len() ==> p < line_end(s, p) <= s.len(),
        p >= s.len() ==> line_end(s, p) == s.len(),
    decreases s.len() - p,
{
    if p < s.len() && s[p] != NEWLINE {
        lemma_line_end(s, p + 1);
    }
}

/// Skips whitespace and comments from `p`: the position of the next token
/// (or the end), or `UnfinishedComment` when a `;` is not followed by a second `;`.
pub open spec fn skip_blank(s: Seq<u8>, p: int) -> Result<int, TokenizationError>
    decreases s.len() - p,
{
    if 0 <= p < s.len() && is_whitespace(s[p]) {
        skip_blank(s, p + 1)
    } else if 0 <= p < s.len() && s[p] == SEMICOLON {
        if p + 1 < s.len() && s[p + 1] == SEMICOLON {
            proof {
                lemma_line_end(s, p + 1);
            }
            skip_blank(s, line_end(s, p + 1))
        } else {
            Err(TokenizationError::UnfinishedComment)
        }
    } else {
        Ok(p)
    }
}

/// The end of the run of digits that starts at `p`.
pub open spec fn digits_end(s: Seq<u8>, p: int) -> int
    decreases s.len() - p,
{
    if 0 <= p < s.len() && is_digit(s[p]) {
        digits_end(s, p + 1)
    } else {
        p
    }
}

/// The end of the symbol that starts at `p`: the first delimiter, or the end.
pub open spec fn symbol_end(s: Seq<u8>, p: int) -> int
    decreases s.len() - p,
{
    if 0 <= p < s.len() && !is_delimiter(s[p]) {
        symbol_end(s, p + 1)
    } else {
        p
    }
}

/// The value of a run of decimal digits.
pub open spec fn decimal_value(ds: Seq<u8>) -> nat
    decreases ds.len(),
{
    if ds.len() == 0 {
        0
    } else {
        decimal_value(ds.drop_last()) * 10 + (ds.last() - DIGIT_ZERO) as nat
    }
}

/// Each byte taken as the character with that code.
pub open spec fn bytes_to_chars(bs: Seq<u8>) -> Seq<char> {
    bs.map_values(|b: u8| b as char)
}

/// The largest magnitude a number may have after a `-`: that of `i64::MIN`.
pub open spec fn negative_limit() -> nat {
    0x8000_0000_0000_0000
}

/// The value of the run of digits that starts at `p`, and where it ends. The
/// run must be followed by a delimiter or the end (else `MalformedNumber`),
/// and its value must be at most `limit` (else `UnsupportedBigNumber`).
pub open spec fn magnitude(s: Seq<u8>, p: int, limit: nat) -> Result<(nat, int), TokenizationError> {
    let e = digits_end(s, p);
    if e < s.len() && !is_delimiter(s[e]) {
        Err(TokenizationError::MalformedNumber)
    } else if decimal_value(s.subrange(p, e)) > limit {
        Err(TokenizationError::UnsupportedBigNumber)
    } else {
        Ok((decimal_value(s.subrange(p, e)), e))
    }
}

/// The number whose digits start at `p`, and where it ends: it must fit in
/// an `i64`.
pub open spec fn number_token(s: Seq<u8>, p: int) -> Result<(SpecToken, int), TokenizationError> {
    match magnitude(s, p, i64::MAX as nat) {
        Ok((v, e)) => Ok((SpecToken::Num(v as i64), e)),
        Err(x) => Err(x),
    }
}

/// The symbol that starts at `p`, and where it ends.
pub open spec fn symbol_token(s: Seq<u8>, p: int) -> Result<(SpecToken, int), TokenizationError> {
    let e = symbol_end(s, p);
    Ok((SpecToken::Sym(bytes_to_chars(s.subrange(p, e))), e))
}

/// What starts with the `-` at `p`: `MalformedNumber` for `--`, a negative
/// number when a digit follows, else a symbol.
pub open spec fn minus_token(s: Seq<u8>, p: int) -> Result<(SpecToken, int), TokenizationError> {
    if p + 1 < s.len() && s[p + 1] == MINUS {
        Err(TokenizationError::MalformedNumber)
    } else if p + 1 < s.len() && is_digit(s[p + 1]) {
        // The sign and the digits make one `i64`: down to `i64::MIN`.
        match magnitude(s, p + 1, negative_limit()) {
            Ok((v, e)) => Ok((SpecToken::Num((-v) as i64), e)),
            Err(x) => Err(x),
        }
    } else {
        symbol_token(s, p)
    }
}

/// The token that starts at `p` (where no whitespace or comment starts), and
/// where it ends.
pub open spec fn next_token(s: Seq<u8>, p: int) -> Result<(SpecToken, int), TokenizationError> {
    let c = s[p];
    if c == MINUS {
        minus_token(s, p)
    } else if is_digit(c) {
        number_token(s, p)
    } else if c == OPEN_PAREN {
        Ok((SpecToken::ParenOpen, p + 1))
    } else if c == CLOSE_PAREN {
        Ok((SpecToken::ParenClose, p + 1))
    } else {
        symbol_token(s, p)
    }
}

pub proof fn lemma_digits_end(s: Seq<u8>, p: int)
    requires
        0 <= p <= s.len(),
    ensures
        p <= digits_end(s, p) <= s.len(),
        forall|i: int| p <= i < digits_end(s, p) ==> is_digit(#[trigger] s[i]),
        digits_end(s, p) < s.len() ==> !is_digit(s[digits_end(s, p)]),
    decreases s.len() - p,
{
    if p < s.len() && is_digit(s[p]) {
        lemma_digits_end(s, p + 1);
    }
}

pub proof fn lemma_symbol_end(s: Seq<u8>, p: int)
    requires
        0 <= p <= s.len(),
    ensures
        p <= symbol_end(s, p) <= s.len(),
        forall|i: int| p <= i < symbol_end(s, p) ==> !is_delimiter(#[trigger] s[i]),
        symbol_end(s, p) < s.len() ==> is_delimiter(s[symbol_end(s, p)]),
    decreases s.len() - p,
{
    if p < s.len() && !is_delimiter(s[p]) {
        lemma_symbol_end(s, p + 1);
    }
}

pub proof fn lemma_skip_blank(s: Seq<u8>, p: int)
    requires
        0 <= p <= s.len(),
    ensures
        skip_blank(s, p) matches Ok(q) ==> {
            &&& p <= q <= s.len()
            &&& q < s.len() ==> !is_whitespace(s[q]) && s[q] != SEMICOLON
        },
    decreases s.len() - p,
{
    if p < s.len() && is_whitespace(s[p]) {
        lemma_skip_blank(s, p + 1);
    } else if p < s.len() && s[p] == SEMICOLON {
        if p + 1 < s.len() && s[p + 1] == SEMICOLON {
            lemma_line_end(s, p + 1);
            lemma_skip_blank(s, line_end(s, p + 1));
        }
    }
}

pub proof fn lemma_next_token(s: Seq<u8>, p: int)
    requires
        0 <= p < s.len(),
        !is_whitespace(s[p]),
    ensures
        next_token(s, p) matches Ok((_, e)) ==> p < e <= s.len(),
{
    lemma_digits_end(s, p + 1);
    lemma_symbol_end(s, p + 1);
    if p + 2 <= s.len() {
        lemma_digits_end(s, p + 2);
    }
    let c = s[p];
    if c == MINUS {
        if p + 1 < s.len() && is_digit(s[p + 1]) {
            assert(digits_end(s, p + 1) == digits_end(s, p + 2));
        } else {
            assert(symbol_end(s, p) == symbol_end(s, p + 1));
        }
    } else if is_digit(c) {
        assert(digits_end(s, p) == digits_end(s, p + 1));
    } else if c != OPEN_PAREN && c != CLOSE_PAREN {
        assert(symbol_end(s, p) == symbol_end(s, p + 1));
    }
}

/// The tokens from `p` on, up to the first error.
pub open spec fn tokenize_from(s: Seq<u8>, p: int) -> Result<Seq<SpecToken>, TokenizationError>
    decreases s.len() - p,
{
    if 0 <= p <= s.len() {
        match skip_blank(s, p) {
            Err(e) => Err(e),
            Ok(q) => if q >= s.len() {
                Ok(Seq::empty())
            } else {
                match next_token(s, q) {
                    Err(e) => Err(e),
                    Ok((t, r)) => {
                        proof {
                            lemma_skip_blank(s, p);
                            lemma_next_token(s, q);
                        }
                        match tokenize_from(s, r) {
                            Ok(ts) => Ok(seq![t] + ts),
                            Err(e) => Err(e),
                        }
                    },
                }
            },
        }
    } else {
        Ok(Seq::empty())
    }
}

/// The tokens of a source text, or the first error.
pub open spec fn tokenize(s: Seq<u8>) -> Result<Seq<SpecToken>, TokenizationError> {
    tokenize_from(s, 0)
}

/// The characters that end a symbol: parentheses and ASCII whitespace.
pub open spec fn is_delimiter_char(c: char) -> bool {
    c == '(' || c == ')' || c == ' ' || c == '\t' || c == '\n' || c == '\x0c' || c == '\r'
}

/// A symbol token is what a symbol may be: not empty, and free of
/// parentheses and whitespace.
pub open spec fn is_valid_symbol(cs: Seq<char>) -> bool {
    cs.len() > 0 && forall|j: int| 0 <= j < cs.len() ==> !is_delimiter_char(#[trigger] cs[j])
}

proof fn lemma_symbol_token_valid(s: Seq<u8>, p: int)
    requires
        0 <= p < s.len(),
        !is_delimiter(s[p]),
    ensures
        symbol_token(s, p) matches Ok((SpecToken::Sym(cs), _)) && is_valid_symbol(cs),
{
    lemma_symbol_end(s, p + 1);
    assert(symbol_end(s, p) == symbol_end(s, p + 1));
    let cs = bytes_to_chars(s.subrange(p, symbol_end(s, p)));
    assert forall|j: int| 0 <= j < cs.len() implies !is_delimiter_char(#[trigger] cs[j]) by {
        let b = s[p + j];
        assert(cs[j] == b as char);
        assert(!is_delimiter(b));
    }
}

/// Symbols end at a parenthesis or whitespace: every symbol token that the
/// tokenizer gives is non-empty and holds neither.
pub proof fn law_symbols_are_valid(s: Seq<u8>, p: int)
    ensures
        tokenize_from(s, p) matches Ok(ts) ==> forall|i: int|
            0 <= i < ts.len() ==> (#[trigger] ts[i] matches SpecToken::Sym(cs) ==> is_valid_symbol(cs)),
    decreases s.len() - p,
{
    if 0 <= p <= s.len() {
        lemma_skip_blank(s, p);
        if let Ok(q) = skip_blank(s, p) {
            if q < s.len() {
                lemma_next_token(s, q);
                if let Ok((t, r)) = next_token(s, q) {
                    law_symbols_are_valid(s, r);
                    let c = s[q];
                    if c != MINUS && !is_digit(c) && c != OPEN_PAREN && c != CLOSE_PAREN {
                        lemma_symbol_token_valid(s, q);
                    } else if c == MINUS && !(q + 1 < s.len() && is_digit(s[q + 1])) {
                        lemma_symbol_token_valid(s, q);
                    }
                    if let Ok(ts) = tokenize_from(s, r) {
                        assert forall|i: int| 0 <= i < ts.len() + 1 implies (#[trigger] (seq![t] + ts)[i] matches SpecToken::Sym(cs) ==> is_valid_symbol(cs)) by {
                            if i > 0 {
                                assert((seq![t] + ts)[i] == ts[i - 1]);
                            }
                        }
                    }
                }
            }
        }
    }
}

/// The ASCII decimal digits of a natural number, most significant first,
/// without leading zeros (zero is "0").
pub open spec fn nat_digits(n: nat) -> Seq<u8>
    decreases n,
{
    if n < 10 {
        seq![(n + DIGIT_ZERO) as u8]
    } else {
        nat_digits(n / 10).push((n % 10 + DIGIT_ZERO) as u8)
    }
}

/// The decimal numeral of an integer, in ASCII, with a leading `-` when it
/// is negative.
pub open spec fn int_digits(n: int) -> Seq<u8> {
    if n < 0 {
        seq![MINUS] + nat_digits((-n) as nat)
    } else {
        nat_digits(n as nat)
    }
}

proof fn lemma_nat_digits(n: nat)
    ensures
        nat_digits(n).len() >= 1,
        forall|i: int| 0 <= i < nat_digits(n).len() ==> is_digit(#[trigger] nat_digits(n)[i]),
        decimal_value(nat_digits(n)) == n,
        bytes_to_chars(nat_digits(n)) == nat_text(n),
    decreases n,
{
    if n >= 10 {
        lemma_nat_digits(n / 10);
        let d = nat_digits(n);
        assert(d.drop_last() =~= nat_digits(n / 10));
        assert(d.last() == (n % 10 + DIGIT_ZERO) as u8);
        assert((n / 10) * 10 + n % 10 == n) by (nonlinear_arith);
        assert(bytes_to_chars(d) =~= bytes_to_chars(nat_digits(n / 10)).push(digit_char(n % 10)));
    } else {
        assert(bytes_to_chars(nat_digits(n)) =~= seq![digit_char(n)]);
        assert(nat_digits(n).drop_last() =~= Seq::<u8>::empty());
        assert(decimal_value(Seq::<u8>::empty()) == 0);
    }
}

proof fn lemma_digits_run_to_end(s: Seq<u8>, p: int)
    requires
        0 <= p <= s.len(),
        forall|i: int| p <= i < s.len() ==> is_digit(#[trigger] s[i]),
    ensures
        digits_end(s, p) == s.len(),
    decreases s.len() - p,
{
    if p < s.len() {
        lemma_digits_run_to_end(s, p + 1);
    }
}

/// Every `i64`, written in decimal (as objects print it), tokenizes back to
/// that one number.
pub proof fn law_numbers_read_back(n: i64)
    ensures
        tokenize(int_digits(n as int)) == Ok::<Seq<SpecToken>, TokenizationError>(seq![SpecToken::Num(n)]),
        bytes_to_chars(int_digits(n as int)) == int_text(n as int),
{
    let s = int_digits(n as int);
    let m: nat = if n < 0 { (-n) as nat } else { n as nat };
    lemma_nat_digits(m);
    let ds = nat_digits(m);
    if n < 0 {
        assert(s.len() == ds.len() + 1);
        assert forall|i: int| 1 <= i < s.len() implies is_digit(#[trigger] s[i]) by {
            assert(s[i] == ds[i - 1]);
        }
        lemma_digits_run_to_end(s, 1);
        assert(s.subrange(1, s.len() as int) =~= ds);
        assert(s[1] == ds[0]);
        assert(skip_blank(s, 0) == Ok::<int, TokenizationError>(0));
        assert(next_token(s, 0) == Ok::<(SpecToken, int), TokenizationError>((SpecToken::Num(n), s.len() as int)));
        assert(skip_blank(s, s.len() as int) == Ok::<int, TokenizationError>(s.len() as int));
        assert(bytes_to_chars(s) =~= seq!['-'].add(bytes_to_chars(ds)));
    } else {
        lemma_digits_run_to_end(s, 0);
        assert(s.subrange(0, s.len() as int) =~= ds);
        assert(skip_blank(s, 0) == Ok::<int, TokenizationError>(0));
        assert(next_token(s, 0) == Ok::<(SpecToken, int), TokenizationError>((SpecToken::Num(n), s.len() as int)));
        assert(skip_blank(s, s.len() as int) == Ok::<int, TokenizationError>(s.len() as int));
    }
    assert(tokenize_from(s, s.len() as int) == Ok::<Seq<SpecToken>, TokenizationError>(Seq::empty()));
    assert(seq![SpecToken::Num(n)] + Seq::<SpecToken>::empty() =~= seq![SpecToken::Num(n)]);
}

/// Whether a tokenizer step gave what the specification says, and stopped
/// where it says.
spec fn step_matches(r: Result<Token, TokenizationError>, expected: Result<(SpecToken, int), TokenizationError>, pos: int) -> bool {
    match expected {
        Ok((t, e)) => r is Ok && r->Ok_0@ == t && pos == e,
        Err(x) => r == Err::<Token, TokenizationError>(x),
    }
}

/// The tokens of `buf`, or the first error.
#[verifier::loop_isolation(false)]
pub fn parse_bytes(buf: &[u8]) -> (r: Result<Vec<Token>, TokenizationError>)
    ensures
        match tokenize(buf@) {
            Ok(ts) => r is Ok && token_views(r->Ok_0@) == ts,
            Err(e) => r == Err::<Vec<Token>, TokenizationError>(e),
        },
{
    let mut tokenizer = Tokenizer::new(buf);
    let mut tokens: Vec<Token> = Vec::new();
    let ghost s = buf@;
    loop
        invariant
            tokenizer.input() == s,
            tokenizer.pos() <= s.len(),
            match tokenize_from(s, tokenizer.pos()) {
                Ok(rest) => tokenize(s) == Ok::<Seq<SpecToken>, TokenizationError>(token_views(tokens@) + rest),
                Err(e) => tokenize(s) == Err::<Seq<SpecToken>, TokenizationError>(e),
            },
        decreases s.len() - tokenizer.pos(),
    {
        let ghost p = tokenizer.pos();
        proof {
            lemma_skip_blank(s, p);
        }
        match tokenizer.next() {
            None => {
                proof {
                    assert(token_views(tokens@) + Seq::<SpecToken>::empty() =~= token_views(tokens@));
                }
                return Ok(tokens);
            },
            Some(Err(e)) => {
                return Err(e);
            },
            Some(Ok(t)) => {
                proof {
                    let q = skip_blank(s, p)->Ok_0;
                    lemma_next_token(s, q);
                }
                let ghost tv = t@;
                let ghost before = tokens@;
                tokens.push(t);
                proof {
                    assert(token_views(tokens@) =~= token_views(before).push(tv));
                    match tokenize_from(s, tokenizer.pos()) {
                        Ok(rest) => {
                            assert(token_views(before) + (seq![tv] + rest) =~= token_views(tokens@) + rest);
                        },
                        Err(e) => {},
                    }
                }
            },
        }
    }
}

fn is_sym_or_number_end_delimiter(c: u8) -> (b: bool)
    ensures
        b == is_delimiter(c),
{
    // Having a parenthesis or a whitespace next to a symbol or number means that symbol or number has ended.
    c == CLOSE_PAREN || c == OPEN_PAREN || is_ascii_whitespace(c)
}

fn is_ascii_whitespace(c: u8) -> (b: bool)
    ensures
        b == is_whitespace(c),
{
    c == SPACE || c == TAB || c == NEWLINE || c == FORM_FEED || c == CARRIAGE_RETURN
}

fn is_ascii_digit(c: u8) -> (b: bool)
    ensures
        b == is_digit(c),
{
    DIGIT_ZERO <= c && c <= DIGIT_NINE
}

struct Tokenizer<'a> {
    cursor: Cursor<'a, u8>,
}

impl<'a> Tokenizer<'a> {
    spec fn input(&self) -> Seq<u8> {
        self.cursor.data()
    }

    spec fn pos(&self) -> int {
        self.cursor.pos() as int
    }

    proof fn lemma_input_fits(&self)
        ensures
            self.input().len() <= usize::MAX,
    {
        self.cursor.lemma_data_fits();
    }

    fn new(input: &'a [u8]) -> (t: Self)
        ensures
            t.input() == input@,
            t.pos() == 0,
    {
        Self { cursor: Cursor::new(input) }
    }

    #[verifier::loop_isolation(false)]
    /// Reads a run of digits as a natural number of at most `limit`.
    fn parse_magnitude(&mut self, limit: u64) -> (r: Result<u64, TokenizationError>)
        requires
            old(self).pos() < old(self).input().len(),
            is_digit(old(self).input()[old(self).pos()]),
            limit >= 9,
        ensures
            final(self).input() == old(self).input(),
            final(self).pos() <= final(self).input().len(),
            match magnitude(old(self).input(), old(self).pos(), limit as nat) {
                Ok((v, e)) => r == Ok::<u64, TokenizationError>(v as u64) && final(self).pos() == e,
                Err(x) => r == Err::<u64, TokenizationError>(x),
            },
    {
        proof {
            self.lemma_input_fits();
        }
        let ghost s = self.input();
        let ghost p0 = self.pos();
        let mut value: u64 = 0;
        let mut too_big = false;
        proof {
            lemma_digits_end(s, p0);
            assert(s.subrange(p0, p0) =~= Seq::<u8>::empty());
        }
        loop
            invariant
                self.input() == s,
                p0 <= self.pos() <= s.len(),
                digits_end(s, self.pos()) == digits_end(s, p0),
                too_big <==> decimal_value(s.subrange(p0, self.pos())) > limit,
                !too_big ==> value == decimal_value(s.subrange(p0, self.pos())),
            decreases s.len() - self.pos(),
        {
            let ghost p = self.pos();
            let c = match self.cursor.peek() {
                None => break,
                Some(c) => *c,
            };
            if is_ascii_digit(c) {
                let d: u64 = (c - DIGIT_ZERO) as u64;
                proof {
                    assert(s.subrange(p0, p + 1).drop_last() =~= s.subrange(p0, p));
                    assert(s.subrange(p0, p + 1).last() == c);
                }
                if !too_big {
                    if value <= (limit - d) / 10 {
                        value = value * 10 + d;
                    } else {
                        too_big = true;
                    }
                }
                self.cursor.advance();
            } else if is_sym_or_number_end_delimiter(c) {
                break;
            } else {
                return Err(TokenizationError::MalformedNumber);
            }
        }
        if too_big {
            Err(TokenizationError::UnsupportedBigNumber)
        } else {
            Ok(value)
        }
    }

    fn parse_num(&mut self) -> (r: Result<Token, TokenizationError>)
        requires
            old(self).pos() < old(self).input().len(),
            is_digit(old(self).input()[old(self).pos()]),
        ensures
            final(self).input() == old(self).input(),
            final(self).pos() <= final(self).input().len(),
            step_matches(r, number_token(old(self).input(), old(self).pos()), final(self).pos()),
    {
        match self.parse_magnitude(0x7fff_ffff_ffff_ffff) {
            Ok(v) => Ok(Token { kind: TokenKind::Num(v as i64) }),
            Err(e) => Err(e),
        }
    }

    fn parse_negative_num(&mut self) -> (r: Result<Token, TokenizationError>)
        requires
            old(self).pos() < old(self).input().len(),
            old(self).input()[old(self).pos()] == MINUS,
        ensures
            final(self).input() == old(self).input(),
            final(self).pos() <= final(self).input().len(),
            step_matches(r, minus_token(old(self).input(), old(self).pos()), final(self).pos()),
    {
        proof {
            self.lemma_input_fits();
        }
        // A `-` not followed by a digit is (the start of) a symbol.
        self.cursor.advance();
        let next = match self.cursor.peek() {
            None => None,
            Some(c) => Some(*c),
        };
        match next {
            Some(c) => {
                if c == MINUS {
                    return Err(TokenizationError::MalformedNumber);
                }
                if is_ascii_digit(c) {
                    // The sign and the digits make one `i64`, down to `i64::MIN`.
                    return match self.parse_magnitude(0x8000_0000_0000_0000) {
                        Ok(v) => {
                            let n: i64 = if v == 0x8000_0000_0000_0000 {
                                i64::MIN
                            } else {
                                -(v as i64)
                            };
                            Ok(Token { kind: TokenKind::Num(n) })
                        },
                        Err(e) => Err(e),
                    };
                }
            },
            None => {},
        }
        self.cursor.rewind();
        Ok(self.parse_sym())
    }

    #[verifier::loop_isolation(false)]
    fn skip_comment(&mut self) -> (r: Result<(), TokenizationError>)
        requires
            old(self).pos() < old(self).input().len(),
            old(self).input()[old(self).pos()] == SEMICOLON,
        ensures
            final(self).input() == old(self).input(),
            final(self).pos() <= final(self).input().len(),
            ({
                let s = old(self).input();
                let p = old(self).pos();
                if p + 1 < s.len() && s[p + 1] == SEMICOLON {
                    r is Ok && final(self).pos() == line_end(s, p + 1)
                } else {
                    r == Err::<(), TokenizationError>(TokenizationError::UnfinishedComment)
                }
            }),
    {
        proof {
            self.lemma_input_fits();
        }
        let ghost s = self.input();
        let ghost p0 = self.pos();
        self.cursor.advance();
        match self.cursor.peek() {
            Some(c) => {
                if *c != SEMICOLON {
                    return Err(TokenizationError::UnfinishedComment);
                }
            },
            None => {
                return Err(TokenizationError::UnfinishedComment);
            },
        }
        loop
            invariant
                self.input() == s,
                p0 + 1 <= self.pos() <= s.len(),
                line_end(s, self.pos()) == line_end(s, p0 + 1),
            decreases s.len() - self.pos(),
        {
            match self.cursor.peek() {
                Some(c) => {
                    if *c == NEWLINE {
                        // Skip the newline itself
                        self.cursor.advance();
                        break;
                    }
                    self.cursor.advance();
                },
                None => break,
            }
        }
        Ok(())
    }

    #[verifier::loop_isolation(false)]
    fn parse_sym(&mut self) -> (t: Token)
        requires
            old(self).pos() < old(self).input().len(),
            !is_delimiter(old(self).input()[old(self).pos()]),
        ensures
            final(self).input() == old(self).input(),
            final(self).pos() <= final(self).input().len(),
            step_matches(Ok(t), symbol_token(old(self).input(), old(self).pos()), final(self).pos()),
    {
        proof {
            self.lemma_input_fits();
        }
        let ghost s = self.input();
        let ghost p0 = self.pos();
        let mut buf = String::new();
        proof {
            assert(bytes_to_chars(s.subrange(p0, p0)) =~= Seq::<char>::empty());
        }
        loop
            invariant
                self.input() == s,
                p0 <= self.pos() <= s.len(),
                symbol_end(s, self.pos()) == symbol_end(s, p0),
                buf@ == bytes_to_chars(s.subrange(p0, self.pos())),
            decreases s.len() - self.pos(),
        {
            let ghost p = self.pos();
            let c = match self.cursor.peek() {
                None => break,
                Some(c) => *c,
            };
            if is_sym_or_number_end_delimiter(c) {
                break;
            }
            push_char(&mut buf, c as char);
            self.cursor.advance();
            proof {
                assert(bytes_to_chars(s.subrange(p0, p + 1)) =~= bytes_to_chars(s.subrange(p0, p)).push(c as char));
            }
        }
        Token { kind: TokenKind::Sym(buf) }
    }

    fn parse_par_op(&mut self) -> (t: Token)
        requires
            old(self).pos() < old(self).input().len(),
            old(self).input()[old(self).pos()] == OPEN_PAREN,
        ensures
            final(self).input() == old(self).input(),
            final(self).pos() == old(self).pos() + 1,
            t@ == SpecToken::ParenOpen,
    {
        proof {
            self.lemma_input_fits();
        }
        self.cursor.get();
        Token { kind: TokenKind::ParenOpen }
    }

    fn parse_par_cl(&mut self) -> (t: Token)
        requires
            old(self).pos() < old(self).input().len(),
            old(self).input()[old(self).pos()] == CLOSE_PAREN,
        ensures
            final(self).input() == old(self).input(),
            final(self).pos() == old(self).pos() + 1,
            t@ == SpecToken::ParenClose,
    {
        proof {
            self.lemma_input_fits();
        }
        self.cursor.get();
        Token { kind: TokenKind::ParenClose }
    }

    #[verifier::loop_isolation(false)]
    fn skip_whitespaces_or_comments(&mut self) -> (r: Result<(), TokenizationError>)
        requires
            old(self).pos() <= old(self).input().len(),
        ensures
            final(self).input() == old(self).input(),
            final(self).pos() <= final(self).input().len(),
            match skip_blank(old(self).input(), old(self).pos()) {
                Ok(q) => r is Ok && final(self).pos() == q,
                Err(e) => r == Err::<(), TokenizationError>(e),
            },
    {
        proof {
            self.lemma_input_fits();
        }
        let ghost s = self.input();
        let ghost p0 = self.pos();
        loop
            invariant
                self.input() == s,
                self.pos() <= s.len(),
                skip_blank(s, self.pos()) == skip_blank(s, p0),
            decreases s.len() - self.pos(),
        {
            let ghost start = self.pos();
            let mut brk = true;
            loop
                invariant
                    self.input() == s,
                    start <= self.pos() <= s.len(),
                    skip_blank(s, self.pos()) == skip_blank(s, p0),
                    brk ==> self.pos() == start,
                    !brk ==> self.pos() > start,
                decreases s.len() - self.pos(),
            {
                match self.cursor.peek() {
                    Some(c) => {
                        if !is_ascii_whitespace(*c) {
                            break;
                        }
                    },
                    None => break,
                }
                brk = false;
                self.cursor.advance();
            }
            loop
                invariant
                    self.input() == s,
                    start <= self.pos() <= s.len(),
                    skip_blank(s, self.pos()) == skip_blank(s, p0),
                    brk ==> self.pos() == start,
                    brk ==> start < s.len() ==> !is_whitespace(s[start]),
                    !brk ==> self.pos() > start,
                decreases s.len() - self.pos(),
            {
                match self.cursor.peek() {
                    Some(c) => {
                        if *c != SEMICOLON {
                            break;
                        }
                    },
                    None => break,
                }
                brk = false;
                let ghost p = self.pos();
                match self.skip_comment() {
                    Ok(()) => {
                        proof {
                            lemma_line_end(s, p + 1);
                        }
                    },
                    Err(e) => {
                        return Err(e);
                    },
                }
            }
            if brk {
                break;
            }
        }
        Ok(())
    }

    fn next(&mut self) -> (r: Option<Result<Token, TokenizationError>>)
        requires
            old(self).pos() <= old(self).input().len(),
        ensures
            final(self).input() == old(self).input(),
            final(self).pos() <= final(self).input().len(),
            ({
                let s = old(self).input();
                match skip_blank(s, old(self).pos()) {
                    Err(e) => r == Some(Err::<Token, TokenizationError>(e)),
                    Ok(q) => if q >= s.len() {
                        r is None
                    } else {
                        r is Some && step_matches(r->Some_0, next_token(s, q), final(self).pos())
                    },
                }
            }),
    {
        proof {
            self.lemma_input_fits();
        }
        let ghost s = self.input();
        proof {
            lemma_skip_blank(s, self.pos());
        }
        match self.skip_whitespaces_or_comments() {
            Err(e) => {
                return Some(Err(e));
            },
            Ok(()) => {},
        }
        let c = match self.cursor.peek() {
            None => {
                return None;
            },
            Some(c) => *c,
        };
        Some(
            if c == MINUS {
                self.parse_negative_num()
            } else if is_ascii_digit(c) {
                self.parse_num()
            } else if c == OPEN_PAREN {
                Ok(self.parse_par_op())
            } else if c == CLOSE_PAREN {
                Ok(self.parse_par_cl())
            } else {
                Ok(self.parse_sym())
            },
        )
    }
}

} // verus!
