//! Laws about tokenizing a text made of two parts.
use vstd::prelude::*;
use crate::tokenizer::{
    NEWLINE, SpecToken, TokenizationError, digits_end, is_digit, is_delimiter, is_whitespace,
    lemma_digits_end, lemma_line_end, lemma_next_token, lemma_skip_blank, lemma_symbol_end,
    line_end, next_token, skip_blank, symbol_end, tokenize, tokenize_from,
};

verus! {

/// A position result moved `k` places on.
spec fn shift_pos(r: Result<int, TokenizationError>, k: int) -> Result<int, TokenizationError> {
    match r {
        Ok(q) => Ok(q + k),
        Err(e) => Err(e),
    }
}

/// A token result whose end is moved `k` places on.
spec fn shift_token(r: Result<(SpecToken, int), TokenizationError>, k: int) -> Result<(SpecToken, int), TokenizationError> {
    match r {
        Ok((t, e)) => Ok((t, e + k)),
        Err(e) => Err(e),
    }
}

proof fn lemma_line_end_shift(a: Seq<u8>, b: Seq<u8>, q: int)
    requires
        0 <= q,
    ensures
        line_end(a + b, a.len() + q) == a.len() + line_end(b, q),
    decreases b.len() - q,
{
    let s = a + b;
    if q < b.len() {
        assert(s[a.len() + q] == b[q]);
        lemma_line_end_shift(a, b, q + 1);
    }
}

proof fn lemma_skip_blank_shift(a: Seq<u8>, b: Seq<u8>, q: int)
    requires
        0 <= q,
    ensures
        skip_blank(a + b, a.len() + q) == shift_pos(skip_blank(b, q), a.len() as int),
    decreases b.len() - q,
{
    let s = a + b;
    let k = a.len() as int;
    if q < b.len() {
        assert(s[k + q] == b[q]);
        if q + 1 < b.len() {
            assert(s[k + q + 1] == b[q + 1]);
        }
        if is_whitespace(b[q]) {
            lemma_skip_blank_shift(a, b, q + 1);
        } else if b[q] == crate::tokenizer::SEMICOLON && q + 1 < b.len() && b[q + 1] == crate::tokenizer::SEMICOLON {
            lemma_line_end(b, q + 1);
            lemma_line_end_shift(a, b, q + 1);
            lemma_skip_blank_shift(a, b, line_end(b, q + 1));
        }
    }
}

proof fn lemma_digits_end_shift(a: Seq<u8>, b: Seq<u8>, q: int)
    requires
        0 <= q,
    ensures
        digits_end(a + b, a.len() + q) == a.len() + digits_end(b, q),
    decreases b.len() - q,
{
    if q < b.len() {
        assert((a + b)[a.len() + q] == b[q]);
        lemma_digits_end_shift(a, b, q + 1);
    }
}

proof fn lemma_symbol_end_shift(a: Seq<u8>, b: Seq<u8>, q: int)
    requires
        0 <= q,
    ensures
        symbol_end(a + b, a.len() + q) == a.len() + symbol_end(b, q),
    decreases b.len() - q,
{
    if q < b.len() {
        assert((a + b)[a.len() + q] == b[q]);
        lemma_symbol_end_shift(a, b, q + 1);
    }
}

proof fn lemma_next_token_shift(a: Seq<u8>, b: Seq<u8>, q: int)
    requires
        0 <= q < b.len(),
    ensures
        next_token(a + b, a.len() + q) == shift_token(next_token(b, q), a.len() as int),
{
    let s = a + b;
    let k = a.len() as int;
    assert(s[k + q] == b[q]);
    if q + 1 < b.len() {
        assert(s[k + q + 1] == b[q + 1]);
    }
    lemma_digits_end_shift(a, b, q);
    lemma_digits_end_shift(a, b, q + 1);
    lemma_symbol_end_shift(a, b, q);
    lemma_digits_end(b, q);
    lemma_digits_end(b, q + 1);
    lemma_symbol_end(b, q);
    let e1 = digits_end(b, q);
    let e2 = digits_end(b, q + 1);
    let e3 = symbol_end(b, q);
    if e1 < b.len() {
        assert(s[k + e1] == b[e1]);
    }
    if e2 < b.len() {
        assert(s[k + e2] == b[e2]);
    }
    assert(s.subrange(k + q, k + e1) =~= b.subrange(q, e1));
    assert(s.subrange(k + q + 1, k + e2) =~= b.subrange(q + 1, e2));
    assert(s.subrange(k + q, k + e3) =~= b.subrange(q, e3));
}

/// Tokenizing the second part of a text from `q` on gives what tokenizing
/// that part alone from `q` gives.
proof fn lemma_tokenize_from_shift(a: Seq<u8>, b: Seq<u8>, q: int)
    requires
        0 <= q <= b.len(),
    ensures
        tokenize_from(a + b, a.len() + q) == tokenize_from(b, q),
    decreases b.len() - q,
{
    let s = a + b;
    let k = a.len() as int;
    lemma_skip_blank_shift(a, b, q);
    lemma_skip_blank(b, q);
    if let Ok(p) = skip_blank(b, q) {
        if p < b.len() {
            lemma_next_token_shift(a, b, p);
            lemma_next_token(b, p);
            if let Ok((t, r)) = next_token(b, p) {
                lemma_tokenize_from_shift(a, b, r);
            }
        }
    }
}

/// Tokens put in front of a tokenizing result.
spec fn prepend_tokens(ts: Seq<SpecToken>, r: Result<Seq<SpecToken>, TokenizationError>) -> Result<Seq<SpecToken>, TokenizationError> {
    match r {
        Ok(us) => Ok(ts + us),
        Err(e) => Err(e),
    }
}

/// Tokenizing from a position depends on it only through where the blanks
/// from it end.
proof fn lemma_tokenize_from_same_skip(s: Seq<u8>, p1: int, p2: int)
    requires
        0 <= p1 <= s.len(),
        0 <= p2 <= s.len(),
        skip_blank(s, p1) == skip_blank(s, p2),
    ensures
        tokenize_from(s, p1) == tokenize_from(s, p2),
{
}

proof fn lemma_line_end_prefix(x: Seq<u8>, z: Seq<u8>, p: int)
    requires
        0 <= p <= x.len(),
        z.len() > 0,
        z[0] == NEWLINE,
    ensures
        line_end(x + z, p) == line_end(x, p) || (line_end(x, p) == x.len() && line_end(x + z, p) == x.len() + 1),
    decreases x.len() - p,
{
    let s = x + z;
    if p < x.len() {
        assert(s[p] == x[p]);
        lemma_line_end_prefix(x, z, p + 1);
    } else {
        assert(s[p] == NEWLINE);
    }
}

proof fn lemma_skip_blank_prefix(x: Seq<u8>, z: Seq<u8>, p: int)
    requires
        0 <= p <= x.len(),
        z.len() > 0,
        z[0] == NEWLINE,
    ensures
        skip_blank(x, p) matches Ok(q) ==> {
            &&& q < x.len() ==> skip_blank(x + z, p) == Ok::<int, TokenizationError>(q)
            &&& q == x.len() ==> skip_blank(x + z, p) == skip_blank(x + z, x.len() as int)
        },
    decreases x.len() - p,
{
    let s = x + z;
    let l = x.len() as int;
    assert(s[l] == NEWLINE);
    assert(skip_blank(s, l) == skip_blank(s, l + 1));
    lemma_skip_blank(x, p);
    if p < l {
        assert(s[p] == x[p]);
        if p + 1 < l {
            assert(s[p + 1] == x[p + 1]);
        }
        if is_whitespace(x[p]) {
            lemma_skip_blank_prefix(x, z, p + 1);
        } else if x[p] == crate::tokenizer::SEMICOLON && p + 1 < l && x[p + 1] == crate::tokenizer::SEMICOLON {
            lemma_line_end(x, p + 1);
            lemma_line_end(s, p + 1);
            lemma_line_end_prefix(x, z, p + 1);
            let lx = line_end(x, p + 1);
            if line_end(s, p + 1) == lx {
                lemma_skip_blank_prefix(x, z, lx);
            } else {
                assert(skip_blank(x, l) == Ok::<int, TokenizationError>(l));
            }
        }
    }
}

proof fn lemma_digits_end_prefix(x: Seq<u8>, z: Seq<u8>, p: int)
    requires
        0 <= p <= x.len(),
        z.len() > 0,
        z[0] == NEWLINE,
    ensures
        digits_end(x + z, p) == digits_end(x, p),
        symbol_end(x + z, p) == symbol_end(x, p),
    decreases x.len() - p,
{
    let s = x + z;
    if p < x.len() {
        assert(s[p] == x[p]);
        lemma_digits_end_prefix(x, z, p + 1);
    } else {
        assert(s[p] == NEWLINE);
    }
}

proof fn lemma_next_token_prefix(x: Seq<u8>, z: Seq<u8>, q: int)
    requires
        0 <= q < x.len(),
        z.len() > 0,
        z[0] == NEWLINE,
    ensures
        next_token(x + z, q) == next_token(x, q),
{
    let s = x + z;
    let l = x.len() as int;
    assert(s[q] == x[q]);
    assert(s[l] == NEWLINE);
    if q + 1 < l {
        assert(s[q + 1] == x[q + 1]);
    }
    lemma_digits_end_prefix(x, z, q);
    lemma_digits_end_prefix(x, z, q + 1);
    lemma_digits_end(x, q);
    lemma_digits_end(x, q + 1);
    lemma_symbol_end(x, q);
    let e1 = digits_end(x, q);
    let e2 = digits_end(x, q + 1);
    let e3 = symbol_end(x, q);
    if e1 < l {
        assert(s[e1] == x[e1]);
    }
    if e2 < l {
        assert(s[e2] == x[e2]);
    }
    assert(s.subrange(q, e1) =~= x.subrange(q, e1));
    assert(s.subrange(q + 1, e2) =~= x.subrange(q + 1, e2));
    assert(s.subrange(q, e3) =~= x.subrange(q, e3));
}

proof fn lemma_tokenize_from_prefix(x: Seq<u8>, z: Seq<u8>, p: int)
    requires
        0 <= p <= x.len(),
        z.len() > 0,
        z[0] == NEWLINE,
        tokenize_from(x, p) is Ok,
    ensures
        tokenize_from(x + z, p) == prepend_tokens(tokenize_from(x, p)->Ok_0, tokenize_from(x + z, x.len() as int)),
    decreases x.len() - p,
{
    let s = x + z;
    let l = x.len() as int;
    lemma_skip_blank(x, p);
    lemma_skip_blank_prefix(x, z, p);
    let q = skip_blank(x, p)->Ok_0;
    if q >= l {
        lemma_tokenize_from_same_skip(s, p, l);
        match tokenize_from(s, l) {
            Ok(us) => {
                assert(Seq::<SpecToken>::empty() + us =~= us);
            },
            Err(_) => {},
        }
    } else {
        lemma_next_token(x, q);
        lemma_next_token_prefix(x, z, q);
        let (t, r) = next_token(x, q)->Ok_0;
        lemma_tokenize_from_prefix(x, z, r);
        let tr = tokenize_from(x, r)->Ok_0;
        match tokenize_from(s, l) {
            Ok(us) => {
                assert(seq![t] + (tr + us) =~= (seq![t] + tr) + us);
            },
            Err(_) => {},
        }
    }
}

/// Tokenizing is compositional across a line break: the tokens of two texts
/// joined by a newline are the tokens of the first, then those of the
/// second (whitespace and `;;` comments give no tokens, and the newline ends
/// whatever the first text ended with).
pub proof fn law_tokenize_across_newline(x: Seq<u8>, y: Seq<u8>)
    requires
        tokenize(x) is Ok,
        tokenize(y) is Ok,
    ensures
        tokenize(x + seq![NEWLINE] + y) == Ok::<Seq<SpecToken>, TokenizationError>(
            tokenize(x)->Ok_0 + tokenize(y)->Ok_0,
        ),
{
    let z = seq![NEWLINE] + y;
    let a = x + seq![NEWLINE];
    let s = x + z;
    let l = x.len() as int;
    assert(x + seq![NEWLINE] + y =~= s);
    assert(a + y =~= s);
    lemma_tokenize_from_prefix(x, z, 0);
    assert(s[l] == NEWLINE);
    assert(skip_blank(s, l) == skip_blank(s, l + 1));
    lemma_tokenize_from_same_skip(s, l, l + 1);
    lemma_tokenize_from_shift(a, y, 0);
    assert(a.len() == l + 1);
}

} // verus!
