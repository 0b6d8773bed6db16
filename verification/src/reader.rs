//! The reader: turns tokens into Lisp objects.
//!
//! `()` is read as NIL: the one case where the reader produces NIL, since the
//! empty list is not a cons cell. The symbol `nil` stays a symbol (it is
//! resolved to NIL when it is evaluated).
//!
//! Dotted lists: a `.` right after an element of a list makes the one object
//! that follows it the CDR of the last cons cell, and the list must then
//! close. So `(nil . nil)` is a cons cell whose CAR and CDR are both the
//! symbol `nil`, and `(1 2 . 3)` is `(1 . (2 . 3))`. After the `.`:
//! - a second object, as in `(1 . 2 3)`, is `MalformedDottedList`;
//! - the end of the tokens, as in `(1 .` or `(1 . 2`, is `IncompleteList`;
//! - a `)`, as in `(1 . )`, is `LeadingParenClose`: the object after the dot
//!   cannot begin with `)`.
//!
//! A `.` that is the first element of a list, or stands outside any list, is
//! an ordinary symbol. The reader never produces a function object: only
//! atoms, NIL and cons cells.
use vstd::prelude::*;
use crate::cursor::Cursor;
use crate::object::{LispObject, SExpr, cons_of, symbols_free_of_close_paren};
use crate::tokenizer::{SpecToken, Token, TokenKind, token_views};

verus! {

#[derive(Clone, Copy, PartialEq, Eq, Debug)]
pub enum ReadingError {
    LeadingParenClose,
    IncompleteList,
    /// A `.` in a list is not followed by exactly one object and `)`.
    MalformedDottedList,
}

/// The message of a reading error.
pub open spec fn reading_error_text(e: ReadingError) -> Seq<char> {
    match e {
        ReadingError::LeadingParenClose => "an object cannot begin with ')'"@,
        ReadingError::IncompleteList => "list was started with '(' but has not been closed"@,
        ReadingError::MalformedDottedList => "a '.' in a list must be followed by exactly one object and ')'"@,
    }
}

impl ReadingError {
    /// The message of the error.
    pub fn to_string(&self) -> (s: String)
        ensures
            s@ == reading_error_text(*self),
    {
        match self {
            ReadingError::LeadingParenClose => String::from_str("an object cannot begin with ')'"),
            ReadingError::IncompleteList => String::from_str("list was started with '(' but has not been closed"),
            ReadingError::MalformedDottedList => String::from_str("a '.' in a list must be followed by exactly one object and ')'"),
        }
    }
}

/// The object a number or symbol token stands for.
pub open spec fn atom_of(t: SpecToken) -> SExpr {
    match t {
        SpecToken::Num(n) => SExpr::Num(n),
        SpecToken::Sym(s) => SExpr::Sym(s),
        _ => SExpr::Nil,
    }
}

/// The object whose tokens start at `p`, and where its tokens end.
pub open spec fn read_obj(t: Seq<SpecToken>, p: int) -> Result<(SExpr, int), ReadingError>
    decreases t.len() - p, 0int,
{
    if 0 <= p < t.len() {
        match t[p] {
            SpecToken::ParenClose => Err(ReadingError::LeadingParenClose),
            SpecToken::ParenOpen => {
                if p + 1 < t.len() && t[p + 1] is ParenClose {
                    Ok((SExpr::Nil, p + 2))
                } else {
                    read_list(t, p + 1)
                }
            },
            _ => Ok((atom_of(t[p]), p + 1)),
        }
    } else {
        Err(ReadingError::IncompleteList)
    }
}

/// Whether a token is the symbol `.`.
pub open spec fn is_dot(t: SpecToken) -> bool {
    t matches SpecToken::Sym(s) && s == seq!['.']
}

/// The rest of a list whose `(` came just before `p`, and where its closing
/// `)` ends: its elements up to the `)` as a proper list, or, when `. x`
/// follows the last element, a list whose last CDR is `x`.
pub open spec fn read_list(t: Seq<SpecToken>, p: int) -> Result<(SExpr, int), ReadingError>
    decreases t.len() - p, 1int,
{
    if 0 <= p < t.len() {
        match read_obj(t, p) {
            Err(e) => Err(e),
            Ok((car, q)) => {
                if !(p < q <= t.len()) {
                    // Reading always moves forward; this branch is never taken.
                    Err(ReadingError::IncompleteList)
                } else if q >= t.len() {
                    Err(ReadingError::IncompleteList)
                } else if t[q] is ParenClose {
                    Ok((cons_of(car, SExpr::Nil), q + 1))
                } else if is_dot(t[q]) {
                    match read_obj(t, q + 1) {
                        Err(e) => Err(e),
                        Ok((cdr, r)) => {
                            if !(q + 1 < r <= t.len()) {
                                // Reading always moves forward; this branch is never taken.
                                Err(ReadingError::IncompleteList)
                            } else if r >= t.len() {
                                Err(ReadingError::IncompleteList)
                            } else if t[r] is ParenClose {
                                Ok((cons_of(car, cdr), r + 1))
                            } else {
                                Err(ReadingError::MalformedDottedList)
                            }
                        },
                    }
                } else {
                    match read_list(t, q) {
                        Ok((cdr, r)) => Ok((cons_of(car, cdr), r)),
                        Err(e) => Err(e),
                    }
                }
            },
        }
    } else {
        Err(ReadingError::IncompleteList)
    }
}

pub proof fn lemma_read_advances(t: Seq<SpecToken>, p: int)
    ensures
        read_obj(t, p) matches Ok((_, q)) ==> p < q <= t.len(),
        read_list(t, p) matches Ok((_, q)) ==> p < q <= t.len(),
    decreases t.len() - p,
{
    if 0 <= p < t.len() {
        lemma_read_advances(t, p + 1);
        if let Ok((_, q)) = read_obj(t, p) {
            if p < q < t.len() {
                lemma_read_advances(t, q);
                lemma_read_advances(t, q + 1);
            }
        }
    }
}

/// What the reader can produce: numbers, symbols, NIL, and cons cells of
/// such objects; never a function object.
pub open spec fn is_read_form(o: SExpr) -> bool
    decreases o,
{
    match o {
        SExpr::Func(_) => false,
        SExpr::Cons(car, cdr) => is_read_form(*car) && is_read_form(*cdr),
        _ => true,
    }
}

/// Every object that the reader reads is a number, a symbol, NIL, or a
/// cons cell of such objects: the reader never produces a function.
pub proof fn law_reader_yields_data(t: Seq<SpecToken>, p: int)
    ensures
        read_obj(t, p) matches Ok((o, _)) ==> is_read_form(o),
        read_list(t, p) matches Ok((o, _)) ==> o is Cons && is_read_form(o),
    decreases t.len() - p,
{
    if 0 <= p < t.len() {
        law_reader_yields_data(t, p + 1);
        lemma_read_advances(t, p);
        assert(read_obj(t, p) matches Ok((o, _)) ==> is_read_form(o));
        if let Ok((car, q)) = read_obj(t, p) {
            if p < q < t.len() {
                law_reader_yields_data(t, q);
                law_reader_yields_data(t, q + 1);
                if let Ok((cdr, r)) = read_obj(t, q + 1) {
                    assert(is_read_form(cons_of(car, cdr)));
                }
                if let Ok((cdr, r)) = read_list(t, q) {
                    assert(is_read_form(cons_of(car, cdr)));
                }
                assert(is_read_form(car));
                assert(is_read_form(SExpr::Nil));
                assert(is_read_form(cons_of(car, SExpr::Nil)));
            }
        }
    }
}

/// Symbol tokens without `)` (as the tokenizer gives them) are read into
/// objects whose symbols hold no `)`, so that printing them loses nothing.
pub proof fn law_read_objects_have_no_close_paren_in_symbols(t: Seq<SpecToken>, p: int)
    requires
        forall|i: int| 0 <= i < t.len() ==> (#[trigger] t[i] matches SpecToken::Sym(cs) ==> forall|j: int|
            0 <= j < cs.len() ==> cs[j] != ')'),
    ensures
        read_obj(t, p) matches Ok((o, _)) ==> symbols_free_of_close_paren(o),
        read_list(t, p) matches Ok((o, _)) ==> symbols_free_of_close_paren(o),
    decreases t.len() - p,
{
    if 0 <= p < t.len() {
        law_read_objects_have_no_close_paren_in_symbols(t, p + 1);
        lemma_read_advances(t, p);
        assert(t[p] matches SpecToken::Sym(cs) ==> forall|j: int| 0 <= j < cs.len() ==> cs[j] != ')');
        assert(symbols_free_of_close_paren(SExpr::Nil));
        assert(symbols_free_of_close_paren(atom_of(t[p])));
        assert(read_obj(t, p) matches Ok((o, _)) ==> symbols_free_of_close_paren(o));
        if let Ok((car, q)) = read_obj(t, p) {
            if p < q < t.len() {
                law_read_objects_have_no_close_paren_in_symbols(t, q);
                law_read_objects_have_no_close_paren_in_symbols(t, q + 1);
                if let Ok((cdr, r)) = read_obj(t, q + 1) {
                    assert(symbols_free_of_close_paren(cons_of(car, cdr)));
                }
                if let Ok((cdr, r)) = read_list(t, q) {
                    assert(symbols_free_of_close_paren(cons_of(car, cdr)));
                }
                assert(symbols_free_of_close_paren(cons_of(car, SExpr::Nil)));
            }
        }
    }
}

/// The objects whose tokens start at `p`, up to the first error.
pub open spec fn read_all(t: Seq<SpecToken>, p: int) -> Result<Seq<SExpr>, ReadingError>
    decreases t.len() - p,
{
    if 0 <= p < t.len() {
        match read_obj(t, p) {
            Err(e) => Err(e),
            Ok((o, q)) => {
                proof {
                    lemma_read_advances(t, p);
                }
                match read_all(t, q) {
                    Ok(os) => Ok(seq![o] + os),
                    Err(e) => Err(e),
                }
            },
        }
    } else {
        Ok(Seq::empty())
    }
}

/// Every object read from a sequence of tokens is a number, a symbol, NIL,
/// or a cons cell of such objects.
pub proof fn law_read_tokens_yield_data(t: Seq<SpecToken>, p: int)
    ensures
        read_all(t, p) matches Ok(os) ==> forall|i: int| 0 <= i < os.len() ==> is_read_form(#[trigger] os[i]),
    decreases t.len() - p,
{
    if 0 <= p < t.len() {
        law_reader_yields_data(t, p);
        lemma_read_advances(t, p);
        if let Ok((o, q)) = read_obj(t, p) {
            law_read_tokens_yield_data(t, q);
            if let Ok(os) = read_all(t, q) {
                assert forall|i: int| 0 <= i < os.len() + 1 implies is_read_form(#[trigger] (seq![o] + os)[i]) by {
                    if i > 0 {
                        assert((seq![o] + os)[i] == os[i - 1]);
                    }
                }
            }
        }
    }
}

/// `()` is the only thing the reader reads as NIL: every other object it
/// reads is a number, a symbol, or a cons cell.
pub proof fn law_reader_nil_only_from_empty_parens(t: Seq<SpecToken>, p: int)
    ensures
        read_obj(t, p) matches Ok((o, q)) ==> (o is Nil ==> {
            &&& t[p] is ParenOpen
            &&& t[p + 1] is ParenClose
            &&& q == p + 2
        }),
{
    law_reader_yields_data(t, p + 1);
}

/// The objects of a sequence of tokens, or the first error.
pub open spec fn read_tokens(t: Seq<SpecToken>) -> Result<Seq<SExpr>, ReadingError> {
    read_all(t, 0)
}

/// A read result with its end position moved forward by `k`.
pub open spec fn shift_read(r: Result<(SExpr, int), ReadingError>, k: int) -> Result<(SExpr, int), ReadingError> {
    match r {
        Ok((o, q)) => Ok((o, q + k)),
        Err(e) => Err(e),
    }
}

/// Reading at a position inside `b` gives the same object whether `b` stands
/// alone or after other tokens.
proof fn lemma_read_shift(a: Seq<SpecToken>, b: Seq<SpecToken>, q: int)
    requires
        0 <= q,
    ensures
        read_obj(a + b, a.len() + q) == shift_read(read_obj(b, q), a.len() as int),
        read_list(a + b, a.len() + q) == shift_read(read_list(b, q), a.len() as int),
    decreases b.len() - q,
{
    let t = a + b;
    let k = a.len() as int;
    if q < b.len() {
        assert(t[k + q] == b[q]);
        if q + 1 < b.len() {
            assert(t[k + q + 1] == b[q + 1]);
        }
        lemma_read_shift(a, b, q + 1);
        lemma_read_advances(b, q);
        if let Ok((car, q2)) = read_obj(b, q) {
            if q2 < b.len() {
                assert(t[k + q2] == b[q2]);
                lemma_read_shift(a, b, q2);
                lemma_read_shift(a, b, q2 + 1);
                lemma_read_advances(b, q2 + 1);
                if let Ok((cdr, r)) = read_obj(b, q2 + 1) {
                    if r < b.len() {
                        assert(t[k + r] == b[r]);
                    }
                }
            }
        }
    }
}

/// An object read from `t` reads the same from `t` followed by more tokens.
proof fn lemma_read_prefix(t: Seq<SpecToken>, u: Seq<SpecToken>, p: int)
    ensures
        read_obj(t, p) is Ok ==> read_obj(t + u, p) == read_obj(t, p),
        read_list(t, p) is Ok ==> read_list(t + u, p) == read_list(t, p),
    decreases t.len() - p,
{
    if 0 <= p < t.len() {
        let s = t + u;
        assert(s[p] == t[p]);
        if p + 1 < t.len() {
            assert(s[p + 1] == t[p + 1]);
        }
        lemma_read_prefix(t, u, p + 1);
        lemma_read_advances(t, p);
        if let Ok((car, q)) = read_obj(t, p) {
            if q < t.len() {
                assert(s[q] == t[q]);
                lemma_read_prefix(t, u, q);
                lemma_read_prefix(t, u, q + 1);
                lemma_read_advances(t, q + 1);
                if let Ok((cdr, r)) = read_obj(t, q + 1) {
                    if r < t.len() {
                        assert(s[r] == t[r]);
                    }
                }
            }
        }
    }
}

proof fn lemma_read_all_shift(a: Seq<SpecToken>, b: Seq<SpecToken>, q: int)
    requires
        0 <= q,
    ensures
        read_all(a + b, a.len() + q) == read_all(b, q),
    decreases b.len() - q,
{
    if q < b.len() {
        lemma_read_shift(a, b, q);
        lemma_read_advances(b, q);
        if let Ok((o, q2)) = read_obj(b, q) {
            lemma_read_all_shift(a, b, q2);
        }
    }
}

proof fn lemma_read_all_concat(t1: Seq<SpecToken>, t2: Seq<SpecToken>, p: int)
    requires
        0 <= p <= t1.len(),
        read_all(t1, p) is Ok,
    ensures
        read_all(t1 + t2, p) == match read_all(t2, 0) {
            Ok(os2) => Ok(read_all(t1, p)->Ok_0 + os2),
            Err(e) => Err(e),
        },
    decreases t1.len() - p,
{
    if p == t1.len() {
        lemma_read_all_shift(t1, t2, 0);
        if let Ok(os2) = read_all(t2, 0) {
            assert(Seq::<SExpr>::empty() + os2 =~= os2);
        }
    } else {
        lemma_read_advances(t1, p);
        lemma_read_prefix(t1, t2, p);
        let (o, q) = read_obj(t1, p)->Ok_0;
        lemma_read_all_concat(t1, t2, q);
        let os1 = read_all(t1, q)->Ok_0;
        if let Ok(os2) = read_all(t2, 0) {
            assert(seq![o] + (os1 + os2) =~= (seq![o] + os1) + os2);
        }
    }
}

/// Reading goes on after each object: when an object is read at `p` and
/// ends before `q`, the objects read from `p` are that object followed by
/// the objects read from `q`, whatever kind of object it is and whatever
/// token comes next.
pub proof fn law_reading_continues_after_each_object(t: Seq<SpecToken>, p: int)
    requires
        read_obj(t, p) is Ok,
    ensures
        ({
            let (o, q) = read_obj(t, p)->Ok_0;
            read_all(t, p) == match read_all(t, q) {
                Ok(os) => Ok(seq![o] + os),
                Err(e) => Err(e),
            }
        }),
{
    lemma_read_advances(t, p);
}

/// Reading is compositional over top-level objects: when the tokens `t1`
/// read without error, the objects read from `t1` followed by `t2` are those
/// of `t1` followed by those of `t2`, or the first error of `t2`.
pub proof fn law_read_tokens_concat(t1: Seq<SpecToken>, t2: Seq<SpecToken>)
    requires
        read_tokens(t1) is Ok,
    ensures
        read_tokens(t1 + t2) == match read_tokens(t2) {
            Ok(os2) => Ok(read_tokens(t1)->Ok_0 + os2),
            Err(e) => Err(e),
        },
{
    lemma_read_all_concat(t1, t2, 0);
}

/// The values of a sequence of objects.
pub open spec fn object_views(os: Seq<LispObject>) -> Seq<SExpr> {
    os.map_values(|o: LispObject| o@)
}

/// The objects that `tokens` stand for, or the first error.
pub fn parse_tokens(tokens: &[Token]) -> (r: Result<Vec<LispObject>, ReadingError>)
    ensures
        match read_tokens(token_views(tokens@)) {
            Ok(os) => r is Ok && object_views(r->Ok_0@) == os,
            Err(e) => r == Err::<Vec<LispObject>, ReadingError>(e),
        },
{
    let mut reader = Reader::new(tokens);
    let mut objs: Vec<LispObject> = Vec::new();
    let ghost t = token_views(tokens@);
    loop
        invariant
            t == token_views(tokens@),
            reader.tokens() == t,
            reader.pos() <= t.len(),
            match read_all(t, reader.pos()) {
                Ok(rest) => read_tokens(t) == Ok::<Seq<SExpr>, ReadingError>(object_views(objs@) + rest),
                Err(e) => read_tokens(t) == Err::<Seq<SExpr>, ReadingError>(e),
            },
        decreases t.len() - reader.pos(),
    {
        let ghost p = reader.pos();
        proof {
            lemma_read_advances(t, p);
        }
        match reader.next() {
            None => {
                proof {
                    assert(object_views(objs@) + Seq::<SExpr>::empty() =~= object_views(objs@));
                }
                return Ok(objs);
            },
            Some(Err(e)) => {
                return Err(e);
            },
            Some(Ok(o)) => {
                let ghost ov = o@;
                let ghost before = objs@;
                objs.push(o);
                proof {
                    assert(object_views(objs@) =~= object_views(before).push(ov));
                    match read_all(t, reader.pos()) {
                        Ok(rest) => {
                            assert(object_views(before) + (seq![ov] + rest) =~= object_views(objs@) + rest);
                        },
                        Err(e) => {},
                    }
                }
            },
        }
    }
}

/// Reads objects one at a time from a slice of tokens.
pub struct Reader<'a> {
    cursor: Cursor<'a, Token>,
}

impl<'a> Reader<'a> {
    /// The tokens being read.
    pub closed spec fn tokens(&self) -> Seq<SpecToken> {
        token_views(self.cursor.data())
    }

    /// The index of the next token to read.
    pub closed spec fn pos(&self) -> int {
        self.cursor.pos() as int
    }

    proof fn lemma_tokens_fit(&self)
        ensures
            self.tokens().len() <= usize::MAX,
            self.tokens().len() == self.cursor.data().len(),
    {
        self.cursor.lemma_data_fits();
    }

    pub fn new(input: &'a [Token]) -> (r: Self)
        ensures
            r.tokens() == token_views(input@),
            r.pos() == 0,
    {
        Self { cursor: Cursor::new(input) }
    }

    /// The next object, or `None` when there are no tokens left.
    pub fn next(&mut self) -> (r: Option<Result<LispObject, ReadingError>>)
        requires
            old(self).pos() <= old(self).tokens().len(),
        ensures
            final(self).tokens() == old(self).tokens(),
            final(self).pos() <= final(self).tokens().len(),
            old(self).pos() >= old(self).tokens().len() ==> r is None && final(self).pos() == old(self).pos(),
            old(self).pos() < old(self).tokens().len() ==> r is Some && match read_obj(old(self).tokens(), old(self).pos()) {
                Ok((o, q)) => r->Some_0 is Ok && r->Some_0->Ok_0@ == o && final(self).pos() == q,
                Err(e) => r->Some_0 == Err::<LispObject, ReadingError>(e),
            },
    {
        proof {
            self.lemma_tokens_fit();
        }
        if self.cursor.peek().is_none() {
            return None;
        }
        Some(self.parse_obj())
    }

    fn parse_obj(&mut self) -> (r: Result<LispObject, ReadingError>)
        requires
            old(self).pos() < old(self).tokens().len(),
        ensures
            final(self).tokens() == old(self).tokens(),
            final(self).pos() <= final(self).tokens().len(),
            match read_obj(old(self).tokens(), old(self).pos()) {
                Ok((o, q)) => r is Ok && r->Ok_0@ == o && final(self).pos() == q,
                Err(e) => r == Err::<LispObject, ReadingError>(e),
            },
        decreases old(self).tokens().len() - old(self).pos(), 0int,
    {
        proof {
            self.lemma_tokens_fit();
        }
        let ghost t = self.tokens();
        let ghost p = self.pos();
        let tok = match self.cursor.get() {
            Some(tok) => tok,
            None => {
                proof {
                    assert(false);
                }
                return Err(ReadingError::IncompleteList);
            },
        };
        assert(tok@ == t[p]);
        match &tok.kind {
            TokenKind::Num(_) => Ok(make_atom_from_token(tok)),
            TokenKind::Sym(_) => Ok(make_atom_from_token(tok)),
            TokenKind::ParenOpen => {
                let closes = match self.cursor.peek() {
                    Some(next) => match &next.kind {
                        TokenKind::ParenClose => true,
                        _ => false,
                    },
                    None => false,
                };
                if closes {
                    let obj = LispObject::new_nil();
                    self.cursor.advance();
                    Ok(obj)
                } else {
                    self.parse_obj_in_list()
                }
            },
            TokenKind::ParenClose => Err(ReadingError::LeadingParenClose),
        }
    }

    /// Parses the rest of a list, knowing we are inside it: the next object
    /// is the list's CAR, and the list ends at the next `)` after it or goes
    /// on with more elements as its CDR.
    fn parse_obj_in_list(&mut self) -> (r: Result<LispObject, ReadingError>)
        requires
            old(self).pos() <= old(self).tokens().len(),
            old(self).pos() < old(self).tokens().len() ==> !(old(self).tokens()[old(self).pos()] is ParenClose),
        ensures
            final(self).tokens() == old(self).tokens(),
            final(self).pos() <= final(self).tokens().len(),
            match read_list(old(self).tokens(), old(self).pos()) {
                Ok((o, q)) => r is Ok && r->Ok_0@ == o && final(self).pos() == q,
                Err(e) => r == Err::<LispObject, ReadingError>(e),
            },
        decreases old(self).tokens().len() - old(self).pos(), 1int,
    {
        proof {
            self.lemma_tokens_fit();
        }
        let ghost t = self.tokens();
        let ghost p = self.pos();
        // CAR
        if self.cursor.peek().is_none() {
            return Err(ReadingError::IncompleteList);
        }
        let tok = match self.cursor.get() {
            Some(tok) => tok,
            None => {
                proof {
                    assert(false);
                }
                return Err(ReadingError::IncompleteList);
            },
        };
        assert(tok@ == t[p]);
        let car = match &tok.kind {
            TokenKind::Num(_) => make_atom_from_token(tok),
            TokenKind::Sym(_) => make_atom_from_token(tok),
            TokenKind::ParenOpen => {
                let closes = match self.cursor.peek() {
                    Some(next) => match &next.kind {
                        TokenKind::ParenClose => true,
                        _ => false,
                    },
                    None => {
                        proof {
                            assert(read_list(t, p + 1) == Err::<(SExpr, int), ReadingError>(ReadingError::IncompleteList));
                            assert(read_obj(t, p) == Err::<(SExpr, int), ReadingError>(ReadingError::IncompleteList));
                        }
                        return Err(ReadingError::IncompleteList);
                    },
                };
                if closes {
                    self.cursor.advance();
                    LispObject::new_nil()
                } else {
                    match self.parse_obj_in_list() {
                        Ok(cons) => cons,
                        Err(e) => {
                            return Err(e);
                        },
                    }
                }
            },
            TokenKind::ParenClose => {
                proof {
                    assert(false);
                }
                return Err(ReadingError::LeadingParenClose);
            },
        };
        proof {
            lemma_read_advances(t, p);
        }
        let ghost q = self.pos();
        assert(read_obj(t, p) == Ok::<(SExpr, int), ReadingError>((car@, q)));
        // CDR
        let (ends, dot) = match self.cursor.peek() {
            Some(next) => (
                match &next.kind {
                    TokenKind::ParenClose => true,
                    _ => false,
                },
                is_dot_token(next),
            ),
            None => {
                return Err(ReadingError::IncompleteList);
            },
        };
        if ends {
            self.cursor.advance();
            Ok(LispObject::new_cons(car, LispObject::new_nil()))
        } else if dot {
            // `. x )`: `x` is the last CDR.
            self.cursor.advance();
            if self.cursor.peek().is_none() {
                proof {
                    assert(read_obj(t, q + 1) == Err::<(SExpr, int), ReadingError>(ReadingError::IncompleteList));
                }
                return Err(ReadingError::IncompleteList);
            }
            let cdr = match self.parse_obj() {
                Ok(o) => o,
                Err(e) => {
                    return Err(e);
                },
            };
            proof {
                lemma_read_advances(t, q + 1);
            }
            let ghost r = self.pos();
            assert(read_obj(t, q + 1) == Ok::<(SExpr, int), ReadingError>((cdr@, r)));
            let closes = match self.cursor.peek() {
                Some(next) => match &next.kind {
                    TokenKind::ParenClose => true,
                    _ => false,
                },
                None => {
                    return Err(ReadingError::IncompleteList);
                },
            };
            if closes {
                self.cursor.advance();
                Ok(LispObject::new_cons(car, cdr))
            } else {
                Err(ReadingError::MalformedDottedList)
            }
        } else {
            match self.parse_obj_in_list() {
                Ok(cdr) => Ok(LispObject::new_cons(car, cdr)),
                Err(e) => Err(e),
            }
        }
    }
}

fn is_dot_token(tok: &Token) -> (b: bool)
    ensures
        b == is_dot(tok@),
{
    match &tok.kind {
        TokenKind::Sym(s) => {
            let text = s.as_str();
            let b = text.unicode_len() == 1 && text.get_char(0) == '.';
            proof {
                if text@.len() == 1 && text@[0] == '.' {
                    assert(s@ =~= seq!['.']);
                }
            }
            b
        },
        _ => false,
    }
}

fn make_atom_from_token(tok: &Token) -> (o: LispObject)
    requires
        tok@ is Num || tok@ is Sym,
    ensures
        o@ == atom_of(tok@),
{
    match &tok.kind {
        TokenKind::Num(n) => LispObject::new_num(*n),
        TokenKind::Sym(s) => LispObject::new_sym(s.clone()),
        _ => {
            proof {
                assert(false);
            }
            LispObject::new_nil()
        },
    }
}

} // verus!
