//! Lisp objects: atoms, cons cells and functions; a builder of proper lists
//! and an iterator over the CARs of a list.
use vstd::prelude::*;
use crate::prim::{add_spec, primitive_add};
use crate::text::{push_char, push_int_text, int_text, lemma_int_text_has_no_close_paren, lemma_int_text_injective};

verus! {

/// The built-in functions that a function object can stand for.
#[derive(Clone, Copy, Debug, PartialEq, Eq)]
pub enum PrimitiveFn {
    /// `+`: the wrapping sum of a proper list of numbers.
    Add,
}

/// A function value.
#[derive(Clone, Copy, Debug, PartialEq, Eq)]
pub enum Func {
    /// A built-in function: it takes the (already evaluated) argument list.
    Primitive(PrimitiveFn),
}

/// The error a function call can end with.
#[derive(Clone, Copy, Debug, PartialEq, Eq)]
pub enum FuncallError {
    WrongType,
}

impl FuncallError {
    /// The message of the error.
    pub fn to_string(&self) -> (s: String)
        ensures
            s@ == "wrong type"@,
    {
        String::from_str("wrong type")
    }
}

#[derive(Clone, Debug, PartialEq, Eq)]
pub enum LispObjectKind {
    Num(i64),
    Sym(String),
    Cons(Cons),
    Func(Func),
    Nil,
}

#[derive(Debug, PartialEq, Eq)]
pub struct LispObject {
    pub kind: LispObjectKind,
}

#[derive(Clone, Debug, PartialEq, Eq)]
pub struct Cons {
    pub car: Box<LispObject>,
    pub cdr: Box<LispObject>,
}

/// The mathematical value of a Lisp object: symbols are their characters.
pub enum SExpr {
    Num(i64),
    Sym(Seq<char>),
    Cons(Box<SExpr>, Box<SExpr>),
    Func(Func),
    Nil,
}

impl LispObject {
    pub open spec fn sexpr(self) -> SExpr
        decreases self,
    {
        match self.kind {
            LispObjectKind::Num(n) => SExpr::Num(n),
            LispObjectKind::Sym(s) => SExpr::Sym(s@),
            LispObjectKind::Cons(c) => SExpr::Cons(Box::new(c.car.sexpr()), Box::new(c.cdr.sexpr())),
            LispObjectKind::Func(f) => SExpr::Func(f),
            LispObjectKind::Nil => SExpr::Nil,
        }
    }
}

impl View for LispObject {
    type V = SExpr;

    open spec fn view(&self) -> SExpr {
        self.sexpr()
    }
}

impl View for Cons {
    type V = SExpr;

    open spec fn view(&self) -> SExpr {
        SExpr::Cons(Box::new(self.car@), Box::new(self.cdr@))
    }
}

/// `Cons(car, cdr)` as a value.
pub open spec fn cons_of(car: SExpr, cdr: SExpr) -> SExpr {
    SExpr::Cons(Box::new(car), Box::new(cdr))
}

/// The CARs of a list, following CDRs while they are cons cells.
pub open spec fn list_elems(l: SExpr) -> Seq<SExpr>
    decreases l,
{
    match l {
        SExpr::Cons(car, cdr) => seq![*car] + list_elems(*cdr),
        _ => Seq::empty(),
    }
}

/// What ends a list: the first CDR (or the object itself) that is not a cons cell.
pub open spec fn list_tail(l: SExpr) -> SExpr
    decreases l,
{
    match l {
        SExpr::Cons(_, cdr) => list_tail(*cdr),
        _ => l,
    }
}

/// A list is proper when it ends with NIL.
pub open spec fn is_proper_list(l: SExpr) -> bool {
    list_tail(l) is Nil
}

/// The proper list of the given elements (NIL when there are none).
pub open spec fn proper_list(xs: Seq<SExpr>) -> SExpr
    decreases xs.len(),
{
    if xs.len() == 0 {
        SExpr::Nil
    } else {
        cons_of(xs[0], proper_list(xs.drop_first()))
    }
}

/// What the list builder builds from the pushed elements: their proper list,
/// or the empty cons cell `(NIL . NIL)` when nothing was pushed.
pub open spec fn built_list(xs: Seq<SExpr>) -> SExpr {
    if xs.len() == 0 {
        cons_of(SExpr::Nil, SExpr::Nil)
    } else {
        proper_list(xs)
    }
}

/// The nesting depth of cons cells.
pub open spec fn height(l: SExpr) -> nat
    decreases l,
{
    match l {
        SExpr::Cons(car, cdr) => 1 + vstd::math::max(height(*car) as int, height(*cdr) as int) as nat,
        _ => 0,
    }
}

/// What calling a function on an argument list gives.
pub open spec fn apply_spec(f: Func, args: SExpr) -> Result<SExpr, FuncallError> {
    match f {
        Func::Primitive(PrimitiveFn::Add) => add_spec(args),
    }
}

/// A result whose object is taken by its value.
pub open spec fn result_view<E>(r: Result<LispObject, E>) -> Result<SExpr, E> {
    match r {
        Ok(o) => Ok(o@),
        Err(e) => Err(e),
    }
}

pub proof fn lemma_proper_list_cons(x: SExpr, xs: Seq<SExpr>)
    ensures
        proper_list(seq![x] + xs) == cons_of(x, proper_list(xs)),
{
    assert((seq![x] + xs).drop_first() =~= xs);
}

/// The text of an object, as it is printed.
pub open spec fn display_spec(o: SExpr) -> Seq<char>
    decreases o,
{
    match o {
        SExpr::Num(n) => "ATOM(type=NUM, value="@ + int_text(n as int) + ")"@,
        SExpr::Sym(s) => "ATOM(type=SYM, value='"@ + s + "')"@,
        SExpr::Cons(car, cdr) => "CONS(car="@ + display_spec(*car) + ", cdr="@ + display_spec(*cdr) + ")"@,
        SExpr::Nil => "NIL"@,
        SExpr::Func(_) => "NATIVE FUNCTION"@,
    }
}

/// No symbol inside the object holds a `)`, as is true of every symbol that
/// the tokenizer gives.
pub open spec fn symbols_free_of_close_paren(o: SExpr) -> bool
    decreases o,
{
    match o {
        SExpr::Sym(s) => forall|i: int| 0 <= i < s.len() ==> s[i] != ')',
        SExpr::Cons(car, cdr) => symbols_free_of_close_paren(*car) && symbols_free_of_close_paren(*cdr),
        _ => true,
    }
}

/// Two texts that each start with a run free of `)` and then go on with `)`
/// split alike.
proof fn lemma_split_at_close_paren(x1: Seq<char>, x2: Seq<char>, r1: Seq<char>, r2: Seq<char>)
    requires
        forall|i: int| 0 <= i < x1.len() ==> x1[i] != ')',
        forall|i: int| 0 <= i < x2.len() ==> x2[i] != ')',
        r1.len() > 0 && r1[0] == ')',
        r2.len() > 0 && r2[0] == ')',
        x1 + r1 == x2 + r2,
    ensures
        x1 == x2,
        r1 == r2,
{
    let x = x1 + r1;
    if x1.len() < x2.len() {
        assert(x[x1.len() as int] == r1[0]);
        assert((x2 + r2)[x1.len() as int] == x2[x1.len() as int]);
    } else if x2.len() < x1.len() {
        assert((x2 + r2)[x2.len() as int] == r2[0]);
        assert(x[x2.len() as int] == x1[x2.len() as int]);
    }
    assert(x1 =~= x.subrange(0, x1.len() as int));
    assert(x2 =~= (x2 + r2).subrange(0, x2.len() as int));
    assert(r1 =~= x.subrange(x1.len() as int, x.len() as int));
    assert(r2 =~= (x2 + r2).subrange(x2.len() as int, x.len() as int));
}

/// The first characters of a printed object tell its kind.
proof fn lemma_display_head(o: SExpr, r: Seq<char>)
    ensures
        ({
            let x = display_spec(o) + r;
            &&& o is Cons ==> x.len() > 0 && x[0] == 'C'
            &&& o is Num ==> x.len() > 10 && x[0] == 'A' && x[10] == 'N'
            &&& o is Sym ==> x.len() > 10 && x[0] == 'A' && x[10] == 'S'
            &&& o is Nil ==> x.len() > 1 && x[0] == 'N' && x[1] == 'I'
            &&& o is Func ==> x.len() > 1 && x[0] == 'N' && x[1] == 'A'
        }),
{
    reveal_strlit("CONS(car=");
    reveal_strlit("ATOM(type=NUM, value=");
    reveal_strlit("ATOM(type=SYM, value='");
    reveal_strlit("NIL");
    reveal_strlit("NATIVE FUNCTION");
    let x = display_spec(o) + r;
    match o {
        SExpr::Cons(car, cdr) => {
            assert(x[0] == "CONS(car="@[0]);
        },
        SExpr::Num(n) => {
            assert(x[0] == "ATOM(type=NUM, value="@[0]);
            assert(x[10] == "ATOM(type=NUM, value="@[10]);
        },
        SExpr::Sym(s) => {
            assert(x[0] == "ATOM(type=SYM, value='"@[0]);
            assert(x[10] == "ATOM(type=SYM, value='"@[10]);
        },
        SExpr::Nil => {
            assert(x[0] == "NIL"@[0]);
            assert(x[1] == "NIL"@[1]);
        },
        SExpr::Func(_) => {
            assert(x[0] == "NATIVE FUNCTION"@[0]);
            assert(x[1] == "NATIVE FUNCTION"@[1]);
        },
    }
}

/// No printed object is a proper prefix of another: when the texts of two
/// objects, each followed by more text, are equal, so are the objects and
/// what follows them.
proof fn lemma_display_prefix_free(a: SExpr, b: SExpr, r1: Seq<char>, r2: Seq<char>)
    requires
        symbols_free_of_close_paren(a),
        symbols_free_of_close_paren(b),
        display_spec(a) + r1 == display_spec(b) + r2,
    ensures
        a == b,
        r1 == r2,
    decreases a,
{
    reveal_strlit("CONS(car=");
    reveal_strlit(", cdr=");
    reveal_strlit(")");
    reveal_strlit("ATOM(type=NUM, value=");
    reveal_strlit("ATOM(type=SYM, value='");
    reveal_strlit("')");
    reveal_strlit("NIL");
    reveal_strlit("NATIVE FUNCTION");
    let x = display_spec(a) + r1;
    lemma_display_head(a, r1);
    lemma_display_head(b, r2);
    match (a, b) {
        (SExpr::Cons(c1, d1), SExpr::Cons(c2, d2)) => {
            let t1 = ", cdr="@ + (display_spec(*d1) + (")"@ + r1));
            let t2 = ", cdr="@ + (display_spec(*d2) + (")"@ + r2));
            assert(x.subrange(9, x.len() as int) =~= display_spec(*c1) + t1);
            assert(x.subrange(9, x.len() as int) =~= display_spec(*c2) + t2);
            lemma_display_prefix_free(*c1, *c2, t1, t2);
            assert(t1.subrange(6, t1.len() as int) =~= display_spec(*d1) + (")"@ + r1));
            assert(t2.subrange(6, t2.len() as int) =~= display_spec(*d2) + (")"@ + r2));
            lemma_display_prefix_free(*d1, *d2, ")"@ + r1, ")"@ + r2);
            assert(r1 =~= (")"@ + r1).drop_first());
            assert(r2 =~= (")"@ + r2).drop_first());
        },
        (SExpr::Num(n1), SExpr::Num(n2)) => {
            let p1 = int_text(n1 as int);
            let p2 = int_text(n2 as int);
            assert(x.subrange(21, x.len() as int) =~= p1 + (")"@ + r1));
            assert(x.subrange(21, x.len() as int) =~= p2 + (")"@ + r2));
            lemma_int_text_has_no_close_paren(n1 as int);
            lemma_int_text_has_no_close_paren(n2 as int);
            lemma_split_at_close_paren(p1, p2, ")"@ + r1, ")"@ + r2);
            lemma_int_text_injective(n1 as int, n2 as int);
            assert(r1 =~= (")"@ + r1).drop_first());
            assert(r2 =~= (")"@ + r2).drop_first());
        },
        (SExpr::Sym(s1), SExpr::Sym(s2)) => {
            let p1 = s1.push('\'');
            let p2 = s2.push('\'');
            assert(x.subrange(22, x.len() as int) =~= p1 + (")"@ + r1));
            assert(x.subrange(22, x.len() as int) =~= p2 + (")"@ + r2));
            assert forall|i: int| 0 <= i < p1.len() implies p1[i] != ')' by {
                if i < s1.len() {
                    assert(p1[i] == s1[i]);
                }
            }
            assert forall|i: int| 0 <= i < p2.len() implies p2[i] != ')' by {
                if i < s2.len() {
                    assert(p2[i] == s2[i]);
                }
            }
            lemma_split_at_close_paren(p1, p2, ")"@ + r1, ")"@ + r2);
            assert(s1 =~= p1.drop_last());
            assert(s2 =~= p2.drop_last());
            assert(r1 =~= (")"@ + r1).drop_first());
            assert(r2 =~= (")"@ + r2).drop_first());
        },
        (SExpr::Nil, SExpr::Nil) => {
            assert(r1 =~= x.subrange(3, x.len() as int));
            assert(r2 =~= x.subrange(3, x.len() as int));
        },
        (SExpr::Func(f1), SExpr::Func(f2)) => {
            assert(r1 =~= x.subrange(15, x.len() as int));
            assert(r2 =~= x.subrange(15, x.len() as int));
            match (f1, f2) {
                (Func::Primitive(PrimitiveFn::Add), Func::Primitive(PrimitiveFn::Add)) => {},
            }
        },
        _ => {},
    }
}

/// Printing loses nothing: distinct objects whose symbols hold no `)` (such
/// as every object that the reader reads) print as distinct texts. In
/// particular a cons cell prints both its CAR and its whole CDR, whatever
/// they are.
pub proof fn law_display_determines_object(a: SExpr, b: SExpr)
    requires
        symbols_free_of_close_paren(a),
        symbols_free_of_close_paren(b),
        display_spec(a) == display_spec(b),
    ensures
        a == b,
{
    assert(display_spec(a) + Seq::<char>::empty() =~= display_spec(b) + Seq::<char>::empty());
    lemma_display_prefix_free(a, b, Seq::<char>::empty(), Seq::<char>::empty());
}

impl LispObject {
    pub fn new_nil() -> (o: Self)
        ensures
            o@ == SExpr::Nil,
            o == (LispObject { kind: LispObjectKind::Nil }),
    {
        Self { kind: LispObjectKind::Nil }
    }

    pub fn new_num(num: i64) -> (o: Self)
        ensures
            o@ == SExpr::Num(num),
    {
        Self { kind: LispObjectKind::Num(num) }
    }

    pub fn new_sym(sym: String) -> (o: Self)
        ensures
            o@ == SExpr::Sym(sym@),
    {
        Self { kind: LispObjectKind::Sym(sym) }
    }

    pub fn new_cons(car: Self, cdr: Self) -> (o: Self)
        ensures
            o@ == cons_of(car@, cdr@),
    {
        Self { kind: LispObjectKind::Cons(Cons::new(car, cdr)) }
    }

    pub fn new_empty_cons() -> (o: Self)
        ensures
            o@ == cons_of(SExpr::Nil, SExpr::Nil),
    {
        Self::new_cons(Self::new_nil(), Self::new_nil())
    }

    pub fn new_primitive(func: PrimitiveFn) -> (o: Self)
        ensures
            o@ == SExpr::Func(Func::Primitive(func)),
            o.kind == LispObjectKind::Func(Func::Primitive(func)),
    {
        Self { kind: LispObjectKind::Func(Func::Primitive(func)) }
    }

    /// Calls `self`, which must be a function, on an argument list.
    pub fn call_func(&self, args: Self) -> (r: Result<Self, FuncallError>)
        requires
            self@ is Func,
            args@ is Cons,
        ensures
            result_view(r) == apply_spec(self@->Func_0, args@),
    {
        match &self.kind {
            LispObjectKind::Func(f) => match f {
                Func::Primitive(PrimitiveFn::Add) => primitive_add(args),
            },
            _ => {
                proof {
                    assert(false);
                }
                Err(FuncallError::WrongType)
            },
        }
    }

    /// An iterator over the CARs of the list that starts at `self`.
    pub fn into_iter(&self) -> (it: LispObjectIter<'_>)
        ensures
            it.state() == (Some(self@), None::<SExpr>),
    {
        LispObjectIter::new(self)
    }

    /// The text of the object.
    pub fn to_string(&self) -> (s: String)
        ensures
            s@ == display_spec(self@),
        decreases self,
    {
        match &self.kind {
            LispObjectKind::Num(n) => {
                let mut s = String::from_str("ATOM(type=NUM, value=");
                push_int_text(&mut s, *n);
                s.append(")");
                s
            },
            LispObjectKind::Sym(sym) => {
                let mut s = String::from_str("ATOM(type=SYM, value='");
                s.append(sym.as_str());
                s.append("')");
                s
            },
            LispObjectKind::Cons(c) => {
                let mut s = String::from_str("CONS(car=");
                let car = (&*c.car).to_string();
                s.append(car.as_str());
                s.append(", cdr=");
                let cdr = (&*c.cdr).to_string();
                s.append(cdr.as_str());
                s.append(")");
                s
            },
            LispObjectKind::Nil => String::from_str("NIL"),
            LispObjectKind::Func(_) => String::from_str("NATIVE FUNCTION"),
        }
    }
}

impl Clone for LispObject {
    fn clone(&self) -> (res: Self)
        ensures
            res == *self,
        decreases self,
    {
        match &self.kind {
            LispObjectKind::Num(n) => LispObject { kind: LispObjectKind::Num(*n) },
            LispObjectKind::Sym(s) => LispObject { kind: LispObjectKind::Sym(s.clone()) },
            LispObjectKind::Cons(c) => {
                let car = (&*c.car).clone();
                let cdr = (&*c.cdr).clone();
                LispObject { kind: LispObjectKind::Cons(Cons { car: Box::new(car), cdr: Box::new(cdr) }) }
            },
            LispObjectKind::Func(f) => LispObject { kind: LispObjectKind::Func(*f) },
            LispObjectKind::Nil => LispObject { kind: LispObjectKind::Nil },
        }
    }
}

impl Cons {
    pub fn new(car: LispObject, cdr: LispObject) -> (c: Self)
        ensures
            c.car@ == car@,
            c.cdr@ == cdr@,
    {
        Self { car: Box::new(car), cdr: Box::new(cdr) }
    }

    pub fn empty() -> (c: Self)
        ensures
            c.car@ == SExpr::Nil,
            c.cdr@ == SExpr::Nil,
    {
        Self::new(LispObject::new_nil(), LispObject::new_nil())
    }
}

/// Builds proper lists one element at a time: after pushing `x1 .. xn`
/// (n > 0), `build` gives the list `(x1 .. xn)`. With nothing pushed it
/// gives the empty cons cell `(NIL . NIL)`.
pub struct LispObjConsBuilder {
    root: LispObject,
    is_new: bool,
}

impl LispObjConsBuilder {
    /// The elements pushed so far.
    pub closed spec fn contents(&self) -> Seq<SExpr> {
        if self.is_new {
            Seq::empty()
        } else {
            list_elems(self.root@)
        }
    }

    /// The root is the empty cons cell before the first push, and the proper
    /// list of the pushed elements after it.
    pub closed spec fn wf(&self) -> bool {
        &&& self.root@ is Cons
        &&& self.is_new ==> self.root@ == cons_of(SExpr::Nil, SExpr::Nil)
        &&& !self.is_new ==> self.root@ == proper_list(list_elems(self.root@))
    }

    pub fn new() -> (b: Self)
        ensures
            b.wf(),
            b.contents() == Seq::<SExpr>::empty(),
    {
        let root = LispObject::new_empty_cons();
        LispObjConsBuilder { root, is_new: true }
    }

    /// A builder with the given objects pushed in order.
    pub fn from(objs: Vec<LispObject>) -> (b: Self)
        ensures
            b.wf(),
            b.contents() == objs@.map_values(|o: LispObject| o@),
    {
        let mut builder = LispObjConsBuilder::new();
        let mut i: usize = 0;
        while i < objs.len()
            invariant
                i <= objs.len(),
                builder.wf(),
                builder.contents() == objs@.take(i as int).map_values(|o: LispObject| o@),
            decreases objs.len() - i,
        {
            builder.push(objs[i].clone());
            proof {
                assert(objs@.take(i + 1).map_values(|o: LispObject| o@) =~= objs@.take(i as int).map_values(|o: LispObject| o@).push(objs@[i as int]@));
            }
            i = i + 1;
        }
        proof {
            assert(objs@.take(objs.len() as int) =~= objs@);
        }
        builder
    }

    pub fn push(&mut self, obj: LispObject)
        requires
            old(self).wf(),
        ensures
            final(self).wf(),
            final(self).contents() == old(self).contents().push(obj@),
    {
        if self.is_new {
            self.push_first_element(obj);
        } else {
            self.push_by_transversing(obj);
        }
    }

    fn push_first_element(&mut self, obj: LispObject)
        requires
            old(self).wf(),
            old(self).is_new,
        ensures
            final(self).wf(),
            final(self).contents() == old(self).contents().push(obj@),
    {
        self.is_new = false;
        let ghost o = obj@;
        match &mut self.root.kind {
            LispObjectKind::Cons(c) => {
                *c.car = obj;
            },
            _ => {
                proof {
                    assert(false);
                }
            },
        }
        proof {
            assert(list_elems(SExpr::Nil) =~= Seq::<SExpr>::empty());
            assert(list_elems(self.root@) =~= seq![o]);
            assert(seq![o] =~= seq![o] + Seq::<SExpr>::empty());
            lemma_proper_list_cons(o, Seq::empty());
            assert(Seq::<SExpr>::empty().push(o) =~= seq![o]);
        }
    }

    fn push_by_transversing(&mut self, obj: LispObject)
        requires
            old(self).wf(),
            !old(self).is_new,
        ensures
            final(self).wf(),
            final(self).contents() == old(self).contents().push(obj@),
    {
        let ghost xs = list_elems(self.root@);
        let ghost o = obj@;
        proof {
            lemma_proper_list_tail(xs);
        }
        append_to_list(&mut self.root, obj);
        proof {
            lemma_proper_list_elems(xs.push(o));
        }
    }

    pub fn build(self) -> (o: LispObject)
        requires
            self.wf(),
        ensures
            o@ == built_list(self.contents()),
    {
        proof {
            if !self.is_new {
                lemma_proper_list_elems(list_elems(self.root@));
                assert(list_elems(self.root@).len() > 0);
            }
        }
        self.root
    }
}

pub proof fn lemma_proper_list_elems(xs: Seq<SExpr>)
    ensures
        list_elems(proper_list(xs)) == xs,
        list_tail(proper_list(xs)) == SExpr::Nil,
    decreases xs.len(),
{
    if xs.len() > 0 {
        lemma_proper_list_elems(xs.drop_first());
        assert(xs =~= seq![xs[0]] + xs.drop_first());
    }
}

proof fn lemma_proper_list_tail(xs: Seq<SExpr>)
    ensures
        list_tail(proper_list(xs)) == SExpr::Nil,
        xs.len() > 0 ==> proper_list(xs) is Cons,
{
    lemma_proper_list_elems(xs);
}

/// The builder only builds proper lists: after pushing one or more elements,
/// it gives the proper list of them, whose CARs are exactly those elements.
pub proof fn law_builder_builds_proper_lists(xs: Seq<SExpr>)
    requires
        xs.len() > 0,
    ensures
        built_list(xs) == proper_list(xs),
        is_proper_list(built_list(xs)),
        list_elems(built_list(xs)) == xs,
{
    lemma_proper_list_elems(xs);
}

/// The list of the given elements ending in the given tail.
pub open spec fn list_with_tail(xs: Seq<SExpr>, tail: SExpr) -> SExpr
    decreases xs.len(),
{
    if xs.len() == 0 {
        tail
    } else {
        cons_of(xs[0], list_with_tail(xs.drop_first(), tail))
    }
}

/// Walking a list loses nothing: every object is its CARs, in order, consed
/// onto its tail (for an atom: no CARs, and the atom itself as the tail).
pub proof fn law_list_is_elems_and_tail(l: SExpr)
    ensures
        list_with_tail(list_elems(l), list_tail(l)) == l,
        !(list_tail(l) is Cons),
    decreases l,
{
    match l {
        SExpr::Cons(car, cdr) => {
            law_list_is_elems_and_tail(*cdr);
            assert((seq![*car] + list_elems(*cdr)).drop_first() =~= list_elems(*cdr));
        },
        _ => {},
    }
}

/// Appends `obj` at the end of the proper, non-empty list at `node`.
fn append_to_list(node: &mut LispObject, obj: LispObject)
    requires
        old(node)@ is Cons,
        list_tail(old(node)@) is Nil,
    ensures
        final(node)@ == proper_list(list_elems(old(node)@).push(obj@)),
    decreases height(old(node)@),
{
    let ghost o = obj@;
    match &mut node.kind {
        LispObjectKind::Cons(cons) => {
            let ghost car = cons.car@;
            let ghost cdr = cons.cdr@;
            let is_nil = match &cons.cdr.kind {
                LispObjectKind::Nil => true,
                _ => false,
            };
            if is_nil {
                *cons.cdr = LispObject::new_cons(obj, LispObject::new_nil());
                proof {
                    assert(list_elems(cdr) =~= Seq::<SExpr>::empty());
                    lemma_proper_list_cons(o, Seq::empty());
                    assert(Seq::<SExpr>::empty().push(o) =~= seq![o]);
                    assert(seq![o] =~= seq![o] + Seq::<SExpr>::empty());
                    assert(list_elems(cons_of(car, cdr)).push(o) =~= seq![car] + seq![o]);
                    lemma_proper_list_cons(car, seq![o]);
                }
            } else {
                append_to_list(&mut *cons.cdr, obj);
                proof {
                    assert(list_elems(cons_of(car, cdr)).push(o) =~= seq![car] + list_elems(cdr).push(o));
                    lemma_proper_list_cons(car, list_elems(cdr).push(o));
                }
            }
        },
        _ => {},
    }
}

/// Walks the CARs of a list. The tail of the list (what is not a cons cell)
/// is never yielded: once the walk reaches it, it is kept in `tail`.
/// Before that, `tail` is `None`.
pub struct LispObjectIter<'a> {
    /// The part of the list that is still to be walked (`None` once the
    /// tail is reached).
    pub current: Option<&'a LispObject>,
    /// The tail of the list, once the walk has reached it.
    pub tail: Option<&'a LispObject>,
}

/// The state of a walk over a list: what is still to be walked, and the tail
/// once it was reached.
pub type IterState = (Option<SExpr>, Option<SExpr>);

/// One step of a walk: the CAR it yields (if any) and the state after it.
pub open spec fn iter_step(st: IterState) -> (Option<SExpr>, IterState) {
    match st.0 {
        Some(SExpr::Cons(car, cdr)) => (Some(*car), (Some(*cdr), st.1)),
        Some(t) => (None, (None, Some(t))),
        None => (None, st),
    }
}

/// The state of a walk after `k` steps.
pub open spec fn iter_after(st: IterState, k: nat) -> IterState
    decreases k,
{
    if k == 0 {
        st
    } else {
        iter_after(iter_step(st).1, (k - 1) as nat)
    }
}

/// What step `k` (counting from 0) of a walk yields.
pub open spec fn iter_yield(st: IterState, k: nat) -> Option<SExpr> {
    iter_step(iter_after(st, k)).0
}

proof fn lemma_walk_stays_done(st: IterState, k: nat)
    requires
        st.0 is None,
    ensures
        iter_after(st, k) == st,
    decreases k,
{
    if k > 0 {
        lemma_walk_stays_done(iter_step(st).1, (k - 1) as nat);
    }
}

/// A walk over a list `(c1 .. cn . t)` yields `c1` .. `cn` (never entering
/// sublists), and then nothing, ever after. Its tail is unset before step
/// `n` and is `t` after it.
pub proof fn law_iterator_yields_cars_then_tail(l: SExpr, k: nat)
    ensures
        k < list_elems(l).len() ==> {
            &&& iter_yield((Some(l), None), k) == Some(list_elems(l)[k as int])
            &&& iter_after((Some(l), None), k).1 is None
        },
        k >= list_elems(l).len() ==> iter_yield((Some(l), None), k) is None,
        k == list_elems(l).len() ==> iter_after((Some(l), None), k).1 is None,
        k > list_elems(l).len() ==> iter_after((Some(l), None), k).1 == Some(list_tail(l)),
    decreases l,
{
    let st: IterState = (Some(l), None);
    match l {
        SExpr::Cons(car, cdr) => {
            if k > 0 {
                law_iterator_yields_cars_then_tail(*cdr, (k - 1) as nat);
                assert(iter_after(st, k) == iter_after((Some(*cdr), None), (k - 1) as nat));
                assert(list_elems(l).drop_first() =~= list_elems(*cdr));
                if k < list_elems(l).len() {
                    assert(list_elems(l)[k as int] == list_elems(*cdr)[k - 1]);
                }
            }
        },
        _ => {
            if k > 0 {
                let done: IterState = (None, Some(l));
                lemma_walk_stays_done(done, (k - 1) as nat);
                assert(iter_after(st, k) == iter_after(done, (k - 1) as nat));
            }
        },
    }
}

impl<'a> LispObjectIter<'a> {
    /// The part of the list that is still to be walked, if any.
    pub open spec fn node(&self) -> Option<SExpr> {
        match self.current {
            Some(o) => Some(o@),
            None => None,
        }
    }

    /// Where the walk ended: the tail of the list, once it was reached.
    pub open spec fn end(&self) -> Option<SExpr> {
        match self.tail {
            Some(o) => Some(o@),
            None => None,
        }
    }

    /// The state of the walk.
    pub open spec fn state(&self) -> IterState {
        (self.node(), self.end())
    }

    pub fn new(start: &'a LispObject) -> (it: Self)
        ensures
            it.state() == (Some(start@), None::<SExpr>),
    {
        Self { current: Some(start), tail: None }
    }

    /// Whether the walked list ended with NIL. Only once the walk is over.
    pub fn is_proper(&self) -> (b: bool)
        requires
            self.end().is_some(),
        ensures
            b == (self.end().unwrap() is Nil),
    {
        match self.tail {
            Some(t) => match &t.kind {
                LispObjectKind::Nil => true,
                _ => false,
            },
            None => false,
        }
    }

    /// The next CAR, or `None` once the tail is reached.
    pub fn next(&mut self) -> (r: Option<&'a LispObject>)
        ensures
            (match r {
                Some(o) => Some(o@),
                None => None,
            }, final(self).state()) == iter_step(old(self).state()),
    {
        match self.current {
            None => None,
            Some(obj) => match &obj.kind {
                LispObjectKind::Cons(cons) => {
                    self.current = Some(&*cons.cdr);
                    Some(&*cons.car)
                },
                _ => {
                    self.tail = Some(obj);
                    self.current = None;
                    None
                },
            },
        }
    }
}

} // verus!
