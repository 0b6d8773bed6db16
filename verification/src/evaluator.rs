//! Evaluation of Lisp objects.
//!
//! Environment lookup always follows the hierarchy: the current environment
//! first, then its parent, and so on.
//!
//! The rules for evaluation, given each kind of object, are:
//! - Literals (numbers, NIL, functions) evaluate to themselves.
//! - A symbol evaluates to its environment lookup.
//! - A cons cell evaluates to a function call: its CAR must be a symbol whose
//!   lookup is a function, and its CDR, a proper list, gives the arguments,
//!   each evaluated in turn.
use vstd::prelude::*;
use crate::environment::{Environment, Frame, global_frames, law_child_sees_parent, lookup};
use crate::object::{
    Cons, Func, FuncallError, LispObjConsBuilder, LispObject, LispObjectKind, PrimitiveFn, SExpr,
    apply_spec, built_list, cons_of, height, lemma_proper_list_elems, list_tail, proper_list,
    result_view,
};
use crate::prim::{law_add_sums_a_list_of_numbers, num_objects, wrapping_sum};

verus! {

#[derive(Clone, Copy, Debug, PartialEq, Eq)]
pub enum EvalError {
    NotAFunction,
    ImproperList,
    UnboundSymbol,
    Runtime(FuncallError),
}

impl EvalError {
    /// The message of the error.
    pub fn to_string(&self) -> (s: String)
        ensures
            s@ == eval_error_text(*self),
    {
        match self {
            EvalError::NotAFunction => String::from_str("not a function"),
            EvalError::ImproperList => String::from_str("list is improper (does not end with NIL)"),
            EvalError::UnboundSymbol => String::from_str("unbound symbol"),
            EvalError::Runtime(e) => e.to_string(),
        }
    }
}

/// The message of an evaluation error.
pub open spec fn eval_error_text(e: EvalError) -> Seq<char> {
    match e {
        EvalError::NotAFunction => "not a function"@,
        EvalError::ImproperList => "list is improper (does not end with NIL)"@,
        EvalError::UnboundSymbol => "unbound symbol"@,
        EvalError::Runtime(_) => "wrong type"@,
    }
}

/// What evaluating an object in the environment `env` gives.
pub open spec fn eval_spec(env: Seq<Frame>, o: SExpr) -> Result<SExpr, EvalError>
    decreases o, 2int,
{
    match o {
        SExpr::Sym(s) => match lookup(env, s) {
            Some(v) => Ok(v@),
            None => Err(EvalError::UnboundSymbol),
        },
        SExpr::Cons(car, cdr) => match *car {
            SExpr::Sym(s) => match lookup(env, s) {
                None => Err(EvalError::UnboundSymbol),
                Some(f) => match f@ {
                    SExpr::Func(func) => match flat_eval_spec(env, *cdr) {
                        Err(e) => Err(e),
                        Ok(args) => match apply_spec(func, args) {
                            Ok(v) => Ok(v),
                            Err(e) => Err(EvalError::Runtime(e)),
                        },
                    },
                    _ => Err(EvalError::NotAFunction),
                },
            },
            _ => Err(EvalError::NotAFunction),
        },
        _ => Ok(o),
    }
}

/// Evaluates the arguments of a call: each CAR of the list in turn, stopping
/// at the first error; then the values, as the list builder builds them,
/// when the list is proper, else `ImproperList`. With no argument at all the
/// builder gives the empty cons cell `(NIL . NIL)`.
pub open spec fn flat_eval_spec(env: Seq<Frame>, l: SExpr) -> Result<SExpr, EvalError>
    decreases l, 1int,
{
    match eval_elems(env, l) {
        Err(e) => Err(e),
        Ok(vs) => if list_tail(l) is Nil {
            Ok(built_list(vs))
        } else {
            Err(EvalError::ImproperList)
        },
    }
}

/// The values of the CARs of a list, evaluated from left to right, up to the
/// first error.
pub open spec fn eval_elems(env: Seq<Frame>, l: SExpr) -> Result<Seq<SExpr>, EvalError>
    decreases l, 0int,
{
    match l {
        SExpr::Cons(car, cdr) => match eval_spec(env, *car) {
            Err(e) => Err(e),
            Ok(v) => prepend_values(seq![v], eval_elems(env, *cdr)),
        },
        _ => Ok(Seq::empty()),
    }
}

/// Values computed so far, put in front of an outcome.
pub open spec fn prepend_values(vs: Seq<SExpr>, r: Result<Seq<SExpr>, EvalError>) -> Result<Seq<SExpr>, EvalError> {
    match r {
        Err(e) => Err(e),
        Ok(ws) => Ok(vs + ws),
    }
}

/// Evaluation depends on an environment only through its lookups: two
/// environments that bind every name alike evaluate every object alike.
pub proof fn law_eval_depends_only_on_lookup(e1: Seq<Frame>, e2: Seq<Frame>, o: SExpr)
    requires
        forall|k: Seq<char>| #[trigger] lookup(e1, k) == lookup(e2, k),
    ensures
        eval_spec(e1, o) == eval_spec(e2, o),
        flat_eval_spec(e1, o) == flat_eval_spec(e2, o),
        eval_elems(e1, o) == eval_elems(e2, o),
    decreases o,
{
    match o {
        SExpr::Cons(car, cdr) => {
            law_eval_depends_only_on_lookup(e1, e2, *car);
            law_eval_depends_only_on_lookup(e1, e2, *cdr);
            match *car {
                SExpr::Sym(s) => {
                    assert(lookup(e1, s) == lookup(e2, s));
                },
                _ => {},
            }
        },
        SExpr::Sym(s) => {
            assert(lookup(e1, s) == lookup(e2, s));
        },
        _ => {},
    }
}

/// A new, empty child environment evaluates every object as its parent does.
pub proof fn law_eval_in_child_env(parent: Seq<Frame>, o: SExpr)
    ensures
        eval_spec(seq![Frame::empty()] + parent, o) == eval_spec(parent, o),
{
    assert forall|k: Seq<char>| #[trigger] lookup(seq![Frame::empty()] + parent, k) == lookup(parent, k) by {
        law_child_sees_parent(parent, k);
    }
    law_eval_depends_only_on_lookup(seq![Frame::empty()] + parent, parent, o);
}

/// Literals (numbers, NIL, functions) evaluate to themselves, in any environment.
pub proof fn law_literals_evaluate_to_themselves(env: Seq<Frame>, o: SExpr)
    requires
        o is Num || o is Nil || o is Func,
    ensures
        eval_spec(env, o) == Ok::<SExpr, EvalError>(o),
{
}

/// In the global environment the symbol `nil` evaluates to NIL.
pub proof fn law_nil_evaluates_to_nil()
    ensures
        eval_spec(global_frames(), SExpr::Sym("nil"@)) == Ok::<SExpr, EvalError>(SExpr::Nil),
{
    reveal_strlit("nil");
    reveal_strlit("+");
    assert(global_frames()[0].contains_key("nil"@));
}

/// A call of `+` on numbers, `(+ n1 .. nk)` with k > 0, evaluates to their
/// wrapping sum in every environment where `+` is the addition primitive.
pub proof fn law_eval_sum_call(env: Seq<Frame>, ns: Seq<i64>)
    requires
        ns.len() > 0,
        lookup(env, "+"@) matches Some(f) && f@ == SExpr::Func(Func::Primitive(PrimitiveFn::Add)),
    ensures
        eval_spec(env, cons_of(SExpr::Sym("+"@), proper_list(num_objects(ns))))
            == Ok::<SExpr, EvalError>(SExpr::Num(wrapping_sum(0, ns))),
{
    lemma_eval_elems_of_numbers(env, ns);
    lemma_proper_list_elems(num_objects(ns));
    law_add_sums_a_list_of_numbers(ns);
}

/// Each argument of a call is evaluated as it would be on its own, whatever
/// its position in the list: when every element of a proper list evaluates
/// to a value, the arguments are exactly those values, in order.
pub proof fn law_arguments_evaluate_independently(env: Seq<Frame>, args: Seq<SExpr>, vs: Seq<SExpr>)
    requires
        args.len() == vs.len(),
        forall|i: int| 0 <= i < args.len() ==> #[trigger] eval_spec(env, args[i]) == Ok::<SExpr, EvalError>(vs[i]),
    ensures
        eval_elems(env, proper_list(args)) == Ok::<Seq<SExpr>, EvalError>(vs),
        flat_eval_spec(env, proper_list(args)) == Ok::<SExpr, EvalError>(built_list(vs)),
    decreases args.len(),
{
    lemma_proper_list_elems(args);
    if args.len() > 0 {
        let rest = args.drop_first();
        let wrest = vs.drop_first();
        assert forall|i: int| 0 <= i < rest.len() implies #[trigger] eval_spec(env, rest[i]) == Ok::<SExpr, EvalError>(wrest[i]) by {
            assert(rest[i] == args[i + 1]);
            assert(eval_spec(env, args[i + 1]) == Ok::<SExpr, EvalError>(vs[i + 1]));
        }
        law_arguments_evaluate_independently(env, rest, wrest);
        assert(eval_spec(env, args[0]) == Ok::<SExpr, EvalError>(vs[0]));
        assert(seq![vs[0]] + wrest =~= vs);
    } else {
        assert(vs =~= Seq::<SExpr>::empty());
    }
}

/// The arguments are evaluated from left to right, and the first argument
/// whose evaluation fails gives the error of the whole list.
pub proof fn law_first_failing_argument_decides(
    env: Seq<Frame>,
    args: Seq<SExpr>,
    i: int,
    e: EvalError,
)
    requires
        0 <= i < args.len(),
        forall|j: int| 0 <= j < i ==> (#[trigger] eval_spec(env, args[j])) is Ok,
        eval_spec(env, args[i]) == Err::<SExpr, EvalError>(e),
    ensures
        eval_elems(env, proper_list(args)) == Err::<Seq<SExpr>, EvalError>(e),
        flat_eval_spec(env, proper_list(args)) == Err::<SExpr, EvalError>(e),
    decreases i,
{
    let rest = args.drop_first();
    if i > 0 {
        assert forall|j: int| 0 <= j < i - 1 implies (#[trigger] eval_spec(env, rest[j])) is Ok by {
            assert(rest[j] == args[j + 1]);
            assert(eval_spec(env, args[j + 1]) is Ok);
        }
        assert(rest[i - 1] == args[i]);
        law_first_failing_argument_decides(env, rest, i - 1, e);
        assert(eval_spec(env, args[0]) is Ok);
    }
}

/// A call of `+` whose arguments, whatever they are (nested calls among
/// them), evaluate to the numbers n1 .. nk with k > 0, evaluates to the
/// wrapping sum of those numbers, in every environment where `+` is the
/// addition primitive.
pub proof fn law_eval_sum_of_evaluated_arguments(env: Seq<Frame>, args: Seq<SExpr>, ns: Seq<i64>)
    requires
        ns.len() > 0,
        args.len() == ns.len(),
        forall|i: int| 0 <= i < args.len() ==> #[trigger] eval_spec(env, args[i]) == Ok::<SExpr, EvalError>(SExpr::Num(ns[i])),
        lookup(env, "+"@) matches Some(f) && f@ == SExpr::Func(Func::Primitive(PrimitiveFn::Add)),
    ensures
        eval_spec(env, cons_of(SExpr::Sym("+"@), proper_list(args)))
            == Ok::<SExpr, EvalError>(SExpr::Num(wrapping_sum(0, ns))),
{
    let vs = num_objects(ns);
    assert forall|i: int| 0 <= i < args.len() implies #[trigger] eval_spec(env, args[i]) == Ok::<SExpr, EvalError>(vs[i]) by {
        assert(eval_spec(env, args[i]) == Ok::<SExpr, EvalError>(SExpr::Num(ns[i])));
    }
    law_arguments_evaluate_independently(env, args, vs);
    law_add_sums_a_list_of_numbers(ns);
}

proof fn lemma_eval_elems_of_numbers(env: Seq<Frame>, ns: Seq<i64>)
    ensures
        eval_elems(env, proper_list(num_objects(ns))) == Ok::<Seq<SExpr>, EvalError>(num_objects(ns)),
    decreases ns.len(),
{
    if ns.len() > 0 {
        let x = SExpr::Num(ns[0]);
        assert(num_objects(ns)[0] == x);
        assert(num_objects(ns).drop_first() =~= num_objects(ns.drop_first()));
        lemma_eval_elems_of_numbers(env, ns.drop_first());
        assert(proper_list(num_objects(ns)) == cons_of(x, proper_list(num_objects(ns.drop_first()))));
        assert(eval_spec(env, x) == Ok::<SExpr, EvalError>(x));
        assert(seq![x] + num_objects(ns.drop_first()) =~= num_objects(ns));
    } else {
        assert(num_objects(ns) =~= Seq::<SExpr>::empty());
    }
}

/// Evaluates `obj` in `env`.
pub fn eval(env: &Environment, obj: &LispObject) -> (r: Result<LispObject, EvalError>)
    ensures
        result_view(r) == eval_spec(env@, obj@),
    decreases height(obj@), 2int,
{
    match &obj.kind {
        LispObjectKind::Num(_) | LispObjectKind::Nil | LispObjectKind::Func(_) => Ok(obj.clone()),
        LispObjectKind::Sym(s) => match env.hierarchical_get(s.as_str()) {
            Some(v) => Ok(v),
            None => Err(EvalError::UnboundSymbol),
        },
        LispObjectKind::Cons(c) => eval_cons(env, c),
    }
}

fn eval_cons(env: &Environment, cons: &Cons) -> (r: Result<LispObject, EvalError>)
    ensures
        result_view(r) == eval_spec(env@, cons@),
    decreases height(cons@), 1int,
{
    let func = match &cons.car.kind {
        LispObjectKind::Sym(s) => match env.hierarchical_get(s.as_str()) {
            None => {
                return Err(EvalError::UnboundSymbol);
            },
            Some(funcobj) => match &funcobj.kind {
                LispObjectKind::Func(_) => funcobj,
                _ => {
                    return Err(EvalError::NotAFunction);
                },
            },
        },
        _ => {
            return Err(EvalError::NotAFunction);
        },
    };
    let args = match flat_eval_each(env, &cons.cdr) {
        Err(e) => {
            return Err(e);
        },
        Ok(args) => args,
    };
    match func.call_func(args) {
        Ok(v) => Ok(v),
        Err(e) => Err(EvalError::Runtime(e)),
    }
}

fn flat_eval_each(env: &Environment, list: &LispObject) -> (r: Result<LispObject, EvalError>)
    ensures
        result_view(r) == flat_eval_spec(env@, list@),
        r matches Ok(args) ==> args@ is Cons,
    decreases height(list@), 3int,
{
    let mut builder = LispObjConsBuilder::new();
    let mut iterator = list.into_iter();
    loop
        invariant_except_break
            builder.wf(),
            iterator.node() is Some,
            height(iterator.node().unwrap()) <= height(list@),
            list_tail(iterator.node().unwrap()) == list_tail(list@),
            eval_elems(env@, list@) == prepend_values(builder.contents(), eval_elems(env@, iterator.node().unwrap())),
        ensures
            builder.wf(),
            iterator.end() == Some(list_tail(list@)),
            eval_elems(env@, list@) == Ok::<Seq<SExpr>, EvalError>(builder.contents()),
        decreases height(iterator.node().unwrap()),
    {
        let ghost before = builder.contents();
        match iterator.next() {
            None => {
                proof {
                    assert(before + Seq::<SExpr>::empty() =~= before);
                }
                break;
            },
            Some(obj) => match eval(env, obj) {
                Err(e) => {
                    return Err(e);
                },
                Ok(v) => {
                    let ghost vv = v@;
                    builder.push(v);
                    proof {
                        match eval_elems(env@, iterator.node().unwrap()) {
                            Ok(ws) => {
                                assert(before + (seq![vv] + ws) =~= before.push(vv) + ws);
                            },
                            _ => {},
                        }
                    }
                },
            },
        }
    }
    proof {
        if builder.contents().len() > 0 {
            lemma_proper_list_elems(builder.contents());
        }
    }
    if iterator.is_proper() {
        Ok(builder.build())
    } else {
        Err(EvalError::ImproperList)
    }
}

} // verus!
