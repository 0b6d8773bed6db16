//! An older form of the `+` primitive, with its own error type. The only NIL
//! an argument list may hold is its own trailing one: a NIL element is an
//! error, and so is any other element that is not a number. What ends the
//! list is not looked at.
use vstd::prelude::*;
use crate::object::{LispObject, LispObjectKind, SExpr, result_view, height, is_proper_list};
use crate::prim::{add_spec, sum_of_nums};

verus! {

#[derive(Clone, Copy, Debug, PartialEq, Eq)]
pub enum PrimitiveError {
    WrongType,
}

impl PrimitiveError {
    /// The message of the error.
    pub fn to_string(&self) -> (s: String)
        ensures
            s@ == "wrong type"@,
    {
        String::from_str("wrong type")
    }
}

/// How many CARs of a list are NIL.
pub open spec fn nil_count(l: SExpr) -> nat
    decreases l,
{
    match l {
        SExpr::Cons(car, cdr) => (if *car is Nil { 1nat } else { 0nat }) + nil_count(*cdr),
        _ => 0,
    }
}

/// What `add` gives: `WrongType` when a CAR is NIL (a NIL written in the
/// list) or is not a number; else the wrapping sum of the CARs, whatever the
/// list ends with.
pub open spec fn legacy_add_spec(args: SExpr) -> Result<SExpr, PrimitiveError> {
    if nil_count(args) > 0 {
        Err(PrimitiveError::WrongType)
    } else {
        match sum_of_nums(0, args) {
            Some(n) => Ok(SExpr::Num(n)),
            None => Err(PrimitiveError::WrongType),
        }
    }
}

proof fn lemma_nil_element_stops_sum(acc: i64, l: SExpr)
    requires
        nil_count(l) > 0,
    ensures
        sum_of_nums(acc, l) is None,
    decreases l,
{
    match l {
        SExpr::Cons(car, cdr) => {
            match *car {
                SExpr::Num(n) => lemma_nil_element_stops_sum(acc.wrapping_add(n), *cdr),
                _ => {},
            }
        },
        _ => {},
    }
}

/// `add` and `primitive_add` agree on every proper argument list: the same
/// sum when one succeeds, and an error (of its own type) from both otherwise.
/// (On an improper list of numbers, such as `(1 . 2)`, `add` sums the CARs
/// and `primitive_add` gives `WrongType`.)
pub proof fn law_add_agrees_with_primitive_add(args: SExpr)
    requires
        is_proper_list(args),
    ensures
        match (legacy_add_spec(args), add_spec(args)) {
            (Ok(a), Ok(b)) => a == b,
            (Err(_), Err(_)) => true,
            _ => false,
        },
{
    if nil_count(args) > 0 {
        lemma_nil_element_stops_sum(0, args);
    }
}

/// Sums the numbers of a list. `args` must be a cons cell.
pub fn add(args: LispObject) -> (r: Result<LispObject, PrimitiveError>)
    requires
        args@ is Cons,
    ensures
        result_view(r) == legacy_add_spec(args@),
{
    // There's exactly one NIL that is acceptable: the trailing NIL that every
    // list has. If the list contains any NIL written in it, it's an error.
    let mut iterator = args.into_iter();
    loop
        invariant_except_break
            iterator.node() is Some,
            nil_count(args@) == nil_count(iterator.node().unwrap()),
        ensures
            nil_count(args@) == 0,
        decreases height(iterator.node().unwrap()),
    {
        match iterator.next() {
            None => break,
            Some(obj) => {
                if let LispObjectKind::Nil = &obj.kind {
                    return Err(PrimitiveError::WrongType);
                }
            },
        }
    }
    let mut iterator = args.into_iter();
    let mut acc: i64 = 0;
    loop
        invariant_except_break
            iterator.node() is Some,
            sum_of_nums(0, args@) == sum_of_nums(acc, iterator.node().unwrap()),
        ensures
            sum_of_nums(0, args@) == Some(acc),
        decreases height(iterator.node().unwrap()),
    {
        match iterator.next() {
            None => break,
            Some(obj) => match &obj.kind {
                LispObjectKind::Num(n) => {
                    acc = acc.wrapping_add(*n);
                },
                _ => {
                    return Err(PrimitiveError::WrongType);
                },
            },
        }
    }
    Ok(LispObject::new_num(acc))
}

} // verus!
