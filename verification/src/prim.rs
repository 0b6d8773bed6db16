//! The `+` primitive.
use vstd::prelude::*;
use crate::object::{
    FuncallError, LispObject, LispObjectKind, SExpr, result_view, height, list_tail, is_proper_list,
    proper_list, lemma_proper_list_elems,
};

verus! {

/// Adds, with wrapping, the numbers that are the CARs of a list to `acc`,
/// from left to right; `None` when one of them is not a number.
pub open spec fn sum_of_nums(acc: i64, l: SExpr) -> Option<i64>
    decreases l,
{
    match l {
        SExpr::Cons(car, cdr) => match *car {
            SExpr::Num(n) => sum_of_nums(acc.wrapping_add(n), *cdr),
            _ => None,
        },
        _ => Some(acc),
    }
}

/// What `+` gives for an argument list: the wrapping sum of its elements
/// when they are all numbers and the list is proper, else `WrongType`.
pub open spec fn add_spec(args: SExpr) -> Result<SExpr, FuncallError> {
    match sum_of_nums(0, args) {
        Some(n) => if is_proper_list(args) {
            Ok(SExpr::Num(n))
        } else {
            Err(FuncallError::WrongType)
        },
        None => Err(FuncallError::WrongType),
    }
}

/// The numbers as number objects.
pub open spec fn num_objects(ns: Seq<i64>) -> Seq<SExpr> {
    ns.map_values(|n: i64| SExpr::Num(n))
}

/// Adds the numbers to `acc` from left to right, wrapping on overflow.
pub open spec fn wrapping_sum(acc: i64, ns: Seq<i64>) -> i64
    decreases ns.len(),
{
    if ns.len() == 0 {
        acc
    } else {
        wrapping_sum(acc.wrapping_add(ns[0]), ns.drop_first())
    }
}

/// `+` on a proper list of numbers gives their wrapping sum.
pub proof fn law_add_sums_a_list_of_numbers(ns: Seq<i64>)
    ensures
        add_spec(proper_list(num_objects(ns))) == Ok::<SExpr, FuncallError>(SExpr::Num(wrapping_sum(0, ns))),
{
    lemma_sum_of_nums(0, ns);
    lemma_proper_list_elems(num_objects(ns));
}

proof fn lemma_sum_of_nums(acc: i64, ns: Seq<i64>)
    ensures
        sum_of_nums(acc, proper_list(num_objects(ns))) == Some(wrapping_sum(acc, ns)),
    decreases ns.len(),
{
    if ns.len() > 0 {
        assert(num_objects(ns).drop_first() =~= num_objects(ns.drop_first()));
        lemma_sum_of_nums(acc.wrapping_add(ns[0]), ns.drop_first());
    }
}

/// `+`: sums the numbers of a proper list. `args` must be a cons cell.
pub fn primitive_add(args: LispObject) -> (r: Result<LispObject, FuncallError>)
    requires
        args@ is Cons,
    ensures
        result_view(r) == add_spec(args@),
{
    let mut iterator = args.into_iter();
    let mut acc: i64 = 0;
    loop
        invariant_except_break
            iterator.node() is Some,
            sum_of_nums(0, args@) == sum_of_nums(acc, iterator.node().unwrap()),
            list_tail(iterator.node().unwrap()) == list_tail(args@),
        ensures
            iterator.end() == Some(list_tail(args@)),
            sum_of_nums(0, args@) == Some(acc),
        decreases height(iterator.node().unwrap()),
    {
        match iterator.next() {
            None => break,
            Some(obj) => match &obj.kind {
                LispObjectKind::Num(n) => {
                    acc = acc.wrapping_add(*n);
                },
                _ => {
                    return Err(FuncallError::WrongType);
                },
            },
        }
    }
    if iterator.is_proper() {
        Ok(LispObject::new_num(acc))
    } else {
        Err(FuncallError::WrongType)
    }
}

} // verus!
