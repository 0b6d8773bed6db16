use al::environment::{new_env, new_global_env};
use al::evaluator::{eval, EvalError};
use al::object::{FuncallError, LispObjConsBuilder, LispObject, PrimitiveFn};

#[test]
fn test_eval_sym() {
    let mut env = new_global_env();
    let value = LispObject::new_num(123);
    let key = "foobar";

    env.set(key, value.clone());

    let sym_obj = LispObject::new_sym(key.to_owned());
    let result = eval(&env, &sym_obj).unwrap();
    assert_eq!(result, value);
}

#[test]
fn test_eval_sum_function() {
    let env = new_global_env();
    let obj = LispObjConsBuilder::from(vec![
        LispObject::new_sym("+".into()),
        LispObject::new_num(123),
        LispObject::new_num(57),
    ])
    .build();
    let sum = eval(&env, &obj).unwrap();
    assert_eq!(sum, LispObject::new_num(123 + 57));
}

#[test]
fn test_malformed_sum_function() {
    let env = new_global_env();
    let obj = LispObjConsBuilder::from(vec![
        LispObject::new_sym("+".into()),
        LispObject::new_nil(),
        LispObject::new_num(57),
    ])
    .build();
    let sum = eval(&env, &obj);
    assert!(sum.is_err());
    assert_eq!(sum.unwrap_err(), EvalError::Runtime(FuncallError::WrongType));
}

#[test]
fn test_eval_atom() {
    let env = new_global_env();
    let obj = LispObject::new_num(57);
    let ev = eval(&env, &obj).unwrap();
    assert_eq!(ev, obj);
}

#[test]
fn test_eval_nonfunction_as_function() {
    let mut env = new_global_env();
    let key = "ashdoiawoipydad";
    env.set(key, LispObject::new_nil());
    let obj = LispObjConsBuilder::from(vec![
        LispObject::new_sym(key.into()),
        LispObject::new_num(57),
    ])
    .build();
    let sum = eval(&env, &obj);
    assert!(sum.is_err());
    assert_eq!(sum.unwrap_err(), EvalError::NotAFunction,);
}

#[test]
fn eval_unbound_symbol_is_error() {
    let env = new_global_env();
    let obj = LispObject::new_sym("nope".into());
    assert_eq!(eval(&env, &obj), Err(EvalError::UnboundSymbol));
    let call = LispObjConsBuilder::from(vec![LispObject::new_sym("nope".into()), LispObject::new_num(1)]).build();
    assert_eq!(eval(&env, &call), Err(EvalError::UnboundSymbol));
}

#[test]
fn eval_call_with_non_symbol_head_is_not_a_function() {
    let env = new_global_env();
    let call = LispObjConsBuilder::from(vec![LispObject::new_num(1), LispObject::new_num(2)]).build();
    assert_eq!(eval(&env, &call), Err(EvalError::NotAFunction));
}

#[test]
fn eval_improper_argument_list_is_error() {
    let env = new_global_env();
    let call = LispObject::new_cons(
        LispObject::new_sym("+".into()),
        LispObject::new_cons(LispObject::new_num(1), LispObject::new_num(2)),
    );
    assert_eq!(eval(&env, &call), Err(EvalError::ImproperList));
}

#[test]
fn eval_nested_calls_evaluate_arguments_first() {
    let env = new_global_env();
    let inner = LispObjConsBuilder::from(vec![
        LispObject::new_sym("+".into()),
        LispObject::new_num(2),
        LispObject::new_num(3),
    ])
    .build();
    let outer = LispObjConsBuilder::from(vec![LispObject::new_sym("+".into()), LispObject::new_num(1), inner]).build();
    assert_eq!(eval(&env, &outer), Ok(LispObject::new_num(6)));
}

#[test]
fn eval_literals_evaluate_to_themselves() {
    let env = new_global_env();
    let nil = LispObject::new_nil();
    assert_eq!(eval(&env, &nil), Ok(LispObject::new_nil()));
    let func = LispObject::new_primitive(PrimitiveFn::Add);
    assert_eq!(eval(&env, &func), Ok(LispObject::new_primitive(PrimitiveFn::Add)));
}

#[test]
fn eval_call_without_arguments() {
    // `(+)`: the argument list is empty; `+` then gets the empty cons cell
    // `(NIL . NIL)` the builder makes, whose NIL is not a number.
    let env = new_global_env();
    let call = LispObject::new_cons(LispObject::new_sym("+".into()), LispObject::new_nil());
    assert_eq!(eval(&env, &call), Err(EvalError::Runtime(FuncallError::WrongType)));
    // `(+ . 5)`: the argument list is not a list.
    let dotted = LispObject::new_cons(LispObject::new_sym("+".into()), LispObject::new_num(5));
    assert_eq!(eval(&env, &dotted), Err(EvalError::ImproperList));
}

#[test]
fn eval_nil_symbol_is_nil() {
    let env = new_global_env();
    assert_eq!(eval(&env, &LispObject::new_sym("nil".into())), Ok(LispObject::new_nil()));
    let call = LispObjConsBuilder::from(vec![
        LispObject::new_sym("+".into()),
        LispObject::new_num(1),
        LispObject::new_sym("nil".into()),
    ])
    .build();
    assert_eq!(eval(&env, &call), Err(EvalError::Runtime(FuncallError::WrongType)));
}

#[test]
fn eval_in_child_env_is_as_in_parent() {
    let mut global = new_global_env();
    global.set("x", LispObject::new_num(40));
    let call = LispObjConsBuilder::from(vec![
        LispObject::new_sym("+".into()),
        LispObject::new_sym("x".into()),
        LispObject::new_num(2),
    ])
    .build();
    let in_parent = eval(&global, &call);
    let child = new_env(&global);
    assert_eq!(eval(&child, &call), in_parent);
    assert_eq!(in_parent, Ok(LispObject::new_num(42)));
}

#[test]
fn eval_error_messages() {
    assert_eq!(EvalError::NotAFunction.to_string(), "not a function");
    assert_eq!(EvalError::ImproperList.to_string(), "list is improper (does not end with NIL)");
    assert_eq!(EvalError::UnboundSymbol.to_string(), "unbound symbol");
    assert_eq!(EvalError::Runtime(FuncallError::WrongType).to_string(), "wrong type");
}
