use al::object::{FuncallError, LispObjConsBuilder, LispObject};
use al::prim::primitive_add;
use al::reader::parse_tokens;
use al::tokenizer::parse_bytes;

fn build_obj_from_src(src: &str) -> LispObject {
    let tokens = parse_bytes(src.as_bytes()).unwrap();
    let objs = parse_tokens(&tokens).unwrap();
    assert!(objs.len() == 1);
    objs[0].clone()
}

#[test]
fn prim_test_sum_of_flat_list() {
    let input = "(1 2 3 4)";
    let obj = build_obj_from_src(input);
    let result = primitive_add(obj).unwrap();
    assert_eq!(result, LispObject::new_num(1 + 2 + 3 + 4));
}

#[test]
fn prim_test_list_with_wrong_nil_type() {
    let input = "(1 2 nil 3 4)";
    let obj = build_obj_from_src(input);
    let result = primitive_add(obj);
    assert!(result.is_err());
    assert_eq!(result.unwrap_err(), FuncallError::WrongType);
}

#[test]
fn prim_test_list_with_wrong_list_type() {
    let input = "(1 2 (123) 3 4)";
    let obj = build_obj_from_src(input);
    let result = primitive_add(obj);
    assert!(result.is_err());
    assert_eq!(result.unwrap_err(), FuncallError::WrongType);
}

#[test]
fn test_improper_list() {
    let obj = LispObject::new_cons(
        LispObject::new_sym("+".into()),
        LispObject::new_cons(LispObject::new_num(1), LispObject::new_num(2)),
    );
    let result = primitive_add(obj);
    assert!(result.is_err());
    assert_eq!(result.unwrap_err(), FuncallError::WrongType);
}

#[test]
fn prim_add_wraps_on_overflow() {
    let obj = LispObjConsBuilder::from(vec![LispObject::new_num(i64::MAX), LispObject::new_num(1)]).build();
    assert_eq!(primitive_add(obj), Ok(LispObject::new_num(i64::MIN)));
}

#[test]
fn prim_add_improper_list_of_numbers_is_error() {
    let obj = LispObject::new_cons(LispObject::new_num(1), LispObject::new_num(2));
    assert_eq!(primitive_add(obj), Err(FuncallError::WrongType));
}

#[test]
fn prim_add_of_empty_cons_is_error() {
    // The empty cons cell has a NIL CAR, which is not a number.
    assert_eq!(primitive_add(LispObject::new_empty_cons()), Err(FuncallError::WrongType));
}

#[test]
fn prim_add_negative_numbers() {
    let obj = build_obj_from_src("(-5 3 -10)");
    assert_eq!(primitive_add(obj), Ok(LispObject::new_num(-12)));
}

#[test]
fn funcall_error_message() {
    assert_eq!(FuncallError::WrongType.to_string(), "wrong type");
}
