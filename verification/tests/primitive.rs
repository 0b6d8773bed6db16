use al::object::{LispObjConsBuilder, LispObject};
use al::prim::primitive_add;
use al::primitive::{add, PrimitiveError};
use al::reader::parse_tokens;
use al::tokenizer::parse_bytes;

fn build_obj_from_src(src: &str) -> LispObject {
    let tokens = parse_bytes(src.as_bytes()).unwrap();
    let objs = parse_tokens(&tokens).unwrap();
    assert!(objs.len() == 1);
    objs[0].clone()
}

#[test]
fn primitive_test_sum_of_flat_list() {
    let input = "(1 2 3 4)";
    let obj = build_obj_from_src(input);
    let result = add(obj).unwrap();
    assert_eq!(result, LispObject::new_num(1 + 2 + 3 + 4));
}

#[test]
fn primitive_test_list_with_wrong_nil_type() {
    let input = "(1 2 nil 3 4)";
    let obj = build_obj_from_src(input);
    let result = add(obj);
    assert!(result.is_err());
    assert_eq!(result.unwrap_err(), PrimitiveError::WrongType);
}

#[test]
fn primitive_test_list_with_wrong_list_type() {
    let input = "(1 2 (123) 3 4)";
    let obj = build_obj_from_src(input);
    let result = add(obj);
    assert!(result.is_err());
    assert_eq!(result.unwrap_err(), PrimitiveError::WrongType);
}

#[test]
fn primitive_add_rejects_a_nil_element() {
    let obj = LispObjConsBuilder::from(vec![
        LispObject::new_num(1),
        LispObject::new_nil(),
        LispObject::new_num(2),
    ])
    .build();
    assert_eq!(add(obj), Err(PrimitiveError::WrongType));
}

#[test]
fn primitive_add_rejects_two_nils() {
    let obj = LispObjConsBuilder::from(vec![LispObject::new_nil(), LispObject::new_num(1), LispObject::new_nil()]).build();
    assert_eq!(add(obj), Err(PrimitiveError::WrongType));
}

#[test]
fn primitive_add_does_not_look_at_the_tail() {
    let obj = LispObject::new_cons(LispObject::new_num(1), LispObject::new_num(2));
    assert_eq!(add(obj), Ok(LispObject::new_num(1)));
}

#[test]
fn primitive_add_sums_negative_and_wraps() {
    let obj = LispObjConsBuilder::from(vec![LispObject::new_num(i64::MIN), LispObject::new_num(-1)]).build();
    assert_eq!(add(obj), Ok(LispObject::new_num(i64::MAX)));
}

#[test]
fn primitive_error_message() {
    assert_eq!(PrimitiveError::WrongType.to_string(), "wrong type");
}

#[test]
fn primitive_add_agrees_with_prim_add() {
    for src in ["(1 2 3)", "(1 nil)", "(1 (2))", "(-4 4)"] {
        let obj = build_obj_from_src(src);
        let a = add(obj.clone());
        let b = primitive_add(obj);
        assert_eq!(a.is_ok(), b.is_ok());
        if let (Ok(x), Ok(y)) = (a, b) {
            assert_eq!(x, y);
        }
    }
    // They part on an improper list: `add` does not look at the tail.
    let improper = LispObject::new_cons(LispObject::new_num(1), LispObject::new_num(2));
    assert_eq!(add(improper.clone()), Ok(LispObject::new_num(1)));
    assert!(primitive_add(improper).is_err());
}
