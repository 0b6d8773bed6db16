use al::object::{LispObjConsBuilder, LispObject, LispObjectIter, PrimitiveFn, Cons};
use al::reader::parse_tokens;
use al::tokenizer::parse_bytes;

fn build_obj_from_src(src: &str) -> LispObject {
    let tokens = parse_bytes(src.as_bytes()).unwrap();
    let objs = parse_tokens(&tokens).unwrap();
    assert!(objs.len() == 1);
    objs[0].clone()
}

#[test]
fn create_iterator_for_flat_list() {
    let input = "(1 2 3 4)";
    let obj = build_obj_from_src(input);
    let mut iterator = obj.into_iter();
    assert_eq!(*(iterator.next().unwrap()), LispObject::new_num(1));
    assert_eq!(*(iterator.next().unwrap()), LispObject::new_num(2));
    assert_eq!(*(iterator.next().unwrap()), LispObject::new_num(3));
    assert_eq!(*(iterator.next().unwrap()), LispObject::new_num(4));
    assert!(iterator.next().is_none());
    assert_eq!(*(iterator.tail.unwrap()), LispObject::new_nil());
    assert!(iterator.is_proper());
}

#[test]
fn create_iterator_for_list_with_sublists() {
    let input = "(1 (2) 3)";
    let obj = build_obj_from_src(input);
    let mut iterator = obj.into_iter();
    assert_eq!(*(iterator.next().unwrap()), LispObject::new_num(1));
    assert_eq!(
        *(iterator.next().unwrap()),
        LispObject::new_cons(LispObject::new_num(2), LispObject::new_nil())
    );
    assert_eq!(*(iterator.next().unwrap()), LispObject::new_num(3));
    assert!(iterator.next().is_none());
    assert_eq!(*(iterator.tail.unwrap()), LispObject::new_nil());
    assert!(iterator.is_proper());
}

#[test]
fn create_iterator_for_atom() {
    let input = "55";
    let obj = build_obj_from_src(input);
    let mut iterator = obj.into_iter();
    assert!(iterator.next().is_none());
}

#[test]
fn create_iterator_for_improper_list() {
    let list = LispObject::new_cons(LispObject::new_num(1), LispObject::new_num(55));
    let mut iterator = list.into_iter();
    assert_eq!(*(iterator.next().unwrap()), LispObject::new_num(1));
    assert!(iterator.next().is_none());
    assert_eq!(*(iterator.tail.unwrap()), LispObject::new_num(55));
    assert!(!iterator.is_proper());
}

#[test]
fn builder_build_list_of_nums() {
    let mut builder = LispObjConsBuilder::new();
    builder.push(LispObject::new_num(1));
    builder.push(LispObject::new_num(52));
    let result = builder.build();
    assert_eq!(
        result,
        LispObject::new_cons(
            LispObject::new_num(1),
            LispObject::new_cons(LispObject::new_num(52), LispObject::new_nil())
        )
    );
}

#[test]
fn builder_build_list_with_sublists() {
    let mut builder = LispObjConsBuilder::new();
    builder.push(LispObject::new_num(1));
    builder.push(LispObject::new_num(52));
    let inner_result = builder.build();
    let mut builder = LispObjConsBuilder::new();
    builder.push(inner_result.clone());
    let result = builder.build();

    assert_eq!(result, LispObject::new_cons(inner_result, LispObject::new_nil(),));
}

#[test]
fn builder_single_push_equals_cons_with_nil() {
    let obj = LispObject::new_cons(LispObject::new_num(1), LispObject::new_nil());
    let mut builder = LispObjConsBuilder::new();
    builder.push(LispObject::new_num(1));
    let obj2 = builder.build();
    assert_eq!(obj, obj2);
}

#[test]
fn builder_without_pushes_gives_empty_cons() {
    let builder = LispObjConsBuilder::new();
    assert_eq!(builder.build(), LispObject::new_empty_cons());
    assert_eq!(
        LispObject::new_empty_cons(),
        LispObject::new_cons(LispObject::new_nil(), LispObject::new_nil())
    );
}

#[test]
fn builder_from_pushes_in_order() {
    let built = LispObjConsBuilder::from(vec![
        LispObject::new_num(1),
        LispObject::new_sym("a".into()),
        LispObject::new_num(3),
    ])
    .build();
    let mut it = built.into_iter();
    assert_eq!(*it.next().unwrap(), LispObject::new_num(1));
    assert_eq!(*it.next().unwrap(), LispObject::new_sym("a".into()));
    assert_eq!(*it.next().unwrap(), LispObject::new_num(3));
    assert!(it.next().is_none());
    assert!(it.is_proper());
}

#[test]
fn iterator_tail_is_none_before_the_end() {
    let list = build_obj_from_src("(1 2)");
    let mut it = LispObjectIter::new(&list);
    assert!(it.tail.is_none());
    it.next();
    assert!(it.tail.is_none());
    it.next();
    it.next();
    assert!(it.tail.is_some());
    // Once over, it stays over.
    assert!(it.next().is_none());
    assert!(it.is_proper());
}

#[test]
fn cons_constructors() {
    let c = Cons::new(LispObject::new_num(1), LispObject::new_num(2));
    assert_eq!(*c.car, LispObject::new_num(1));
    assert_eq!(*c.cdr, LispObject::new_num(2));
    let e = Cons::empty();
    assert_eq!(*e.car, LispObject::new_nil());
    assert_eq!(*e.cdr, LispObject::new_nil());
}

#[test]
fn clone_gives_an_equal_object() {
    let obj = build_obj_from_src("(a (1 -2) ())");
    assert_eq!(obj.clone(), obj);
}

#[test]
fn display_of_objects() {
    assert_eq!(LispObject::new_num(-42).to_string(), "ATOM(type=NUM, value=-42)");
    assert_eq!(LispObject::new_num(0).to_string(), "ATOM(type=NUM, value=0)");
    assert_eq!(
        LispObject::new_num(i64::MIN).to_string(),
        "ATOM(type=NUM, value=-9223372036854775808)"
    );
    assert_eq!(LispObject::new_sym("foo".into()).to_string(), "ATOM(type=SYM, value='foo')");
    assert_eq!(LispObject::new_nil().to_string(), "NIL");
    assert_eq!(LispObject::new_primitive(PrimitiveFn::Add).to_string(), "NATIVE FUNCTION");
    assert_eq!(
        build_obj_from_src("(1 x)").to_string(),
        "CONS(car=ATOM(type=NUM, value=1), cdr=CONS(car=ATOM(type=SYM, value='x'), cdr=NIL))"
    );
}
