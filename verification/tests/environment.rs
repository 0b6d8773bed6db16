use al::environment::{new_env, new_global_env};
use al::object::LispObject;
use al::reader::parse_tokens;
use al::tokenizer::parse_bytes;

fn build_obj_from_src(src: &str) -> LispObject {
    let tokens = parse_bytes(src.as_bytes()).unwrap();
    let objs = parse_tokens(&tokens).unwrap();
    assert!(objs.len() == 1);
    objs[0].clone()
}

#[test]
fn test_insert_and_fetch_atom() {
    let mut env = new_global_env();
    env.set("hello", LispObject::new_num(2));
    assert_eq!(env.get("hello").unwrap(), LispObject::new_num(2));
}

#[test]
fn test_insert_existing_item() {
    let mut env = new_global_env();
    env.set("hello", LispObject::new_num(2));
    env.set("hello", LispObject::new_num(77));
    assert_eq!(env.get("hello").unwrap(), LispObject::new_num(77));
}

#[test]
fn test_an_env_without_parent_is_global() {
    let env = new_global_env();
    assert!(env.is_global());
    let env2 = new_env(&env);
    assert!(!env2.is_global());
}

#[test]
fn test_call_func_through_env() {
    let env = new_global_env();
    let primitive_add = env.get("+");
    let input = "(1 2 3)";
    let args = build_obj_from_src(input);
    let result = primitive_add.unwrap().call_func(args);
    assert_eq!(result, Ok(LispObject::new_num(1 + 2 + 3)));
}

#[test]
fn env_get_of_unbound_name_is_none() {
    let env = new_global_env();
    assert!(env.get("hello").is_none());
    assert!(env.hierarchical_get("hello").is_none());
}

#[test]
fn env_child_sees_parent_bindings() {
    let mut global = new_global_env();
    global.set("x", LispObject::new_num(5));
    let child = new_env(&global);
    // Own frame is empty, the lookup goes outwards.
    assert!(child.get("x").is_none());
    assert_eq!(child.hierarchical_get("x").unwrap(), LispObject::new_num(5));
    assert!(child.hierarchical_get("+").is_some());
}

#[test]
fn env_child_binding_shadows_parent() {
    let mut global = new_global_env();
    global.set("x", LispObject::new_num(5));
    let mut child = new_env(&global);
    child.set("x", LispObject::new_num(9));
    assert_eq!(child.hierarchical_get("x").unwrap(), LispObject::new_num(9));
}

#[test]
fn env_set_keeps_other_names() {
    let mut env = new_global_env();
    env.set("a", LispObject::new_num(1));
    env.set("b", LispObject::new_num(2));
    assert_eq!(env.get("a").unwrap(), LispObject::new_num(1));
    assert_eq!(env.get("b").unwrap(), LispObject::new_num(2));
}

#[test]
fn env_children_share_their_parent() {
    let mut global = new_global_env();
    global.set("x", LispObject::new_num(1));
    let mut a = new_env(&global);
    let b = new_env(&global);
    a.set("x", LispObject::new_num(2));
    // Binding in one child changes neither the parent nor its sibling.
    assert_eq!(a.hierarchical_get("x").unwrap(), LispObject::new_num(2));
    assert_eq!(b.hierarchical_get("x").unwrap(), LispObject::new_num(1));
    assert_eq!(global.get("x").unwrap(), LispObject::new_num(1));
}
