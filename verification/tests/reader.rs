use al::object::{LispObjConsBuilder, LispObject};
use al::reader::{parse_tokens, ReadingError, Reader};
use al::tokenizer::parse_bytes;

fn build_objs_from_src(src: &str) -> Result<Vec<LispObject>, ReadingError> {
    let tokens = parse_bytes(src.as_bytes()).unwrap();
    parse_tokens(&tokens)
}

#[test]
fn test_standalone_atoms() {
    let input = "5\n6\nfoobar\n";
    let objs = build_objs_from_src(input).unwrap();

    assert_eq!(
        objs,
        vec![
            LispObject::new_num(5),
            LispObject::new_num(6),
            LispObject::new_sym("foobar".to_string()),
        ]
    );
}

#[test]
fn reader_test_empty_list() {
    let input = "()";
    let objs = build_objs_from_src(input).unwrap();

    assert_eq!(objs, vec![LispObject::new_nil()]);
}

#[test]
fn test_empty_list_within_list() {
    let input = "(())";
    let objs = build_objs_from_src(input).unwrap();

    assert_eq!(
        objs,
        vec![LispObject::new_cons(
            LispObject::new_nil(),
            LispObject::new_nil()
        )]
    );
}

#[test]
fn test_mega_nested_list() {
    let input = "(((1)))";
    let objs = build_objs_from_src(input).unwrap();

    assert_eq!(
        objs,
        vec![LispObject::new_cons(
            LispObject::new_cons(
                LispObject::new_cons(LispObject::new_num(1), LispObject::new_nil(),),
                LispObject::new_nil(),
            ),
            LispObject::new_nil(),
        )]
    );
}

#[test]
fn test_empty_list_and_other_atoms_within_list() {
    let input = "(() 1 ())";
    let objs = build_objs_from_src(input).unwrap();

    assert_eq!(
        objs,
        vec![LispObject::new_cons(
            LispObject::new_nil(),
            LispObject::new_cons(
                LispObject::new_num(1),
                LispObject::new_cons(LispObject::new_nil(), LispObject::new_nil(),)
            )
        )]
    );
}

#[test]
fn test_list_with_one_atom() {
    let input = "(1)";
    let objs = build_objs_from_src(input).unwrap();

    assert_eq!(
        objs,
        vec![LispObject::new_cons(
            LispObject::new_num(1),
            LispObject::new_nil(),
        )]
    );
}

#[test]
fn test_list_with_multiple_atoms() {
    let input = "(+ 1 test-sym)";
    let objs = build_objs_from_src(input).unwrap();

    assert_eq!(
        objs,
        vec![LispObject::new_cons(
            LispObject::new_sym("+".to_owned()),
            LispObject::new_cons(
                LispObject::new_num(1),
                LispObject::new_cons(
                    LispObject::new_sym("test-sym".to_owned()),
                    LispObject::new_nil()
                )
            )
        )]
    );
}

#[test]
fn test_list_with_atoms_and_sublists() {
    let input = "((1 2 3) (4 5 (6 7) (8)))";
    let objs = build_objs_from_src(input).unwrap();

    let expected = vec![
        LispObjConsBuilder::from(vec![
            LispObjConsBuilder::from(vec![
                LispObject::new_num(1),
                LispObject::new_num(2),
                LispObject::new_num(3),
            ])
            .build(),
            LispObjConsBuilder::from(vec![
                LispObject::new_num(4),
                LispObject::new_num(5),
                LispObjConsBuilder::from(vec![LispObject::new_num(6), LispObject::new_num(7)])
                    .build(),
                LispObjConsBuilder::from(vec![LispObject::new_num(8)]).build(),
            ])
            .build(),
        ])
        .build(),
    ];

    assert_eq!(objs, expected,);
}

#[test]
fn test_two_separate_toplevel_objs() {
    let input = "(1 2)\nhello\n";
    let objs = build_objs_from_src(input).unwrap();

    assert_eq!(
        objs,
        vec![
            LispObject::new_cons(
                LispObject::new_num(1),
                LispObject::new_cons(LispObject::new_num(2), LispObject::new_nil(),),
            ),
            LispObject::new_sym("hello".to_owned()),
        ]
    );
}

#[test]
fn test_list_with_leading_paren_close() {
    let input = ")1 2 3)";
    let objs = build_objs_from_src(input);

    assert!(objs.is_err());
    assert!(objs.unwrap_err() == ReadingError::LeadingParenClose);
}

#[test]
fn test_list_without_closing_paren() {
    let input = "(1 2";
    let objs = build_objs_from_src(input);

    assert!(objs.is_err());
    assert!(objs.unwrap_err() == ReadingError::IncompleteList);
}

#[test]
fn reader_nil_symbol_stays_a_symbol() {
    let objs = build_objs_from_src("nil").unwrap();
    assert_eq!(objs, vec![LispObject::new_sym("nil".to_string())]);
}

#[test]
fn reader_open_paren_at_end_is_incomplete() {
    assert_eq!(build_objs_from_src("("), Err(ReadingError::IncompleteList));
    assert_eq!(build_objs_from_src("(()"), Err(ReadingError::IncompleteList));
    assert_eq!(build_objs_from_src("((1)"), Err(ReadingError::IncompleteList));
}

#[test]
fn reader_stops_at_first_error() {
    // The first object is fine; the second starts with ')'.
    assert_eq!(build_objs_from_src("1 )"), Err(ReadingError::LeadingParenClose));
}

#[test]
fn reader_of_no_tokens_is_empty() {
    assert_eq!(build_objs_from_src(""), Ok(Vec::new()));
}

#[test]
fn reader_next_reads_one_object_at_a_time() {
    let tokens = parse_bytes("(1) 2".as_bytes()).unwrap();
    let mut reader = Reader::new(&tokens);
    assert_eq!(
        reader.next(),
        Some(Ok(LispObjConsBuilder::from(vec![LispObject::new_num(1)]).build()))
    );
    assert_eq!(reader.next(), Some(Ok(LispObject::new_num(2))));
    assert_eq!(reader.next(), None);
}

#[test]
fn reading_error_messages() {
    assert_eq!(ReadingError::LeadingParenClose.to_string(), "an object cannot begin with ')'");
    assert_eq!(
        ReadingError::IncompleteList.to_string(),
        "list was started with '(' but has not been closed"
    );
}

#[test]
fn reader_dotted_pair_of_nil_symbols() {
    let objs = build_objs_from_src("(nil . nil)").unwrap();
    assert_eq!(
        objs,
        vec![LispObject::new_cons(
            LispObject::new_sym("nil".into()),
            LispObject::new_sym("nil".into())
        )]
    );
}

#[test]
fn reader_dotted_list() {
    let objs = build_objs_from_src("(1 2 . (3))").unwrap();
    assert_eq!(objs, build_objs_from_src("(1 2 3)").unwrap());
    let objs = build_objs_from_src("(1 2 . 3)").unwrap();
    assert_eq!(
        objs,
        vec![LispObject::new_cons(
            LispObject::new_num(1),
            LispObject::new_cons(LispObject::new_num(2), LispObject::new_num(3))
        )]
    );
}

#[test]
fn reader_malformed_dotted_lists() {
    assert_eq!(build_objs_from_src("(1 . 2 3)"), Err(ReadingError::MalformedDottedList));
    assert_eq!(build_objs_from_src("(1 . 2"), Err(ReadingError::IncompleteList));
    assert_eq!(build_objs_from_src("(1 ."), Err(ReadingError::IncompleteList));
    assert_eq!(build_objs_from_src("(1 . )"), Err(ReadingError::LeadingParenClose));
    assert_eq!(
        ReadingError::MalformedDottedList.to_string(),
        "a '.' in a list must be followed by exactly one object and ')'"
    );
}

#[test]
fn reader_dot_elsewhere_is_a_symbol() {
    assert_eq!(build_objs_from_src(".").unwrap(), vec![LispObject::new_sym(".".into())]);
    assert_eq!(
        build_objs_from_src("(. 1)").unwrap(),
        vec![LispObjConsBuilder::from(vec![LispObject::new_sym(".".into()), LispObject::new_num(1)]).build()]
    );
}
