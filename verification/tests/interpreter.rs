use al::interpreter::{evaluation_report, run_source, SourceError};
use al::evaluator::EvalError;
use al::object::LispObject;
use al::reader::ReadingError;
use al::tokenizer::TokenizationError;

#[test]
fn run_source_reports_each_object() {
    let report = run_source(b"(+ 1 2)\nfoo\n").unwrap();
    assert_eq!(
        report,
        vec![
            "------------\nEVALUATING: CONS(car=ATOM(type=SYM, value='+'), cdr=CONS(car=ATOM(type=NUM, value=1), cdr=CONS(car=ATOM(type=NUM, value=2), cdr=NIL)))\nRESULT: ATOM(type=NUM, value=3)\n------------\n".to_string(),
            "------------\nEVALUATING: ATOM(type=SYM, value='foo')\nRESULT: unbound symbol\n------------\n".to_string(),
        ]
    );
}

#[test]
fn run_source_reports_a_call_without_arguments() {
    let report = run_source(b"1 (+) nil").unwrap();
    assert_eq!(report.len(), 3);
    assert!(report[1].ends_with("RESULT: wrong type\n------------\n"));
    assert!(report[2].ends_with("RESULT: NIL\n------------\n"));
}

#[test]
fn run_source_source_errors() {
    assert_eq!(run_source(b"(1 2w)").err(), Some(SourceError::Tokenization(TokenizationError::MalformedNumber)));
    assert_eq!(run_source(b"(1 2").err(), Some(SourceError::Reading(ReadingError::IncompleteList)));
    assert_eq!(
        SourceError::Reading(ReadingError::LeadingParenClose).to_string(),
        "an object cannot begin with ')'"
    );
}

#[test]
fn evaluation_report_text() {
    let base = LispObject::new_num(1);
    assert_eq!(
        evaluation_report(&base, &Err(EvalError::NotAFunction)),
        "------------\nEVALUATING: ATOM(type=NUM, value=1)\nRESULT: not a function\n------------\n"
    );
}
