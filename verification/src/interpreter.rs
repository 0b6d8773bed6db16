//! Running a program: read all of its objects, then evaluate each in turn in
//! the global environment, giving the text that reports each result.
use vstd::prelude::*;
use crate::environment::{global_frames, new_global_env};
use crate::evaluator::{EvalError, eval, eval_error_text, eval_spec};
use crate::object::{LispObject, SExpr, display_spec};
use crate::reader::{ReadingError, object_views, parse_tokens, read_tokens, reading_error_text};
use crate::tokenizer::{SpecToken, TokenizationError, parse_bytes, token_views, tokenization_error_text, tokenize};

verus! {

/// Why a program could not be read.
#[derive(Clone, Copy, Debug, PartialEq, Eq)]
pub enum SourceError {
    Tokenization(TokenizationError),
    Reading(ReadingError),
}

impl SourceError {
    /// The message of the error.
    pub fn to_string(&self) -> (s: String)
        ensures
            s@ == match self {
                SourceError::Tokenization(e) => tokenization_error_text(*e),
                SourceError::Reading(e) => reading_error_text(*e),
            },
    {
        match self {
            SourceError::Tokenization(e) => e.to_string(),
            SourceError::Reading(e) => e.to_string(),
        }
    }
}

/// The text that reports the evaluation of `base`.
pub open spec fn report_text(base: SExpr, res: Result<SExpr, EvalError>) -> Seq<char> {
    "------------\nEVALUATING: "@ + display_spec(base) + "\nRESULT: "@ + match res {
        Ok(v) => display_spec(v),
        Err(e) => eval_error_text(e),
    } + "\n------------\n"@
}

/// The text that reports the evaluation of `base`.
pub fn evaluation_report(base: &LispObject, res: &Result<LispObject, EvalError>) -> (s: String)
    ensures
        s@ == report_text(base@, match res {
            Ok(v) => Ok(v@),
            Err(e) => Err(*e),
        }),
{
    let mut s = String::from_str("------------\nEVALUATING: ");
    let b = base.to_string();
    s.append(b.as_str());
    s.append("\nRESULT: ");
    let r = match res {
        Ok(v) => v.to_string(),
        Err(e) => e.to_string(),
    };
    s.append(r.as_str());
    s.append("\n------------\n");
    s
}

/// Reads the program `contents` and evaluates its objects one by one in a
/// fresh global environment: the text that reports each evaluation, in order.
pub fn run_source(contents: &[u8]) -> (r: Result<Vec<String>, SourceError>)
    ensures
        match tokenize(contents@) {
            Err(e) => r == Err::<Vec<String>, SourceError>(SourceError::Tokenization(e)),
            Ok(ts) => match read_tokens(ts) {
                Err(e) => r == Err::<Vec<String>, SourceError>(SourceError::Reading(e)),
                Ok(objs) => r is Ok && r->Ok_0@.len() == objs.len() && forall|i: int|
                    0 <= i < objs.len() ==> #[trigger] r->Ok_0@[i]@ == report_text(objs[i], eval_spec(global_frames(), objs[i])),
            },
        },
{
    let tokens = match parse_bytes(contents) {
        Ok(t) => t,
        Err(e) => {
            return Err(SourceError::Tokenization(e));
        },
    };
    let objs = match parse_tokens(tokens.as_slice()) {
        Ok(o) => o,
        Err(e) => {
            return Err(SourceError::Reading(e));
        },
    };
    let ghost os = object_views(objs@);
    let global_env = new_global_env();
    let mut reports: Vec<String> = Vec::new();
    let mut i: usize = 0;
    while i < objs.len()
        invariant
            os == object_views(objs@),
            global_env@ == global_frames(),
            i <= objs.len(),
            reports@.len() == i,
            forall|j: int| 0 <= j < i ==> #[trigger] reports@[j]@ == report_text(os[j], eval_spec(global_frames(), os[j])),
        decreases objs.len() - i,
    {
        assert(os[i as int] == objs@[i as int]@);
        let res = eval(&global_env, &objs[i]);
        let text = evaluation_report(&objs[i], &res);
        reports.push(text);
        i = i + 1;
    }
    Ok(reports)
}

} // verus!
