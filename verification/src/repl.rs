//! One read-eval-print step over a single line of text. Reading uses the
//! reader, evaluation is the identity at this stage, and printing renders
//! the value — or the error, behind the `Error` sentinel — canonically.

use vstd::prelude::*;
use crate::printer::{pr_str, render_model};
use crate::reader::{read_str, read_str_model, FormOutcome};
use crate::types::{MalVal, MalValModel};

verus! {

/// The text one read-eval-print step answers `input` with: the canonical
/// rendering of the value read, nothing for blank or comment-only input,
/// and the rendered `Error` sentinel for a parse error.
pub open spec fn rep_model(input: Seq<char>) -> Seq<char> {
    match read_str_model(input) {
        FormOutcome::Value(v) => render_model(v),
        FormOutcome::NoForm => Seq::empty(),
        FormOutcome::Fail(msg) => render_model(MalValModel::Error(msg)),
    }
}

/// Reads one form, turning a parse error into the `Error` sentinel.
fn read(input: String) -> (r: Option<MalVal>)
    ensures
        match read_str_model(input@) {
            FormOutcome::Value(v) => r matches Some(m) && m@ == v,
            FormOutcome::NoForm => r is None,
            FormOutcome::Fail(msg) => r matches Some(m) && m@ == MalValModel::Error(msg),
        },
{
    match read_str(input) {
        Ok(form) => form,
        Err(msg) => Some(MalVal::Error(msg)),
    }
}

/// Evaluation: the identity, for now.
fn eval(form: Option<MalVal>) -> (r: Option<MalVal>)
    ensures
        r == form,
{
    form
}

/// Renders a value, or nothing when there is none.
fn print(result: Option<MalVal>) -> (r: String)
    ensures
        match result {
            Some(form) => r@ == render_model(form@),
            None => r@ == Seq::<char>::empty(),
        },
{
    match result {
        Some(form) => pr_str(&form),
        None => String::new(),
    }
}

/// One read-eval-print step over `input`.
pub fn rep(input: String) -> (r: String)
    ensures
        r@ == rep_model(input@),
{
    print(eval(read(input)))
}

} // verus!
