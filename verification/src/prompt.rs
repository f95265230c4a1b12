//! The decision rules of the interactive yes/no prompt: which hint names
//! the default answer, and what the first character of one input line
//! means. Reading and writing the terminal stays with the caller.

use vstd::prelude::*;

verus! {

/// What one round of prompting decided.
#[derive(Debug, Clone, Copy, PartialEq, Eq, Structural)]
pub enum AnswerStep {
    /// The input settled the question.
    Accept(bool),
    /// The input held a character that is neither `y` nor `n`: report it
    /// and ask again.
    Unrecognized,
    /// The input was blank and there is no default answer: ask again.
    AskAgain,
}

/// The hint shown beside the question, capitalizing the default answer.
pub fn prompt_hint(default_answer: Option<bool>) -> (r: &'static str)
    ensures
        default_answer == Some(true) ==> r@ == "Y/n"@,
        default_answer == Some(false) ==> r@ == "y/N"@,
        default_answer is None ==> r@ == "y/n"@,
{
    match default_answer {
        Some(true) => "Y/n",
        Some(false) => "y/N",
        None => "y/n",
    }
}

/// Interpret the first non-blank character of one input line: `y` or `Y`
/// accepts, `n` or `N` declines, any other character is unrecognized, and
/// a blank line takes the default answer where one exists.
pub fn interpret_answer(first: Option<char>, default_answer: Option<bool>) -> (r: AnswerStep)
    ensures
        first == Some('y') || first == Some('Y') ==> r == AnswerStep::Accept(true),
        first == Some('n') || first == Some('N') ==> r == AnswerStep::Accept(false),
        (first matches Some(c) && c != 'y' && c != 'Y' && c != 'n' && c != 'N') ==> r
            == AnswerStep::Unrecognized,
        first is None ==> (default_answer matches Some(b) ==> r == AnswerStep::Accept(b)),
        first is None && default_answer is None ==> r == AnswerStep::AskAgain,
{
    match first {
        Some('y') | Some('Y') => AnswerStep::Accept(true),
        Some('n') | Some('N') => AnswerStep::Accept(false),
        Some(_) => AnswerStep::Unrecognized,
        None => match default_answer {
            Some(b) => AnswerStep::Accept(b),
            None => AnswerStep::AskAgain,
        },
    }
}

} // verus!
