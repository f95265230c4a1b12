use docket::prompt::{interpret_answer, prompt_hint, AnswerStep};

#[test]
fn hint_names_the_default() {
    assert_eq!(prompt_hint(Some(true)), "Y/n");
    assert_eq!(prompt_hint(Some(false)), "y/N");
    assert_eq!(prompt_hint(None), "y/n");
}

#[test]
fn yes_and_no_in_both_cases() {
    assert_eq!(interpret_answer(Some('y'), None), AnswerStep::Accept(true));
    assert_eq!(interpret_answer(Some('Y'), Some(false)), AnswerStep::Accept(true));
    assert_eq!(interpret_answer(Some('n'), None), AnswerStep::Accept(false));
    assert_eq!(interpret_answer(Some('N'), Some(true)), AnswerStep::Accept(false));
}

#[test]
fn other_characters_are_unrecognized() {
    assert_eq!(interpret_answer(Some('q'), Some(true)), AnswerStep::Unrecognized);
    assert_eq!(interpret_answer(Some(' '), None), AnswerStep::Unrecognized);
}

#[test]
fn blank_line_takes_the_default() {
    assert_eq!(interpret_answer(None, Some(true)), AnswerStep::Accept(true));
    assert_eq!(interpret_answer(None, Some(false)), AnswerStep::Accept(false));
    assert_eq!(interpret_answer(None, None), AnswerStep::AskAgain);
}
