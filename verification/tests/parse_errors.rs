//! Parse errors of the two textual quiz formats, with the line they are
//! reported on.
use drill::parser;
use drill::persistence::{parse, StoredResults};

/// The message of the error that reading `text` in the current format gives.
fn current_error(text: &str) -> String {
    match parse(text, "tests/quizzes/parse/quiz", &StoredResults::new()) {
        Ok(_) => panic!("the quiz was read without error"),
        Err(e) => e.message(),
    }
}

/// The message of the error that reading `text` in the earlier format gives.
fn earlier_error(text: &str) -> String {
    match parser::parse(text, "tests/quizzes/parse/quiz") {
        Ok(_) => panic!("the quiz was read without error"),
        Err(e) => e.message(),
    }
}

fn expected(message: &str, lineno: usize, whole_entry: bool) -> String {
    if whole_entry {
        format!("{} in entry beginning on line {}", message, lineno)
    } else {
        format!("{} on line {}", message, lineno)
    }
}

#[test]
fn e2e_tests_parse_error_no_blank_line_after_settings() {
    let text = "- instructions: Answer carefully.\n[1] What is the capital of Mongolia?\nUlan Bator\n";
    assert_eq!(current_error(text), expected("no blank line after quiz settings", 2, false));
}

#[test]
fn e2e_tests_parse_error_wrong_ordered_value() {
    let text = "[1] List the first three US presidents.\n- ordered: yes\nGeorge Washington\nJohn Adams\nThomas Jefferson\n";
    assert_eq!(
        current_error(text),
        expected("ordered field must be either 'true' or 'false'", 1, true)
    );
}

#[test]
fn e2e_tests_parse_error_no_first_line() {
    let text = "What is the capital of Mongolia?\nUlan Bator\n";
    assert_eq!(current_error(text), expected("expected first line of question", 1, false));
}

#[test]
fn e2e_tests_parse_error_bad_attribute() {
    let text = "[1] What is the capital of Mongolia?\nUlan Bator\n- tags geography\n";
    assert_eq!(current_error(text), expected("expected colon", 3, false));
}

#[test]
fn e2e_tests_parse_error_bad_flashcard_context() {
    let text = "[1] to read [perf = прочитать\n";
    assert_eq!(current_error(text), expected("expected ]", 1, false));
}

#[test]
fn parse_error_unknown_field() {
    let text = "[1] What is the capital of Mongolia?\nUlan Bator\n- whatever: something\n";
    assert_eq!(current_error(text), expected("unexpected field 'whatever'", 1, true));
}

#[test]
fn parse_error_unknown_global_field() {
    let text = "- whatever: something\n\n[1] What is the capital of Mongolia?\nUlan Bator\n";
    assert_eq!(current_error(text), expected("unexpected field 'whatever'", 1, false));
}

#[test]
fn parse_error_field_on_wrong_question() {
    let text = "[1] What is the capital of Mongolia?\nUlan Bator\n- nocredit: Khovd\n";
    assert_eq!(current_error(text), expected("unexpected field 'nocredit'", 1, true));
}

#[test]
fn parse_error_duplicate_ids() {
    let text = "[1] el pan = bread\n[1] el vino = wine\n";
    assert_eq!(current_error(text), expected("duplicate question ID", 2, false));
}

#[test]
fn parse_error_duplicate_choice_groups() {
    let text = "choice-group cities\n- a: Atlanta\n\nchoice-group cities\n- b: Chicago\n";
    assert_eq!(current_error(text), expected("duplicate choice group ID", 4, false));
}

#[test]
fn parse_error_nonexistent_choice_group() {
    let text = "choice-group cities\n- a: Atlanta\n- b: Chicago\n\n[1] What is the largest city in Georgia?\n- choice-group: states\n- choice-group-answer: a\n";
    assert_eq!(current_error(text), expected("choice group does not exist", 5, true));
}

#[test]
fn parse_error_nonexistent_choice_group_answer() {
    let text = "choice-group cities\n- a: Atlanta\n- b: Chicago\n\n[1] What is the largest city in Georgia?\n- choice-group: cities\n- choice-group-answer: z\n";
    assert_eq!(current_error(text), expected("choice group answer does not exist", 5, true));
}

#[test]
fn parse_error_missing_choice_group_answer() {
    let text = "choice-group cities\n- a: Atlanta\n- b: Chicago\n\n[1] What is the largest city in Georgia?\n- choice-group: cities\n";
    assert_eq!(
        current_error(text),
        expected("question has choice-group but not choice-group-answer", 5, true)
    );
}

#[test]
fn parse_error_choice_group_line_in_question() {
    let text = "[1] What is the largest city in Georgia?\nAtlanta\nchoice-group cities\n";
    assert_eq!(current_error(text), expected("unexpected line in question", 3, false));
}

#[test]
fn parse_error_unexpected_line_choice_group() {
    let text = "choice-group cities\nAtlanta\n";
    assert_eq!(current_error(text), expected("unexpected line in choice group", 2, false));
}

#[test]
fn parse_error_nameless_choice_group() {
    let text = "choice-group\n- a: Atlanta\n";
    assert_eq!(current_error(text), expected("expected identifier", 1, false));
}

#[test]
fn parse_error_no_blank_line_between_questions() {
    let text = "[1] What is the capital of Mongolia?\n[2] What is the capital of Turkey?\nAnkara\n";
    assert_eq!(earlier_error(text), expected("no blank line between questions", 2, false));
}

#[test]
fn functional_tests_parse_error_no_blank_line_after_settings() {
    let text = "- instructions: Answer carefully.\n[1] What is the capital of Mongolia?\nUlan Bator\n";
    assert_eq!(earlier_error(text), expected("no blank line after quiz settings", 2, false));
}

#[test]
fn functional_tests_parse_error_wrong_ordered_value() {
    let text = "[1] List the first three US presidents.\n- ordered: yes\nGeorge Washington\nJohn Adams\nThomas Jefferson\n";
    assert_eq!(
        earlier_error(text),
        expected("ordered field must be either 'true' or 'false'", 1, true)
    );
}

#[test]
fn functional_tests_parse_error_no_first_line() {
    let text = "What is the capital of Mongolia?\nUlan Bator\n";
    assert_eq!(earlier_error(text), expected("expected first line of question", 1, false));
}

#[test]
fn functional_tests_parse_error_bad_attribute() {
    let text = "[1] What is the capital of Mongolia?\nUlan Bator\n- tags geography\n";
    assert_eq!(earlier_error(text), expected("expected colon", 3, false));
}

#[test]
fn parse_error_bad_timeout_value() {
    let text = "[1] What is the capital of Moldova?\nChisinau\n- timeout: soon\n";
    assert_eq!(earlier_error(text), expected("could not parse integer", 1, true));
}

#[test]
fn functional_tests_parse_error_bad_flashcard_context() {
    let text = "[1] to read [perf = прочитать\n";
    assert_eq!(earlier_error(text), expected("expected ]", 1, false));
}

#[test]
fn current_format_accepts_consecutive_questions() {
    let quiz = parse("[1] el pan = bread\n[2] el vino = wine\n", "q", &StoredResults::new()).unwrap();
    assert_eq!(quiz.questions.len(), 2);
}

#[test]
fn earlier_format_rejects_two_blank_lines() {
    let text = "[1] el pan = bread\n\n\n[2] el vino = wine\n";
    assert_eq!(earlier_error(text), expected("expected first line of question", 3, false));
}

#[test]
fn earlier_format_gives_quiz_timeout_to_short_answers_only() {
    let text = "- timeout: 10\n\n[1] What is the capital of Moldova?\nChisinau\n\n[2] Name two Baltic states.\nLatvia\nEstonia\n\n[3] What is the capital of Chad?\nN'Djamena\n- timeout: 3\n";
    let quiz = parser::parse(text, "q").unwrap();
    assert_eq!(quiz.questions.len(), 3);
    assert_eq!(quiz.questions[0].get_common().timeout, Some(10));
    assert_eq!(quiz.questions[1].get_common().timeout, None);
    assert_eq!(quiz.questions[2].get_common().timeout, Some(3));
}

#[test]
fn current_format_rejects_timeout_field() {
    let text = "[1] What is the capital of Moldova?\nChisinau\n- timeout: 5\n";
    assert_eq!(current_error(text), expected("unexpected field 'timeout'", 1, true));
}

#[test]
fn question_without_answer_is_an_error() {
    assert_eq!(
        current_error("[1] What is the capital of Moldova?\n"),
        expected("question has no answer", 1, true)
    );
}

#[test]
fn the_line_counter_stands_at_a_bad_line() {
    let mut reader = drill::persistence::QuizReader::new("[1] q\n\n- tags europe\n");
    assert!(reader.read_line().unwrap().is_some());
    assert!(reader.read_line().unwrap().is_some());
    match reader.read_line() {
        Err(e) => assert_eq!(e.message(), "expected colon on line 3"),
        Ok(_) => panic!("the line has no colon"),
    }
    assert_eq!(reader.line(), 3);
}
