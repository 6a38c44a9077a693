//! Taking quizzes: what each answer earns and what the summary says, with the
//! decisions of the library driven the way the program drives them.
use drill::common::{FilterOptions, TakeOptions};
use drill::persistence::{parse, StoredResults};
use drill::quiz::{check, summarize, Question, QuestionResult, Quiz, Timestamp};
use drill::session::{ListAction, ListEvent, OrderedAction, TakeAction, TakeEvent};

/// The time at which a quiz is said to be finished in these tests.
fn finished_at() -> Timestamp {
    Timestamp { secs: 1_600_000_000, nanos: 0 }
}

fn load(text: &str) -> Quiz {
    parse(text, "tests/quizzes/quiz", &StoredResults::new()).expect("the quiz should be read")
}

fn s(x: &str) -> String {
    String::from(x)
}

fn options_in_order() -> TakeOptions {
    TakeOptions {
        name: s("quiz"),
        flip: false,
        in_order: true,
        no_save: true,
        num_to_ask: 20,
        random: false,
        filter_opts: FilterOptions { exclude: Vec::new(), tags: Vec::new() },
    }
}

/// The result of answering a single-answer question with `guess`, and whether it
/// was right.
fn answer(q: &Question, guess: &str) -> (bool, QuestionResult) {
    match q {
        Question::ShortAnswer(q) => {
            let g = q.grade(Some(s(guess)));
            (g.correct, g.result)
        },
        Question::Flashcard(q) => {
            let g = q.grade(Some(s(guess)));
            (g.correct, g.result)
        },
        Question::MultipleChoice(q) => {
            let g = q.grade(Some(s(guess)));
            (g.correct, g.result)
        },
        _ => panic!("not a single-answer question"),
    }
}

#[test]
fn quiz_checking_answers_works() {
    let ans = vec![s("Barack Obama"), s("Obama")];

    assert!(check(&ans, "Barack Obama"));
    assert!(check(&ans, "barack obama"));
    assert!(check(&ans, "Obama"));
    assert!(check(&ans, "obama"));
    assert!(!check(&ans, "Mitt Romney"));
}

#[test]
fn e2e_tests_can_take_simple_quiz1() {
    let quiz = load("[1] What is the capital of Mongolia?\nUlan Bator\n");
    assert_eq!(quiz.questions[0].get_text(), "What is the capital of Mongolia?");
    let (right, result) = answer(&quiz.questions[0], "Ulan Bator");
    assert!(right);
    let summary = summarize(vec![result], finished_at());
    assert_eq!(summary.score, 1000);
    assert_eq!(summary.total, 1);
    assert_eq!(summary.total_correct, 1);
    assert_eq!(summary.total_incorrect, 0);
}

#[test]
fn e2e_tests_can_take_flashcard_quiz() {
    let quiz = load("[1] el pan = bread\n\n[2] el vino = wine\n\n[3] la mantequilla = butter\n");
    let mut results = Vec::new();
    let fronts = ["el pan", "el vino", "la mantequilla"];
    let backs = ["bread", "wine", "butter"];
    for i in 0..3 {
        match &quiz.questions[i] {
            Question::Flashcard(q) => assert_eq!(q.prompt_text(), fronts[i]),
            _ => panic!("expected a flashcard"),
        }
        let (right, result) = answer(&quiz.questions[i], backs[i]);
        assert!(right);
        results.push(result);
    }
    let summary = summarize(results, finished_at());
    assert_eq!(summary.score, 1000);
    assert_eq!(summary.total, 3);
    assert_eq!(summary.total_correct, 3);
    assert_eq!(summary.total_incorrect, 0);
}

#[test]
fn e2e_tests_can_take_flipped_flashcard_quiz() {
    let mut quiz = load("[1] el pan = bread\n\n[2] el vino = wine\n\n[3] la mantequilla = butter\n");
    quiz.flip_all();
    let fronts = ["bread", "wine", "butter"];
    let backs = ["el pan", "el vino", "la mantequilla"];
    let mut results = Vec::new();
    for i in 0..3 {
        match &quiz.questions[i] {
            Question::Flashcard(q) => assert_eq!(q.prompt_text(), fronts[i]),
            _ => panic!("expected a flashcard"),
        }
        let (right, result) = answer(&quiz.questions[i], backs[i]);
        assert!(right);
        results.push(result);
    }
    let summary = summarize(results, finished_at());
    assert_eq!(summary.score, 1000);
    assert_eq!(summary.total_correct, 3);
}

#[test]
fn e2e_tests_can_take_quiz_with_list_question() {
    let quiz = load(
        "[1] Name the five members of the UN Security Council.\nChina / PR China\nFrance\nRussia\nUS / USA\nUnited Kingdom / UK\n",
    );
    let q = match &quiz.questions[0] {
        Question::List(q) => q,
        _ => panic!("expected a list question"),
    };
    let mut session = q.start();
    let steps = [
        ("China", ListAction::Correct),
        ("PR China", ListAction::AlreadySaid),
        ("France", ListAction::Correct),
        ("Germany", ListAction::Incorrect),
        ("US", ListAction::Correct),
        ("United Kingdom", ListAction::Correct),
    ];
    for (guess, expected) in steps.iter() {
        assert!(!session.is_done());
        assert_eq!(session.step(q, ListEvent::Guess(s(guess))), *expected);
    }
    assert!(session.is_done());
    let (missed, result) = session.finish(q);
    assert_eq!(missed, vec![s("Russia")]);
    assert_eq!(result.score, 800);
    let summary = summarize(vec![result], finished_at());
    assert_eq!(summary.score, 800);
    assert_eq!(summary.total_correct, 0);
    assert_eq!(summary.total_partially_correct, 1);
    assert_eq!(summary.total_incorrect, 0);
}

#[test]
fn e2e_tests_no_credit_answers_work() {
    let quiz = load(
        "[1] Name the three largest cities of the Inland Empire.\nRiverside\nSan Bernardino\nFontana\n- nocredit: Ontario / Corona\n",
    );
    let q = match &quiz.questions[0] {
        Question::List(q) => q,
        _ => panic!("expected a list question"),
    };
    let mut session = q.start();
    let steps = [
        ("Riverside", ListAction::Correct),
        ("Ontario", ListAction::NoCredit),
        ("San Bernardino", ListAction::Correct),
        ("Corona", ListAction::NoCredit),
        ("Fontana", ListAction::Correct),
    ];
    for (guess, expected) in steps.iter() {
        assert_eq!(session.step(q, ListEvent::Guess(s(guess))), *expected);
    }
    assert!(session.is_done());
    let (missed, result) = session.finish(q);
    assert!(missed.is_empty());
    assert_eq!(result.score, 1000);
}

#[test]
fn e2e_tests_quiz_instructions_are_displayed() {
    let quiz = load(
        "- instructions: Include the state's postal code.\n\n[1] What is the capital of Michigan?\nLansing, MI\n",
    );
    assert_eq!(quiz.instructions, Some(s("Include the state's postal code.")));
    let (right, _) = answer(&quiz.questions[0], "Lansing, MI");
    assert!(right);
}

#[test]
fn e2e_tests_flashcards_context() {
    let mut quiz = load("[1] to read [perf] = прочитать [bleh]\n");
    match &quiz.questions[0] {
        Question::Flashcard(q) => assert_eq!(q.prompt_text(), "to read [perf]"),
        _ => panic!("expected a flashcard"),
    }
    assert!(answer(&quiz.questions[0], "прочитать").0);

    quiz.flip_all();
    match &quiz.questions[0] {
        Question::Flashcard(q) => assert_eq!(q.prompt_text(), "прочитать [bleh]"),
        _ => panic!("expected a flashcard"),
    }
    assert!(answer(&quiz.questions[0], "to read").0);
}

#[test]
fn unicode_normalization_works() {
    let quiz = load("[1] traffic = el tr\u{00e1}fico\n");
    assert!(answer(&quiz.questions[0], "el tra\u{0301}fico").0);
}

#[test]
fn ctrl_d_skips_current_question() {
    let quiz = load("[1] el pan = bread\n\n[2] el vino = wine\n");
    let mut results = Vec::new();
    for q in quiz.questions.iter() {
        match q {
            Question::Flashcard(q) => {
                let g = q.grade(None);
                assert!(!g.correct);
                results.push(g.result);
            },
            _ => panic!("expected a flashcard"),
        }
    }
    let summary = summarize(results, finished_at());
    assert_eq!(summary.score, 0);
    assert_eq!(summary.total_incorrect, 2);
}

#[test]
fn can_correct_questions_in_quiz() {
    let mut quiz = load(
        "[1] What is the largest city in Northern California?\nSan Francisco\n\n[2] What is the largest city in Oregon?\nPortland\n\n[3] Name two things.\nfoo\nbar\n- ordered: true\n",
    );
    let mut take = quiz.start_take(&options_in_order()).unwrap();
    assert_eq!(take.order, vec![0, 1, 2]);

    // (1) San Jose: wrong.
    let (right, r1) = answer(&quiz.questions[take.current()], "San Jose");
    assert!(!right);
    assert!(matches!(take.step(TakeEvent::Answered(r1)), TakeAction::Ask(1)));
    // (2) !! marks the previous answer correct.
    match take.step(TakeEvent::MarkCorrect) {
        TakeAction::Status(m) => assert_eq!(m, "Previous answer marked correct."),
        _ => panic!("expected a status message"),
    }
    let (right, r2) = answer(&quiz.questions[take.current()], "Eugene");
    assert!(!right);
    assert!(matches!(take.step(TakeEvent::Answered(r2)), TakeAction::Ask(2)));
    // (3) !! before any answer to the list goes to the previous question.
    let q = match &quiz.questions[2] {
        Question::OrderedList(q) => q,
        _ => panic!("expected an ordered list question"),
    };
    let mut list = q.start();
    assert_eq!(list.step(q, ListEvent::MarkCorrect), OrderedAction::PassMarkCorrect);
    match take.step(TakeEvent::MarkCorrect) {
        TakeAction::Status(m) => assert_eq!(m, "Previous answer marked correct."),
        _ => panic!("expected a status message"),
    }
    assert_eq!(list.step(q, ListEvent::Guess(s("foi"))), OrderedAction::Incorrect(0));
    assert_eq!(list.step(q, ListEvent::MarkCorrect), OrderedAction::MarkedCorrect);
    assert_eq!(list.step(q, ListEvent::Guess(s("bar"))), OrderedAction::Correct);
    assert!(list.is_done(q));
    let r3 = list.finish(q);
    assert_eq!(r3.score, 1000);
    assert!(matches!(take.step(TakeEvent::Answered(r3)), TakeAction::Finish));
    let summary = take.finish(finished_at());
    assert_eq!(summary.score, 1000);
    assert_eq!(summary.total_correct, 3);
    assert_eq!(summary.total_incorrect, 0);
}

#[test]
fn marking_correct_without_previous_answer_says_so() {
    let mut quiz = load("[1] What is the capital of Ecuador?\nQuito\n");
    let mut take = quiz.start_take(&options_in_order()).unwrap();
    match take.step(TakeEvent::MarkCorrect) {
        TakeAction::Status(m) => assert_eq!(m, "No previous question to mark correct."),
        _ => panic!("expected a status message"),
    }
    match take.step(TakeEvent::Edit) {
        TakeAction::Status(m) => assert_eq!(m, "No previous question to edit."),
        _ => panic!("expected a status message"),
    }
    let (_, r) = answer(&quiz.questions[0], "Quito");
    assert!(matches!(take.step(TakeEvent::Answered(r)), TakeAction::Finish));
    assert!(take.is_over());
}

fn load_earlier(text: &str) -> Quiz {
    drill::parser::parse(text, "tests/quizzes/quiz").expect("the quiz should be read")
}

#[test]
fn can_correct_list_questions_in_quiz() {
    let mut quiz = load(
        "[1] What is the capital of Ecuador?\nQuito\n\n[2] Name the four countries of the United Kingdom.\nEngland\nScotland\nNorthern Ireland\nWales\n",
    );
    let mut take = quiz.start_take(&options_in_order()).unwrap();
    let (right, r1) = answer(&quiz.questions[take.current()], "Quit");
    assert!(!right);
    assert!(matches!(take.step(TakeEvent::Answered(r1)), TakeAction::Ask(1)));
    let q = match &quiz.questions[1] {
        Question::List(q) => q,
        _ => panic!("expected a list question"),
    };
    let mut list = q.start();
    assert_eq!(list.step(q, ListEvent::MarkCorrect), ListAction::PassMarkCorrect);
    match take.step(TakeEvent::MarkCorrect) {
        TakeAction::Status(m) => assert_eq!(m, "Previous answer marked correct."),
        _ => panic!("expected a status message"),
    }
    assert_eq!(list.step(q, ListEvent::Guess(s("Enlgand"))), ListAction::Incorrect);
    assert_eq!(list.step(q, ListEvent::MarkCorrect), ListAction::Undone);
    assert_eq!(list.step(q, ListEvent::Guess(s("England"))), ListAction::Correct);
    assert_eq!(list.step(q, ListEvent::Guess(s("Scotland"))), ListAction::Correct);
    assert_eq!(list.step(q, ListEvent::MarkCorrect), ListAction::AlreadyCorrect);
    assert_eq!(list.step(q, ListEvent::Guess(s("Northern Ireland"))), ListAction::Correct);
    assert_eq!(list.step(q, ListEvent::Guess(s("Wales"))), ListAction::Correct);
    assert!(list.is_done());
    let (missed, r2) = list.finish(q);
    assert!(missed.is_empty());
    assert_eq!(r2.score, 1000);
    assert!(matches!(take.step(TakeEvent::Answered(r2)), TakeAction::Finish));
    let summary = take.finish(finished_at());
    assert_eq!(summary.score, 1000);
    assert_eq!(summary.total, 2);
    assert_eq!(summary.total_correct, 2);
    assert_eq!(summary.total_incorrect, 0);
}

#[test]
fn can_use_choice_groups() {
    let quiz = load(
        "choice-group cities\n- a: Atlanta\n- b: New York City / NYC\n- c: Chicago\n- d: Dallas\n\n[1] What is the largest city in Georgia?\n- choice-group: cities\n- choice-group-answer: a\n\n[2] What is the largest city in Illinois?\n- choice-group: cities\n- choice-group-answer: c\n",
    );
    let all = ["Atlanta", "New York City", "Chicago", "Dallas", "NYC"];
    let answers = ["Atlanta", "Chicago"];
    let mut results = Vec::new();
    for i in 0..2 {
        let q = match &quiz.questions[i] {
            Question::MultipleChoice(q) => q,
            _ => panic!("expected a multiple-choice question"),
        };
        assert_eq!(q.answer, vec![s(answers[i])]);
        let (choices, shown) = q.pick_choices();
        assert_eq!(choices.len(), 4);
        assert_eq!(shown, answers[i]);
        assert!(choices.iter().all(|c| all.contains(&c.as_str())));
        let picked = choices[letter_index_of("a")].clone();
        let g = q.grade(Some(picked.clone()));
        assert_eq!(g.correct, picked == answers[i]);
        results.push(g.result);
    }
    let summary = summarize(results, finished_at());
    assert!(summary.score == 0 || summary.score == 500 || summary.score == 1000);
    assert_eq!(summary.total, 2);
}

fn letter_index_of(letter: &str) -> usize {
    drill::session::letter_index(letter).unwrap()
}

#[test]
fn e2e_tests_can_take_simple_quiz2() {
    let quiz = load(
        "[1] Who was President of the United States during the Korean War?\nHarry S. Truman\n- choices: Franklin D. Roosevelt / John F. Kennedy / Lyndon Johnson\n\n[2] List the modern Emperors of Germany in chronological order.\nWilhelm I\nFrederick III\nWilhelm II\n- ordered: true\n",
    );
    let q1 = match &quiz.questions[0] {
        Question::MultipleChoice(q) => q,
        _ => panic!("expected a multiple-choice question"),
    };
    let (choices, shown) = q1.pick_choices();
    assert_eq!(shown, "Harry S. Truman");
    assert_eq!(choices.len(), 4);
    // "Harry Truman" is not a letter: the user is asked again.
    assert!(drill::session::letter_index("Harry Truman").is_none());
    let g1 = q1.grade(Some(choices[letter_index_of("a")].clone()));
    let q2 = match &quiz.questions[1] {
        Question::OrderedList(q) => q,
        _ => panic!("expected an ordered list question"),
    };
    let mut list = q2.start();
    assert_eq!(list.step(q2, ListEvent::Guess(s("Wilhelm I"))), OrderedAction::Correct);
    assert_eq!(list.step(q2, ListEvent::Guess(s("Wilhelm II"))), OrderedAction::Incorrect(1));
    assert_eq!(q2.answer_list[1][0], "Frederick III");
    assert_eq!(list.step(q2, ListEvent::Guess(s("Wilhelm II"))), OrderedAction::Correct);
    let r2 = list.finish(q2);
    assert_eq!(r2.score, 666);
    let summary = summarize(vec![g1.result, r2], finished_at());
    assert!(summary.score == 333 || summary.score == 833);
    assert_eq!(summary.total_partially_correct, 1);
    assert!(summary.total_correct <= 1 && summary.total_incorrect <= 1);
}

#[test]
fn ctrl_c_aborts_quiz() {
    let mut quiz = load("[1] el pan = bread\n\n[2] el vino = wine\n\n[3] la mantequilla = butter\n");
    let mut take = quiz.start_take(&options_in_order()).unwrap();
    assert!(matches!(take.step(TakeEvent::Interrupted), TakeAction::Finish));
    let summary = take.finish(finished_at());
    assert_eq!(summary.total, 0);
}

#[test]
fn can_save_results_and_track_history() {
    let quiz = load("[1] What is the capital of Mongolia?\nUlan Bator\n");
    let mut stored = StoredResults::new();
    for guess in ["Ulan Bator", "Khovd"].iter() {
        let (_, r) = answer(&quiz.questions[0], guess);
        let summary = summarize(vec![r], finished_at());
        stored.record(&summary);
    }
    assert_eq!(
        drill::paths::get_results_path("tests/quizzes/test1").unwrap(),
        "tests/quizzes/results/test1_results.json"
    );
    let rows = drill::results::result_rows(&quiz, &stored, drill::results::SortOrder::Best, None);
    assert_eq!(rows.len(), 1);
    assert_eq!(rows[0].score, 500);
    assert_eq!(rows[0].attempts, 2);
    assert_eq!(rows[0].id, "1");
    assert_eq!(rows[0].text, "What is the capital of Mongolia?");
}

#[test]
fn functional_tests_can_take_simple_quiz1() {
    let quiz = load_earlier("[1] What is the capital of Mongolia?\nUlan Bator\n");
    assert_eq!(quiz.questions[0].get_text(), "What is the capital of Mongolia?");
    let (right, r) = answer(&quiz.questions[0], "Ulan Bator");
    assert!(right);
    let summary = summarize(vec![r], finished_at());
    assert_eq!(summary.score, 1000);
    assert_eq!(summary.total_correct, 1);
    assert_eq!(summary.total_partially_correct, 0);
    assert_eq!(summary.total_incorrect, 0);
}

#[test]
fn functional_tests_can_take_flashcard_quiz() {
    let quiz = load_earlier("[1] el pan = bread\n\n[2] el vino = wine\n\n[3] la mantequilla = butter\n");
    let fronts = ["el pan", "el vino", "la mantequilla"];
    let backs = ["bread", "wine", "butter"];
    let mut results = Vec::new();
    for i in 0..3 {
        match &quiz.questions[i] {
            Question::Flashcard(q) => assert_eq!(q.prompt_text(), fronts[i]),
            _ => panic!("expected a flashcard"),
        }
        let (right, r) = answer(&quiz.questions[i], backs[i]);
        assert!(right);
        results.push(r);
    }
    assert_eq!(summarize(results, finished_at()).score, 1000);
}

#[test]
fn functional_tests_can_take_flipped_flashcard_quiz() {
    let mut quiz = load_earlier("[1] el pan = bread\n\n[2] el vino = wine\n\n[3] la mantequilla = butter\n");
    quiz.flip_all();
    let fronts = ["bread", "wine", "butter"];
    let backs = ["el pan", "el vino", "la mantequilla"];
    let mut results = Vec::new();
    for i in 0..3 {
        match &quiz.questions[i] {
            Question::Flashcard(q) => assert_eq!(q.prompt_text(), fronts[i]),
            _ => panic!("expected a flashcard"),
        }
        let (right, r) = answer(&quiz.questions[i], backs[i]);
        assert!(right);
        results.push(r);
    }
    assert_eq!(summarize(results, finished_at()).score, 1000);
}

#[test]
fn functional_tests_can_take_quiz_with_list_question() {
    let quiz = load_earlier(
        "[1] Name the five members of the UN Security Council.\nChina / PR China\nFrance\nRussia\nUS / USA\nUnited Kingdom / UK\n",
    );
    let q = match &quiz.questions[0] {
        Question::List(q) => q,
        _ => panic!("expected a list question"),
    };
    let mut session = q.start();
    let steps = [
        ("China", ListAction::Correct),
        ("PR China", ListAction::AlreadySaid),
        ("France", ListAction::Correct),
        ("Germany", ListAction::Incorrect),
        ("US", ListAction::Correct),
        ("United Kingdom", ListAction::Correct),
    ];
    for (guess, expected) in steps.iter() {
        assert_eq!(session.step(q, ListEvent::Guess(s(guess))), *expected);
    }
    let (missed, result) = session.finish(q);
    assert_eq!(missed, vec![s("Russia")]);
    assert_eq!(result.score, 800);
}

#[test]
fn functional_tests_no_credit_answers_work() {
    let quiz = load_earlier(
        "[1] Name the three largest cities of the Inland Empire.\nRiverside\nSan Bernardino\nFontana\n- nocredit: Ontario / Corona\n",
    );
    let q = match &quiz.questions[0] {
        Question::List(q) => q,
        _ => panic!("expected a list question"),
    };
    let mut session = q.start();
    for (guess, expected) in [
        ("Riverside", ListAction::Correct),
        ("Ontario", ListAction::NoCredit),
        ("San Bernardino", ListAction::Correct),
        ("Corona", ListAction::NoCredit),
        ("Fontana", ListAction::Correct),
    ]
    .iter()
    {
        assert_eq!(session.step(q, ListEvent::Guess(s(guess))), *expected);
    }
    let (_, result) = session.finish(q);
    assert_eq!(result.score, 1000);
}

#[test]
fn functional_tests_quiz_instructions_are_displayed() {
    let quiz = load_earlier(
        "- instructions: Include the state's postal code.\n\n[1] What is the capital of Michigan?\nLansing, MI\n",
    );
    assert_eq!(quiz.instructions, Some(s("Include the state's postal code.")));
    assert!(answer(&quiz.questions[0], "Lansing, MI").0);
}

#[test]
fn functional_tests_flashcards_context() {
    let mut quiz = load_earlier("[1] to read [perf] = прочитать [bleh]\n");
    match &quiz.questions[0] {
        Question::Flashcard(q) => assert_eq!(q.prompt_text(), "to read [perf]"),
        _ => panic!("expected a flashcard"),
    }
    assert!(answer(&quiz.questions[0], "прочитать").0);
    quiz.flip_all();
    match &quiz.questions[0] {
        Question::Flashcard(q) => assert_eq!(q.prompt_text(), "прочитать [bleh]"),
        _ => panic!("expected a flashcard"),
    }
    assert!(answer(&quiz.questions[0], "to read").0);
}
