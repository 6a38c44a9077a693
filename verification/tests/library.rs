//! The rest of the library, on concrete values: the command line, results,
//! paths, ordering, sessions of the JSON quiz program and the second quiz model.
use drill::cli::{parse_count, parse_options, parse_results_options, parse_take_options, Request};
use drill::common::{filter_tags, Command, FilterOptions, Location, QuizError, TakeOptions};
use drill::paths::{get_results_dir_path, get_results_path, results_file_name};
use drill::persistence::{parse, StoredResults};
use drill::popquiz::{
    is_known_sort, is_yes, list_tags, respect_dependencies, stable_sort_by_key, tally, Question as PopQuestion,
    Quiz as PopQuiz, QuizTakeOptions, Reply, ReplyAction,
};
use drill::quiz::{mkresult, summarize, Quiz, QuizResult, Timestamp};
use drill::quiz2::{
    check as check2, choose_questions2, questions_from_rows, Answer2, AnswerRow, Question2, QuestionType, Quiz2,
    TakeAction2, TakeEvent2,
};
use drill::repetition::{choose_questions, get_bucket};
use drill::session::{ListEvent, OrderedAction};
use drill::results::{append_grouped, result_rows, results_mean, sort_order, str_before, SortOrder};
use drill::session::{classify_response, editor_args, letter_index};
use drill::text::{lowercase, normalize, split_trim, trim_str};

/// The time at which a quiz is said to be finished in these tests.
fn finished_at() -> Timestamp {
    Timestamp { secs: 1_600_000_000, nanos: 0 }
}

fn s(x: &str) -> String {
    String::from(x)
}

fn args(words: &[&str]) -> Vec<String> {
    words.iter().map(|w| s(w)).collect()
}

fn result(id: &str, score: u64) -> drill::quiz::QuestionResult {
    mkresult(id, "text", None, score)
}

#[test]
fn take_options_defaults() {
    let o = parse_take_options(&args(&[])).unwrap();
    assert_eq!(o.name, "main");
    assert_eq!(o.num_to_ask, 20);
    assert!(!o.flip && !o.in_order && !o.no_save);
}

#[test]
fn take_options_read_every_flag() {
    let o = parse_take_options(&args(&[
        "--take", "geo", "--flip", "--in-order", "-n", "+5", "--no-save", "--tag", "europe", "--exclude", "asia",
    ]))
    .unwrap();
    assert_eq!(o.name, "geo");
    assert!(o.flip && o.in_order && o.no_save);
    assert_eq!(o.num_to_ask, 5);
    assert_eq!(o.filter_opts.tags, vec![s("europe")]);
    assert_eq!(o.filter_opts.exclude, vec![s("asia")]);
}

#[test]
fn take_options_errors() {
    assert_eq!(parse_take_options(&args(&["-n"])).err().unwrap(), "Option -n expected an argument.");
    assert_eq!(parse_take_options(&args(&["-n", "--flip"])).err().unwrap(), "Option -n expected an argument.");
    assert_eq!(parse_take_options(&args(&["-n", "five"])).err().unwrap(), "Expected integer argument to -n.");
    assert_eq!(parse_take_options(&args(&["--bogus"])).err().unwrap(), "Unexpected option --bogus.");
    assert_eq!(
        parse_take_options(&args(&["a", "b"])).err().unwrap(),
        "Unexpected positional argument 'b'."
    );
}

#[test]
fn results_options_and_dispatch() {
    let o = parse_results_options(&args(&["--results", "long"])).unwrap();
    assert_eq!(o.name, "long");
    assert_eq!(o.sort, "best");
    assert!(o.num_to_show.is_none());
    assert_eq!(parse_results_options(&args(&["--results", "-x"])).err().unwrap(), "Unexpected option -x.");
    match parse_options(&args(&["--no-color", "--results", "q"])).unwrap() {
        Request::Run(o) => {
            assert!(o.no_color);
            match o.cmd {
                Command::Results(r) => assert_eq!(r.name, "q"),
                _ => panic!("expected the results subcommand"),
            }
        },
        Request::Help => panic!("expected a subcommand"),
    }
    assert!(matches!(parse_options(&args(&["--help"])).unwrap(), Request::Help));
    match parse_options(&args(&[])).unwrap() {
        Request::Run(o) => assert!(matches!(o.cmd, Command::Take(_))),
        Request::Help => panic!("expected a subcommand"),
    }
}

#[test]
fn counts_are_read_like_from_str_radix() {
    assert_eq!(parse_count("42"), Some(42));
    assert_eq!(parse_count("+7"), Some(7));
    assert_eq!(parse_count("+"), None);
    assert_eq!(parse_count(""), None);
    assert_eq!(parse_count("-1"), None);
    assert_eq!(parse_count("99999999999999999999999"), None);
}

#[test]
fn results_are_stored_next_to_the_quiz() {
    assert_eq!(results_file_name("test1"), "test1_results.json");
    assert_eq!(get_results_dir_path("tests/quizzes/test1"), "tests/quizzes/results");
    assert_eq!(get_results_path("tests/quizzes/test1").unwrap(), "tests/quizzes/results/test1_results.json");
    assert_eq!(get_results_path("test1").unwrap(), "results/test1_results.json");
    match get_results_path("") {
        Err(e) => assert_eq!(e.message(), "could not find quiz named ''"),
        Ok(_) => panic!("an empty path has no file name"),
    }
}

#[test]
fn recorded_results_follow_the_old_ones() {
    let mut stored = StoredResults::new();
    stored.insert(s("1"), vec![result("1", 1000)]);
    let summary: QuizResult = summarize(vec![result("1", 0), result("2", 1000), result("1", 500)], finished_at());
    stored.record(&summary);
    let one = stored.get("1").unwrap();
    assert_eq!(one.iter().map(|r| r.score).collect::<Vec<u64>>(), vec![1000, 0, 500]);
    let two = stored.get("2").unwrap();
    assert_eq!(two.iter().map(|r| r.score).collect::<Vec<u64>>(), vec![1000]);
    assert!(stored.get("3").is_none());
    assert_eq!(stored.len(), 2);
}

#[test]
fn grouped_items_are_appended_in_order() {
    let mut store: Vec<(String, Vec<u32>)> = vec![(s("a"), vec![1])];
    append_grouped(&mut store, vec![(s("b"), 2), (s("a"), 3), (s("b"), 4)]);
    assert_eq!(store, vec![(s("a"), vec![1, 3]), (s("b"), vec![2, 4])]);
}

#[test]
fn mean_of_results() {
    assert_eq!(results_mean(&vec![]), None);
    assert_eq!(results_mean(&vec![result("1", 1000), result("1", 0), result("1", 500)]), Some(500));
    assert_eq!(results_mean(&vec![result("1", 1000), result("1", 0), result("1", 0)]), Some(333));
}

#[test]
fn results_table_best_first() {
    let quiz: Quiz = parse(
        "[1] What is the capital of Mongolia?\nUlan Bator\n\n[2] What is the capital of Chad?\nN'Djamena\n\n[3] What is the capital of Peru?\nLima\n",
        "q",
        &StoredResults::new(),
    )
    .unwrap();
    let mut stored = StoredResults::new();
    stored.insert(s("3"), vec![result("3", 1000), result("3", 1000)]);
    stored.insert(s("1"), vec![result("1", 1000), result("1", 0)]);
    stored.insert(s("2"), vec![result("2", 1000)]);
    stored.insert(s("9"), vec![result("9", 1000)]);
    stored.insert(s("4"), vec![]);
    let rows = result_rows(&quiz, &stored, SortOrder::Best, None);
    let ids: Vec<&str> = rows.iter().map(|r| r.id.as_str()).collect();
    assert_eq!(ids, vec!["3", "2", "1"]);
    assert_eq!(rows[2].score, 500);
    assert_eq!(rows[2].attempts, 2);
    assert_eq!(rows[2].text, "What is the capital of Mongolia?");
}

#[test]
fn string_order() {
    assert!(str_before("abc", "abd"));
    assert!(str_before("ab", "abc"));
    assert!(!str_before("abc", "abc"));
    assert!(str_before("Zebra", "apple"));
}

#[test]
fn tags_filter() {
    let tags = vec![s("europe"), s("capitals")];
    let mut o = FilterOptions { exclude: Vec::new(), tags: Vec::new() };
    assert!(filter_tags(&tags, &o));
    o.tags.push(s("asia"));
    assert!(!filter_tags(&tags, &o));
    o.tags.push(s("europe"));
    assert!(filter_tags(&tags, &o));
    o.exclude.push(s("capitals"));
    assert!(!filter_tags(&tags, &o));
}

#[test]
fn text_helpers() {
    assert_eq!(trim_str("  a b \n"), "a b");
    assert_eq!(split_trim(" a / b /c", "/"), vec![s("a"), s("b"), s("c")]);
    assert_eq!(lowercase("ÉCOLE"), "école");
    assert_eq!(normalize("E\u{0301}cole"), "\u{00e9}cole");
}

#[test]
fn error_messages() {
    assert_eq!(QuizError::QuizNotFound(s("main")).message(), "could not find quiz named 'main'");
    assert_eq!(QuizError::Json(s("bad")).message(), "could not parse JSON (bad)");
    assert_eq!(QuizError::CannotWriteToFile(s("f")).message(), "could not write to file 'f'");
    assert_eq!(QuizError::Io(s("oops")).message(), "IO error (oops)");
    assert_eq!(QuizError::EmptyQuiz.message(), "no questions found");
    assert_eq!(QuizError::ReadlineInterrupted.message(), "");
    assert_eq!(QuizError::CannotOpenEditor.message(), "unable to open text editor");
    assert_eq!(QuizError::SignalMarkCorrect.message(), "internal error ('SignalMarkCorrect')");
    assert_eq!(QuizError::SignalEdit.message(), "internal error ('SignalEdit')");
    assert_eq!(
        QuizError::Parse { line: 12, whole_entry: false, message: s("expected colon") }.message(),
        "expected colon on line 12"
    );
}

#[test]
fn responses_are_classified() {
    assert!(matches!(classify_response(Some(s("!!"))), Err(QuizError::SignalMarkCorrect)));
    assert!(matches!(classify_response(Some(s("!e"))), Err(QuizError::SignalEdit)));
    assert!(matches!(classify_response(Some(s("!edit"))), Err(QuizError::SignalEdit)));
    assert!(matches!(classify_response(Some(s("!edits"))), Ok(Some(_))));
    assert!(matches!(classify_response(None), Ok(None)));
    match classify_response(Some(s("Lima"))) {
        Ok(Some(x)) => assert_eq!(x, "Lima"),
        _ => panic!("an answer is kept"),
    }
}

#[test]
fn editor_arguments() {
    let loc = Location { line: 7, path: s("quiz") };
    assert_eq!(editor_args("vim", &loc), vec![s("quiz"), s("+7")]);
    assert_eq!(editor_args("nano", &loc), vec![s("quiz")]);
}

#[test]
fn letters_name_choices() {
    assert_eq!(letter_index("a"), Some(0));
    assert_eq!(letter_index("D"), Some(3));
    assert_eq!(letter_index("e"), None);
    assert_eq!(letter_index("ab"), None);
}

#[test]
fn chosen_questions_in_order() {
    let quiz: Quiz = parse(
        "[1] a = b\n\n[2] c = d\n- tags: x\n\n[3] e = f\n- tags: y\n",
        "q",
        &StoredResults::new(),
    )
    .unwrap();
    let mut o = TakeOptions {
        name: s("q"),
        flip: false,
        in_order: true,
        no_save: true,
        num_to_ask: 20,
        random: false,
        filter_opts: FilterOptions { exclude: vec![s("y")], tags: Vec::new() },
    };
    assert_eq!(choose_questions(&quiz.questions, &o), vec![0, 1]);
    o.random = true;
    o.num_to_ask = 1;
    assert_eq!(choose_questions(&quiz.questions, &o).len(), 1);
}

#[test]
fn popquiz_yes_and_sorts() {
    assert!(is_yes("  Yes"));
    assert!(is_yes("y"));
    assert!(!is_yes("no"));
    assert!(!is_yes(""));
    assert!(is_known_sort("worst"));
    assert!(!is_known_sort("random"));
}

#[test]
fn popquiz_tags_are_counted() {
    let mut a = PopQuestion::new("a", "b");
    a.tags = vec![s("geo"), s("asia")];
    let mut b = PopQuestion::new("c", "d");
    b.tags = vec![s("geo")];
    let quiz = PopQuiz { questions: vec![a, b] };
    assert_eq!(list_tags(&quiz), vec![(s("asia"), 1), (s("geo"), 2)]);
}

#[test]
fn popquiz_dependencies_are_respected() {
    let mut a = PopQuestion::new("a", "b");
    a.depends = Some(s("first"));
    let mut b = PopQuestion::new("c", "d");
    b.id = Some(s("first"));
    let quiz = PopQuiz { questions: vec![a, b] };
    let mut chosen = vec![0, 1];
    respect_dependencies(&quiz, &mut chosen);
    assert_eq!(chosen, vec![1, 0]);
}

#[test]
fn popquiz_stable_sort() {
    let keys = vec![3, 1, 3, 2];
    assert_eq!(stable_sort_by_key(&vec![0, 1, 2, 3], &keys, false), vec![1, 3, 0, 2]);
    assert_eq!(stable_sort_by_key(&vec![0, 1, 2, 3], &keys, true), vec![0, 2, 3, 1]);
}

#[test]
fn popquiz_choose_most_attempted() {
    let mut a = PopQuestion::new("a", "b");
    a.prior_results.push(drill::popquiz::PastResult { time_asked: Timestamp { secs: 0, nanos: 0 }, response: None, graded: true });
    let b = PopQuestion::new("c", "d");
    let quiz = PopQuiz { questions: vec![b, a] };
    let mut o = QuizTakeOptions::new();
    o.in_order = true;
    o.most = Some(1);
    assert_eq!(quiz.choose_questions(&o, &vec![None, Some(0)]), vec![1]);
    o.most = None;
    o.best = Some(5);
    assert_eq!(quiz.choose_questions(&o, &vec![None, Some(0)]), vec![1]);
}

#[test]
fn popquiz_list_session() {
    let mut q = PopQuestion::new("Name two.", "x");
    q.answer_list = vec![
        drill::popquiz::Answer { variants: vec![s("Foo")] },
        drill::popquiz::Answer { variants: vec![s("Bar")] },
    ];
    let mut session = q.start_list();
    assert_eq!(session.step(&q, Reply::Answer(s("foo"))), ReplyAction::Correct);
    assert_eq!(session.step(&q, Reply::Answer(s("FOO"))), ReplyAction::AlreadySaid);
    assert_eq!(session.step(&q, Reply::Answer(s("baz"))), ReplyAction::Incorrect);
    assert!(session.is_done());
    let (missed, found) = session.finish(&q);
    assert_eq!(missed, vec![s("Bar")]);
    assert_eq!(found, 1);
}

#[test]
fn popquiz_short_answer_and_tally() {
    let q = PopQuestion::new("What?", "Yes");
    let g = q.grade_short_answer(Some(s("YES")));
    assert!(g.correct);
    assert_eq!(g.response, Some(s("yes")));
    assert!(!q.grade_short_answer(None).correct);
    let t = tally(&vec![Some((1, 1)), Some((0, 1)), Some((1, 2)), None]);
    assert_eq!(t.total_answered, 4);
    assert_eq!(t.total_correct, 1);
    assert_eq!(t.total_partially_correct, 1);
    assert_eq!(t.total_incorrect, 1);
    assert_eq!(t.total_ungraded, 1);
}

fn row(id: i64, text: &str, kind: &str, answer: &str) -> AnswerRow {
    AnswerRow {
        question_id: id,
        question_text: s(text),
        question_type: s(kind),
        answer_text: s(answer),
        correct: 1,
        no_credit: 0,
    }
}

#[test]
fn rows_are_grouped_into_questions() {
    let rows = vec![
        row(1, "What is the capital of Tanzania?", "short answer", "Dodoma"),
        row(2, "Pick one.", "multiple choice", "A"),
        row(1, "What is the capital of Tanzania?", "short answer", "Dar es Salaam"),
    ];
    let qs = questions_from_rows(&rows);
    assert_eq!(qs.len(), 2);
    assert_eq!(qs[0].id, 1);
    assert_eq!(qs[0].answers.len(), 2);
    assert_eq!(qs[0].answers[1].variants, vec![s("Dar es Salaam")]);
    assert_eq!(qs[1].question_type, QuestionType::MultipleChoice);
}

#[test]
fn second_model_quiz_is_taken() {
    let q = Question2 {
        id: 1,
        text: s("What is the capital of Tanzania?"),
        question_type: QuestionType::ShortAnswer,
        answers: vec![Answer2 { variants: vec![s("Dodoma")], correct: true, no_credit: false }],
    };
    assert!(check2(&q.answers[0], "dodoma"));
    let quiz = Quiz2 { instructions: None, questions: vec![q], version: s("1.0") };
    let o = TakeOptions {
        name: s("q"),
        flip: false,
        in_order: false,
        no_save: true,
        num_to_ask: 20,
        random: false,
        filter_opts: FilterOptions { exclude: Vec::new(), tags: Vec::new() },
    };
    assert_eq!(choose_questions2(&quiz.questions, &o), vec![0]);
    let mut take = quiz.start_take(&o).unwrap();
    let g = quiz.questions[take.current()].grade(Some(s("Dar es Salaam")));
    assert!(!g.correct);
    assert!(matches!(take.step(TakeEvent2::Answered(g.result)), TakeAction2::Finish));
    let summary = take.finish(finished_at());
    assert_eq!(summary.total, 1);
    assert_eq!(summary.score, 0);
    assert_eq!(summary.total_incorrect, 1);
}

#[test]
fn empty_quiz_cannot_be_taken() {
    let quiz = Quiz2 { instructions: None, questions: vec![], version: s("1.0") };
    let o = TakeOptions {
        name: s("q"),
        flip: false,
        in_order: false,
        no_save: true,
        num_to_ask: 20,
        random: false,
        filter_opts: FilterOptions { exclude: Vec::new(), tags: Vec::new() },
    };
    assert!(matches!(quiz.start_take(&o), Err(QuizError::EmptyQuiz)));
}

#[test]
fn popquiz_text_is_one_of_the_variants() {
    let mut q = PopQuestion::new("What is the capital of France?", "Paris");
    q.text.push(String::from("Which city is the capital of France?"));
    for _ in 0..20 {
        let t = q.pick_text();
        assert!(t == q.text[0] || t == q.text[1]);
    }
    let single = PopQuestion::new("Only text", "x");
    assert_eq!(single.pick_text(), "Only text");
}

/// The table of the results of a quiz of seven questions, listed as the results
/// subcommand lists it for the options `words`.
fn long_quiz_table(words: &[&str]) -> Vec<(String, u64, usize)> {
    let quiz: Quiz = parse(
        "[1] What are the three core types of objects in the Git version control system?\nblobs, trees, commits\n\n\
         [2] What are the four layers of the network stack, from lowest to highest?\nlink, internet, transport, application\n\n\
         [3] What application-level communications protocol is used to deliver mail between email servers?\nSMTP\n\n\
         [4] What application-level communications protocol is used by email clients to retrieve mail from email servers, replacing the earlier POP3 standard?\nIMAP\n\n\
         [5] What application-level communications protocol is used by routers to assign IP addresses dynamically?\nDHCP\n\n\
         [6] For a connected graph, what is the term for the acyclic connected subgraph with the minimum sum of edge weights?\nminimum spanning tree\n\n\
         [7] What is the name for a concurrency primitive that supports two operations, acquire and release?\nlock\n",
        "tests/quizzes/long/long",
        &StoredResults::new(),
    )
    .unwrap();
    let mut stored = StoredResults::new();
    stored.insert(s("1"), vec![result("1", 1000), result("1", 666), result("1", 0)]);
    stored.insert(s("2"), vec![result("2", 1000), result("2", 750), result("2", 0)]);
    stored.insert(s("3"), vec![result("3", 1000), result("3", 1000)]);
    stored.insert(s("4"), vec![result("4", 1000), result("4", 1000)]);
    stored.insert(s("5"), vec![result("5", 1000), result("5", 1000), result("5", 1000)]);
    stored.insert(s("6"), vec![result("6", 1000), result("6", 1000), result("6", 0)]);
    stored.insert(s("7"), vec![result("7", 1000), result("7", 1000)]);
    let options = match parse_options(&args(words)).unwrap() {
        Request::Run(o) => match o.cmd {
            Command::Results(r) => r,
            _ => panic!("expected the results subcommand"),
        },
        Request::Help => panic!("expected the results subcommand"),
    };
    assert_eq!(options.name, "tests/quizzes/long/long");
    let order = sort_order(&options.sort).unwrap();
    result_rows(&quiz, &stored, order, options.num_to_show)
        .into_iter()
        .map(|r| (r.id, r.score, r.attempts))
        .collect()
}

#[test]
fn results_subcommand_works() {
    assert_eq!(
        long_quiz_table(&["--no-color", "--results", "tests/quizzes/long/long"]),
        vec![
            (s("5"), 1000, 3),
            (s("3"), 1000, 2),
            (s("4"), 1000, 2),
            (s("7"), 1000, 2),
            (s("6"), 666, 3),
            (s("2"), 583, 3),
            (s("1"), 555, 3),
        ]
    );
    assert_eq!(
        long_quiz_table(&["--no-color", "--results", "tests/quizzes/long/long", "--sort", "worst", "-n", "3"]),
        vec![(s("1"), 555, 3), (s("2"), 583, 3), (s("6"), 666, 3)]
    );
    assert_eq!(
        long_quiz_table(&["--no-color", "--results", "tests/quizzes/long/long", "--sort", "most", "-n", "2"]),
        vec![(s("1"), 555, 3), (s("2"), 583, 3)]
    );
}

#[test]
fn results_options_sort_and_count() {
    let o = parse_results_options(&args(&["--results", "q", "--sort", "least", "-n", "4"])).unwrap();
    assert_eq!(o.sort, "least");
    assert_eq!(o.num_to_show, Some(4));
    assert_eq!(
        parse_results_options(&args(&["--results", "q", "--sort", "random"])).err().unwrap(),
        "Unknown value `random` for --sort."
    );
    assert_eq!(
        parse_results_options(&args(&["--results", "q", "-n", "many"])).err().unwrap(),
        "Expected integer argument to -n."
    );
    assert_eq!(parse_results_options(&args(&["--results", "-n"])).err().unwrap(), "Option -n expected an argument.");
}

#[test]
fn marking_an_ordered_answer_correct_counts_it_once() {
    let quiz: Quiz = parse("[1] Name two things in order.\n- ordered: true\nfoo\nbar\n", "q", &StoredResults::new()).unwrap();
    let q = match &quiz.questions[0] {
        drill::quiz::Question::OrderedList(q) => q,
        _ => panic!("expected an ordered list question"),
    };
    let mut session = q.start();
    assert_eq!(session.step(q, ListEvent::Guess(s("baz"))), OrderedAction::Incorrect(0));
    assert_eq!(session.step(q, ListEvent::MarkCorrect), OrderedAction::MarkedCorrect);
    assert_eq!(session.step(q, ListEvent::MarkCorrect), OrderedAction::AlreadyCorrect);
    assert_eq!(session.step(q, ListEvent::Guess(s("bar"))), OrderedAction::Correct);
    let r = session.finish(q);
    assert_eq!(r.score, 1000);
}

#[test]
fn buckets_of_questions() {
    assert_eq!(get_bucket(&vec![]), 0);
    assert_eq!(get_bucket(&vec![result("1", 0)]), 1);
    assert_eq!(get_bucket(&vec![result("1", 500)]), 1);
    assert_eq!(get_bucket(&vec![result("1", 1000)]), 1);
    assert_eq!(get_bucket(&vec![result("1", 1000), result("1", 1000), result("1", 0)]), 1);
    assert_eq!(get_bucket(&vec![result("1", 1000), result("1", 1000), result("1", 1000)]), 3);
    let six: Vec<_> = (0..6).map(|_| result("1", 1000)).collect();
    assert_eq!(get_bucket(&six), 4);
}

#[test]
fn unused_shares_spill_over_to_later_buckets() {
    let mut text = String::new();
    for i in 1..=30 {
        text.push_str(&format!("[{}] q{} = a{}\n\n", i, i, i));
    }
    let mut quiz: Quiz = parse(&text, "q", &StoredResults::new()).unwrap();
    for q in quiz.questions.iter_mut() {
        match q {
            drill::quiz::Question::Flashcard(f) => f.common.prior_results.push(result("x", 1000)),
            _ => panic!("expected a flashcard"),
        }
    }
    let o = TakeOptions {
        name: s("q"),
        flip: false,
        in_order: true,
        no_save: true,
        num_to_ask: 20,
        random: false,
        filter_opts: FilterOptions { exclude: Vec::new(), tags: Vec::new() },
    };
    let chosen = choose_questions(&quiz.questions, &o);
    assert_eq!(chosen.len(), 20);
    let mut none = o;
    none.num_to_ask = 0;
    assert!(choose_questions(&quiz.questions, &none).is_empty());
    assert!(matches!(quiz.start_take(&none), Err(QuizError::EmptyQuiz)));
}

#[test]
fn a_path_without_a_file_name_has_no_results_file() {
    assert!(get_results_path("/").is_err());
    assert_eq!(get_results_dir_path("/"), "results");
}

#[test]
fn multiple_choices_show_one_answer_and_distinct_wrong_choices() {
    let wrong = vec![s("w1"), s("w2"), s("w3"), s("w4"), s("w5")];
    let answer = vec![s("right"), s("also right")];
    for _ in 0..20 {
        let (shown, picked) = drill::session::pick_choices_from(&wrong, &answer);
        assert_eq!(shown.len(), 4);
        assert!(answer.contains(&picked));
        assert_eq!(shown.iter().filter(|c| answer.contains(c)).count(), 1);
        let mut others: Vec<&String> = shown.iter().filter(|c| !answer.contains(c)).collect();
        assert!(others.iter().all(|c| wrong.contains(c)));
        others.sort();
        others.dedup();
        assert_eq!(others.len(), 3);
    }
    let (shown, _) = drill::session::pick_choices_from(&vec![s("only")], &answer);
    assert_eq!(shown.len(), 2);
}
