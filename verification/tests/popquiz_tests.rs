//! The JSON quiz program: filtering, checking answers and expanding the short
//! forms of its quiz files.
use drill::json::{expand_quiz_json, normalize_question_json, JsonValue};
use drill::popquiz::{filter_question, Answer, Question, QuizFilterOptions};

fn s(x: &str) -> String {
    String::from(x)
}

fn js(x: &str) -> JsonValue {
    JsonValue::Str(s(x))
}

fn arr(items: Vec<JsonValue>) -> JsonValue {
    JsonValue::Array(items)
}

fn obj(fields: Vec<(&str, JsonValue)>) -> JsonValue {
    JsonValue::Object(fields.into_iter().map(|(k, v)| (s(k), v)).collect())
}

/// The field `key` of the object `v`.
fn field<'a>(v: &'a JsonValue, key: &str) -> Option<&'a JsonValue> {
    match v {
        JsonValue::Object(fields) => fields.iter().find(|(k, _)| k == key).map(|(_, v)| v),
        _ => None,
    }
}

fn same(a: &JsonValue, b: &JsonValue) -> bool {
    format!("{:?}", a) == format!("{:?}", b)
}

/// The first question of an expanded quiz.
fn first_question(quiz: &JsonValue) -> &JsonValue {
    match field(quiz, "questions") {
        Some(JsonValue::Array(qs)) => &qs[0],
        _ => panic!("the quiz has no questions"),
    }
}

fn field_count(v: &JsonValue) -> usize {
    match v {
        JsonValue::Object(fields) => fields.len(),
        _ => 0,
    }
}

fn variants(list: &[&str]) -> JsonValue {
    obj(vec![("variants", arr(list.iter().map(|x| js(x)).collect()))])
}

#[test]
fn can_filter_by_tag() {
    let mut q = Question::new("What is the capital of China", "Beijing");
    q.tags.push(s("geography"));

    let mut options = QuizFilterOptions::new();
    assert!(filter_question(&q, &options));

    options.tags.push(s("geography"));
    assert!(filter_question(&q, &options));

    options.tags.push(s("history"));
    assert!(!filter_question(&q, &options));
}

#[test]
fn can_filter_by_excluding_tag() {
    let mut q = Question::new("What is the capital of China", "Beijing");
    q.tags.push(s("geography"));

    let mut options = QuizFilterOptions::new();
    options.exclude.push(s("geography"));
    assert!(!filter_question(&q, &options));
}

#[test]
fn can_filter_by_keyword() {
    let q = Question::new("What is the capital of China", "Beijing");

    let mut options = QuizFilterOptions::new();
    options.keywords.push(s("china"));
    assert!(filter_question(&q, &options));

    options.keywords.push(s("river"));
    assert!(!filter_question(&q, &options));
}

#[test]
fn lib_checking_answers_works() {
    let ans = Answer { variants: vec![s("Barack Obama"), s("Obama")] };

    assert!(ans.check("Barack Obama"));
    assert!(ans.check("barack obama"));
    assert!(ans.check("Obama"));
    assert!(ans.check("obama"));
    assert!(!ans.check("Mitt Romney"));
}

#[test]
fn can_expand_short_answer_json() {
    let input = obj(vec![(
        "questions",
        arr(vec![obj(vec![("text", js("When did WW2 start?")), ("answer", js("1939"))])]),
    )]);
    let output = expand_quiz_json(input);
    let q = first_question(&output);
    assert!(same(field(q, "kind").unwrap(), &js("ShortAnswer")));
    assert!(same(field(q, "text").unwrap(), &arr(vec![js("When did WW2 start?")])));
    assert!(same(field(q, "answer_list").unwrap(), &arr(vec![variants(&["1939"])])));
    assert!(field(q, "answer").is_none());
    assert_eq!(field_count(q), 3);
}

#[test]
fn can_expand_list_answer_json() {
    let input = obj(vec![(
        "questions",
        arr(vec![obj(vec![
            ("kind", js("ListAnswer")),
            ("text", js("List the four countries of the United Kingdom.")),
            (
                "answer_list",
                arr(vec![
                    js("England"),
                    js("Scotland"),
                    arr(vec![js("Northern Ireland"), js("N. Ireland")]),
                    js("Wales"),
                ]),
            ),
        ])]),
    )]);
    let output = expand_quiz_json(input);
    let q = first_question(&output);
    assert!(same(field(q, "kind").unwrap(), &js("ListAnswer")));
    assert!(same(
        field(q, "text").unwrap(),
        &arr(vec![js("List the four countries of the United Kingdom.")])
    ));
    let expected = arr(vec![
        variants(&["England"]),
        variants(&["Scotland"]),
        variants(&["Northern Ireland", "N. Ireland"]),
        variants(&["Wales"]),
    ]);
    assert!(same(field(q, "answer_list").unwrap(), &expected));
    assert_eq!(field_count(q), 3);
}

#[test]
fn can_expand_multiple_choice_json() {
    let candidates = arr(vec![js("Thai"), js("French"), js("Vietnamese"), js("Burmese"), js("Tagalog")]);
    let input = obj(vec![(
        "questions",
        arr(vec![obj(vec![
            ("kind", js("MultipleChoice")),
            ("text", js("What language is spoken in Cambodia?")),
            ("candidates", candidates),
            ("answer", js("Khmer")),
        ])]),
    )]);
    let output = expand_quiz_json(input);
    let q = first_question(&output);
    assert!(same(field(q, "kind").unwrap(), &js("MultipleChoice")));
    assert!(same(field(q, "text").unwrap(), &arr(vec![js("What language is spoken in Cambodia?")])));
    let expected_candidates = arr(vec![js("Thai"), js("French"), js("Vietnamese"), js("Burmese"), js("Tagalog")]);
    assert!(same(field(q, "candidates").unwrap(), &expected_candidates));
    assert!(same(field(q, "answer_list").unwrap(), &arr(vec![variants(&["Khmer"])])));
    assert!(field(q, "answer").is_none());
    assert_eq!(field_count(q), 4);
}

#[test]
fn array_answer_becomes_variants() {
    let q = vec![(s("text"), arr(vec![js("Who?")])), (s("answer"), arr(vec![js("Barack Obama"), js("Obama")]))];
    let out = normalize_question_json(&q);
    let v = JsonValue::Object(out);
    assert!(same(field(&v, "answer_list").unwrap(), &arr(vec![variants(&["Barack Obama", "Obama"])])));
    assert!(same(field(&v, "text").unwrap(), &arr(vec![js("Who?")])));
}

#[test]
fn answer_list_wins_over_answer() {
    let q = vec![
        (s("text"), js("Who?")),
        (s("answer_list"), arr(vec![js("A")])),
        (s("answer"), js("B")),
    ];
    let v = JsonValue::Object(normalize_question_json(&q));
    assert!(same(field(&v, "answer_list").unwrap(), &arr(vec![variants(&["A"])])));
    assert!(same(field(&v, "answer").unwrap(), &js("B")));
}

#[test]
fn non_object_questions_are_left_alone() {
    let input = obj(vec![("questions", arr(vec![js("not a question"), JsonValue::Null]))]);
    let output = expand_quiz_json(input);
    match field(&output, "questions") {
        Some(JsonValue::Array(qs)) => {
            assert!(same(&qs[0], &js("not a question")));
            assert!(same(&qs[1], &JsonValue::Null));
        },
        _ => panic!("questions are missing"),
    }
}

#[test]
fn normalizing_twice_is_normalizing_once() {
    let q = vec![
        (s("text"), js("Who was the first president?")),
        (s("answer"), arr(vec![js("George Washington"), js("Washington")])),
        (s("tags"), arr(vec![js("history")])),
    ];
    let once = normalize_question_json(&q);
    let twice = normalize_question_json(&once);
    assert!(same(&JsonValue::Object(once), &JsonValue::Object(twice)));
    let q = vec![(s("text"), arr(vec![js("Name two")])), (s("answer_list"), arr(vec![js("a"), arr(vec![js("b"), js("B")])]))];
    let once = normalize_question_json(&q);
    let twice = normalize_question_json(&once);
    assert!(same(&JsonValue::Object(once), &JsonValue::Object(twice)));
}
