//! JSON values as the library sees them, and the expansion of the short forms
//! that the JSON quiz format allows into the full form of a question.
use vstd::prelude::*;

use crate::format::{assoc_get, assoc_insert, keys_distinct};
use crate::persistence::{assoc_find, assoc_put};
use crate::results::lemma_assoc_insert_get;

verus! {

/// A JSON value. A number is kept as the text that writes it.
#[derive(Debug)]
pub enum JsonValue {
    Null,
    Bool(bool),
    Number(String),
    Str(String),
    Array(Vec<JsonValue>),
    Object(Vec<(String, JsonValue)>),
}

/// The mathematical value of a JSON value.
pub enum JsonView {
    Null,
    Bool(bool),
    Number(Seq<char>),
    Str(Seq<char>),
    Array(Seq<JsonView>),
    Object(Seq<(Seq<char>, JsonView)>),
}

/// The mathematical value of `v`.
pub open spec fn json_view(v: JsonValue) -> JsonView
    decreases v, 2nat,
{
    match v {
        JsonValue::Null => JsonView::Null,
        JsonValue::Bool(b) => JsonView::Bool(b),
        JsonValue::Number(n) => JsonView::Number(n@),
        JsonValue::Str(s) => JsonView::Str(s@),
        JsonValue::Array(items) => JsonView::Array(items_view(items@)),
        JsonValue::Object(fields) => JsonView::Object(fields_view(fields@)),
    }
}

/// The mathematical values of `items`.
pub open spec fn items_view(items: Seq<JsonValue>) -> Seq<JsonView>
    decreases items, 1nat,
{
    if items.len() == 0 {
        Seq::empty()
    } else {
        items_view(items.subrange(0, items.len() - 1)).push(json_view(items[items.len() - 1]))
    }
}

/// The mathematical values of the fields `fields`.
pub open spec fn fields_view(fields: Seq<(String, JsonValue)>) -> Seq<(Seq<char>, JsonView)>
    decreases fields, 1nat,
{
    if fields.len() == 0 {
        Seq::empty()
    } else {
        let last = fields[fields.len() - 1];
        fields_view(fields.subrange(0, fields.len() - 1)).push((last.0@, json_view(last.1)))
    }
}

impl View for JsonValue {
    type V = JsonView;

    open spec fn view(&self) -> JsonView {
        json_view(*self)
    }
}

impl DeepView for JsonValue {
    type V = JsonView;

    open spec fn deep_view(&self) -> JsonView {
        json_view(*self)
    }
}

/// The fields of an object, viewed one by one, are the view of the object.
proof fn lemma_fields_deep_view(fields: Vec<(String, JsonValue)>)
    ensures
        fields.deep_view() == fields_view(fields@),
{
    lemma_fields_view(fields@);
    assert(fields.deep_view() =~= fields_view(fields@));
}

proof fn lemma_items_view(items: Seq<JsonValue>)
    ensures
        items_view(items).len() == items.len(),
        forall|i: int| 0 <= i < items.len() ==> #[trigger] items_view(items)[i] == json_view(items[i]),
    decreases items.len(),
{
    if items.len() > 0 {
        let init = items.subrange(0, items.len() - 1);
        lemma_items_view(init);
        assert forall|i: int| 0 <= i < items.len() implies #[trigger] items_view(items)[i] == json_view(items[i]) by {
            if i < items.len() - 1 {
                assert(init[i] == items[i]);
            }
        }
    }
}

proof fn lemma_fields_view(fields: Seq<(String, JsonValue)>)
    ensures
        fields_view(fields).len() == fields.len(),
        forall|i: int|
            0 <= i < fields.len() ==> #[trigger] fields_view(fields)[i] == (fields[i].0@, json_view(fields[i].1)),
    decreases fields.len(),
{
    if fields.len() > 0 {
        let init = fields.subrange(0, fields.len() - 1);
        lemma_fields_view(init);
        assert forall|i: int| 0 <= i < fields.len() implies #[trigger] fields_view(fields)[i] == (
            fields[i].0@,
            json_view(fields[i].1),
        ) by {
            if i < fields.len() - 1 {
                assert(init[i] == fields[i]);
            }
        }
    }
}

/// A copy of `v`.
pub fn clone_json(v: &JsonValue) -> (r: JsonValue)
    ensures
        r@ == v@,
    decreases v,
{
    match v {
        JsonValue::Null => JsonValue::Null,
        JsonValue::Bool(b) => JsonValue::Bool(*b),
        JsonValue::Number(n) => JsonValue::Number(n.clone()),
        JsonValue::Str(s) => JsonValue::Str(s.clone()),
        JsonValue::Array(items) => JsonValue::Array(clone_items(items)),
        JsonValue::Object(fields) => JsonValue::Object(clone_fields(fields)),
    }
}

/// A copy of `items`.
pub fn clone_items(items: &Vec<JsonValue>) -> (r: Vec<JsonValue>)
    ensures
        items_view(r@) == items_view(items@),
    decreases items,
{
    let mut out: Vec<JsonValue> = Vec::new();
    let mut i: usize = 0;
    proof {
        lemma_items_view(items@);
    }
    while i < items.len()
        invariant
            0 <= i <= items.len(),
            items_view(out@) == items_view(items@).subrange(0, i as int),
            items_view(items@).len() == items@.len(),
        decreases items.len() - i,
    {
        assert(decreases_to!(items => items@[i as int]));
        let c = clone_json(&items[i]);
        let ghost before = out@;
        out.push(c);
        proof {
            assert(out@.subrange(0, out@.len() - 1) =~= before);
            lemma_items_view(items@);
            assert(items_view(items@).subrange(0, i + 1) =~= items_view(items@).subrange(0, i as int).push(
                json_view(items@[i as int]),
            ));
        }
        i += 1;
    }
    proof {
        assert(items_view(items@).subrange(0, items@.len() as int) =~= items_view(items@));
    }
    out
}

/// A copy of `fields`.
pub fn clone_fields(fields: &Vec<(String, JsonValue)>) -> (r: Vec<(String, JsonValue)>)
    ensures
        fields_view(r@) == fields_view(fields@),
    decreases fields,
{
    let mut out: Vec<(String, JsonValue)> = Vec::new();
    let mut i: usize = 0;
    proof {
        lemma_fields_view(fields@);
    }
    while i < fields.len()
        invariant
            0 <= i <= fields.len(),
            fields_view(out@) == fields_view(fields@).subrange(0, i as int),
            fields_view(fields@).len() == fields@.len(),
        decreases fields.len() - i,
    {
        assert(decreases_to!(fields => fields@[i as int].1));
        let c = clone_json(&fields[i].1);
        let k = fields[i].0.clone();
        let ghost before = out@;
        out.push((k, c));
        proof {
            assert(out@.subrange(0, out@.len() - 1) =~= before);
            lemma_fields_view(fields@);
            assert(fields_view(fields@).subrange(0, i + 1) =~= fields_view(fields@).subrange(0, i as int).push(
                (fields@[i as int].0@, json_view(fields@[i as int].1)),
            ));
        }
        i += 1;
    }
    proof {
        assert(fields_view(fields@).subrange(0, fields@.len() as int) =~= fields_view(fields@));
    }
    out
}

/// The list without the pair whose key is `k`, when there is one.
pub open spec fn assoc_remove<V>(m: Seq<(Seq<char>, V)>, k: Seq<char>) -> Seq<(Seq<char>, V)> {
    if exists|i: int| 0 <= i < m.len() && (#[trigger] m[i]).0 == k {
        let i = choose|i: int| 0 <= i < m.len() && (#[trigger] m[i]).0 == k;
        m.remove(i)
    } else {
        m
    }
}

/// The text `s` as a JSON value.
pub open spec fn json_str(s: Seq<char>) -> JsonView {
    JsonView::Str(s)
}

/// An answer in its full form: an array of spellings becomes
/// `{"variants": [...]}`, a single spelling becomes `{"variants": [it]}`, and
/// anything else is left as it is.
pub open spec fn expand_answer(a: JsonView) -> JsonView {
    match a {
        JsonView::Array(_) => JsonView::Object(seq![("variants"@, a)]),
        JsonView::Str(_) => JsonView::Object(seq![("variants"@, JsonView::Array(seq![a]))]),
        _ => a,
    }
}

/// The answer list made of the single answer `a`: `[{"variants": a}]` for an
/// array, `[{"variants": [a]}]` otherwise.
pub open spec fn single_answer_list(a: JsonView) -> JsonView {
    JsonView::Array(
        seq![
            JsonView::Object(
                seq![
                    (
                        "variants"@,
                        if a is Array {
                            a
                        } else {
                            JsonView::Array(seq![a])
                        },
                    ),
                ],
            ),
        ],
    )
}

/// A question with its kind: `ShortAnswer` when none is given.
pub open spec fn with_kind(m: Seq<(Seq<char>, JsonView)>) -> Seq<(Seq<char>, JsonView)> {
    if assoc_get(m, "kind"@) is None {
        assoc_insert(m, "kind"@, json_str("ShortAnswer"@))
    } else {
        m
    }
}

/// A question whose answer list, if it is an array, has each answer in its full form.
pub open spec fn with_full_answers(m: Seq<(Seq<char>, JsonView)>) -> Seq<(Seq<char>, JsonView)> {
    match assoc_get(m, "answer_list"@) {
        Some(JsonView::Array(items)) => assoc_insert(
            m,
            "answer_list"@,
            JsonView::Array(items.map_values(|a: JsonView| expand_answer(a))),
        ),
        _ => m,
    }
}

/// A question whose text, if it is a single string, is made a list of one.
pub open spec fn with_text_list(m: Seq<(Seq<char>, JsonView)>) -> Seq<(Seq<char>, JsonView)> {
    match assoc_get(m, "text"@) {
        Some(JsonView::Str(t)) => assoc_insert(m, "text"@, JsonView::Array(seq![json_str(t)])),
        _ => m,
    }
}

/// A question with an `answer` field and no `answer_list` gets the answer list
/// made of that answer, and loses the `answer` field.
pub open spec fn with_answer_list(m: Seq<(Seq<char>, JsonView)>) -> Seq<(Seq<char>, JsonView)> {
    if assoc_get(m, "answer_list"@) is None {
        match assoc_get(m, "answer"@) {
            Some(a) => assoc_remove(assoc_insert(m, "answer_list"@, single_answer_list(a)), "answer"@),
            None => m,
        }
    } else {
        m
    }
}

/// A question object of the quiz file in the full form that the quiz model
/// reads: the four expansions, one after the other.
pub open spec fn normalized(q: Seq<(Seq<char>, JsonView)>) -> Seq<(Seq<char>, JsonView)> {
    with_answer_list(with_text_list(with_full_answers(with_kind(q))))
}

/// Removing a key keeps the keys distinct.
proof fn lemma_assoc_remove_distinct<V>(m: Seq<(Seq<char>, V)>, k: Seq<char>)
    requires
        keys_distinct(m),
    ensures
        keys_distinct(assoc_remove(m, k)),
{
    if exists|i: int| 0 <= i < m.len() && (#[trigger] m[i]).0 == k {
        let i = choose|i: int| 0 <= i < m.len() && (#[trigger] m[i]).0 == k;
        let n = m.remove(i);
        assert forall|a: int, b: int| 0 <= a < b < n.len() implies (#[trigger] n[a]).0 != (#[trigger] n[b]).0 by {
            let a2 = if a < i { a } else { a + 1 };
            let b2 = if b < i { b } else { b + 1 };
            assert(n[a] == m[a2] && n[b] == m[b2]);
        }
    }
}

/// Remove the pair whose key is `k`, if there is one.
pub fn json_remove(m: &mut Vec<(String, JsonValue)>, k: &str)
    requires
        keys_distinct(old(m).deep_view()),
    ensures
        keys_distinct(final(m).deep_view()),
        final(m).deep_view() == assoc_remove(old(m).deep_view(), k@),
{
    let ghost before = m.deep_view();
    proof {
        lemma_assoc_remove_distinct(before, k@);
    }
    match assoc_find(m, k) {
        Some(i) => {
            let ghost raw = m@;
            m.remove(i);
            proof {
                let c = choose|c: int| 0 <= c < before.len() && (#[trigger] before[c]).0 == k@;
                if c != i {
                    if c < i {
                        assert(before[c].0 != before[i as int].0);
                    } else {
                        assert(before[i as int].0 != before[c].0);
                    }
                }
                assert(m@ == raw.remove(i as int));
                assert(m.deep_view() =~= before.remove(i as int));
            }
        },
        None => {},
    }
}

/// A single-field object `{key: value}`.
pub fn singleton_object(key: &str, value: JsonValue) -> (r: JsonValue)
    ensures
        r@ == JsonView::Object(seq![(key@, value@)]),
{
    let mut fields: Vec<(String, JsonValue)> = Vec::new();
    fields.push((String::from_str(key), value));
    proof {
        lemma_fields_view(fields@);
        assert(fields_view(fields@) =~= seq![(key@, value@)]);
    }
    JsonValue::Object(fields)
}

/// A one-element array `[value]`.
pub fn singleton_array(value: JsonValue) -> (r: JsonValue)
    ensures
        r@ == JsonView::Array(seq![value@]),
{
    let mut items: Vec<JsonValue> = Vec::new();
    items.push(value);
    proof {
        lemma_items_view(items@);
        assert(items_view(items@) =~= seq![value@]);
    }
    JsonValue::Array(items)
}

/// An answer in its full form (see `expand_answer`).
pub fn expand_answer_json(a: &JsonValue) -> (r: JsonValue)
    ensures
        r@ == expand_answer(a@),
{
    match a {
        JsonValue::Array(_) => singleton_object("variants", clone_json(a)),
        JsonValue::Str(_) => singleton_object("variants", singleton_array(clone_json(a))),
        _ => clone_json(a),
    }
}

/// What a list with distinct keys holds: a key has no value exactly when no pair
/// has it, and the value of a key is the one paired with it.
proof fn lemma_assoc_get_in<V>(m: Seq<(Seq<char>, V)>, k: Seq<char>)
    requires
        keys_distinct(m),
    ensures
        assoc_get(m, k) is None <==> forall|i: int| 0 <= i < m.len() ==> (#[trigger] m[i]).0 != k,
        forall|i: int| 0 <= i < m.len() && (#[trigger] m[i]).0 == k ==> assoc_get(m, k) == Some(m[i].1),
    decreases m.len(),
{
    if m.len() > 0 {
        let rest = m.drop_first();
        assert forall|a: int, b: int| 0 <= a < b < rest.len() implies (#[trigger] rest[a]).0 != (#[trigger] rest[b]).0 by {
            assert(rest[a] == m[a + 1] && rest[b] == m[b + 1]);
        }
        lemma_assoc_get_in(rest, k);
        assert forall|i: int| 0 <= i < m.len() && (#[trigger] m[i]).0 == k implies assoc_get(m, k) == Some(m[i].1) by {
            if i > 0 {
                assert(m[0].0 != m[i].0);
                assert(rest[i - 1] == m[i]);
            }
        }
        if m[0].0 != k {
            assert forall|i: int| 0 <= i < rest.len() && (#[trigger] rest[i]).0 == k implies m[i + 1].0 == k by {}
        }
        assert((forall|i: int| 0 <= i < rest.len() ==> (#[trigger] rest[i]).0 != k) ==> (m[0].0 != k
            ==> forall|i: int| 0 <= i < m.len() ==> (#[trigger] m[i]).0 != k)) by {
            if m[0].0 != k && (forall|i: int| 0 <= i < rest.len() ==> (#[trigger] rest[i]).0 != k) {
                assert forall|i: int| 0 <= i < m.len() implies (#[trigger] m[i]).0 != k by {
                    if i > 0 {
                        assert(rest[i - 1] == m[i]);
                    }
                }
            }
        }
    }
}

/// Setting a key to the value it already has changes nothing.
proof fn lemma_assoc_insert_same<V>(m: Seq<(Seq<char>, V)>, k: Seq<char>, v: V)
    requires
        keys_distinct(m),
        assoc_get(m, k) == Some(v),
    ensures
        assoc_insert(m, k, v) == m,
{
    lemma_assoc_get_in(m, k);
    let i = choose|i: int| 0 <= i < m.len() && (#[trigger] m[i]).0 == k;
    assert(m[i].1 == v);
    assert(m.update(i, (k, v)) =~= m);
}

/// Removing a key takes away its value and keeps the others.
proof fn lemma_assoc_remove_get<V>(m: Seq<(Seq<char>, V)>, k: Seq<char>, j: Seq<char>)
    requires
        keys_distinct(m),
    ensures
        assoc_get(assoc_remove(m, k), j) == if j == k {
            None
        } else {
            assoc_get(m, j)
        },
{
    lemma_assoc_remove_distinct(m, k);
    let n = assoc_remove(m, k);
    lemma_assoc_get_in(m, j);
    lemma_assoc_get_in(n, j);
    if exists|i: int| 0 <= i < m.len() && (#[trigger] m[i]).0 == k {
        let i = choose|i: int| 0 <= i < m.len() && (#[trigger] m[i]).0 == k;
        assert(n == m.remove(i));
        if j == k {
            assert forall|p: int| 0 <= p < n.len() implies (#[trigger] n[p]).0 != j by {
                let p2 = if p < i { p } else { p + 1 };
                assert(n[p] == m[p2]);
            }
        } else {
            if exists|p: int| 0 <= p < m.len() && (#[trigger] m[p]).0 == j {
                let p = choose|p: int| 0 <= p < m.len() && (#[trigger] m[p]).0 == j;
                let p2 = if p < i { p } else { p - 1 };
                assert(n[p2] == m[p]);
            } else {
                assert forall|p: int| 0 <= p < n.len() implies (#[trigger] n[p]).0 != j by {
                    let p2 = if p < i { p } else { p + 1 };
                    assert(n[p] == m[p2]);
                }
            }
        }
    } else {
        assert(n == m);
    }
}

/// The answers of an answer list are all in their full form already.
pub open spec fn answers_full(v: Option<JsonView>) -> bool {
    match v {
        Some(JsonView::Array(items)) => items.map_values(|a: JsonView| expand_answer(a)) == items,
        _ => true,
    }
}

proof fn lemma_expanded_answers_full(items: Seq<JsonView>)
    ensures
        answers_full(Some(JsonView::Array(items.map_values(|a: JsonView| expand_answer(a))))),
{
    let e = items.map_values(|a: JsonView| expand_answer(a));
    assert(e.map_values(|a: JsonView| expand_answer(a)) =~= e);
}

/// The facts about a normalized question that make normalizing it again change
/// nothing.
proof fn lemma_normalized_facts(q: Seq<(Seq<char>, JsonView)>)
    requires
        keys_distinct(q),
    ensures
        keys_distinct(normalized(q)),
        assoc_get(normalized(q), "kind"@) is Some,
        answers_full(assoc_get(normalized(q), "answer_list"@)),
        !(assoc_get(normalized(q), "text"@) matches Some(JsonView::Str(_))),
        assoc_get(normalized(q), "answer_list"@) is None ==> assoc_get(normalized(q), "answer"@) is None,
{
    reveal_strlit("kind");
    reveal_strlit("answer_list");
    reveal_strlit("text");
    reveal_strlit("answer");
    assert("kind"@.len() == 4 && "text"@.len() == 4 && "answer"@.len() == 6 && "answer_list"@.len() == 11);
    assert("kind"@[0] != "text"@[0]);
    let q1 = with_kind(q);
    let q2 = with_full_answers(q1);
    let q3 = with_text_list(q2);
    let n = with_answer_list(q3);
    // The kind.
    if assoc_get(q, "kind"@) is None {
        lemma_assoc_insert_get(q, "kind"@, json_str("ShortAnswer"@), "kind"@);
        lemma_assoc_insert_get(q, "kind"@, json_str("ShortAnswer"@), "answer_list"@);
        lemma_assoc_insert_get(q, "kind"@, json_str("ShortAnswer"@), "text"@);
        lemma_assoc_insert_get(q, "kind"@, json_str("ShortAnswer"@), "answer"@);
    }
    assert(keys_distinct(q1));
    assert(assoc_get(q1, "kind"@) is Some);
    // The answers in their full form.
    match assoc_get(q1, "answer_list"@) {
        Some(JsonView::Array(items)) => {
            let v = JsonView::Array(items.map_values(|a: JsonView| expand_answer(a)));
            lemma_assoc_insert_get(q1, "answer_list"@, v, "kind"@);
            lemma_assoc_insert_get(q1, "answer_list"@, v, "answer_list"@);
            lemma_assoc_insert_get(q1, "answer_list"@, v, "text"@);
            lemma_assoc_insert_get(q1, "answer_list"@, v, "answer"@);
            lemma_expanded_answers_full(items);
        },
        _ => {},
    }
    assert(keys_distinct(q2));
    assert(assoc_get(q2, "kind"@) is Some);
    assert(answers_full(assoc_get(q2, "answer_list"@)));
    // The text as a list.
    match assoc_get(q2, "text"@) {
        Some(JsonView::Str(t)) => {
            let v = JsonView::Array(seq![json_str(t)]);
            lemma_assoc_insert_get(q2, "text"@, v, "kind"@);
            lemma_assoc_insert_get(q2, "text"@, v, "answer_list"@);
            lemma_assoc_insert_get(q2, "text"@, v, "text"@);
            lemma_assoc_insert_get(q2, "text"@, v, "answer"@);
        },
        _ => {},
    }
    assert(keys_distinct(q3));
    assert(assoc_get(q3, "kind"@) is Some);
    assert(answers_full(assoc_get(q3, "answer_list"@)));
    // The answer list made of the single answer.
    if assoc_get(q3, "answer_list"@) is None {
        match assoc_get(q3, "answer"@) {
            Some(a) => {
                let l = single_answer_list(a);
                let q4 = assoc_insert(q3, "answer_list"@, l);
                lemma_assoc_insert_get(q3, "answer_list"@, l, "kind"@);
                lemma_assoc_insert_get(q3, "answer_list"@, l, "answer_list"@);
                lemma_assoc_insert_get(q3, "answer_list"@, l, "text"@);
                lemma_assoc_insert_get(q3, "answer_list"@, l, "answer"@);
                lemma_assoc_remove_get(q4, "answer"@, "kind"@);
                lemma_assoc_remove_get(q4, "answer"@, "answer_list"@);
                lemma_assoc_remove_get(q4, "answer"@, "text"@);
                lemma_assoc_remove_get(q4, "answer"@, "answer"@);
                lemma_assoc_remove_distinct(q4, "answer"@);
                match l {
                    JsonView::Array(items) => {
                        assert(items.map_values(|x: JsonView| expand_answer(x)) =~= items);
                    },
                    _ => {},
                }
            },
            None => {},
        }
    }
}

/// Normalizing a question that is already normalized changes nothing.
pub proof fn normalized_twice(q: Seq<(Seq<char>, JsonView)>)
    requires
        keys_distinct(q),
    ensures
        normalized(normalized(q)) == normalized(q),
{
    reveal_strlit("kind");
    reveal_strlit("answer_list");
    reveal_strlit("text");
    reveal_strlit("answer");
    lemma_normalized_facts(q);
    let n = normalized(q);
    assert(with_kind(n) == n);
    match assoc_get(n, "answer_list"@) {
        Some(JsonView::Array(items)) => {
            lemma_assoc_insert_same(n, "answer_list"@, JsonView::Array(items));
        },
        _ => {},
    }
    assert(with_full_answers(n) == n);
    assert(with_text_list(n) == n);
    assert(with_answer_list(n) == n);
}

/// Given a JSON object in the disk format, return an equivalent JSON object in
/// the format that the quiz model reads (see `normalized`).
pub fn normalize_question_json(question: &Vec<(String, JsonValue)>) -> (r: Vec<(String, JsonValue)>)
    requires
        keys_distinct(question.deep_view()),
    ensures
        keys_distinct(r.deep_view()),
        r.deep_view() == normalized(question.deep_view()),
{
    let ghost q = question.deep_view();
    let mut ret = clone_fields(question);
    proof {
        lemma_fields_deep_view(*question);
        lemma_fields_deep_view(ret);
    }
    assert(ret.deep_view() == q);
    // The `kind` field defaults to "ShortAnswer".
    if assoc_find(&ret, "kind").is_none() {
        assoc_put(&mut ret, String::from_str("kind"), JsonValue::Str(String::from_str("ShortAnswer")));
    }
    assert(ret.deep_view() == with_kind(q));
    let ghost m1 = ret.deep_view();
    // Convert answer objects from [...] to { "variants": [...] }.
    match assoc_find(&ret, "answer_list") {
        Some(i) => {
            match &ret[i].1 {
                JsonValue::Array(items) => {
                    let mut new_answers: Vec<JsonValue> = Vec::new();
                    let mut j: usize = 0;
                    proof {
                        lemma_items_view(items@);
                    }
                    while j < items.len()
                        invariant
                            0 <= j <= items.len(),
                            items_view(items@).len() == items@.len(),
                            items_view(new_answers@) == items_view(items@).subrange(0, j as int).map_values(
                                |a: JsonView| expand_answer(a),
                            ),
                        decreases items.len() - j,
                    {
                        let e = expand_answer_json(&items[j]);
                        let ghost before = new_answers@;
                        new_answers.push(e);
                        proof {
                            lemma_items_view(items@);
                            assert(new_answers@.subrange(0, new_answers@.len() - 1) =~= before);
                            assert(items_view(items@).subrange(0, j + 1).map_values(|a: JsonView| expand_answer(a))
                                =~= items_view(items@).subrange(0, j as int).map_values(|a: JsonView| expand_answer(a)).push(
                                expand_answer(json_view(items@[j as int])),
                            ));
                        }
                        j += 1;
                    }
                    proof {
                        assert(items_view(items@).subrange(0, items@.len() as int) =~= items_view(items@));
                    }
                    assoc_put(&mut ret, String::from_str("answer_list"), JsonValue::Array(new_answers));
                },
                _ => {},
            }
        },
        None => {},
    }
    assert(ret.deep_view() == with_full_answers(m1));
    let ghost m2 = ret.deep_view();
    // Text fields of the form `[text]` may be abbreviated as just `text`.
    match assoc_find(&ret, "text") {
        Some(i) => {
            match &ret[i].1 {
                JsonValue::Str(t) => {
                    let text = singleton_array(JsonValue::Str(t.clone()));
                    assoc_put(&mut ret, String::from_str("text"), text);
                },
                _ => {},
            }
        },
        None => {},
    }
    assert(ret.deep_view() == with_text_list(m2));
    let ghost m3 = ret.deep_view();
    // An `answer` field with a single value stands for an `answer_list` field.
    if assoc_find(&ret, "answer_list").is_none() {
        match assoc_find(&ret, "answer") {
            Some(i) => {
                let answer = clone_json(&ret[i].1);
                let is_array = match &answer {
                    JsonValue::Array(_) => true,
                    _ => false,
                };
                let variants = if is_array {
                    answer
                } else {
                    singleton_array(answer)
                };
                let list = singleton_array(singleton_object("variants", variants));
                assoc_put(&mut ret, String::from_str("answer_list"), list);
                json_remove(&mut ret, "answer");
            },
            None => {},
        }
    }
    assert(ret.deep_view() == with_answer_list(m3));
    ret
}

/// A question of a quiz in full form: an object is expanded (see `normalized`),
/// anything else is left as it is.
pub open spec fn expand_question(q: JsonView) -> JsonView {
    match q {
        JsonView::Object(f) => JsonView::Object(normalized(f)),
        _ => q,
    }
}

/// A quiz in the JSON disk format with each of its questions in full form: the
/// questions are the array `questions` of the top-level object, and each of them
/// that is an object is expanded; anything else is left as it is.
pub open spec fn expanded_quiz(v: JsonView) -> JsonView {
    match v {
        JsonView::Object(fields) => match assoc_get(fields, "questions"@) {
            Some(JsonView::Array(qs)) => JsonView::Object(
                assoc_insert(
                    fields,
                    "questions"@,
                    JsonView::Array(
                        qs.map_values(|q: JsonView| expand_question(q)),
                    ),
                ),
            ),
            _ => v,
        },
        _ => v,
    }
}

/// Every object in the value has distinct keys, down to the questions.
pub open spec fn quiz_keys_distinct(v: JsonView) -> bool {
    match v {
        JsonView::Object(fields) => keys_distinct(fields) && match assoc_get(fields, "questions"@) {
            Some(JsonView::Array(qs)) => forall|i: int|
                0 <= i < qs.len() ==> (#[trigger] qs[i] matches JsonView::Object(f) ==> keys_distinct(f)),
            _ => true,
        },
        _ => true,
    }
}

/// Expand each question of a quiz in the JSON disk format before it is read
/// into the quiz model (see `expanded_quiz`).
pub fn expand_quiz_json(v: JsonValue) -> (r: JsonValue)
    requires
        quiz_keys_distinct(v@),
    ensures
        r@ == expanded_quiz(v@),
{
    match v {
        JsonValue::Object(fields) => {
            let ghost fv = fields.deep_view();
            proof {
                lemma_fields_deep_view(fields);
            }
            match assoc_find(&fields, "questions") {
                Some(i) => {
                    match &fields[i].1 {
                        JsonValue::Array(qs) => {
                            let ghost qv = items_view(qs@);
                            proof {
                                lemma_items_view(qs@);
                            }
                            let mut out: Vec<JsonValue> = Vec::new();
                            let mut j: usize = 0;
                            while j < qs.len()
                                invariant
                                    0 <= j <= qs.len(),
                                    qv == items_view(qs@),
                                    qv.len() == qs@.len(),
                                    forall|k: int| 0 <= k < qs@.len() ==> #[trigger] qv[k] == json_view(qs@[k]),
                                    forall|k: int| 0 <= k < qv.len() ==> (#[trigger] qv[k] matches JsonView::Object(f) ==> keys_distinct(f)),
                                    items_view(out@) == qv.subrange(0, j as int).map_values(|q: JsonView| expand_question(q)),
                                decreases qs.len() - j,
                            {
                                let e = match &qs[j] {
                                    JsonValue::Object(f) => {
                                        proof {
                                            lemma_fields_deep_view(*f);
                                            assert(qv[j as int] == json_view(qs@[j as int]));
                                        }
                                        let n = normalize_question_json(f);
                                        proof {
                                            lemma_fields_deep_view(n);
                                        }
                                        JsonValue::Object(n)
                                    },
                                    other => clone_json(other),
                                };
                                assert(e@ == expand_question(qv[j as int]));
                                let ghost before = out@;
                                out.push(e);
                                proof {
                                    assert(out@.subrange(0, out@.len() - 1) =~= before);
                                    assert(qv.subrange(0, j + 1).map_values(|q: JsonView| expand_question(q)) =~= qv.subrange(0, j as int).map_values(|q: JsonView| expand_question(q)).push(
                                        expand_question(qv[j as int]),
                                    ));
                                }
                                j += 1;
                            }
                            proof {
                                assert(qv.subrange(0, qv.len() as int) =~= qv);
                            }
                            let mut fields2 = fields;
                            assoc_put(&mut fields2, String::from_str("questions"), JsonValue::Array(out));
                            proof {
                                lemma_fields_deep_view(fields2);
                            }
                            JsonValue::Object(fields2)
                        },
                        _ => JsonValue::Object(fields),
                    }
                },
                None => JsonValue::Object(fields),
            }
        },
        other => other,
    }
}

} // verus!
