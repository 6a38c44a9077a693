//! The earlier JSON-based quiz program: its question model, how answers are
//! checked, how questions are filtered and put in order, and the counting of
//! tags.
use vstd::prelude::*;

use crate::common::contains_string;
use crate::quiz::Timestamp;
use crate::random::{pick_one, shuffle, thread_rng};
use crate::results::{lemma_str_less_total, lemma_str_less_trans, str_before, str_less};
use crate::session::{count_true, pick_choices_from, shown_from};
use crate::text::{chars_of, find, find_chars, lowercase, lowercase_of, str_eq, trim_start};

verus! {

/// The kinds of question.
#[derive(Debug, Clone, Copy, PartialEq, Eq, Structural)]
pub enum QuestionKind {
    ShortAnswer,
    ListAnswer,
    OrderedListAnswer,
    MultipleChoice,
    Ungraded,
}

/// An answer: equivalent spellings, the first of which is shown.
#[derive(Debug)]
pub struct Answer {
    pub variants: Vec<String>,
}

/// What the library keeps of a past result of a question: when it was asked,
/// what was answered, and whether it was graded. (Its score, a fraction, stays
/// with the program.)
#[derive(Debug)]
pub struct PastResult {
    pub time_asked: Timestamp,
    pub response: Option<String>,
    pub graded: bool,
}

/// A question.
#[derive(Debug)]
pub struct Question {
    pub kind: QuestionKind,
    /// Variants of the text of the question.
    pub text: Vec<String>,
    /// Correct answers to the question.
    pub answer_list: Vec<Answer>,
    /// Incorrect answers offered by a multiple-choice question.
    pub candidates: Vec<String>,
    /// Prior results of answering the question.
    pub prior_results: Vec<PastResult>,
    /// Optional string identifier.
    pub id: Option<String>,
    /// The `id` of a question which must be asked before this one.
    pub depends: Option<String>,
    /// User-defined tags for the question.
    pub tags: Vec<String>,
    /// Explanations of why some incorrect answers are wrong: the answers, and
    /// the explanation.
    pub explanations: Vec<(Vec<String>, String)>,
}

/// A quiz.
#[derive(Debug)]
pub struct Quiz {
    pub questions: Vec<Question>,
}

/// The mathematical value of a `Question`, as far as checking and filtering go.
pub struct QuestionView {
    pub kind: QuestionKind,
    pub text: Seq<Seq<char>>,
    pub answer_list: Seq<Seq<Seq<char>>>,
    pub candidates: Seq<Seq<char>>,
    pub prior_count: nat,
    pub id: Option<Seq<char>>,
    pub depends: Option<Seq<char>>,
    pub tags: Seq<Seq<char>>,
    pub explanations: Seq<(Seq<Seq<char>>, Seq<char>)>,
}

impl View for Answer {
    type V = Seq<Seq<char>>;

    open spec fn view(&self) -> Seq<Seq<char>> {
        self.variants.deep_view()
    }
}

impl DeepView for Answer {
    type V = Seq<Seq<char>>;

    open spec fn deep_view(&self) -> Seq<Seq<char>> {
        self@
    }
}

impl View for Question {
    type V = QuestionView;

    open spec fn view(&self) -> QuestionView {
        QuestionView {
            kind: self.kind,
            text: self.text.deep_view(),
            answer_list: self.answer_list.deep_view(),
            candidates: self.candidates.deep_view(),
            prior_count: self.prior_results@.len(),
            id: self.id.deep_view(),
            depends: self.depends.deep_view(),
            tags: self.tags.deep_view(),
            explanations: self.explanations.deep_view(),
        }
    }
}

impl DeepView for Question {
    type V = QuestionView;

    open spec fn deep_view(&self) -> QuestionView {
        self@
    }
}

/// `guess` is one of `variants`, both lowercased.
pub open spec fn answer_matches(variants: Seq<Seq<char>>, guess: Seq<char>) -> bool {
    exists|i: int| 0 <= i < variants.len() && lowercase_of(#[trigger] variants[i]) == lowercase_of(guess)
}

impl Answer {
    /// Return `true` if the given string is equivalent to the Answer object.
    pub fn check(&self, guess: &str) -> (r: bool)
        ensures
            r == answer_matches(self@, guess@),
    {
        let g = lowercase(guess);
        let mut i: usize = 0;
        while i < self.variants.len()
            invariant
                0 <= i <= self.variants.len(),
                g@ == lowercase_of(guess@),
                forall|k: int| 0 <= k < i ==> lowercase_of(#[trigger] self@[k]) != lowercase_of(guess@),
            decreases self.variants.len() - i,
        {
            let v = lowercase(self.variants[i].as_str());
            if str_eq(v.as_str(), g.as_str()) {
                assert(lowercase_of(self@[i as int]) == lowercase_of(guess@));
                return true;
            }
            i += 1;
        }
        false
    }
}

/// The position of the first answer of `list` that `guess` matches, or the
/// length of `list` when none does.
pub open spec fn first_match(list: Seq<Seq<Seq<char>>>, guess: Seq<char>) -> int
    decreases list.len(),
{
    if list.len() == 0 {
        0
    } else if answer_matches(list[0], guess) {
        0
    } else {
        1 + first_match(list.drop_first(), guess)
    }
}

/// The text of `explanations` for the answer `guess`: that of the first entry
/// whose answers hold `guess` lowercased.
pub open spec fn explanation_for(explanations: Seq<(Seq<Seq<char>>, Seq<char>)>, guess: Seq<char>) -> Option<
    Seq<char>,
>
    decreases explanations.len(),
{
    if explanations.len() == 0 {
        None
    } else if explanations[0].0.contains(lowercase_of(guess)) {
        Some(explanations[0].1)
    } else {
        explanation_for(explanations.drop_first(), guess)
    }
}

/// `pat` occurs in `s`.
pub open spec fn contains_text(s: Seq<char>, pat: Seq<char>) -> bool {
    find(s, pat) is Some
}

/// Some text of `texts`, lowercased, contains `keyword` lowercased.
pub open spec fn keyword_found(texts: Seq<Seq<char>>, keyword: Seq<char>) -> bool {
    exists|i: int|
        0 <= i < texts.len() && contains_text(lowercase_of(#[trigger] texts[i]), lowercase_of(keyword))
}

/// The options that select questions.
pub struct QuizFilterOptions {
    /// Only include questions with the given tags.
    pub tags: Vec<String>,
    /// Exclude questions with the given tags.
    pub exclude: Vec<String>,
    /// Only include questions that have never been asked before.
    pub never: bool,
    /// Only include questions whose text holds these keywords.
    pub keywords: Vec<String>,
}

/// A question passes the filter: it has all the tags asked for, none of the
/// excluded tags, no prior result if only new questions are wanted, and every
/// keyword in one of its texts.
pub open spec fn passes(q: QuestionView, tags: Seq<Seq<char>>, exclude: Seq<Seq<char>>, never: bool, keywords: Seq<Seq<char>>) -> bool {
    &&& forall|i: int| 0 <= i < tags.len() ==> q.tags.contains(#[trigger] tags[i])
    &&& forall|i: int| 0 <= i < exclude.len() ==> !q.tags.contains(#[trigger] exclude[i])
    &&& (!never || q.prior_count == 0)
    &&& forall|i: int| 0 <= i < keywords.len() ==> keyword_found(q.text, #[trigger] keywords[i])
}

impl QuizFilterOptions {
    /// No filtering.
    pub fn new() -> (r: QuizFilterOptions)
        ensures
            r.tags@.len() == 0,
            r.exclude@.len() == 0,
            !r.never,
            r.keywords@.len() == 0,
    {
        QuizFilterOptions { tags: Vec::new(), exclude: Vec::new(), never: false, keywords: Vec::new() }
    }
}

impl Question {
    /// Return a new short-answer question.
    pub fn new(text: &str, answer: &str) -> (r: Question)
        ensures
            r@.kind == QuestionKind::ShortAnswer,
            r@.text == seq![text@],
            r@.answer_list == seq![seq![answer@]],
            r@.candidates.len() == 0,
            r@.prior_count == 0,
            r@.id is None,
            r@.depends is None,
            r@.tags.len() == 0,
            r@.explanations.len() == 0,
    {
        let mut variants: Vec<String> = Vec::new();
        variants.push(String::from_str(answer));
        let mut answer_list: Vec<Answer> = Vec::new();
        answer_list.push(Answer { variants });
        let mut texts: Vec<String> = Vec::new();
        texts.push(String::from_str(text));
        let q = Question {
            kind: QuestionKind::ShortAnswer,
            text: texts,
            answer_list,
            candidates: Vec::new(),
            prior_results: Vec::new(),
            id: None,
            depends: None,
            tags: Vec::new(),
            explanations: Vec::new(),
        };
        proof {
            assert(q@.text =~= seq![text@]);
            assert(q.answer_list@[0]@ =~= seq![answer@]);
            assert(q@.answer_list =~= seq![seq![answer@]]);
            assert(q@.candidates =~= Seq::<Seq<char>>::empty());
            assert(q@.tags =~= Seq::<Seq<char>>::empty());
            assert(q@.explanations =~= Seq::<(Seq<Seq<char>>, Seq<char>)>::empty());
        }
        q
    }

    /// Return `true` if `guess` matches any of the answers in `self.answer_list`.
    pub fn check_any(&self, guess: &str) -> (r: bool)
        ensures
            r == exists|i: int| 0 <= i < self@.answer_list.len() && answer_matches(#[trigger] self@.answer_list[i], guess@),
    {
        let mut i: usize = 0;
        while i < self.answer_list.len()
            invariant
                0 <= i <= self.answer_list.len(),
                forall|k: int| 0 <= k < i ==> !answer_matches(#[trigger] self@.answer_list[k], guess@),
            decreases self.answer_list.len() - i,
        {
            if self.answer_list[i].check(guess) {
                assert(answer_matches(self@.answer_list[i as int], guess@));
                return true;
            }
            i += 1;
        }
        false
    }

    /// Return the index of the first answer in `self.answer_list` that `guess`
    /// matches, or `self.answer_list.len()` if `guess` satisfies none.
    pub fn check_one(&self, guess: &str) -> (r: usize)
        ensures
            r == first_match(self@.answer_list, guess@),
            r <= self@.answer_list.len(),
    {
        let ghost list = self@.answer_list;
        let mut i: usize = 0;
        assert(list.subrange(0, list.len() as int) =~= list);
        while i < self.answer_list.len()
            invariant
                0 <= i <= self.answer_list.len(),
                list == self@.answer_list,
                first_match(list, guess@) == i + first_match(list.subrange(i as int, list.len() as int), guess@),
            decreases self.answer_list.len() - i,
        {
            let ghost rest = list.subrange(i as int, list.len() as int);
            assert(rest[0] == list[i as int]);
            if self.answer_list[i].check(guess) {
                return i;
            }
            assert(rest.drop_first() =~= list.subrange(i + 1, list.len() as int));
            i += 1;
        }
        i
    }

    /// The explanation of why `guess` is wrong, if the question has one.
    pub fn get_explanation(&self, guess: &str) -> (r: Option<String>)
        ensures
            r.deep_view() == explanation_for(self@.explanations, guess@),
    {
        let g = lowercase(guess);
        let ghost ex = self@.explanations;
        let mut i: usize = 0;
        assert(ex.subrange(0, ex.len() as int) =~= ex);
        while i < self.explanations.len()
            invariant
                0 <= i <= self.explanations.len(),
                ex == self@.explanations,
                g@ == lowercase_of(guess@),
                explanation_for(ex, guess@) == explanation_for(ex.subrange(i as int, ex.len() as int), guess@),
            decreases self.explanations.len() - i,
        {
            let ghost rest = ex.subrange(i as int, ex.len() as int);
            assert(rest[0] == ex[i as int]);
            if contains_string(&self.explanations[i].0, g.as_str()) {
                return Some(self.explanations[i].1.clone());
            }
            assert(rest.drop_first() =~= ex.subrange(i + 1, ex.len() as int));
            i += 1;
        }
        None
    }
}

/// Whether `pat` occurs in `s`.
pub fn contains_str(s: &str, pat: &str) -> (r: bool)
    ensures
        r == contains_text(s@, pat@),
{
    let v = chars_of(s);
    let p = chars_of(pat);
    find_chars(&v, &p).is_some()
}

/// Return `true` if the text of `q` contains all specified keywords.
pub fn filter_question_by_keywords(q: &Question, keywords: &Vec<String>) -> (r: bool)
    ensures
        r == forall|i: int| 0 <= i < keywords@.len() ==> keyword_found(q@.text, #[trigger] keywords.deep_view()[i]),
{
    let mut k: usize = 0;
    while k < keywords.len()
        invariant
            0 <= k <= keywords.len(),
            forall|i: int| 0 <= i < k ==> keyword_found(q@.text, #[trigger] keywords.deep_view()[i]),
        decreases keywords.len() - k,
    {
        let kw = lowercase(keywords[k].as_str());
        let mut satisfied = false;
        let mut t: usize = 0;
        while t < q.text.len() && !satisfied
            invariant
                0 <= t <= q.text.len(),
                k < keywords.len(),
                kw@ == lowercase_of(keywords.deep_view()[k as int]),
                satisfied ==> keyword_found(q@.text, keywords.deep_view()[k as int]),
                !satisfied ==> forall|i: int|
                    0 <= i < t ==> !contains_text(lowercase_of(#[trigger] q@.text[i]), kw@),
            decreases q.text.len() - t + (if satisfied { 0int } else { 1int }),
        {
            let lt = lowercase(q.text[t].as_str());
            if contains_str(lt.as_str(), kw.as_str()) {
                satisfied = true;
                assert(contains_text(lowercase_of(q@.text[t as int]), kw@));
            } else {
                t += 1;
            }
        }
        if !satisfied {
            proof {
                let kwv = keywords.deep_view()[k as int];
                if keyword_found(q@.text, kwv) {
                    let i = choose|i: int|
                        0 <= i < q@.text.len() && contains_text(lowercase_of(#[trigger] q@.text[i]), lowercase_of(kwv));
                    assert(!contains_text(lowercase_of(q@.text[i]), kw@));
                }
            }
            return false;
        }
        k += 1;
    }
    true
}

/// Return `true` if `q` satisfies the constraints in `options`.
pub fn filter_question(q: &Question, options: &QuizFilterOptions) -> (r: bool)
    ensures
        r == passes(
            q@,
            options.tags.deep_view(),
            options.exclude.deep_view(),
            options.never,
            options.keywords.deep_view(),
        ),
{
    let mut i: usize = 0;
    while i < options.tags.len()
        invariant
            0 <= i <= options.tags.len(),
            forall|k: int| 0 <= k < i ==> q@.tags.contains(#[trigger] options.tags.deep_view()[k]),
        decreases options.tags.len() - i,
    {
        if !contains_string(&q.tags, options.tags[i].as_str()) {
            assert(!q@.tags.contains(options.tags.deep_view()[i as int]));
            return false;
        }
        i += 1;
    }
    let mut j: usize = 0;
    while j < options.exclude.len()
        invariant
            0 <= j <= options.exclude.len(),
            forall|k: int| 0 <= k < j ==> !q@.tags.contains(#[trigger] options.exclude.deep_view()[k]),
        decreases options.exclude.len() - j,
    {
        if contains_string(&q.tags, options.exclude[j].as_str()) {
            assert(q@.tags.contains(options.exclude.deep_view()[j as int]));
            return false;
        }
        j += 1;
    }
    if options.never && q.prior_results.len() > 0 {
        return false;
    }
    filter_question_by_keywords(q, &options.keywords)
}

/// The positions below `n` of the questions of `qs` that pass the filter, in order.
pub open spec fn passing_positions(
    qs: Seq<QuestionView>,
    tags: Seq<Seq<char>>,
    exclude: Seq<Seq<char>>,
    never: bool,
    keywords: Seq<Seq<char>>,
    n: int,
) -> Seq<usize>
    decreases n,
{
    if n <= 0 {
        Seq::empty()
    } else if passes(qs[n - 1], tags, exclude, never, keywords) {
        passing_positions(qs, tags, exclude, never, keywords, n - 1).push((n - 1) as usize)
    } else {
        passing_positions(qs, tags, exclude, never, keywords, n - 1)
    }
}

impl Quiz {
    /// The positions of the questions that pass the filter, in order.
    pub fn filter_questions(&self, options: &QuizFilterOptions) -> (r: Vec<usize>)
        ensures
            r@ == passing_positions(
                self.questions.deep_view(),
                options.tags.deep_view(),
                options.exclude.deep_view(),
                options.never,
                options.keywords.deep_view(),
                self.questions@.len() as int,
            ),
            forall|a: int, b: int| 0 <= a < b < r@.len() ==> r@[a] < r@[b],
            forall|k: int| 0 <= k < r@.len() ==> #[trigger] r@[k] < self.questions@.len(),
            forall|p: int|
                0 <= p < self.questions@.len() ==> (r@.contains(p as usize) <==> passes(
                    #[trigger] self.questions@[p]@,
                    options.tags.deep_view(),
                    options.exclude.deep_view(),
                    options.never,
                    options.keywords.deep_view(),
                )),
    {
        let mut out: Vec<usize> = Vec::new();
        let mut i: usize = 0;
        while i < self.questions.len()
            invariant
                0 <= i <= self.questions.len(),
                out@ == passing_positions(
                    self.questions.deep_view(),
                    options.tags.deep_view(),
                    options.exclude.deep_view(),
                    options.never,
                    options.keywords.deep_view(),
                    i as int,
                ),
                forall|a: int, b: int| 0 <= a < b < out@.len() ==> out@[a] < out@[b],
                forall|k: int| 0 <= k < out@.len() ==> #[trigger] out@[k] < i,
                forall|p: int|
                    0 <= p < i ==> (out@.contains(p as usize) <==> passes(
                        #[trigger] self.questions@[p]@,
                        options.tags.deep_view(),
                        options.exclude.deep_view(),
                        options.never,
                        options.keywords.deep_view(),
                    )),
            decreases self.questions.len() - i,
        {
            let ghost before = out@;
            assert(self.questions.deep_view()[i as int] == self.questions@[i as int]@);
            if filter_question(&self.questions[i], options) {
                out.push(i);
                proof {
                    assert forall|p: int| 0 <= p < i + 1 implies (#[trigger] out@.contains(p as usize) <==> before.contains(p as usize) || p == i) by {
                        if out@.contains(p as usize) {
                            let k = choose|k: int| 0 <= k < out@.len() && out@[k] == p as usize;
                            if k < before.len() {
                                assert(before[k] == p as usize);
                            }
                        }
                        if before.contains(p as usize) {
                            let k = choose|k: int| 0 <= k < before.len() && before[k] == p as usize;
                            assert(out@[k] == p as usize);
                        }
                        if p == i {
                            assert(out@[before.len() as int] == i);
                        }
                    }
                }
            } else {
                proof {
                    assert(!before.contains(i)) by {
                        if before.contains(i) {
                            let k = choose|k: int| 0 <= k < before.len() && before[k] == i;
                        }
                    }
                }
            }
            i += 1;
        }
        out
    }
}

/// Whether a reply to a yes-or-no question says yes: it begins with `y` or `Y`
/// once leading whitespace is dropped and it is lowercased.
pub fn is_yes(response: &str) -> (r: bool)
    ensures
        r == ("y"@.is_prefix_of(lowercase_of(trim_start(response@)))),
{
    let v = chars_of(response);
    let mut i: usize = 0;
    assert(v@.subrange(0, v@.len() as int) =~= v@);
    while i < v.len() && crate::text::is_whitespace(v[i])
        invariant
            0 <= i <= v.len(),
            v@ == response@,
            trim_start(response@) == trim_start(v@.subrange(i as int, v@.len() as int)),
        decreases v.len() - i,
    {
        proof {
            let rest = v@.subrange(i as int, v@.len() as int);
            assert(rest.drop_first() =~= v@.subrange(i + 1, v@.len() as int));
        }
        i += 1;
    }
    proof {
        assert(v@.subrange(0, v@.len() as int) =~= v@);
    }
    let rest = crate::text::string_of(&v, i, v.len());
    proof {
        let t = v@.subrange(i as int, v@.len() as int);
        if t.len() > 0 {
            assert(!crate::text::is_ws(t[0]));
        }
        assert(trim_start(t) == t);
    }
    let low = lowercase(rest.as_str());
    let lv = chars_of(low.as_str());
    proof {
        reveal_strlit("y");
        assert("y"@ =~= seq!['y']);
        if lv.len() > 0 {
            assert(lv@.subrange(0, 1) =~= seq![lv@[0]]);
        }
    }
    let r = lv.len() > 0 && lv[0] == 'y';
    proof {
        if r {
            assert(lv@.subrange(0, 1) =~= "y"@);
        } else if lv.len() > 0 {
            assert(lv@.subrange(0, 1)[0] != "y"@[0]);
        }
    }
    r
}

/// Whether `s` is one of the orders in which results can be listed: `best`,
/// `worst`, `most` or `least`.
pub fn is_known_sort(s: &str) -> (r: bool)
    ensures
        r == (s@ == "best"@ || s@ == "worst"@ || s@ == "most"@ || s@ == "least"@),
{
    str_eq(s, "best") || str_eq(s, "worst") || str_eq(s, "most") || str_eq(s, "least")
}

/// The key by which the question at position `p` is ordered, when the keys
/// `keys` are sorted in increasing order, or in decreasing order if `desc`.
pub open spec fn sort_key(keys: Seq<u64>, desc: bool, p: usize) -> int {
    if desc {
        -(keys[p as int] as int)
    } else {
        keys[p as int] as int
    }
}

/// `x` put into `s` after the last element whose key is at most its own.
pub open spec fn insert_by_key(s: Seq<usize>, x: usize, keys: Seq<u64>, desc: bool) -> Seq<usize>
    decreases s.len(),
{
    if s.len() == 0 {
        seq![x]
    } else if sort_key(keys, desc, s.last()) <= sort_key(keys, desc, x) {
        s.push(x)
    } else {
        insert_by_key(s.drop_last(), x, keys, desc).push(s.last())
    }
}

/// `s` sorted by key, stably: elements with equal keys keep their order, as
/// `slice::sort_by` does.
pub open spec fn sort_by_key(s: Seq<usize>, keys: Seq<u64>, desc: bool) -> Seq<usize>
    decreases s.len(),
{
    if s.len() == 0 {
        s
    } else {
        insert_by_key(sort_by_key(s.drop_last(), keys, desc), s.last(), keys, desc)
    }
}

/// Whether a key `a` goes after the key `b`: it is greater, or smaller if `desc`.
pub fn key_after(a: u64, b: u64, desc: bool) -> (r: bool)
    ensures
        r == if desc { a < b } else { a > b },
{
    if desc {
        a < b
    } else {
        a > b
    }
}

/// Sort the positions `s` by the keys `keys` (of all questions), in increasing
/// order or in decreasing order if `desc`; equal keys keep their order.
pub fn stable_sort_by_key(s: &Vec<usize>, keys: &Vec<u64>, desc: bool) -> (r: Vec<usize>)
    requires
        forall|k: int| 0 <= k < s@.len() ==> #[trigger] s@[k] < keys@.len(),
    ensures
        r@ == sort_by_key(s@, keys@, desc),
{
    let mut out: Vec<usize> = Vec::new();
    let mut i: usize = 0;
    while i < s.len()
        invariant
            0 <= i <= s.len(),
            forall|k: int| 0 <= k < s@.len() ==> #[trigger] s@[k] < keys@.len(),
            out@ == sort_by_key(s@.subrange(0, i as int), keys@, desc),
            forall|k: int| 0 <= k < out@.len() ==> #[trigger] out@[k] < keys@.len(),
            out@.len() == i,
        decreases s.len() - i,
    {
        let x = s[i];
        let kx = keys[x];
        let mut p = out.len();
        assert(out@.subrange(0, p as int) =~= out@);
        assert(out@.subrange(p as int, out@.len() as int) =~= Seq::<usize>::empty());
        while p > 0 && key_after(keys[out[p - 1]], kx, desc)
            invariant
                0 <= p <= out.len(),
                x < keys@.len(),
                kx == keys@[x as int],
                forall|k: int| 0 <= k < out@.len() ==> #[trigger] out@[k] < keys@.len(),
                insert_by_key(out@, x, keys@, desc) == insert_by_key(out@.subrange(0, p as int), x, keys@, desc)
                    + out@.subrange(p as int, out@.len() as int),
            decreases p,
        {
            proof {
                let head = out@.subrange(0, p as int);
                assert(head.last() == out@[p - 1]);
                assert(head.drop_last() =~= out@.subrange(0, p - 1));
                assert(insert_by_key(head, x, keys@, desc) == insert_by_key(out@.subrange(0, p - 1), x, keys@, desc).push(
                    out@[p - 1],
                ));
                assert(insert_by_key(out@.subrange(0, p - 1), x, keys@, desc).push(out@[p - 1]) + out@.subrange(
                    p as int,
                    out@.len() as int,
                ) =~= insert_by_key(out@.subrange(0, p - 1), x, keys@, desc) + out@.subrange(p - 1, out@.len() as int));
            }
            p -= 1;
        }
        proof {
            let head = out@.subrange(0, p as int);
            if p > 0 {
                assert(head.last() == out@[p - 1]);
                assert(insert_by_key(head, x, keys@, desc) == head.push(x));
            } else {
                assert(head =~= Seq::<usize>::empty());
            }
        }
        let ghost before = out@;
        out.insert(p, x);
        proof {
            assert(out@ =~= before.subrange(0, p as int).push(x) + before.subrange(p as int, before.len() as int));
            let pre = s@.subrange(0, i as int);
            let post = s@.subrange(0, i + 1);
            assert(post.drop_last() =~= pre);
            assert(post.last() == x);
            assert forall|k: int| 0 <= k < out@.len() implies #[trigger] out@[k] < keys@.len() by {
                if k < p {
                    assert(out@[k] == before[k]);
                } else if k > p {
                    assert(out@[k] == before[k - 1]);
                }
            }
        }
        i += 1;
    }
    proof {
        assert(s@.subrange(0, s@.len() as int) =~= s@);
    }
    out
}

/// Sorting by key only reorders: the sorted positions are those given.
pub proof fn sort_by_key_permutes(s: Seq<usize>, keys: Seq<u64>, desc: bool)
    ensures
        sort_by_key(s, keys, desc).to_multiset() == s.to_multiset(),
    decreases s.len(),
{
    broadcast use vstd::seq_lib::group_to_multiset_ensures;

    if s.len() > 0 {
        sort_by_key_permutes(s.drop_last(), keys, desc);
        lemma_insert_by_key_permutes(sort_by_key(s.drop_last(), keys, desc), s.last(), keys, desc);
        assert(s =~= s.drop_last().push(s.last()));
    }
}

proof fn lemma_insert_by_key_permutes(s: Seq<usize>, x: usize, keys: Seq<u64>, desc: bool)
    ensures
        insert_by_key(s, x, keys, desc).to_multiset() == s.to_multiset().insert(x),
    decreases s.len(),
{
    broadcast use vstd::seq_lib::group_to_multiset_ensures;
    broadcast use vstd::multiset::group_multiset_axioms;

    if s.len() == 0 {
        assert(seq![x] =~= Seq::<usize>::empty().push(x));
    } else if sort_key(keys, desc, s.last()) <= sort_key(keys, desc, x) {
    } else {
        lemma_insert_by_key_permutes(s.drop_last(), x, keys, desc);
        assert(s =~= s.drop_last().push(s.last()));
        assert(s.drop_last().to_multiset().insert(x).insert(s.last()) =~= s.drop_last().to_multiset().insert(
            s.last(),
        ).insert(x));
    }
}

/// Sorting by key puts the keys in order.
pub proof fn sort_by_key_sorted(s: Seq<usize>, keys: Seq<u64>, desc: bool)
    requires
        forall|k: int| 0 <= k < s.len() ==> #[trigger] s[k] < keys.len(),
    ensures
        forall|a: int, b: int|
            0 <= a < b < sort_by_key(s, keys, desc).len() ==> sort_key(keys, desc, #[trigger] sort_by_key(s, keys, desc)[a])
                <= sort_key(keys, desc, #[trigger] sort_by_key(s, keys, desc)[b]),
    decreases s.len(),
{
    if s.len() > 0 {
        let init = s.drop_last();
        assert forall|k: int| 0 <= k < init.len() implies #[trigger] init[k] < keys.len() by {
            assert(init[k] == s[k]);
        }
        sort_by_key_sorted(init, keys, desc);
        lemma_insert_by_key_sorted(sort_by_key(init, keys, desc), s.last(), keys, desc);
    }
}

proof fn lemma_insert_by_key_sorted(s: Seq<usize>, x: usize, keys: Seq<u64>, desc: bool)
    requires
        forall|a: int, b: int| 0 <= a < b < s.len() ==> sort_key(keys, desc, #[trigger] s[a]) <= sort_key(keys, desc, #[trigger] s[b]),
    ensures
        insert_by_key(s, x, keys, desc).len() == s.len() + 1,
        forall|a: int, b: int|
            0 <= a < b < insert_by_key(s, x, keys, desc).len() ==> sort_key(keys, desc, #[trigger] insert_by_key(s, x, keys, desc)[a])
                <= sort_key(keys, desc, #[trigger] insert_by_key(s, x, keys, desc)[b]),
        forall|a: int| 0 <= a < insert_by_key(s, x, keys, desc).len() ==> (#[trigger] insert_by_key(s, x, keys, desc)[a] == x
            || s.contains(insert_by_key(s, x, keys, desc)[a])),
    decreases s.len(),
{
    if s.len() == 0 {
    } else if sort_key(keys, desc, s.last()) <= sort_key(keys, desc, x) {
        let r = s.push(x);
        assert forall|a: int| 0 <= a < r.len() implies (#[trigger] r[a] == x || s.contains(r[a])) by {
            if a < s.len() {
                assert(r[a] == s[a]);
            }
        }
    } else {
        let d = s.drop_last();
        assert forall|a: int, b: int| 0 <= a < b < d.len() implies sort_key(keys, desc, #[trigger] d[a]) <= sort_key(keys, desc, #[trigger] d[b]) by {
            assert(d[a] == s[a] && d[b] == s[b]);
        }
        lemma_insert_by_key_sorted(d, x, keys, desc);
        let t = insert_by_key(d, x, keys, desc);
        let r = t.push(s.last());
        assert forall|a: int| 0 <= a < r.len() implies (#[trigger] r[a] == x || s.contains(r[a])) by {
            if a < t.len() {
                assert(r[a] == t[a]);
                if t[a] != x {
                    assert(d.contains(t[a]));
                    let k = choose|k: int| 0 <= k < d.len() && d[k] == t[a];
                    assert(s[k] == t[a]);
                }
            } else {
                assert(s[s.len() - 1] == r[a]);
            }
        }
        assert forall|a: int, b: int| 0 <= a < b < r.len() implies sort_key(keys, desc, #[trigger] r[a]) <= sort_key(keys, desc, #[trigger] r[b]) by {
            if b < t.len() {
                assert(r[a] == t[a] && r[b] == t[b]);
            } else {
                assert(r[b] == s.last());
                assert(r[a] == t[a]);
                if t[a] == x {
                } else {
                    assert(d.contains(t[a]));
                    let k = choose|k: int| 0 <= k < d.len() && d[k] == t[a];
                    assert(s[k] == t[a]);
                    assert(sort_key(keys, desc, s[k]) <= sort_key(keys, desc, s[s.len() - 1]));
                }
            }
        }
    }
}

/// One step of putting questions after those they depend on: the questions at
/// `i` and `j` are swapped when the one at `i` depends on the one at `j`.
pub open spec fn dependency_swap(qs: Seq<QuestionView>, c: Seq<usize>, i: int, j: int) -> Seq<usize> {
    match (qs[c[j] as int].id, qs[c[i] as int].depends) {
        (Some(id), Some(dep)) => if id == dep {
            c.update(i, c[j]).update(j, c[i])
        } else {
            c
        },
        _ => c,
    }
}

/// The swaps of the question at `i` with each later one, from `j` on.
pub open spec fn dependency_row(qs: Seq<QuestionView>, c: Seq<usize>, i: int, j: int, n: int) -> Seq<usize>
    decreases n - j,
{
    if j >= n {
        c
    } else {
        dependency_row(qs, dependency_swap(qs, c, i, j), i, j + 1, n)
    }
}

/// The swaps of each question with each later one, from the question at `i` on.
pub open spec fn dependency_rows(qs: Seq<QuestionView>, c: Seq<usize>, i: int, n: int) -> Seq<usize>
    decreases n - i,
{
    if i >= n {
        c
    } else {
        dependency_rows(qs, dependency_row(qs, c, i, i + 1, n), i + 1, n)
    }
}

/// The chosen questions `c` after the basic dependence relations are respected:
/// each pair of positions `i < j`, in order, is swapped when the question at `i`
/// depends on the one at `j`.
pub open spec fn dependency_order(qs: Seq<QuestionView>, c: Seq<usize>) -> Seq<usize> {
    dependency_rows(qs, c, 0, c.len() as int)
}

/// Swap the chosen questions so that a question comes after the one it depends
/// on, as far as a single pass over the pairs does it (see `dependency_order`).
pub fn respect_dependencies(quiz: &Quiz, c: &mut Vec<usize>)
    requires
        forall|k: int| 0 <= k < old(c)@.len() ==> #[trigger] old(c)@[k] < quiz.questions@.len(),
    ensures
        final(c)@ == dependency_order(quiz.questions.deep_view(), old(c)@),
{
    let ghost qs = quiz.questions.deep_view();
    let ghost orig = c@;
    let n = c.len();
    let mut i: usize = 0;
    while i < n
        invariant
            0 <= i <= n,
            n == c@.len(),
            qs == quiz.questions.deep_view(),
            forall|k: int| 0 <= k < c@.len() ==> #[trigger] c@[k] < quiz.questions@.len(),
            dependency_order(qs, orig) == dependency_rows(qs, c@, i as int, n as int),
            orig.len() == n,
        decreases n - i,
    {
        let ghost ci = c@;
        let mut j: usize = i + 1;
        while j < n
            invariant
                i < n,
                i + 1 <= j <= n,
                n == c@.len(),
                qs == quiz.questions.deep_view(),
                forall|k: int| 0 <= k < c@.len() ==> #[trigger] c@[k] < quiz.questions@.len(),
                dependency_row(qs, ci, i as int, i + 1, n as int) == dependency_row(qs, c@, i as int, j as int, n as int),
            decreases n - j,
        {
            let ghost cj = c@;
            let qi = &quiz.questions[c[i]];
            let qj = &quiz.questions[c[j]];
            assert(qs[c@[i as int] as int] == qi@);
            assert(qs[c@[j as int] as int] == qj@);
            let swap = match (&qj.id, &qi.depends) {
                (Some(id), Some(dep)) => str_eq(id.as_str(), dep.as_str()),
                _ => false,
            };
            if swap {
                let a = c[i];
                let b = c[j];
                c.set(i, b);
                c.set(j, a);
                assert(c@ =~= cj.update(i as int, cj[j as int]).update(j as int, cj[i as int]));
            }
            assert(c@ == dependency_swap(qs, cj, i as int, j as int));
            j += 1;
        }
        i += 1;
    }
    assert(c@ == dependency_rows(qs, c@, n as int, n as int));
}

/// Respecting dependencies only reorders the chosen questions.
pub proof fn dependency_order_permutes(qs: Seq<QuestionView>, c: Seq<usize>)
    requires
        forall|k: int| 0 <= k < c.len() ==> #[trigger] c[k] < qs.len(),
    ensures
        dependency_order(qs, c).to_multiset() == c.to_multiset(),
        dependency_order(qs, c).len() == c.len(),
{
    lemma_rows_permute(qs, c, 0, c.len() as int);
}

proof fn lemma_swap_permutes(qs: Seq<QuestionView>, c: Seq<usize>, i: int, j: int)
    requires
        0 <= i < j < c.len(),
        forall|k: int| 0 <= k < c.len() ==> #[trigger] c[k] < qs.len(),
    ensures
        dependency_swap(qs, c, i, j).to_multiset() == c.to_multiset(),
        dependency_swap(qs, c, i, j).len() == c.len(),
        forall|k: int| 0 <= k < c.len() ==> #[trigger] dependency_swap(qs, c, i, j)[k] < qs.len(),
{
    broadcast use vstd::seq_lib::group_to_multiset_ensures;
    broadcast use vstd::multiset::group_multiset_axioms;

    let e = c.update(i, c[j]);
    let d = e.update(j, c[i]);
    vstd::seq_lib::to_multiset_update(c, i, c[j]);
    vstd::seq_lib::to_multiset_update(e, j, c[i]);
    assert(e[j] == c[j]);
    assert(d.to_multiset() =~= c.to_multiset());
}

proof fn lemma_row_permutes(qs: Seq<QuestionView>, c: Seq<usize>, i: int, j: int, n: int)
    requires
        0 <= i < n,
        i + 1 <= j,
        n == c.len(),
        forall|k: int| 0 <= k < c.len() ==> #[trigger] c[k] < qs.len(),
    ensures
        dependency_row(qs, c, i, j, n).to_multiset() == c.to_multiset(),
        dependency_row(qs, c, i, j, n).len() == n,
        forall|k: int| 0 <= k < n ==> #[trigger] dependency_row(qs, c, i, j, n)[k] < qs.len(),
    decreases n - j,
{
    if j < n {
        lemma_swap_permutes(qs, c, i, j);
        lemma_row_permutes(qs, dependency_swap(qs, c, i, j), i, j + 1, n);
    }
}

proof fn lemma_rows_permute(qs: Seq<QuestionView>, c: Seq<usize>, i: int, n: int)
    requires
        0 <= i,
        n == c.len(),
        forall|k: int| 0 <= k < c.len() ==> #[trigger] c[k] < qs.len(),
    ensures
        dependency_rows(qs, c, i, n).to_multiset() == c.to_multiset(),
        dependency_rows(qs, c, i, n).len() == n,
    decreases n - i,
{
    if i < n {
        lemma_row_permutes(qs, c, i, i + 1, n);
        lemma_rows_permute(qs, dependency_row(qs, c, i, i + 1, n), i + 1, n);
    }
}

/// The options of the `take` subcommand.
pub struct QuizTakeOptions {
    /// Name of the quiz to take.
    pub name: String,
    /// Limit the total number of questions.
    pub num_to_ask: Option<usize>,
    /// Choose from the `n` questions with the highest previous scores.
    pub best: Option<usize>,
    /// Choose from the `n` questions with the lowest previous scores.
    pub worst: Option<usize>,
    /// Choose from the `n` questions with the most previous attempts.
    pub most: Option<usize>,
    /// Choose from the `n` questions with the least previous attempts.
    pub least: Option<usize>,
    /// Save results without prompting.
    pub save: bool,
    /// Do not emit colorized output.
    pub no_color: bool,
    /// Ask the questions in the order they appear in the quiz file.
    pub in_order: bool,
    pub filter_opts: QuizFilterOptions,
}

impl QuizTakeOptions {
    /// The options with nothing asked for (and no color).
    pub fn new() -> (r: QuizTakeOptions)
        ensures
            r.name@.len() == 0,
            r.num_to_ask is None && r.best is None && r.worst is None && r.most is None && r.least is None,
            !r.save && r.no_color && !r.in_order,
            r.filter_opts.tags@.len() == 0 && r.filter_opts.exclude@.len() == 0,
            !r.filter_opts.never && r.filter_opts.keywords@.len() == 0,
    {
        QuizTakeOptions {
            name: String::new(),
            num_to_ask: None,
            best: None,
            worst: None,
            most: None,
            least: None,
            save: false,
            no_color: true,
            in_order: false,
            filter_opts: QuizFilterOptions::new(),
        }
    }
}

/// The options of the `count` subcommand.
pub struct QuizCountOptions {
    pub name: String,
    /// List tags instead of counting questions.
    pub list_tags: bool,
    pub filter_opts: QuizFilterOptions,
}

/// The options of the `edit` subcommand.
pub struct QuizEditOptions {
    pub name: String,
}

/// The options of the `delete` subcommand.
pub struct QuizDeleteOptions {
    pub name: String,
    /// Delete without prompting for confirmation.
    pub force: bool,
}

/// The options of the `results` subcommand.
pub struct QuizResultsOptions {
    pub name: String,
    /// One of `best`, `worst`, `most` or `least`.
    pub sort: String,
    /// Only show the first `n` results.
    pub num_to_show: Option<usize>,
}

/// The subcommands, with their options.
pub enum QuizOptions {
    Take(QuizTakeOptions),
    Count(QuizCountOptions),
    Results(QuizResultsOptions),
    Edit(QuizEditOptions),
    Delete(QuizDeleteOptions),
    List,
}

/// `s` cut to its first `n` elements, as `Vec::truncate` does.
pub open spec fn truncated(s: Seq<usize>, n: usize) -> Seq<usize> {
    if n < s.len() {
        s.subrange(0, n as int)
    } else {
        s
    }
}

/// The positions of `c` whose questions have a previous score.
pub open spec fn keep_scored(c: Seq<usize>, ranks: Seq<Option<u64>>) -> Seq<usize>
    decreases c.len(),
{
    if c.len() == 0 {
        c
    } else if ranks[c.last() as int] is Some {
        keep_scored(c.drop_last(), ranks).push(c.last())
    } else {
        keep_scored(c.drop_last(), ranks)
    }
}

/// The rank of each question's previous score, 0 for those without one.
pub open spec fn rank_keys(ranks: Seq<Option<u64>>) -> Seq<u64> {
    ranks.map_values(|o: Option<u64>| match o {
        Some(k) => k,
        None => 0u64,
    })
}

/// The number of previous attempts of each question.
pub open spec fn attempt_keys(qs: Seq<QuestionView>) -> Seq<u64> {
    qs.map_values(|q: QuestionView| q.prior_count as u64)
}

/// The questions chosen before they are shuffled and put in dependency order:
/// those that pass the filter; with `best` (or `worst`), only those with a
/// previous score, the best (worst) first, cut to that number; then with `most`
/// (or `least`), the most (least) attempted first, cut to that number; then cut
/// to the number to ask.
pub open spec fn chosen_questions(
    qs: Seq<QuestionView>,
    ranks: Seq<Option<u64>>,
    o: QuizTakeOptions,
) -> Seq<usize> {
    let c0 = passing_positions(
        qs,
        o.filter_opts.tags.deep_view(),
        o.filter_opts.exclude.deep_view(),
        o.filter_opts.never,
        o.filter_opts.keywords.deep_view(),
        qs.len() as int,
    );
    let c1 = if o.best is Some || o.worst is Some {
        keep_scored(c0, ranks)
    } else {
        c0
    };
    let c2 = match o.best {
        Some(b) => truncated(sort_by_key(c1, rank_keys(ranks), true), b),
        None => match o.worst {
            Some(w) => truncated(sort_by_key(c1, rank_keys(ranks), false), w),
            None => c1,
        },
    };
    let c3 = match o.most {
        Some(m) => truncated(sort_by_key(c2, attempt_keys(qs), true), m),
        None => match o.least {
            Some(l) => truncated(sort_by_key(c2, attempt_keys(qs), false), l),
            None => c2,
        },
    };
    match o.num_to_ask {
        Some(n) => truncated(c3, n),
        None => c3,
    }
}

/// Every position of `c` is below `n`.
pub open spec fn below(c: Seq<usize>, n: int) -> bool {
    forall|k: int| 0 <= k < c.len() ==> #[trigger] c[k] < n
}

proof fn lemma_keep_scored_below(c: Seq<usize>, ranks: Seq<Option<u64>>, n: int)
    requires
        below(c, n),
    ensures
        below(keep_scored(c, ranks), n),
    decreases c.len(),
{
    if c.len() > 0 {
        assert(below(c.drop_last(), n)) by {
            assert forall|k: int| 0 <= k < c.drop_last().len() implies #[trigger] c.drop_last()[k] < n by {
                assert(c.drop_last()[k] == c[k]);
            }
        }
        lemma_keep_scored_below(c.drop_last(), ranks, n);
        assert(c.last() == c[c.len() - 1]);
    }
}

proof fn lemma_sorted_below(c: Seq<usize>, keys: Seq<u64>, desc: bool, n: int)
    requires
        below(c, n),
    ensures
        below(sort_by_key(c, keys, desc), n),
        sort_by_key(c, keys, desc).len() == c.len(),
{
    broadcast use vstd::seq_lib::group_to_multiset_ensures;

    sort_by_key_permutes(c, keys, desc);
    let r = sort_by_key(c, keys, desc);
    assert(r.len() == c.len()) by {
        r.to_multiset_ensures();
        c.to_multiset_ensures();
    }
    assert forall|k: int| 0 <= k < r.len() implies #[trigger] r[k] < n by {
        assert(r.to_multiset().count(r[k]) > 0);
        assert(c.contains(r[k]));
    }
}

/// Keep the positions of `c` whose questions have a previous score.
fn keep_scored_exec(c: &Vec<usize>, ranks: &Vec<Option<u64>>) -> (r: Vec<usize>)
    requires
        below(c@, ranks@.len() as int),
    ensures
        r@ == keep_scored(c@, ranks@),
{
    let mut out: Vec<usize> = Vec::new();
    let mut i: usize = 0;
    while i < c.len()
        invariant
            0 <= i <= c.len(),
            below(c@, ranks@.len() as int),
            out@ == keep_scored(c@.subrange(0, i as int), ranks@),
        decreases c.len() - i,
    {
        proof {
            let post = c@.subrange(0, i + 1);
            assert(post.drop_last() =~= c@.subrange(0, i as int));
            assert(post.last() == c@[i as int]);
        }
        if ranks[c[i]].is_some() {
            out.push(c[i]);
        }
        i += 1;
    }
    proof {
        assert(c@.subrange(0, c@.len() as int) =~= c@);
    }
    out
}

/// Cut `c` to its first `n` elements.
fn truncate_to(c: &mut Vec<usize>, n: usize)
    ensures
        final(c)@ == truncated(old(c)@, n),
{
    if n < c.len() {
        c.truncate(n);
    }
}

impl Quiz {
    /// Choose the questions to ask (see `chosen_questions`), shuffled unless they
    /// are to be asked in order, and then put in dependency order. `ranks` holds,
    /// for each question, the rank of its mean previous score among those of the
    /// quiz (a higher rank for a higher score), or `None` when it has none.
    pub fn choose_questions(&self, options: &QuizTakeOptions, ranks: &Vec<Option<u64>>) -> (r: Vec<usize>)
        requires
            ranks@.len() == self.questions@.len(),
        ensures
            options.in_order ==> r@ == dependency_order(
                self.questions.deep_view(),
                chosen_questions(self.questions.deep_view(), ranks@, *options),
            ),
            !options.in_order ==> exists|s: Seq<usize>|
                s.to_multiset() == chosen_questions(self.questions.deep_view(), ranks@, *options).to_multiset()
                    && r@ == dependency_order(self.questions.deep_view(), s),
            below(r@, self.questions@.len() as int),
    {
        broadcast use vstd::seq_lib::group_to_multiset_ensures;

        let ghost qs = self.questions.deep_view();
        let n = self.questions.len();
        let mut rank_key: Vec<u64> = Vec::new();
        let mut attempts: Vec<u64> = Vec::new();
        let mut i: usize = 0;
        while i < n
            invariant
                0 <= i <= n,
                n == self.questions@.len(),
                ranks@.len() == n,
                qs == self.questions.deep_view(),
                rank_key@ == rank_keys(ranks@).subrange(0, i as int),
                attempts@ == attempt_keys(qs).subrange(0, i as int),
            decreases n - i,
        {
            let k = match ranks[i] {
                Some(k) => k,
                None => 0,
            };
            rank_key.push(k);
            assert(qs[i as int] == self.questions@[i as int]@);
            attempts.push(self.questions[i].prior_results.len() as u64);
            proof {
                assert(rank_key@ =~= rank_keys(ranks@).subrange(0, i + 1));
                assert(attempts@ =~= attempt_keys(qs).subrange(0, i + 1));
            }
            i += 1;
        }
        proof {
            assert(rank_key@ =~= rank_keys(ranks@));
            assert(attempts@ =~= attempt_keys(qs));
        }
        let c0 = self.filter_questions(&options.filter_opts);
        proof {
            lemma_passing_below(qs, options.filter_opts.tags.deep_view(), options.filter_opts.exclude.deep_view(),
                options.filter_opts.never, options.filter_opts.keywords.deep_view(), n as int);
        }
        let c1 = if options.best.is_some() || options.worst.is_some() {
            proof {
                lemma_keep_scored_below(c0@, ranks@, n as int);
            }
            keep_scored_exec(&c0, ranks)
        } else {
            c0
        };
        let mut c2 = match options.best {
            Some(b) => {
                proof {
                    lemma_sorted_below(c1@, rank_key@, true, n as int);
                }
                let mut s = stable_sort_by_key(&c1, &rank_key, true);
                truncate_to(&mut s, b);
                s
            },
            None => match options.worst {
                Some(w) => {
                    proof {
                        lemma_sorted_below(c1@, rank_key@, false, n as int);
                    }
                    let mut s = stable_sort_by_key(&c1, &rank_key, false);
                    truncate_to(&mut s, w);
                    s
                },
                None => c1,
            },
        };
        assert(below(c2@, n as int));
        let mut c3 = match options.most {
            Some(m) => {
                proof {
                    lemma_sorted_below(c2@, attempts@, true, n as int);
                }
                let mut s = stable_sort_by_key(&c2, &attempts, true);
                truncate_to(&mut s, m);
                s
            },
            None => match options.least {
                Some(l) => {
                    proof {
                        lemma_sorted_below(c2@, attempts@, false, n as int);
                    }
                    let mut s = stable_sort_by_key(&c2, &attempts, false);
                    truncate_to(&mut s, l);
                    s
                },
                None => c2,
            },
        };
        match options.num_to_ask {
            Some(k) => truncate_to(&mut c3, k),
            None => {},
        }
        let ghost chosen = c3@;
        assert(chosen == chosen_questions(qs, ranks@, *options));
        assert(below(c3@, n as int));
        if !options.in_order {
            let mut rng = thread_rng();
            shuffle(&mut c3, &mut rng);
            proof {
                assert forall|k: int| 0 <= k < c3@.len() implies #[trigger] c3@[k] < n by {
                    assert(c3@.to_multiset().count(c3@[k]) > 0);
                    assert(chosen.contains(c3@[k]));
                }
            }
        }
        let ghost s = c3@;
        respect_dependencies(self, &mut c3);
        proof {
            dependency_order_permutes(qs, s);
            assert forall|k: int| 0 <= k < c3@.len() implies #[trigger] c3@[k] < n by {
                assert(c3@.to_multiset().count(c3@[k]) > 0);
                assert(s.contains(c3@[k]));
            }
        }
        c3
    }
}

proof fn lemma_passing_below(
    qs: Seq<QuestionView>,
    tags: Seq<Seq<char>>,
    exclude: Seq<Seq<char>>,
    never: bool,
    keywords: Seq<Seq<char>>,
    n: int,
)
    ensures
        below(passing_positions(qs, tags, exclude, never, keywords, n), n),
    decreases n,
{
    if n > 0 {
        lemma_passing_below(qs, tags, exclude, never, keywords, n - 1);
    }
}

/// The tags of all questions of `qs`, one after another.
pub open spec fn all_tags(qs: Seq<QuestionView>) -> Seq<Seq<char>>
    decreases qs.len(),
{
    if qs.len() == 0 {
        Seq::empty()
    } else {
        all_tags(qs.drop_last()) + qs.last().tags
    }
}

/// How many times `t` occurs in `s`.
pub open spec fn occurrences(s: Seq<Seq<char>>, t: Seq<char>) -> nat
    decreases s.len(),
{
    if s.len() == 0 {
        0
    } else {
        occurrences(s.drop_last(), t) + if s.last() == t {
            1nat
        } else {
            0nat
        }
    }
}

proof fn lemma_occurrences_bounded(s: Seq<Seq<char>>, t: Seq<char>)
    ensures
        occurrences(s, t) <= s.len(),
        occurrences(s, t) > 0 <==> s.contains(t),
    decreases s.len(),
{
    if s.len() > 0 {
        lemma_occurrences_bounded(s.drop_last(), t);
        if s.drop_last().contains(t) {
            let k = choose|k: int| 0 <= k < s.drop_last().len() && s.drop_last()[k] == t;
            assert(s[k] == t);
        }
        if s.contains(t) && s.last() != t {
            let k = choose|k: int| 0 <= k < s.len() && s[k] == t;
            assert(s.drop_last()[k] == t);
        }
    }
}

/// The tags are listed in order, each strictly before the next.
pub open spec fn tags_sorted(r: Seq<(Seq<char>, u32)>) -> bool {
    forall|a: int, b: int| 0 <= a < b < r.len() ==> str_less(#[trigger] r[a].0, #[trigger] r[b].0)
}

/// The tags used by the questions of the quiz, in order, each with the number of
/// times it is used.
pub fn list_tags(quiz: &Quiz) -> (r: Vec<(String, u32)>)
    requires
        all_tags(quiz.questions.deep_view()).len() <= u32::MAX,
    ensures
        tags_sorted(r.deep_view()),
        forall|k: int|
            0 <= k < r@.len() ==> (#[trigger] r.deep_view()[k]).1 == occurrences(
                all_tags(quiz.questions.deep_view()),
                r.deep_view()[k].0,
            ) && r.deep_view()[k].1 > 0,
        forall|t: Seq<char>|
            all_tags(quiz.questions.deep_view()).contains(t) ==> exists|k: int|
                0 <= k < r@.len() && (#[trigger] r.deep_view()[k]).0 == t,
{
    let ghost qs = quiz.questions.deep_view();
    let mut out: Vec<(String, u32)> = Vec::new();
    let mut i: usize = 0;
    let ghost mut seen: Seq<Seq<char>> = Seq::empty();
    while i < quiz.questions.len()
        invariant
            0 <= i <= quiz.questions.len(),
            qs == quiz.questions.deep_view(),
            all_tags(qs).len() <= u32::MAX,
            seen == all_tags(qs.subrange(0, i as int)),
            tags_sorted(out.deep_view()),
            forall|k: int|
                0 <= k < out@.len() ==> (#[trigger] out.deep_view()[k]).1 == occurrences(seen, out.deep_view()[k].0)
                    && out.deep_view()[k].1 > 0,
            forall|t: Seq<char>| seen.contains(t) ==> exists|k: int| 0 <= k < out@.len() && (#[trigger] out.deep_view()[k]).0 == t,
        decreases quiz.questions.len() - i,
    {
        let tags = &quiz.questions[i].tags;
        let ghost start = seen;
        proof {
            lemma_all_tags_prefix(qs, i as int);
            assert(qs[i as int] == quiz.questions@[i as int]@);
        }
        let mut j: usize = 0;
        while j < tags.len()
            invariant
                0 <= j <= tags.len(),
                i < qs.len(),
                tags.deep_view() == qs[i as int].tags,
                all_tags(qs.subrange(0, i + 1)) == start + tags.deep_view(),
                all_tags(qs.subrange(0, i + 1)).len() <= u32::MAX,
                seen == start + tags.deep_view().subrange(0, j as int),
                tags_sorted(out.deep_view()),
                forall|k: int|
                    0 <= k < out@.len() ==> (#[trigger] out.deep_view()[k]).1 == occurrences(seen, out.deep_view()[k].0)
                        && out.deep_view()[k].1 > 0,
                forall|t: Seq<char>| seen.contains(t) ==> exists|k: int| 0 <= k < out@.len() && (#[trigger] out.deep_view()[k]).0 == t,
            decreases tags.len() - j,
        {
            let tag = &tags[j];
            let ghost tv = tag@;
            let ghost old_seen = seen;
            let ghost before = out.deep_view();
            proof {
                seen = seen.push(tv);
                assert(seen =~= start + tags.deep_view().subrange(0, j + 1));
                assert(seen.len() <= all_tags(qs.subrange(0, i + 1)).len()) by {
                    assert(all_tags(qs.subrange(0, i + 1)).len() == start.len() + tags.deep_view().len());
                }
                lemma_occurrences_bounded(old_seen, tv);
            }
            // Find where the tag is, or where it goes.
            let mut p: usize = 0;
            while p < out.len() && str_before(out[p].0.as_str(), tag.as_str())
                invariant
                    0 <= p <= out.len(),
                    out.deep_view() == before,
                    tv == tag@,
                    forall|k: int| 0 <= k < p ==> str_less(#[trigger] before[k].0, tv),
                decreases out.len() - p,
            {
                assert(before[p as int].0 == out@[p as int].0@);
                p += 1;
            }
            let found = p < out.len() && crate::text::str_eq(out[p].0.as_str(), tag.as_str());
            if found {
                let n = out[p].1;
                proof {
                    assert(before[p as int].0 == tv);
                    assert(n == occurrences(old_seen, tv));
                }
                let key = out[p].0.clone();
                out.set(p, (key, n + 1));
                proof {
                    assert(out.deep_view() =~= before.update(p as int, (tv, (n + 1) as u32)));
                    assert forall|a: int, b: int| 0 <= a < b < out.deep_view().len() implies str_less(
                        #[trigger] out.deep_view()[a].0,
                        #[trigger] out.deep_view()[b].0,
                    ) by {
                        assert(out.deep_view()[a].0 == before[a].0);
                        assert(out.deep_view()[b].0 == before[b].0);
                    }
                    assert forall|k: int| 0 <= k < out@.len() implies (#[trigger] out.deep_view()[k]).1 == occurrences(
                        seen,
                        out.deep_view()[k].0,
                    ) && out.deep_view()[k].1 > 0 by {
                        assert(seen.drop_last() == old_seen);
                        if k != p {
                            assert(out.deep_view()[k] == before[k]);
                            assert(before[k].0 != tv);
                        }
                    }
                    assert forall|t: Seq<char>| seen.contains(t) implies exists|k: int|
                        0 <= k < out@.len() && (#[trigger] out.deep_view()[k]).0 == t by {
                        if t == tv {
                            assert(out.deep_view()[p as int].0 == t);
                        } else {
                            let m = choose|m: int| 0 <= m < seen.len() && seen[m] == t;
                            assert(old_seen[m] == t);
                            assert(old_seen.contains(t));
                            let k = choose|k: int| 0 <= k < before.len() && (#[trigger] before[k]).0 == t;
                            assert(out.deep_view()[k].0 == before[k].0);
                        }
                    }
                }
            } else {
                proof {
                    if p < before.len() {
                        lemma_str_less_total(before[p as int].0, tv);
                    }
                    assert forall|k: int| p <= k < before.len() implies str_less(tv, #[trigger] before[k].0) by {
                        if k > p {
                            lemma_str_less_trans(tv, before[p as int].0, before[k].0);
                        }
                    }
                    if old_seen.contains(tv) {
                        let k = choose|k: int| 0 <= k < before.len() && (#[trigger] before[k]).0 == tv;
                        if k < p {
                            crate::results::lemma_str_less_irreflexive(tv);
                        } else {
                            crate::results::lemma_str_less_irreflexive(tv);
                        }
                    }
                    lemma_occurrences_bounded(old_seen, tv);
                    assert(occurrences(old_seen, tv) == 0);
                }
                out.insert(p, (tag.clone(), 1));
                proof {
                    let after = out.deep_view();
                    assert(after =~= before.insert(p as int, (tv, 1u32)));
                    assert(seen.drop_last() == old_seen);
                    assert forall|a: int, b: int| 0 <= a < b < after.len() implies str_less(
                        #[trigger] after[a].0,
                        #[trigger] after[b].0,
                    ) by {
                        if b < p {
                        } else if b == p {
                        } else if a < p {
                            lemma_str_less_trans(after[a].0, tv, after[b].0);
                        } else if a == p {
                        } else {
                        }
                    }
                    assert forall|k: int| 0 <= k < out@.len() implies (#[trigger] out.deep_view()[k]).1 == occurrences(
                        seen,
                        out.deep_view()[k].0,
                    ) && out.deep_view()[k].1 > 0 by {
                        if k < p {
                            assert(after[k] == before[k]);
                            crate::results::lemma_str_less_irreflexive(tv);
                        } else if k > p {
                            assert(after[k] == before[k - 1]);
                            crate::results::lemma_str_less_irreflexive(tv);
                        }
                    }
                    assert forall|t: Seq<char>| seen.contains(t) implies exists|k: int|
                        0 <= k < out@.len() && (#[trigger] out.deep_view()[k]).0 == t by {
                        if t == tv {
                            assert(after[p as int].0 == t);
                        } else {
                            let m = choose|m: int| 0 <= m < seen.len() && seen[m] == t;
                            assert(old_seen[m] == t);
                            assert(old_seen.contains(t));
                            let k = choose|k: int| 0 <= k < before.len() && (#[trigger] before[k]).0 == t;
                            if k < p {
                                assert(after[k].0 == t);
                            } else {
                                assert(after[k + 1].0 == t);
                            }
                        }
                    }
                }
            }
            j += 1;
        }
        proof {
            assert(tags.deep_view().subrange(0, tags@.len() as int) =~= tags.deep_view());
        }
        i += 1;
    }
    proof {
        assert(qs.subrange(0, qs.len() as int) =~= qs);
    }
    out
}

proof fn lemma_all_tags_prefix(qs: Seq<QuestionView>, i: int)
    requires
        0 <= i < qs.len(),
    ensures
        all_tags(qs.subrange(0, i + 1)) == all_tags(qs.subrange(0, i)) + qs[i].tags,
        all_tags(qs.subrange(0, i + 1)).len() <= all_tags(qs).len(),
    decreases qs.len() - i,
{
    let s = qs.subrange(0, i + 1);
    assert(s.drop_last() =~= qs.subrange(0, i));
    if i + 1 < qs.len() {
        lemma_all_tags_prefix(qs, i + 1);
    } else {
        assert(s =~= qs);
    }
}

/// What came of answering a question that takes a single answer.
pub struct PopGraded {
    /// Whether the answer was accepted.
    pub correct: bool,
    /// What is recorded of the response.
    pub response: Option<String>,
}

impl Question {
    /// The text to ask the question with: one of its variants, picked at random.
    pub fn pick_text(&self) -> (r: String)
        requires
            self.text@.len() > 0,
        ensures
            exists|i: int| 0 <= i < self.text@.len() && #[trigger] self.text@[i]@ == r@,
    {
        let mut rng = thread_rng();
        match pick_one(&self.text, &mut rng) {
            Some(t) => {
                let r = t.clone();
                proof {
                    let i = choose|i: int| 0 <= i < self.text@.len() && self.text@[i] == *t;
                    assert(self.text@[i]@ == r@);
                }
                r
            },
            None => {
                let r = self.text[0].clone();
                assert(self.text@[0]@ == r@);
                r
            },
        }
    }

    /// Grade the response to a short-answer question (`None` when the user gave
    /// up): it is correct when one of the answers matches it; the response is
    /// recorded lowercased.
    pub fn grade_short_answer(&self, guess: Option<String>) -> (r: PopGraded)
        ensures
            r.correct == (guess matches Some(g) && exists|i: int|
                0 <= i < self@.answer_list.len() && answer_matches(#[trigger] self@.answer_list[i], g@)),
            guess matches Some(g) ==> (r.response matches Some(x) && x@ == lowercase_of(g@)),
            guess is None ==> r.response is None,
    {
        match guess {
            Some(g) => {
                let correct = self.check_any(g.as_str());
                PopGraded { correct, response: Some(lowercase(g.as_str())) }
            },
            None => PopGraded { correct: false, response: None },
        }
    }

    /// The choices to show for a multiple-choice question, with the variant of the
    /// answer among them (see `pick_choices_from`).
    pub fn pick_choices(&self) -> (r: (Vec<String>, String))
        requires
            self.answer_list@.len() > 0,
            self.answer_list@[0]@.len() > 0,
        ensures
            self@.answer_list[0].contains(r.1@),
            r.0.deep_view().contains(r.1@),
            r.0@.len() == vstd::math::min(3, self.candidates@.len() as int) + 1,
            forall|k: int| 0 <= k < r.0@.len() ==> #[trigger] r.0.deep_view()[k] == r.1@
                || self@.candidates.contains(r.0.deep_view()[k]),
            self.answer_list@[0].variants@.contains(r.1),
            exists|idx: Seq<usize>| #[trigger] shown_from(self.candidates@, idx, r.1, r.0@),
    {
        pick_choices_from(&self.candidates, &self.answer_list[0].variants)
    }
}

/// What the user does while answering a question with several answers.
pub enum Reply {
    /// An answer.
    Answer(String),
    /// No more answers (end of input).
    NoAnswer,
}

/// What follows from a reply while answering a list question.
#[derive(Debug, PartialEq, Eq, Structural)]
pub enum ReplyAction {
    /// The answer is right.
    Correct,
    /// The answer is wrong.
    Incorrect,
    /// The answer was already given; it does not count.
    AlreadySaid,
    /// No more answers are taken.
    Stop,
}

/// The state of a list question being answered.
pub struct PopListSession {
    /// Which answers have been given.
    pub satisfied: Vec<bool>,
    /// How many replies counted.
    pub count: usize,
    /// The user has stopped answering.
    pub stopped: bool,
}

impl Question {
    /// Begin answering a list question: no answer given yet.
    pub fn start_list(&self) -> (s: PopListSession)
        ensures
            s.satisfied@.len() == self.answer_list@.len(),
            forall|i: int| 0 <= i < s.satisfied@.len() ==> !s.satisfied@[i],
            s.count == 0,
            !s.stopped,
    {
        let mut satisfied: Vec<bool> = Vec::new();
        let mut i: usize = 0;
        while i < self.answer_list.len()
            invariant
                0 <= i <= self.answer_list.len(),
                satisfied@.len() == i,
                forall|k: int| 0 <= k < i ==> !satisfied@[k],
            decreases self.answer_list.len() - i,
        {
            satisfied.push(false);
            i += 1;
        }
        PopListSession { satisfied, count: 0, stopped: false }
    }
}

impl PopListSession {
    /// The session belongs to `q` and has not taken more replies than `q` has
    /// answers.
    pub open spec fn fits(&self, q: &Question) -> bool {
        &&& self.satisfied@.len() == q.answer_list@.len()
        &&& self.count <= self.satisfied@.len()
    }

    /// No more replies are taken: one for each answer, or the user stopped.
    pub fn is_done(&self) -> (r: bool)
        ensures
            r == (self.stopped || self.count >= self.satisfied@.len()),
    {
        self.stopped || self.count >= self.satisfied.len()
    }

    /// Handle a reply to the list question `q`.
    pub fn step(&mut self, q: &Question, reply: Reply) -> (r: ReplyAction)
        requires
            old(self).fits(q),
            !old(self).stopped,
            old(self).count < old(self).satisfied@.len(),
        ensures
            final(self).fits(q),
            match reply {
                Reply::Answer(g) => {
                    let i = first_match(q@.answer_list, g@);
                    if i == q@.answer_list.len() {
                        &&& r == ReplyAction::Incorrect
                        &&& final(self).satisfied@ == old(self).satisfied@
                        &&& final(self).count == old(self).count + 1
                        &&& !final(self).stopped
                    } else if old(self).satisfied@[i] {
                        r == ReplyAction::AlreadySaid && *final(self) == *old(self)
                    } else {
                        &&& r == ReplyAction::Correct
                        &&& final(self).satisfied@ == old(self).satisfied@.update(i, true)
                        &&& final(self).count == old(self).count + 1
                        &&& !final(self).stopped
                    }
                },
                Reply::NoAnswer => {
                    &&& r == ReplyAction::Stop
                    &&& final(self).satisfied@ == old(self).satisfied@
                    &&& final(self).count == old(self).count
                    &&& final(self).stopped
                },
            },
    {
        match reply {
            Reply::Answer(guess) => {
                let index = q.check_one(guess.as_str());
                if index == q.answer_list.len() {
                    self.count += 1;
                    ReplyAction::Incorrect
                } else if self.satisfied[index] {
                    ReplyAction::AlreadySaid
                } else {
                    self.satisfied.set(index, true);
                    self.count += 1;
                    ReplyAction::Correct
                }
            },
            Reply::NoAnswer => {
                self.stopped = true;
                ReplyAction::Stop
            },
        }
    }

    /// The answers that were not given (the first variant of each) and how many
    /// were given: the score is that number out of the number of answers.
    pub fn finish(self, q: &Question) -> (r: (Vec<String>, usize))
        requires
            self.fits(q),
            forall|i: int| 0 <= i < q@.answer_list.len() ==> (#[trigger] q@.answer_list[i]).len() > 0,
        ensures
            r.1 == count_true(self.satisfied@),
            r.0@.len() == q@.answer_list.len() - r.1,
            forall|k: int| 0 <= k < r.0@.len() ==> exists|i: int|
                0 <= i < q@.answer_list.len() && !self.satisfied@[i] && #[trigger] r.0.deep_view()[k] == q@.answer_list[i][0],
    {
        let n = q.answer_list.len();
        let mut missed: Vec<String> = Vec::new();
        let mut found: usize = 0;
        let mut i: usize = 0;
        assert(self.satisfied@.subrange(0, 0) =~= Seq::<bool>::empty());
        while i < n
            invariant
                0 <= i <= n == q@.answer_list.len() == self.satisfied@.len(),
                forall|k: int| 0 <= k < n ==> (#[trigger] q@.answer_list[k]).len() > 0,
                found == count_true(self.satisfied@.subrange(0, i as int)),
                missed@.len() + found == i,
                forall|k: int| 0 <= k < missed@.len() ==> exists|j: int|
                    0 <= j < i && !self.satisfied@[j] && #[trigger] missed.deep_view()[k] == q@.answer_list[j][0],
            decreases n - i,
        {
            let ghost p = self.satisfied@.subrange(0, i + 1);
            assert(p.drop_last() =~= self.satisfied@.subrange(0, i as int));
            if self.satisfied[i] {
                found += 1;
            } else {
                let ghost before = missed.deep_view();
                assert(q@.answer_list[i as int][0] == q.answer_list@[i as int].variants@[0]@);
                missed.push(q.answer_list[i].variants[0].clone());
                proof {
                    assert forall|k: int| 0 <= k < missed@.len() implies exists|j: int|
                        0 <= j < i + 1 && !self.satisfied@[j] && #[trigger] missed.deep_view()[k] == q@.answer_list[j][0] by {
                        if k < before.len() {
                            assert(missed.deep_view()[k] == before[k]);
                        } else {
                            assert(missed.deep_view()[k] == q@.answer_list[i as int][0]);
                        }
                    }
                }
            }
            i += 1;
        }
        assert(self.satisfied@.subrange(0, n as int) =~= self.satisfied@);
        (missed, found)
    }
}

/// The state of an ordered list question being answered: the answers are asked
/// for one by one, in order.
pub struct PopOrderedSession {
    /// The position of the answer asked for next.
    pub index: usize,
    /// How many answers were right.
    pub ncorrect: usize,
    /// The user has stopped answering.
    pub stopped: bool,
}

impl Question {
    /// Begin answering an ordered list question.
    pub fn start_ordered(&self) -> (s: PopOrderedSession)
        ensures
            s.index == 0 && s.ncorrect == 0 && !s.stopped,
    {
        PopOrderedSession { index: 0, ncorrect: 0, stopped: false }
    }
}

impl PopOrderedSession {
    /// No more replies are taken: every answer was asked for, or the user stopped.
    pub fn is_done(&self, q: &Question) -> (r: bool)
        ensures
            r == (self.stopped || self.index >= q@.answer_list.len()),
    {
        self.stopped || self.index >= q.answer_list.len()
    }

    /// Handle a reply to the ordered list question `q`: it is right when the
    /// answer at the current position matches it.
    pub fn step(&mut self, q: &Question, reply: Reply) -> (r: ReplyAction)
        requires
            !old(self).stopped,
            old(self).index < q@.answer_list.len(),
            old(self).ncorrect <= old(self).index,
        ensures
            final(self).ncorrect <= final(self).index <= q@.answer_list.len(),
            match reply {
                Reply::Answer(g) => if answer_matches(q@.answer_list[old(self).index as int], g@) {
                    &&& r == ReplyAction::Correct
                    &&& final(self).index == old(self).index + 1
                    &&& final(self).ncorrect == old(self).ncorrect + 1
                    &&& !final(self).stopped
                } else {
                    &&& r == ReplyAction::Incorrect
                    &&& final(self).index == old(self).index + 1
                    &&& final(self).ncorrect == old(self).ncorrect
                    &&& !final(self).stopped
                },
                Reply::NoAnswer => {
                    &&& r == ReplyAction::Stop
                    &&& final(self).index == old(self).index
                    &&& final(self).ncorrect == old(self).ncorrect
                    &&& final(self).stopped
                },
            },
    {
        match reply {
            Reply::Answer(guess) => {
                let right = q.answer_list[self.index].check(guess.as_str());
                let total = q.answer_list.len();
                assert(self.index < total);
                self.index += 1;
                if right {
                    self.ncorrect += 1;
                    ReplyAction::Correct
                } else {
                    ReplyAction::Incorrect
                }
            },
            Reply::NoAnswer => {
                self.stopped = true;
                ReplyAction::Stop
            },
        }
    }
}

/// The counts of a quiz that was taken, from the score of each answered
/// question: `Some((k, n))` for `k` right out of `n` (with `n > 0`), `None` for
/// an ungraded question.
pub struct Tally {
    /// Questions answered, graded or not.
    pub total_answered: usize,
    pub total_correct: usize,
    pub total_partially_correct: usize,
    pub total_incorrect: usize,
    pub total_ungraded: usize,
}

/// How many of `scores` are full marks.
pub open spec fn full_count(scores: Seq<Option<(u64, u64)>>) -> nat
    decreases scores.len(),
{
    if scores.len() == 0 {
        0
    } else {
        full_count(scores.drop_last()) + match scores.last() {
            Some((k, n)) => if k == n {
                1nat
            } else {
                0nat
            },
            None => 0nat,
        }
    }
}

/// How many of `scores` are some marks but not all.
pub open spec fn partial_count(scores: Seq<Option<(u64, u64)>>) -> nat
    decreases scores.len(),
{
    if scores.len() == 0 {
        0
    } else {
        partial_count(scores.drop_last()) + match scores.last() {
            Some((k, n)) => if 0 < k && k != n {
                1nat
            } else {
                0nat
            },
            None => 0nat,
        }
    }
}

/// How many of `scores` are ungraded.
pub open spec fn ungraded_count(scores: Seq<Option<(u64, u64)>>) -> nat
    decreases scores.len(),
{
    if scores.len() == 0 {
        0
    } else {
        ungraded_count(scores.drop_last()) + if scores.last() is None {
            1nat
        } else {
            0nat
        }
    }
}

proof fn lemma_counts_fit(scores: Seq<Option<(u64, u64)>>)
    ensures
        full_count(scores) + partial_count(scores) + ungraded_count(scores) <= scores.len(),
    decreases scores.len(),
{
    if scores.len() > 0 {
        lemma_counts_fit(scores.drop_last());
    }
}

/// Count the answered questions: right (all of the fraction), partially right
/// (some of it), wrong, and ungraded.
pub fn tally(scores: &Vec<Option<(u64, u64)>>) -> (r: Tally)
    ensures
        r.total_answered == scores@.len(),
        r.total_correct == full_count(scores@),
        r.total_partially_correct == partial_count(scores@),
        r.total_ungraded == ungraded_count(scores@),
        r.total_incorrect == scores@.len() - full_count(scores@) - partial_count(scores@) - ungraded_count(scores@),
{
    let mut correct: usize = 0;
    let mut partial: usize = 0;
    let mut ungraded: usize = 0;
    let mut i: usize = 0;
    while i < scores.len()
        invariant
            0 <= i <= scores.len(),
            correct == full_count(scores@.subrange(0, i as int)),
            partial == partial_count(scores@.subrange(0, i as int)),
            ungraded == ungraded_count(scores@.subrange(0, i as int)),
            correct + partial + ungraded <= i,
        decreases scores.len() - i,
    {
        let ghost p = scores@.subrange(0, i + 1);
        assert(p.drop_last() =~= scores@.subrange(0, i as int));
        match scores[i] {
            Some((k, n)) => {
                if k == n {
                    correct += 1;
                } else if k > 0 {
                    partial += 1;
                }
            },
            None => {
                ungraded += 1;
            },
        }
        i += 1;
    }
    assert(scores@.subrange(0, scores@.len() as int) =~= scores@);
    proof {
        lemma_counts_fit(scores@);
    }
    Tally {
        total_answered: scores.len(),
        total_correct: correct,
        total_partially_correct: partial,
        total_incorrect: scores.len() - correct - partial - ungraded,
        total_ungraded: ungraded,
    }
}


/// A prefix of the positions `s` sorted by key is in order of key, and holds no
/// position whose key sorts after that of a position of `s` that it left out.
proof fn lemma_sorted_prefix(s: Seq<usize>, keys: Seq<u64>, desc: bool, c: Seq<usize>)
    requires
        below(s, keys.len() as int),
        c.len() <= sort_by_key(s, keys, desc).len(),
        c == sort_by_key(s, keys, desc).subrange(0, c.len() as int),
    ensures
        forall|a: int, b: int| 0 <= a < b < c.len() ==> sort_key(keys, desc, #[trigger] c[a]) <= sort_key(keys, desc, #[trigger] c[b]),
        forall|k: int, y: usize|
            #![trigger c[k], s.contains(y)]
            0 <= k < c.len() && s.contains(y) && !c.contains(y) ==> sort_key(keys, desc, c[k]) <= sort_key(
                keys,
                desc,
                y,
            ),
{
    broadcast use vstd::seq_lib::group_to_multiset_ensures;

    let t = sort_by_key(s, keys, desc);
    assert forall|k: int| 0 <= k < s.len() implies #[trigger] s[k] < keys.len() by {}
    sort_by_key_sorted(s, keys, desc);
    sort_by_key_permutes(s, keys, desc);
    assert forall|a: int, b: int| 0 <= a < b < c.len() implies sort_key(keys, desc, #[trigger] c[a]) <= sort_key(keys, desc, #[trigger] c[b]) by {
        assert(c[a] == t[a] && c[b] == t[b]);
    }
    assert forall|k: int, y: usize|
        #![trigger c[k], s.contains(y)]
        0 <= k < c.len() && s.contains(y) && !c.contains(y) implies sort_key(keys, desc, c[k]) <= sort_key(
            keys,
            desc,
            y,
        ) by {
        assert(s.to_multiset().count(y) > 0);
        assert(t.contains(y));
        let m = choose|m: int| 0 <= m < t.len() && t[m] == y;
        if m < c.len() {
            assert(c[m] == y);
        }
        assert(c[k] == t[k]);
    }
}

/// With `least` (and neither `best`, `worst` nor `most`), the questions chosen
/// are in increasing order of previous attempts, and none was attempted more
/// often than a question that passes the filter and was left out.
pub proof fn least_chooses_fewest_attempts(qs: Seq<QuestionView>, ranks: Seq<Option<u64>>, o: QuizTakeOptions)
    requires
        o.best is None,
        o.worst is None,
        o.most is None,
        o.least is Some,
        forall|i: int| 0 <= i < qs.len() ==> (#[trigger] qs[i]).prior_count <= u64::MAX,
    ensures
        forall|a: int, b: int|
            0 <= a < b < chosen_questions(qs, ranks, o).len() ==> qs[#[trigger] chosen_questions(qs, ranks, o)[a] as int].prior_count
                <= qs[#[trigger] chosen_questions(qs, ranks, o)[b] as int].prior_count,
        forall|k: int, y: usize|
            #![trigger chosen_questions(qs, ranks, o)[k], qs[y as int]]
            0 <= k < chosen_questions(qs, ranks, o).len() && passing_positions(
                qs,
                o.filter_opts.tags.deep_view(),
                o.filter_opts.exclude.deep_view(),
                o.filter_opts.never,
                o.filter_opts.keywords.deep_view(),
                qs.len() as int,
            ).contains(y) && !chosen_questions(qs, ranks, o).contains(y) ==> qs[chosen_questions(
                qs,
                ranks,
                o,
            )[k] as int].prior_count <= qs[y as int].prior_count,
{
    lemma_chosen_by_attempts(qs, ranks, o, false);
    let p0 = passing_positions(
        qs,
        o.filter_opts.tags.deep_view(),
        o.filter_opts.exclude.deep_view(),
        o.filter_opts.never,
        o.filter_opts.keywords.deep_view(),
        qs.len() as int,
    );
    let c = chosen_questions(qs, ranks, o);
    assert forall|k: int, y: usize|
        #![trigger c[k], qs[y as int]]
        0 <= k < c.len() && p0.contains(y) && !c.contains(y) implies qs[c[k] as int].prior_count <= qs[y as int].prior_count by {
        let m = choose|m: int| 0 <= m < p0.len() && p0[m] == y;
        assert(below(p0, qs.len() as int));
        assert(p0[m] < qs.len());
        assert(attempt_keys(qs)[y as int] == qs[y as int].prior_count);
        assert(attempt_keys(qs)[c[k] as int] == qs[c[k] as int].prior_count);
    }
}

/// With `most` (and neither `best` nor `worst`), the questions chosen are in
/// decreasing order of previous attempts, and none was attempted less often than
/// a question that passes the filter and was left out.
pub proof fn most_chooses_most_attempts(qs: Seq<QuestionView>, ranks: Seq<Option<u64>>, o: QuizTakeOptions)
    requires
        o.best is None,
        o.worst is None,
        o.most is Some,
        forall|i: int| 0 <= i < qs.len() ==> (#[trigger] qs[i]).prior_count <= u64::MAX,
    ensures
        forall|a: int, b: int|
            0 <= a < b < chosen_questions(qs, ranks, o).len() ==> qs[#[trigger] chosen_questions(qs, ranks, o)[a] as int].prior_count
                >= qs[#[trigger] chosen_questions(qs, ranks, o)[b] as int].prior_count,
        forall|k: int, y: usize|
            #![trigger chosen_questions(qs, ranks, o)[k], qs[y as int]]
            0 <= k < chosen_questions(qs, ranks, o).len() && passing_positions(
                qs,
                o.filter_opts.tags.deep_view(),
                o.filter_opts.exclude.deep_view(),
                o.filter_opts.never,
                o.filter_opts.keywords.deep_view(),
                qs.len() as int,
            ).contains(y) && !chosen_questions(qs, ranks, o).contains(y) ==> qs[chosen_questions(
                qs,
                ranks,
                o,
            )[k] as int].prior_count >= qs[y as int].prior_count,
{
    lemma_chosen_by_attempts(qs, ranks, o, true);
    let p0 = passing_positions(
        qs,
        o.filter_opts.tags.deep_view(),
        o.filter_opts.exclude.deep_view(),
        o.filter_opts.never,
        o.filter_opts.keywords.deep_view(),
        qs.len() as int,
    );
    let c = chosen_questions(qs, ranks, o);
    assert forall|k: int, y: usize|
        #![trigger c[k], qs[y as int]]
        0 <= k < c.len() && p0.contains(y) && !c.contains(y) implies qs[c[k] as int].prior_count >= qs[y as int].prior_count by {
        let m = choose|m: int| 0 <= m < p0.len() && p0[m] == y;
        assert(below(p0, qs.len() as int));
        assert(p0[m] < qs.len());
        assert(attempt_keys(qs)[y as int] == qs[y as int].prior_count);
        assert(attempt_keys(qs)[c[k] as int] == qs[c[k] as int].prior_count);
    }
}

proof fn lemma_chosen_by_attempts(qs: Seq<QuestionView>, ranks: Seq<Option<u64>>, o: QuizTakeOptions, desc: bool)
    requires
        o.best is None,
        o.worst is None,
        desc ==> o.most is Some,
        !desc ==> o.most is None && o.least is Some,
        forall|i: int| 0 <= i < qs.len() ==> (#[trigger] qs[i]).prior_count <= u64::MAX,
    ensures
        forall|a: int, b: int|
            0 <= a < b < chosen_questions(qs, ranks, o).len() ==> sort_key(attempt_keys(qs), desc, #[trigger] chosen_questions(qs, ranks, o)[a])
                <= sort_key(attempt_keys(qs), desc, #[trigger] chosen_questions(qs, ranks, o)[b]),
        forall|k: int, y: usize|
            #![trigger chosen_questions(qs, ranks, o)[k], qs[y as int]]
            0 <= k < chosen_questions(qs, ranks, o).len() && passing_positions(
                qs,
                o.filter_opts.tags.deep_view(),
                o.filter_opts.exclude.deep_view(),
                o.filter_opts.never,
                o.filter_opts.keywords.deep_view(),
                qs.len() as int,
            ).contains(y) && !chosen_questions(qs, ranks, o).contains(y) ==> sort_key(attempt_keys(qs), desc, chosen_questions(
                qs,
                ranks,
                o,
            )[k]) <= sort_key(attempt_keys(qs), desc, y),
        forall|p: int| 0 <= p < qs.len() ==> #[trigger] attempt_keys(qs)[p] == qs[p].prior_count,
        below(passing_positions(
            qs,
            o.filter_opts.tags.deep_view(),
            o.filter_opts.exclude.deep_view(),
            o.filter_opts.never,
            o.filter_opts.keywords.deep_view(),
            qs.len() as int,
        ), qs.len() as int),
        forall|k: int| 0 <= k < chosen_questions(qs, ranks, o).len() ==> #[trigger] chosen_questions(qs, ranks, o)[k] < qs.len(),
{
    let p0 = passing_positions(
        qs,
        o.filter_opts.tags.deep_view(),
        o.filter_opts.exclude.deep_view(),
        o.filter_opts.never,
        o.filter_opts.keywords.deep_view(),
        qs.len() as int,
    );
    lemma_passing_below(
        qs,
        o.filter_opts.tags.deep_view(),
        o.filter_opts.exclude.deep_view(),
        o.filter_opts.never,
        o.filter_opts.keywords.deep_view(),
        qs.len() as int,
    );
    let keys = attempt_keys(qs);
    assert(keys.len() == qs.len());
    assert forall|p: int| 0 <= p < qs.len() implies #[trigger] attempt_keys(qs)[p] == qs[p].prior_count by {}
    let t = sort_by_key(p0, keys, desc);
    lemma_sorted_below(p0, keys, desc, qs.len() as int);
    let lim: usize = if desc {
        o.most.unwrap()
    } else {
        o.least.unwrap()
    };
    let c3 = truncated(t, lim);
    assert(c3 =~= t.subrange(0, c3.len() as int));
    let c = chosen_questions(qs, ranks, o);
    assert(c == match o.num_to_ask {
        Some(n) => truncated(c3, n),
        None => c3,
    });
    assert(c =~= t.subrange(0, c.len() as int));
    lemma_sorted_prefix(p0, keys, desc, c);
    assert forall|k: int| 0 <= k < c.len() implies #[trigger] c[k] < qs.len() by {
        assert(c[k] == t[k]);
    }
}

} // verus!
