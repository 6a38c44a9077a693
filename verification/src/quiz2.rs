//! The second version of the quiz model, in which questions live in a database:
//! each question has a numeric ID, a type and a list of answers, and an answer
//! says whether it is correct and whether it earns credit.
use vstd::prelude::*;

use crate::common::{QuizError, QuizErrorView, TakeOptions};
use crate::quiz::{now, Timestamp, MAX_SCORE};
use crate::random::{shuffle, thread_rng};
use crate::text::{normal_form, normalize, str_eq};

verus! {

/// A quiz of the second version.
#[derive(Debug)]
pub struct Quiz2 {
    pub instructions: Option<String>,
    pub questions: Vec<Question2>,
    pub version: String,
}

/// A question of the second version.
#[derive(Debug)]
pub struct Question2 {
    pub id: i64,
    pub text: String,
    pub question_type: QuestionType,
    pub answers: Vec<Answer2>,
}

/// The kinds of question of the second version.
#[derive(Debug, Clone, Copy, PartialEq, Eq, Structural)]
pub enum QuestionType {
    ShortAnswer,
    Ordered,
    Unordered,
    MultipleChoice,
    Flashcard,
}

/// An answer of the second version: its accepted spellings, whether it is a
/// correct answer, and whether it earns no credit.
#[derive(Debug)]
pub struct Answer2 {
    pub variants: Vec<String>,
    pub correct: bool,
    pub no_credit: bool,
}

/// The mathematical value of an `Answer2`.
pub struct Answer2View {
    pub variants: Seq<Seq<char>>,
    pub correct: bool,
    pub no_credit: bool,
}

impl View for Answer2 {
    type V = Answer2View;

    open spec fn view(&self) -> Answer2View {
        Answer2View { variants: self.variants.deep_view(), correct: self.correct, no_credit: self.no_credit }
    }
}

impl DeepView for Answer2 {
    type V = Answer2View;

    open spec fn deep_view(&self) -> Answer2View {
        self@
    }
}

/// The mathematical value of a `Question2`.
pub struct Question2View {
    pub id: i64,
    pub text: Seq<char>,
    pub question_type: QuestionType,
    pub answers: Seq<Answer2View>,
}

impl View for Question2 {
    type V = Question2View;

    open spec fn view(&self) -> Question2View {
        Question2View {
            id: self.id,
            text: self.text@,
            question_type: self.question_type,
            answers: self.answers.deep_view(),
        }
    }
}

impl DeepView for Question2 {
    type V = Question2View;

    open spec fn deep_view(&self) -> Question2View {
        self@
    }
}

/// `guess` is one of the spellings of `ans`, once both are normalized.
pub open spec fn accepts(ans: Answer2View, guess: Seq<char>) -> bool {
    exists|i: int| 0 <= i < ans.variants.len() && normal_form(#[trigger] ans.variants[i]) == normal_form(guess)
}

/// Return `true` if the given string is equivalent to the Answer object.
pub fn check(ans: &Answer2, guess: &str) -> (r: bool)
    ensures
        r == accepts(ans@, guess@),
{
    let mut i: usize = 0;
    while i < ans.variants.len()
        invariant
            0 <= i <= ans.variants.len(),
            forall|k: int|
                0 <= k < i ==> normal_form(#[trigger] ans@.variants[k]) != normal_form(guess@),
        decreases ans.variants.len() - i,
    {
        let a = normalize(ans.variants[i].as_str());
        let b = normalize(guess);
        if str_eq(a.as_str(), b.as_str()) {
            assert(normal_form(ans@.variants[i as int]) == normal_form(guess@));
            return true;
        }
        i += 1;
    }
    false
}

/// Return the index of the first answer in `answer_list` that `guess` matches, or
/// `None` if `guess` satisfies none.
pub fn check_one(answer_list: &Vec<Answer2>, guess: &str) -> (r: Option<usize>)
    ensures
        r matches Some(i) ==> {
            &&& i < answer_list.len()
            &&& accepts(answer_list.deep_view()[i as int], guess@)
            &&& forall|k: int| 0 <= k < i ==> !accepts(#[trigger] answer_list.deep_view()[k], guess@)
        },
        r is None ==> forall|k: int|
            0 <= k < answer_list.len() ==> !accepts(#[trigger] answer_list.deep_view()[k], guess@),
{
    let mut i: usize = 0;
    while i < answer_list.len()
        invariant
            0 <= i <= answer_list.len(),
            forall|k: int| 0 <= k < i ==> !accepts(#[trigger] answer_list.deep_view()[k], guess@),
        decreases answer_list.len() - i,
    {
        if check(&answer_list[i], guess) {
            return Some(i);
        }
        i += 1;
    }
    None
}

/// The result of answering a question of the second version on a particular
/// occasion.
#[derive(Debug)]
pub struct QuestionResult2 {
    pub id: i64,
    /// The text of the question exactly as it was asked.
    pub text: Option<String>,
    pub time_asked: Timestamp,
    /// The response to a short answer question.
    pub response: Option<String>,
    /// The responses to a list question.
    pub response_list: Option<Vec<String>>,
    /// Score out of 1,000 possible points.
    pub score: u64,
}

/// The mathematical value of a `QuestionResult2`.
pub struct QuestionResult2View {
    pub id: i64,
    pub text: Option<Seq<char>>,
    pub time_asked: Timestamp,
    pub response: Option<Seq<char>>,
    pub response_list: Option<Seq<Seq<char>>>,
    pub score: u64,
}

impl View for QuestionResult2 {
    type V = QuestionResult2View;

    open spec fn view(&self) -> QuestionResult2View {
        QuestionResult2View {
            id: self.id,
            text: self.text.deep_view(),
            time_asked: self.time_asked,
            response: self.response.deep_view(),
            response_list: self.response_list.deep_view(),
            score: self.score,
        }
    }
}

impl DeepView for QuestionResult2 {
    type V = QuestionResult2View;

    open spec fn deep_view(&self) -> QuestionResult2View {
        self@
    }
}

/// Construct a `QuestionResult2` object, asked now.
pub fn mkresult2(id: i64, text: &str, response: Option<String>, score: u64) -> (r: QuestionResult2)
    ensures
        r@.id == id,
        r@.text == Some(text@),
        r@.response == response.deep_view(),
        r@.response_list is None,
        r@.score == score,
{
    QuestionResult2 {
        id,
        text: Some(String::from_str(text)),
        time_asked: now(),
        score,
        response,
        response_list: None,
    }
}

/// Construct a `QuestionResult2` object with a list of responses, asked now.
pub fn mkresultlist2(id: i64, text: &str, responses: Vec<String>, score: u64) -> (r: QuestionResult2)
    ensures
        r@.id == id,
        r@.text == Some(text@),
        r@.response is None,
        r@.response_list == Some(responses.deep_view()),
        r@.score == score,
{
    QuestionResult2 {
        id,
        text: Some(String::from_str(text)),
        time_asked: now(),
        score,
        response: None,
        response_list: Some(responses),
    }
}

/// The outcome of one answer to a question of the second version.
pub struct Graded2 {
    /// Whether the answer was accepted.
    pub correct: bool,
    pub result: QuestionResult2,
}

impl Question2 {
    /// Grade the response `guess` (`None` when the user gave up): it is correct when
    /// the first answer accepts it, which earns full marks.
    pub fn grade(&self, guess: Option<String>) -> (r: Graded2)
        requires
            self.answers.len() > 0,
        ensures
            r.correct == (guess matches Some(g) && accepts(self@.answers[0], g@)),
            r.result@.id == self.id,
            r.result@.text == Some(self.text@),
            r.result@.response == guess.deep_view(),
            r.result@.response_list is None,
            r.result@.score == if r.correct {
                MAX_SCORE
            } else {
                0
            },
    {
        let correct = match &guess {
            Some(g) => check(&self.answers[0], g.as_str()),
            None => false,
        };
        let score = if correct {
            MAX_SCORE
        } else {
            0
        };
        Graded2 { correct, result: mkresult2(self.id, self.text.as_str(), guess, score) }
    }
}

/// Choose the questions to ask: all of them, in a random order, at most
/// `options.num_to_ask` of them. The result holds positions in `questions`.
pub fn choose_questions2(questions: &Vec<Question2>, options: &TakeOptions) -> (r: Vec<usize>)
    ensures
        r@.len() == vstd::math::min(questions.len() as int, options.num_to_ask as int),
        r@.no_duplicates(),
        forall|k: int| 0 <= k < r@.len() ==> #[trigger] r@[k] < questions.len(),
{
    broadcast use vstd::seq_lib::group_to_multiset_ensures;

    let mut candidates: Vec<usize> = Vec::new();
    let mut i: usize = 0;
    while i < questions.len()
        invariant
            0 <= i <= questions.len(),
            candidates@.len() == i,
            forall|k: int| 0 <= k < i ==> #[trigger] candidates@[k] == k,
        decreases questions.len() - i,
    {
        candidates.push(i);
        i += 1;
    }
    proof {
        assert forall|a: int, c: int|
            0 <= a < candidates@.len() && 0 <= c < candidates@.len() && a != c implies candidates@[a]
            != candidates@[c] by {}
        candidates@.lemma_multiset_has_no_duplicates();
    }
    let ghost before = candidates@;
    let mut rng = thread_rng();
    shuffle(&mut candidates, &mut rng);
    proof {
        broadcast use vstd::multiset::group_multiset_axioms;

        assert forall|x: usize| candidates@.to_multiset().contains(x) implies candidates@.to_multiset().count(x)
            == 1 by {
            assert(before.to_multiset().contains(x));
        }
        candidates@.lemma_multiset_has_no_duplicates_conv();
        assert forall|k: int| 0 <= k < candidates@.len() implies #[trigger] candidates@[k] < questions.len() by {
            let x = candidates@[k];
            assert(candidates@.contains(x));
            assert(candidates@.to_multiset().contains(x));
            assert(before.contains(x));
        }
    }
    let keep = if options.num_to_ask < candidates.len() {
        options.num_to_ask
    } else {
        candidates.len()
    };
    candidates.truncate(keep);
    candidates
}

/// The scores of `rs`.
pub open spec fn scores2(rs: Seq<QuestionResult2View>) -> Seq<u64> {
    rs.map_values(|r: QuestionResult2View| r.score)
}

/// The sum of `s`.
pub open spec fn total_of(s: Seq<u64>) -> int
    decreases s.len(),
{
    if s.len() == 0 {
        0
    } else {
        total_of(s.drop_last()) + s.last()
    }
}

/// How many of `s` are full marks.
pub open spec fn full_marks(s: Seq<u64>) -> nat
    decreases s.len(),
{
    if s.len() == 0 {
        0
    } else {
        full_marks(s.drop_last()) + if s.last() == MAX_SCORE {
            1nat
        } else {
            0nat
        }
    }
}

/// How many of `s` are some marks but not all.
pub open spec fn part_marks(s: Seq<u64>) -> nat
    decreases s.len(),
{
    if s.len() == 0 {
        0
    } else {
        part_marks(s.drop_last()) + if 0 < s.last() < MAX_SCORE {
            1nat
        } else {
            0nat
        }
    }
}

proof fn lemma_marks_bounded(s: Seq<u64>)
    ensures
        full_marks(s) + part_marks(s) <= s.len(),
        total_of(s) >= 0,
    decreases s.len(),
{
    if s.len() > 0 {
        lemma_marks_bounded(s.drop_last());
    }
}

proof fn lemma_total_prefix(s: Seq<u64>, n: int)
    requires
        0 <= n <= s.len(),
    ensures
        0 <= total_of(s.subrange(0, n)) <= total_of(s),
    decreases s.len() - n,
{
    lemma_marks_bounded(s.subrange(0, n));
    if n < s.len() {
        lemma_total_prefix(s, n + 1);
        assert(s.subrange(0, n + 1).drop_last() =~= s.subrange(0, n));
    } else {
        assert(s.subrange(0, n) =~= s);
    }
}

/// The results of taking a quiz of the second version on a particular occasion.
#[derive(Debug)]
pub struct QuizResult2 {
    pub time_finished: Timestamp,
    pub total: usize,
    pub total_correct: usize,
    pub total_partially_correct: usize,
    pub total_incorrect: usize,
    /// Score out of 1,000 possible points.
    pub score: u64,
    pub per_question: Vec<QuestionResult2>,
}

/// Summarize the results of the questions that were asked: how many were
/// answered correctly, partially and not at all, and the mean score (rounded
/// down; 0 when nothing was answered).
pub fn summarize2(results: Vec<QuestionResult2>, time_finished: Timestamp) -> (r: QuizResult2)
    requires
        total_of(scores2(results.deep_view())) <= u64::MAX,
    ensures
        r.time_finished == time_finished,
        r.total == results.len(),
        r.total_correct == full_marks(scores2(results.deep_view())),
        r.total_partially_correct == part_marks(scores2(results.deep_view())),
        r.total_incorrect == results.len() - full_marks(scores2(results.deep_view())) - part_marks(
            scores2(results.deep_view()),
        ),
        r.score == if results.len() > 0 {
            total_of(scores2(results.deep_view())) / (results.len() as int)
        } else {
            0
        },
        r.per_question.deep_view() == results.deep_view(),
{
    let ghost s = scores2(results.deep_view());
    let total = results.len();
    let mut aggregate: u64 = 0;
    let mut correct: usize = 0;
    let mut partial: usize = 0;
    let mut i: usize = 0;
    while i < total
        invariant
            total == results.len(),
            s == scores2(results.deep_view()),
            s.len() == total,
            0 <= i <= total,
            total_of(s) <= u64::MAX,
            aggregate == total_of(s.subrange(0, i as int)),
            correct == full_marks(s.subrange(0, i as int)),
            partial == part_marks(s.subrange(0, i as int)),
            correct + partial <= i,
        decreases total - i,
    {
        let ghost prefix = s.subrange(0, i as int);
        let ghost next = s.subrange(0, i + 1);
        assert(next.drop_last() =~= prefix);
        proof {
            lemma_total_prefix(s, i + 1);
        }
        let v = results[i].score;
        assert(next.last() == v);
        aggregate = aggregate + v;
        if v == MAX_SCORE {
            correct += 1;
        } else if v > 0 && v < MAX_SCORE {
            partial += 1;
        }
        i += 1;
    }
    assert(s.subrange(0, total as int) =~= s);
    let score = if total > 0 {
        aggregate / (total as u64)
    } else {
        0
    };
    QuizResult2 {
        time_finished,
        total,
        total_correct: correct,
        total_partially_correct: partial,
        total_incorrect: total - correct - partial,
        score,
        per_question: results,
    }
}

/// What the program reports back while a quiz of the second version is taken.
pub enum TakeEvent2 {
    /// The question was answered, with this result.
    Answered(QuestionResult2),
    /// The user interrupted the quiz (Ctrl+C).
    Interrupted,
    /// The user asked to mark the previous answer correct (`!!`).
    MarkCorrect,
}

/// What the program does next while a quiz of the second version is taken.
#[derive(Debug)]
pub enum TakeAction2 {
    /// Ask the question at this position of the quiz.
    Ask(usize),
    /// Show this message, then ask the same question again.
    Status(String),
    /// The quiz is over.
    Finish,
}

/// The state of a quiz of the second version being taken.
pub struct TakeSession2 {
    /// The positions in the quiz of the questions to ask, in the order to ask them.
    pub order: Vec<usize>,
    /// How many questions have been answered.
    pub index: usize,
    /// The results of the questions answered, in order.
    pub results: Vec<QuestionResult2>,
}

impl Quiz2 {
    /// Get ready to take the quiz: choose the questions to ask. It is an error
    /// (`EmptyQuiz`) when no question is chosen.
    pub fn start_take(&self, options: &TakeOptions) -> (r: Result<TakeSession2, QuizError>)
        ensures
            (self.questions.len() == 0 || options.num_to_ask == 0) <==> r is Err,
            r matches Err(e) ==> e@ == QuizErrorView::EmptyQuiz,
            r matches Ok(s) ==> {
                &&& s.order@.len() == vstd::math::min(self.questions.len() as int, options.num_to_ask as int)
                &&& s.order@.no_duplicates()
                &&& forall|k: int| 0 <= k < s.order@.len() ==> #[trigger] s.order@[k] < self.questions.len()
                &&& s.index == 0
                &&& s.results@.len() == 0
            },
    {
        let order = choose_questions2(&self.questions, options);
        if order.len() == 0 {
            return Err(QuizError::EmptyQuiz);
        }
        Ok(TakeSession2 { order, index: 0, results: Vec::new() })
    }
}

/// The result `r` with full marks.
pub open spec fn marked_correct2(r: QuestionResult2View) -> QuestionResult2View {
    QuestionResult2View { score: MAX_SCORE, ..r }
}

impl TakeSession2 {
    /// The session is consistent: it has not asked more questions than it holds.
    pub open spec fn wf(&self) -> bool {
        &&& self.index <= self.order@.len()
        &&& self.results@.len() <= self.index
    }

    /// The position in the quiz of the question being asked.
    pub fn current(&self) -> (r: usize)
        requires
            self.index < self.order@.len(),
        ensures
            r == self.order@[self.index as int],
    {
        self.order[self.index]
    }

    /// Whether every question has been answered.
    pub fn is_over(&self) -> (r: bool)
        ensures
            r == (self.index >= self.order@.len()),
    {
        self.index >= self.order.len()
    }

    /// Handle what happened while the current question was asked.
    pub fn step(&mut self, event: TakeEvent2) -> (r: TakeAction2)
        requires
            old(self).wf(),
            old(self).index < old(self).order@.len(),
        ensures
            final(self).wf(),
            final(self).order@ == old(self).order@,
            match event {
                TakeEvent2::Answered(res) => {
                    &&& final(self).results.deep_view() == old(self).results.deep_view().push(res@)
                    &&& final(self).index == old(self).index + 1
                    &&& if final(self).index < final(self).order@.len() {
                        (r matches TakeAction2::Ask(q) && q == final(self).order@[final(self).index as int])
                    } else {
                        r is Finish
                    }
                },
                TakeEvent2::Interrupted => {
                    &&& r is Finish
                    &&& final(self).index == old(self).index
                    &&& final(self).results.deep_view() == old(self).results.deep_view()
                },
                TakeEvent2::MarkCorrect => {
                    &&& final(self).index == old(self).index
                    &&& if old(self).results@.len() == 0 {
                        &&& (r matches TakeAction2::Status(m) && m@ == "No previous question to mark correct."@)
                        &&& final(self).results.deep_view() == old(self).results.deep_view()
                    } else if old(self).results.deep_view().last().score < MAX_SCORE {
                        let last = old(self).results@.len() - 1;
                        &&& (r matches TakeAction2::Status(m) && m@ == "Previous answer marked correct."@)
                        &&& final(self).results.deep_view() == old(self).results.deep_view().update(
                            last,
                            marked_correct2(old(self).results.deep_view()[last]),
                        )
                    } else {
                        &&& (r matches TakeAction2::Status(m) && m@ == "Previous answer was already correct."@)
                        &&& final(self).results.deep_view() == old(self).results.deep_view()
                    }
                },
            },
    {
        match event {
            TakeEvent2::Answered(res) => {
                let ghost before = self.results.deep_view();
                let total = self.order.len();
                let next = if self.index < total {
                    self.index + 1
                } else {
                    total
                };
                self.results.push(res);
                assert(self.results.deep_view() =~= before.push(res@));
                self.index = next;
                if self.index < self.order.len() {
                    TakeAction2::Ask(self.order[self.index])
                } else {
                    TakeAction2::Finish
                }
            },
            TakeEvent2::Interrupted => TakeAction2::Finish,
            TakeEvent2::MarkCorrect => {
                let n = self.results.len();
                if n > 0 {
                    let last = n - 1;
                    if self.results[last].score < MAX_SCORE {
                        let ghost before = self.results.deep_view();
                        let mut r = self.results.remove(last);
                        r.score = MAX_SCORE;
                        let ghost rv = r@;
                        self.results.push(r);
                        assert(self.results.deep_view() =~= before.update(last as int, rv));
                        TakeAction2::Status(String::from_str("Previous answer marked correct."))
                    } else {
                        TakeAction2::Status(String::from_str("Previous answer was already correct."))
                    }
                } else {
                    TakeAction2::Status(String::from_str("No previous question to mark correct."))
                }
            },
        }
    }

    /// The summary of the quiz, finished at `time`.
    pub fn finish(self, time: Timestamp) -> (r: QuizResult2)
        requires
            total_of(scores2(self.results.deep_view())) <= u64::MAX,
        ensures
            r.time_finished == time,
            r.per_question.deep_view() == self.results.deep_view(),
            r.total == self.results@.len(),
            r.total_correct == full_marks(scores2(self.results.deep_view())),
            r.total_partially_correct == part_marks(scores2(self.results.deep_view())),
            r.total_incorrect == self.results@.len() - full_marks(scores2(self.results.deep_view())) - part_marks(
                scores2(self.results.deep_view()),
            ),
            r.score == if self.results@.len() > 0 {
                total_of(scores2(self.results.deep_view())) / (self.results@.len() as int)
            } else {
                0
            },
    {
        summarize2(self.results, time)
    }
}

/// One row of the query that loads a quiz of the second version: a question
/// joined with one of its answers.
pub struct AnswerRow {
    pub question_id: i64,
    pub question_text: String,
    pub question_type: String,
    pub answer_text: String,
    pub correct: i64,
    pub no_credit: i64,
}

/// The type of a question stored as `t`: multiple choice, or else short answer.
pub open spec fn type_of(t: Seq<char>) -> QuestionType {
    if t == "multiple choice"@ {
        QuestionType::MultipleChoice
    } else {
        QuestionType::ShortAnswer
    }
}

/// The answer that a row holds.
pub open spec fn row_answer(row: AnswerRow) -> Answer2View {
    Answer2View { variants: seq![row.answer_text@], correct: row.correct != 0, no_credit: row.no_credit != 0 }
}

/// The answers of the question `id` among `rows`, in order.
pub open spec fn answers_of(rows: Seq<AnswerRow>, id: i64) -> Seq<Answer2View>
    decreases rows.len(),
{
    if rows.len() == 0 {
        Seq::empty()
    } else if rows.last().question_id == id {
        answers_of(rows.drop_last(), id).push(row_answer(rows.last()))
    } else {
        answers_of(rows.drop_last(), id)
    }
}

/// The position of the first row of the question `id`.
pub open spec fn first_row(rows: Seq<AnswerRow>, id: i64, p: int) -> bool {
    &&& 0 <= p < rows.len()
    &&& rows[p].question_id == id
    &&& forall|k: int| 0 <= k < p ==> (#[trigger] rows[k]).question_id != id
}

/// Some question of `qs` has the ID `id`.
pub open spec fn lists_id(qs: Seq<Question2>, id: i64) -> bool {
    exists|j: int| 0 <= j < qs.len() && (#[trigger] qs[j]).id == id
}

/// The question `q` is built from `rows`, as far as the rows `upto` (a prefix of
/// `rows`) go: its ID first appears in a row of `upto`, whose text and type it
/// has, and it has the answers of all rows of `upto` with its ID, in order.
pub open spec fn built_from(rows: Seq<AnswerRow>, q: Question2View, upto: Seq<AnswerRow>) -> bool {
    exists|p: int|
        #[trigger] first_row(rows, q.id, p) && p < upto.len() && q.text == rows[p].question_text@
            && q.question_type == type_of(rows[p].question_type@) && q.answers == answers_of(upto, q.id)
}

/// Group the rows of the query into questions: one question for each question
/// ID, in the order in which the IDs first appear, with the text and type of its
/// first row and the answers of all its rows, in order.
pub fn questions_from_rows(rows: &Vec<AnswerRow>) -> (r: Vec<Question2>)
    ensures
        forall|a: int, b: int| 0 <= a < b < r@.len() ==> (#[trigger] r@[a]).id != (#[trigger] r@[b]).id,
        forall|k: int| 0 <= k < rows@.len() ==> #[trigger] lists_id(r@, rows@[k].question_id),
        forall|j: int| 0 <= j < r@.len() ==> built_from(rows@, #[trigger] r@[j]@, rows@),
        forall|a: int, b: int, pa: int, pb: int|
            0 <= a < b < r@.len() && #[trigger] first_row(rows@, r@[a].id, pa) && #[trigger] first_row(rows@, r@[b].id, pb) ==> pa < pb,
{
    let mut out: Vec<Question2> = Vec::new();
    let mut i: usize = 0;
    while i < rows.len()
        invariant
            0 <= i <= rows.len(),
            forall|a: int, b: int| 0 <= a < b < out@.len() ==> (#[trigger] out@[a]).id != (#[trigger] out@[b]).id,
            forall|k: int| 0 <= k < i ==> #[trigger] lists_id(out@, rows@[k].question_id),
            forall|j: int| 0 <= j < out@.len() ==> built_from(rows@, #[trigger] out@[j]@, rows@.subrange(0, i as int)),
            forall|a: int, b: int, pa: int, pb: int|
                0 <= a < b < out@.len() && #[trigger] first_row(rows@, out@[a].id, pa) && #[trigger] first_row(rows@, out@[b].id, pb) ==> pa < pb,
        decreases rows.len() - i,
    {
        let row = &rows[i];
        let ghost pre = rows@.subrange(0, i as int);
        let ghost post = rows@.subrange(0, i + 1);
        assert(post.drop_last() =~= pre);
        assert(post.last() == *row);
        let mut j: usize = 0;
        while j < out.len() && out[j].id != row.question_id
            invariant
                0 <= j <= out.len(),
                forall|k: int| 0 <= k < j ==> (#[trigger] out@[k]).id != row.question_id,
            decreases out.len() - j,
        {
            j += 1;
        }
        let found: Option<usize> = if j < out.len() {
            Some(j)
        } else {
            None
        };
        let mut variants: Vec<String> = Vec::new();
        variants.push(row.answer_text.clone());
        let answer = Answer2 { variants, correct: row.correct != 0, no_credit: row.no_credit != 0 };
        proof {
            assert(answer@.variants =~= seq![row.answer_text@]);
        }
        let ghost av = answer@;
        assert(av == row_answer(*row));
        let ghost before = out@;
        match found {
            Some(j) => {
                let mut q = out.remove(j);
                let ghost qv = q@;
                q.answers.push(answer);
                assert(q@.answers =~= qv.answers.push(av));
                out.insert(j, q);
                proof {
                    assert(out@ =~= before.update(j as int, out@[j as int]));
                    assert forall|j2: int| 0 <= j2 < out@.len() implies built_from(rows@, #[trigger] out@[j2]@, post) by {
                        let q2 = before[j2]@;
                        assert(built_from(rows@, q2, pre));
                        let p = choose|p: int|
                            #[trigger] first_row(rows@, q2.id, p) && p < pre.len() && q2.text == rows@[p].question_text@
                                && q2.question_type == type_of(rows@[p].question_type@) && q2.answers == answers_of(pre, q2.id);
                        assert(first_row(rows@, out@[j2]@.id, p));
                    }
                    assert forall|k: int| 0 <= k < i + 1 implies #[trigger] lists_id(out@, rows@[k].question_id) by {
                        if k < i {
                            assert(lists_id(before, rows@[k].question_id));
                            let j2 = choose|j2: int| 0 <= j2 < before.len() && (#[trigger] before[j2]).id == rows@[k].question_id;
                            assert(out@[j2].id == before[j2].id);
                        } else {
                            assert(out@[j as int].id == rows@[k].question_id);
                        }
                    }
                    assert forall|a: int, b: int| 0 <= a < b < out@.len() implies (#[trigger] out@[a]).id != (#[trigger] out@[b]).id by {
                        assert(out@[a].id == before[a].id);
                        assert(out@[b].id == before[b].id);
                    }
                    assert forall|a: int, b: int, pa: int, pb: int|
                        0 <= a < b < out@.len() && #[trigger] first_row(rows@, out@[a].id, pa) && #[trigger] first_row(rows@, out@[b].id, pb) implies pa < pb by {
                        assert(out@[a].id == before[a].id);
                        assert(out@[b].id == before[b].id);
                    }
                }
            },
            None => {
                let mut answers: Vec<Answer2> = Vec::new();
                answers.push(answer);
                let q = Question2 {
                    id: row.question_id,
                    text: row.question_text.clone(),
                    question_type: if str_eq(row.question_type.as_str(), "multiple choice") {
                        QuestionType::MultipleChoice
                    } else {
                        QuestionType::ShortAnswer
                    },
                    answers,
                };
                out.push(q);
                proof {
                    assert forall|k: int| 0 <= k < i implies (#[trigger] rows@[k]).question_id != row.question_id by {
                        assert(lists_id(before, rows@[k].question_id));
                        let j2 = choose|j2: int| 0 <= j2 < before.len() && (#[trigger] before[j2]).id == rows@[k].question_id;
                        assert(before[j2].id != row.question_id);
                    }
                    assert(first_row(rows@, row.question_id, i as int));
                    assert forall|k: int| 0 <= k < pre.len() implies (#[trigger] pre[k]).question_id != row.question_id by {
                        assert(pre[k] == rows@[k]);
                    }
                    lemma_answers_of_absent(pre, row.question_id);
                    assert(out@[before.len() as int]@.answers =~= seq![av]);
                    assert(answers_of(post, row.question_id) =~= seq![av]);
                    assert forall|j2: int| 0 <= j2 < out@.len() implies built_from(rows@, #[trigger] out@[j2]@, post) by {
                        if j2 < before.len() {
                            assert(out@[j2] == before[j2]);
                            let q2 = before[j2]@;
                            assert(built_from(rows@, q2, pre));
                            let p = choose|p: int|
                                #[trigger] first_row(rows@, q2.id, p) && p < pre.len() && q2.text == rows@[p].question_text@
                                    && q2.question_type == type_of(rows@[p].question_type@) && q2.answers == answers_of(pre, q2.id);
                            assert(first_row(rows@, out@[j2]@.id, p));
                        } else {
                            assert(first_row(rows@, out@[j2]@.id, i as int));
                        }
                    }
                    assert forall|k: int| 0 <= k < i + 1 implies #[trigger] lists_id(out@, rows@[k].question_id) by {
                        if k < i {
                            assert(lists_id(before, rows@[k].question_id));
                            let j2 = choose|j2: int| 0 <= j2 < before.len() && (#[trigger] before[j2]).id == rows@[k].question_id;
                            assert(out@[j2] == before[j2]);
                        } else {
                            assert(out@[before.len() as int].id == rows@[k].question_id);
                        }
                    }
                    assert forall|a: int, b: int| 0 <= a < b < out@.len() implies (#[trigger] out@[a]).id != (#[trigger] out@[b]).id by {
                        assert(out@[a] == before[a]);
                        if b < before.len() {
                            assert(out@[b] == before[b]);
                        }
                    }
                    assert forall|a: int, b: int, pa: int, pb: int|
                        0 <= a < b < out@.len() && #[trigger] first_row(rows@, out@[a].id, pa) && #[trigger] first_row(rows@, out@[b].id, pb) implies pa < pb by {
                        assert(out@[a] == before[a]);
                        if b < before.len() {
                            assert(out@[b] == before[b]);
                        } else {
                            let q2 = before[a]@;
                            assert(built_from(rows@, q2, pre));
                            let p = choose|p: int|
                                #[trigger] first_row(rows@, q2.id, p) && p < pre.len() && q2.text == rows@[p].question_text@
                                    && q2.question_type == type_of(rows@[p].question_type@) && q2.answers == answers_of(pre, q2.id);
                            assert(pa == p) by {
                                if pa < p {
                                    assert(rows@[pa].question_id != q2.id);
                                } else if p < pa {
                                    assert(rows@[p].question_id != q2.id);
                                }
                            }
                            assert(pb == i) by {
                                if pb < i {
                                    assert(rows@[pb].question_id == row.question_id);
                                } else if pb > i {
                                    assert(rows@[i as int].question_id != row.question_id);
                                }
                            }
                        }
                    }
                }
            },
        }
        proof {
            assert forall|j2: int| 0 <= j2 < out@.len() implies built_from(rows@, #[trigger] out@[j2]@, rows@.subrange(0, i + 1)) by {
                assert(post == rows@.subrange(0, i + 1));
            }
        }
        i += 1;
    }
    proof {
        assert(rows@.subrange(0, rows@.len() as int) =~= rows@);
        assert(i == rows@.len());
    }
    out
}

/// A question ID that no row holds has no answers.
proof fn lemma_answers_of_absent(rows: Seq<AnswerRow>, id: i64)
    requires
        forall|k: int| 0 <= k < rows.len() ==> (#[trigger] rows[k]).question_id != id,
    ensures
        answers_of(rows, id) == Seq::<Answer2View>::empty(),
    decreases rows.len(),
{
    if rows.len() > 0 {
        assert(rows.last() == rows[rows.len() - 1]);
        assert forall|k: int| 0 <= k < rows.drop_last().len() implies (#[trigger] rows.drop_last()[k]).question_id != id by {
            assert(rows.drop_last()[k] == rows[k]);
        }
        lemma_answers_of_absent(rows.drop_last(), id);
    }
}

} // verus!
