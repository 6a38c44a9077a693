//! The core quiz data structures, the checking of answers and the scoring of a
//! finished quiz.
use vstd::prelude::*;

use crate::common::{Location, LocationView};
use crate::text::{normal_form, normalize, str_eq};

verus! {

/// The highest score a question can get.
pub const MAX_SCORE: u64 = 1000;

/// A moment in time: seconds and nanoseconds since the Unix epoch (UTC).
#[derive(Debug, Clone, Copy, PartialEq, Eq, Structural)]
pub struct Timestamp {
    pub secs: i64,
    pub nanos: u32,
}

/// `t` is strictly earlier than `u`.
pub open spec fn earlier(t: Timestamp, u: Timestamp) -> bool {
    t.secs < u.secs || (t.secs == u.secs && t.nanos < u.nanos)
}

/// The current time, from `chrono::Utc::now`. Nothing is promised of the value:
/// it depends on the clock.
#[verifier::external_body]
pub(crate) fn now() -> (t: Timestamp) {
    let n = chrono::Utc::now();
    Timestamp { secs: n.timestamp(), nanos: n.timestamp_subsec_nanos() }
}

/// Each member of the vector should be an equivalent answer, e.g.
/// `vec!["Mount Everest", "Everest"]`, not different answers to the same question. The
/// first element of the vector is taken to be the canonical form of the answer for
/// display.
pub type Answer = Vec<String>;

/// A copy of a vector of strings.
pub fn clone_strings(v: &Vec<String>) -> (r: Vec<String>)
    ensures
        r.deep_view() == v.deep_view(),
{
    let mut r: Vec<String> = Vec::new();
    let mut i: usize = 0;
    while i < v.len()
        invariant
            0 <= i <= v.len(),
            r.deep_view() == v.deep_view().subrange(0, i as int),
        decreases v.len() - i,
    {
        let ghost before = r.deep_view();
        let c = v[i].clone();
        r.push(c);
        assert(r.deep_view() =~= before.push(c.deep_view()));
        i += 1;
        assert(r.deep_view() =~= v.deep_view().subrange(0, i as int));
    }
    assert(v.deep_view().subrange(0, i as int) =~= v.deep_view());
    r
}

/// A copy of an optional string.
pub fn clone_opt_string(s: &Option<String>) -> (r: Option<String>)
    ensures
        r.deep_view() == s.deep_view(),
{
    match s {
        Some(x) => Some(x.clone()),
        None => None,
    }
}

/// Represents the result of answering a question on a particular occasion.
#[derive(Debug)]
pub struct QuestionResult {
    pub id: String,
    /// The text of the question exactly as it was asked. Optional for backwards
    /// compatibility.
    pub text: Option<String>,
    pub time_asked: Timestamp,
    /// If the question asked was a short answer question, then the user's response goes
    /// in this field.
    pub response: Option<String>,
    /// If the question asked was a list question, then the user's responses go in this
    /// field.
    pub response_list: Option<Vec<String>>,
    /// Score out of 1,000 possible points.
    pub score: u64,
    pub timed_out: Option<bool>,
}

/// The mathematical value of a `QuestionResult`.
pub struct QuestionResultView {
    pub id: Seq<char>,
    pub text: Option<Seq<char>>,
    pub time_asked: Timestamp,
    pub response: Option<Seq<char>>,
    pub response_list: Option<Seq<Seq<char>>>,
    pub score: u64,
    pub timed_out: Option<bool>,
}

impl View for QuestionResult {
    type V = QuestionResultView;

    open spec fn view(&self) -> QuestionResultView {
        QuestionResultView {
            id: self.id@,
            text: self.text.deep_view(),
            time_asked: self.time_asked,
            response: self.response.deep_view(),
            response_list: self.response_list.deep_view(),
            score: self.score,
            timed_out: self.timed_out,
        }
    }
}

impl DeepView for QuestionResult {
    type V = QuestionResultView;

    open spec fn deep_view(&self) -> QuestionResultView {
        self@
    }
}

impl QuestionResult {
    /// A copy of this result.
    pub fn duplicate(&self) -> (r: QuestionResult)
        ensures
            r@ == self@,
    {
        let response_list = match &self.response_list {
            Some(v) => Some(clone_strings(v)),
            None => None,
        };
        QuestionResult {
            id: self.id.clone(),
            text: clone_opt_string(&self.text),
            time_asked: self.time_asked,
            response: clone_opt_string(&self.response),
            response_list,
            score: self.score,
            timed_out: self.timed_out,
        }
    }
}

/// A copy of a vector of results.
pub fn clone_results(v: &Vec<QuestionResult>) -> (r: Vec<QuestionResult>)
    ensures
        r.deep_view() == v.deep_view(),
{
    let mut r: Vec<QuestionResult> = Vec::new();
    let mut i: usize = 0;
    while i < v.len()
        invariant
            0 <= i <= v.len(),
            r.deep_view() == v.deep_view().subrange(0, i as int),
        decreases v.len() - i,
    {
        let ghost before = r.deep_view();
        let c = v[i].duplicate();
        r.push(c);
        assert(r.deep_view() =~= before.push(c.deep_view()));
        i += 1;
        assert(r.deep_view() =~= v.deep_view().subrange(0, i as int));
    }
    assert(v.deep_view().subrange(0, i as int) =~= v.deep_view());
    r
}

/// Construct a `QuestionResult` object, asked now.
pub fn mkresult(id: &str, text: &str, response: Option<String>, score: u64) -> (r: QuestionResult)
    ensures
        r@.id == id@,
        r@.text == Some(text@),
        r@.response == response.deep_view(),
        r@.response_list is None,
        r@.score == score,
        r@.timed_out is None,
{
    QuestionResult {
        id: String::from_str(id),
        text: Some(String::from_str(text)),
        time_asked: now(),
        score,
        response,
        response_list: None,
        timed_out: None,
    }
}

/// Construct a `QuestionResult` object with a list of responses, asked now.
pub fn mkresultlist(id: &str, text: &str, responses: Vec<String>, score: u64) -> (r: QuestionResult)
    ensures
        r@.id == id@,
        r@.text == Some(text@),
        r@.response is None,
        r@.response_list == Some(responses.deep_view()),
        r@.score == score,
        r@.timed_out is None,
{
    QuestionResult {
        id: String::from_str(id),
        text: Some(String::from_str(text)),
        time_asked: now(),
        score,
        response: None,
        response_list: Some(responses),
        timed_out: None,
    }
}

/// What every kind of question has.
#[derive(Debug)]
pub struct QuestionCommon {
    pub id: String,
    pub prior_results: Vec<QuestionResult>,
    pub tags: Vec<String>,
    pub location: Location,
    /// Seconds the user has to answer, if the question is timed.
    pub timeout: Option<u64>,
}

/// The mathematical value of a `QuestionCommon`.
pub struct QuestionCommonView {
    pub id: Seq<char>,
    pub prior_results: Seq<QuestionResultView>,
    pub tags: Seq<Seq<char>>,
    pub location: LocationView,
    pub timeout: Option<u64>,
}

impl View for QuestionCommon {
    type V = QuestionCommonView;

    open spec fn view(&self) -> QuestionCommonView {
        QuestionCommonView {
            id: self.id@,
            prior_results: self.prior_results.deep_view(),
            tags: self.tags.deep_view(),
            location: self.location@,
            timeout: self.timeout,
        }
    }
}

/// The mathematical value of a question of any kind.
pub enum QuestionView {
    ShortAnswer { text: Seq<char>, answer: Seq<Seq<char>>, common: QuestionCommonView },
    Flashcard {
        front: Seq<Seq<char>>,
        back: Seq<Seq<char>>,
        front_context: Option<Seq<char>>,
        back_context: Option<Seq<char>>,
        common: QuestionCommonView,
    },
    List {
        text: Seq<char>,
        answer_list: Seq<Seq<Seq<char>>>,
        no_credit: Seq<Seq<char>>,
        common: QuestionCommonView,
    },
    OrderedList {
        text: Seq<char>,
        answer_list: Seq<Seq<Seq<char>>>,
        no_credit: Seq<Seq<char>>,
        common: QuestionCommonView,
    },
    MultipleChoice {
        text: Seq<char>,
        answer: Seq<Seq<char>>,
        choices: Seq<Seq<char>>,
        common: QuestionCommonView,
    },
}

/// The part that all kinds of question share.
pub open spec fn common_of(q: QuestionView) -> QuestionCommonView {
    match q {
        QuestionView::ShortAnswer { common, .. } => common,
        QuestionView::Flashcard { common, .. } => common,
        QuestionView::List { common, .. } => common,
        QuestionView::OrderedList { common, .. } => common,
        QuestionView::MultipleChoice { common, .. } => common,
    }
}

/// The text by which a question is listed: its text, or the first variant of the
/// front of a flashcard.
pub open spec fn text_of(q: QuestionView) -> Seq<char> {
    match q {
        QuestionView::ShortAnswer { text, .. } => text,
        QuestionView::Flashcard { front, .. } => front[0],
        QuestionView::List { text, .. } => text,
        QuestionView::OrderedList { text, .. } => text,
        QuestionView::MultipleChoice { text, .. } => text,
    }
}

/// A question may be listed by its text: flashcards need a front.
pub open spec fn has_text(q: QuestionView) -> bool {
    q matches QuestionView::Flashcard { front, .. } ==> front.len() > 0
}

/// The question with front and back swapped, for flashcards; any other question
/// unchanged.
pub open spec fn flipped(q: QuestionView) -> QuestionView {
    match q {
        QuestionView::Flashcard { front, back, front_context, back_context, common } =>
            QuestionView::Flashcard {
            front: back,
            back: front,
            front_context: back_context,
            back_context: front_context,
            common,
        },
        _ => q,
    }
}

/// A question whose answer is a single piece of text.
#[derive(Debug)]
pub struct ShortAnswerQuestion {
    pub text: String,
    pub answer: Answer,
    pub common: QuestionCommon,
}

impl View for ShortAnswerQuestion {
    type V = QuestionView;

    open spec fn view(&self) -> QuestionView {
        QuestionView::ShortAnswer {
            text: self.text@,
            answer: self.answer.deep_view(),
            common: self.common@,
        }
    }
}

/// A flashcard: front and back, each with an optional context.
#[derive(Debug)]
pub struct FlashcardQuestion {
    pub front: Answer,
    pub back: Answer,
    pub front_context: Option<String>,
    pub back_context: Option<String>,
    pub common: QuestionCommon,
}

impl View for FlashcardQuestion {
    type V = QuestionView;

    open spec fn view(&self) -> QuestionView {
        QuestionView::Flashcard {
            front: self.front.deep_view(),
            back: self.back.deep_view(),
            front_context: self.front_context.deep_view(),
            back_context: self.back_context.deep_view(),
            common: self.common@,
        }
    }
}

/// A question with several answers, in any order.
#[derive(Debug)]
pub struct ListQuestion {
    pub text: String,
    pub answer_list: Vec<Answer>,
    pub no_credit: Vec<String>,
    pub common: QuestionCommon,
}

impl View for ListQuestion {
    type V = QuestionView;

    open spec fn view(&self) -> QuestionView {
        QuestionView::List {
            text: self.text@,
            answer_list: self.answer_list.deep_view(),
            no_credit: self.no_credit.deep_view(),
            common: self.common@,
        }
    }
}

/// A question with several answers, in a given order.
#[derive(Debug)]
pub struct OrderedListQuestion {
    pub text: String,
    pub answer_list: Vec<Answer>,
    pub no_credit: Vec<String>,
    pub common: QuestionCommon,
}

impl View for OrderedListQuestion {
    type V = QuestionView;

    open spec fn view(&self) -> QuestionView {
        QuestionView::OrderedList {
            text: self.text@,
            answer_list: self.answer_list.deep_view(),
            no_credit: self.no_credit.deep_view(),
            common: self.common@,
        }
    }
}

/// A question whose answer is picked among choices.
#[derive(Debug)]
pub struct MultipleChoiceQuestion {
    pub text: String,
    pub answer: Answer,
    pub choices: Vec<String>,
    pub common: QuestionCommon,
}

impl View for MultipleChoiceQuestion {
    type V = QuestionView;

    open spec fn view(&self) -> QuestionView {
        QuestionView::MultipleChoice {
            text: self.text@,
            answer: self.answer.deep_view(),
            choices: self.choices.deep_view(),
            common: self.common@,
        }
    }
}

impl ShortAnswerQuestion {
    pub fn get_common(&self) -> (r: &QuestionCommon)
        ensures
            r@ == common_of(self@),
    {
        &self.common
    }

    pub fn get_text(&self) -> (r: String)
        ensures
            r@ == text_of(self@),
    {
        self.text.clone()
    }
}

impl FlashcardQuestion {
    pub fn get_common(&self) -> (r: &QuestionCommon)
        ensures
            r@ == common_of(self@),
    {
        &self.common
    }

    pub fn get_text(&self) -> (r: String)
        requires
            has_text(self@),
        ensures
            r@ == text_of(self@),
    {
        self.front[0].clone()
    }

    /// Swap front and back, with their contexts.
    pub fn flip(&mut self)
        ensures
            final(self)@ == flipped(old(self)@),
    {
        std::mem::swap(&mut self.front, &mut self.back);
        std::mem::swap(&mut self.front_context, &mut self.back_context);
    }
}

impl ListQuestion {
    pub fn get_common(&self) -> (r: &QuestionCommon)
        ensures
            r@ == common_of(self@),
    {
        &self.common
    }

    pub fn get_text(&self) -> (r: String)
        ensures
            r@ == text_of(self@),
    {
        self.text.clone()
    }
}

impl OrderedListQuestion {
    pub fn get_common(&self) -> (r: &QuestionCommon)
        ensures
            r@ == common_of(self@),
    {
        &self.common
    }

    pub fn get_text(&self) -> (r: String)
        ensures
            r@ == text_of(self@),
    {
        self.text.clone()
    }
}

impl MultipleChoiceQuestion {
    pub fn get_common(&self) -> (r: &QuestionCommon)
        ensures
            r@ == common_of(self@),
    {
        &self.common
    }

    pub fn get_text(&self) -> (r: String)
        ensures
            r@ == text_of(self@),
    {
        self.text.clone()
    }
}

/// A question of any kind.
#[derive(Debug)]
pub enum Question {
    ShortAnswer(ShortAnswerQuestion),
    Flashcard(FlashcardQuestion),
    List(ListQuestion),
    OrderedList(OrderedListQuestion),
    MultipleChoice(MultipleChoiceQuestion),
}

impl View for Question {
    type V = QuestionView;

    open spec fn view(&self) -> QuestionView {
        match self {
            Question::ShortAnswer(q) => q@,
            Question::Flashcard(q) => q@,
            Question::List(q) => q@,
            Question::OrderedList(q) => q@,
            Question::MultipleChoice(q) => q@,
        }
    }
}

impl DeepView for Question {
    type V = QuestionView;

    open spec fn deep_view(&self) -> QuestionView {
        self@
    }
}

impl Question {
    pub fn get_common(&self) -> (r: &QuestionCommon)
        ensures
            r@ == common_of(self@),
    {
        match self {
            Question::ShortAnswer(q) => q.get_common(),
            Question::Flashcard(q) => q.get_common(),
            Question::List(q) => q.get_common(),
            Question::OrderedList(q) => q.get_common(),
            Question::MultipleChoice(q) => q.get_common(),
        }
    }

    pub fn get_text(&self) -> (r: String)
        requires
            has_text(self@),
        ensures
            r@ == text_of(self@),
    {
        match self {
            Question::ShortAnswer(q) => q.get_text(),
            Question::Flashcard(q) => q.get_text(),
            Question::List(q) => q.get_text(),
            Question::OrderedList(q) => q.get_text(),
            Question::MultipleChoice(q) => q.get_text(),
        }
    }

    /// Swap front and back of a flashcard; other questions are left as they are.
    pub fn flip(&mut self)
        ensures
            final(self)@ == flipped(old(self)@),
    {
        match self {
            Question::Flashcard(q) => q.flip(),
            _ => {},
        }
    }
}

/// Flipping twice gives back the question one started with.
pub proof fn flip_flip_identity(q: QuestionView)
    ensures
        flipped(flipped(q)) == q,
{
}

/// Flipping keeps what all questions share, such as the ID, the tags and the
/// previous results.
pub proof fn flip_keeps_common(q: QuestionView)
    ensures
        common_of(flipped(q)) == common_of(q),
{
}

/// Represents an entire quiz.
#[derive(Debug)]
pub struct Quiz {
    pub instructions: Option<String>,
    pub questions: Vec<Question>,
}

/// The mathematical value of a `Quiz`.
pub struct QuizView {
    pub instructions: Option<Seq<char>>,
    pub questions: Seq<QuestionView>,
}

impl View for Quiz {
    type V = QuizView;

    open spec fn view(&self) -> QuizView {
        QuizView { instructions: self.instructions.deep_view(), questions: self.questions.deep_view() }
    }
}

impl Quiz {
    /// Find a question given its id: the position of the first question with that ID.
    pub fn find(&self, id: &str) -> (r: Option<usize>)
        ensures
            r matches Some(i) ==> {
                &&& i < self@.questions.len()
                &&& common_of(self@.questions[i as int]).id == id@
                &&& forall|k: int| 0 <= k < i ==> common_of(#[trigger] self@.questions[k]).id != id@
            },
            r is None ==> forall|k: int|
                0 <= k < self@.questions.len() ==> common_of(#[trigger] self@.questions[k]).id != id@,
    {
        let mut i: usize = 0;
        while i < self.questions.len()
            invariant
                0 <= i <= self.questions.len(),
                self@.questions == self.questions.deep_view(),
                forall|k: int| 0 <= k < i ==> common_of(#[trigger] self@.questions[k]).id != id@,
            decreases self.questions.len() - i,
        {
            if str_eq(self.questions[i].get_common().id.as_str(), id) {
                return Some(i);
            }
            i += 1;
        }
        None
    }

    /// Flip every flashcard of the quiz.
    pub fn flip_all(&mut self)
        ensures
            final(self)@.instructions == old(self)@.instructions,
            final(self)@.questions.len() == old(self)@.questions.len(),
            forall|k: int|
                0 <= k < old(self)@.questions.len() ==> #[trigger] final(self)@.questions[k]
                    == flipped(old(self)@.questions[k]),
    {
        let n = self.questions.len();
        let mut i: usize = 0;
        while i < n
            invariant
                0 <= i <= n == self.questions.len() == old(self).questions.len(),
                self.instructions == old(self).instructions,
                forall|k: int| 0 <= k < i ==> #[trigger] self.questions.deep_view()[k] == flipped(
                    old(self).questions.deep_view()[k],
                ),
                forall|k: int| i <= k < n ==> #[trigger] self.questions.deep_view()[k] == old(
                    self,
                ).questions.deep_view()[k],
            decreases n - i,
        {
            let ghost before = self.questions@;
            let ghost before_dv = self.questions.deep_view();
            let mut q = self.questions.remove(i);
            assert(q@ == before_dv[i as int]);
            q.flip();
            self.questions.insert(i, q);
            proof {
                assert(self.questions@ =~= before.update(i as int, q));
                assert(self.questions.deep_view() =~= before_dv.update(i as int, q@));
            }
            i += 1;
        }
    }
}

/// `guess` is one of the variants of `ans`, once both are normalized.
pub open spec fn answer_accepts(ans: Seq<Seq<char>>, guess: Seq<char>) -> bool {
    exists|i: int| 0 <= i < ans.len() && normal_form(#[trigger] ans[i]) == normal_form(guess)
}

/// A guess is judged by its normal form alone: two guesses that lowercase and
/// compose to the same string are both accepted or both refused.
pub proof fn check_depends_on_normal_form(ans: Seq<Seq<char>>, g1: Seq<char>, g2: Seq<char>)
    requires
        normal_form(g1) == normal_form(g2),
    ensures
        answer_accepts(ans, g1) == answer_accepts(ans, g2),
{
}

/// Return `true` if the given string is equivalent to the Answer object.
pub fn check(ans: &Answer, guess: &str) -> (r: bool)
    ensures
        r == answer_accepts(ans.deep_view(), guess@),
{
    let mut i: usize = 0;
    while i < ans.len()
        invariant
            0 <= i <= ans.len(),
            forall|k: int|
                0 <= k < i ==> normal_form(#[trigger] ans.deep_view()[k]) != normal_form(guess@),
        decreases ans.len() - i,
    {
        let a = normalize(ans[i].as_str());
        let b = normalize(guess);
        if a == b {
            assert(normal_form(ans.deep_view()[i as int]) == normal_form(guess@));
            return true;
        }
        i += 1;
    }
    false
}

/// The position of the first answer of `list` that accepts `guess`.
pub open spec fn first_accepting(list: Seq<Seq<Seq<char>>>, guess: Seq<char>) -> Option<int> {
    if exists|i: int| 0 <= i < list.len() && answer_accepts(#[trigger] list[i], guess) {
        Some(
            choose|i: int|
                0 <= i < list.len() && answer_accepts(#[trigger] list[i], guess) && forall|k: int|
                    0 <= k < i ==> !answer_accepts(#[trigger] list[k], guess),
        )
    } else {
        None
    }
}

/// Return the index of the first answer in `answer_list` that `guess` matches, or
/// `None` if `guess` satisfies none.
pub fn check_one(answer_list: &Vec<Answer>, guess: &str) -> (r: Option<usize>)
    ensures
        r matches Some(i) ==> {
            &&& i < answer_list.len()
            &&& answer_accepts(answer_list.deep_view()[i as int], guess@)
            &&& forall|k: int|
                0 <= k < i ==> !answer_accepts(#[trigger] answer_list.deep_view()[k], guess@)
        },
        r is None ==> forall|k: int|
            0 <= k < answer_list.len() ==> !answer_accepts(
                #[trigger] answer_list.deep_view()[k],
                guess@,
            ),
        r matches Some(i) ==> first_accepting(answer_list.deep_view(), guess@) == Some(i as int),
        r is None ==> first_accepting(answer_list.deep_view(), guess@) is None,
{
    let mut i: usize = 0;
    while i < answer_list.len()
        invariant
            0 <= i <= answer_list.len(),
            forall|k: int|
                0 <= k < i ==> !answer_accepts(#[trigger] answer_list.deep_view()[k], guess@),
        decreases answer_list.len() - i,
    {
        if check(&answer_list[i], guess) {
            proof {
                let l = answer_list.deep_view();
                assert(answer_accepts(l[i as int], guess@));
                let c = choose|j: int|
                    0 <= j < l.len() && answer_accepts(#[trigger] l[j], guess@) && forall|k: int|
                        0 <= k < j ==> !answer_accepts(#[trigger] l[k], guess@);
                assert(0 <= c < l.len() && answer_accepts(l[c], guess@) && forall|k: int|
                    0 <= k < c ==> !answer_accepts(#[trigger] l[k], guess@));
                if c < i {
                } else if c > i {
                    assert(!answer_accepts(l[i as int], guess@));
                }
            }
            return Some(i);
        }
        i += 1;
    }
    None
}

/// Represents the results of taking a quiz on a particular occasion.
#[derive(Debug)]
pub struct QuizResult {
    pub time_finished: Timestamp,
    pub total: usize,
    pub total_correct: usize,
    pub total_partially_correct: usize,
    pub total_incorrect: usize,
    /// Score out of 1,000 possible points.
    pub score: u64,
    pub per_question: Vec<QuestionResult>,
}

/// The sum of the scores of `rs`.
pub open spec fn score_sum(rs: Seq<QuestionResultView>) -> int
    decreases rs.len(),
{
    if rs.len() == 0 {
        0
    } else {
        score_sum(rs.drop_last()) + rs.last().score
    }
}

/// How many of `rs` got full marks.
pub open spec fn count_correct(rs: Seq<QuestionResultView>) -> nat
    decreases rs.len(),
{
    if rs.len() == 0 {
        0
    } else {
        count_correct(rs.drop_last()) + if rs.last().score == MAX_SCORE {
            1nat
        } else {
            0nat
        }
    }
}

/// How many of `rs` got some marks but not all.
pub open spec fn count_partial(rs: Seq<QuestionResultView>) -> nat
    decreases rs.len(),
{
    if rs.len() == 0 {
        0
    } else {
        count_partial(rs.drop_last()) + if 0 < rs.last().score < MAX_SCORE {
            1nat
        } else {
            0nat
        }
    }
}

/// How many of `rs` got no marks.
pub open spec fn count_incorrect(rs: Seq<QuestionResultView>) -> nat
    decreases rs.len(),
{
    if rs.len() == 0 {
        0
    } else {
        count_incorrect(rs.drop_last()) + if rs.last().score == 0 {
            1nat
        } else {
            0nat
        }
    }
}

/// Every score of `rs` is out of `MAX_SCORE`.
pub open spec fn scores_in_range(rs: Seq<QuestionResultView>) -> bool {
    forall|i: int| 0 <= i < rs.len() ==> (#[trigger] rs[i]).score <= MAX_SCORE
}

proof fn lemma_counts_partition(rs: Seq<QuestionResultView>)
    requires
        scores_in_range(rs),
    ensures
        count_correct(rs) + count_partial(rs) + count_incorrect(rs) == rs.len(),
    decreases rs.len(),
{
    if rs.len() > 0 {
        let p = rs.drop_last();
        assert forall|i: int| 0 <= i < p.len() implies (#[trigger] p[i]).score <= MAX_SCORE by {
            assert(p[i] == rs[i]);
        }
        lemma_counts_partition(p);
        assert(rs.last() == rs[rs.len() - 1]);
    }
}

proof fn lemma_counts_bounded(rs: Seq<QuestionResultView>)
    ensures
        count_correct(rs) + count_partial(rs) <= rs.len(),
        score_sum(rs) >= 0,
    decreases rs.len(),
{
    if rs.len() > 0 {
        lemma_counts_bounded(rs.drop_last());
    }
}

/// Summarize the results of the questions that were asked: how many were
/// answered correctly, partially and not at all, and the mean score (rounded
/// down; 0 when nothing was answered).
pub fn summarize(results: Vec<QuestionResult>, time_finished: Timestamp) -> (r: QuizResult)
    requires
        score_sum(results.deep_view()) <= u64::MAX,
    ensures
        r.time_finished == time_finished,
        r.total == results.len(),
        r.total_correct == count_correct(results.deep_view()),
        r.total_partially_correct == count_partial(results.deep_view()),
        r.total_incorrect == results.len() - count_correct(results.deep_view()) - count_partial(
            results.deep_view(),
        ),
        scores_in_range(results.deep_view()) ==> r.total_incorrect == count_incorrect(results.deep_view()),
        r.score == if results.len() > 0 {
            score_sum(results.deep_view()) / (results.len() as int)
        } else {
            0
        },
        r.per_question.deep_view() == results.deep_view(),
{
    let total = results.len();
    let mut aggregate: u64 = 0;
    let mut correct: usize = 0;
    let mut partial: usize = 0;
    let mut i: usize = 0;
    while i < total
        invariant
            total == results.len(),
            0 <= i <= total,
            score_sum(results.deep_view()) <= u64::MAX,
            aggregate == score_sum(results.deep_view().subrange(0, i as int)),
            correct == count_correct(results.deep_view().subrange(0, i as int)),
            partial == count_partial(results.deep_view().subrange(0, i as int)),
            correct + partial <= i,
        decreases total - i,
    {
        let ghost prefix = results.deep_view().subrange(0, i as int);
        let ghost next = results.deep_view().subrange(0, i + 1);
        assert(next.drop_last() =~= prefix);
        proof {
            lemma_sum_prefix_bounded(results.deep_view(), i + 1);
        }
        let s = results[i].score;
        aggregate = aggregate + s;
        if s == MAX_SCORE {
            correct += 1;
        } else if s > 0 && s < MAX_SCORE {
            partial += 1;
        }
        i += 1;
    }
    assert(results.deep_view().subrange(0, total as int) =~= results.deep_view());
    proof {
        if scores_in_range(results.deep_view()) {
            lemma_counts_partition(results.deep_view());
        }
    }
    let score = if total > 0 {
        aggregate / (total as u64)
    } else {
        0
    };
    QuizResult {
        time_finished,
        total,
        total_correct: correct,
        total_partially_correct: partial,
        total_incorrect: total - correct - partial,
        score,
        per_question: results,
    }
}

proof fn lemma_sum_prefix_bounded(rs: Seq<QuestionResultView>, n: int)
    requires
        0 <= n <= rs.len(),
    ensures
        score_sum(rs.subrange(0, n)) <= score_sum(rs),
    decreases rs.len() - n,
{
    if n < rs.len() {
        lemma_sum_prefix_bounded(rs, n + 1);
        assert(rs.subrange(0, n + 1).drop_last() =~= rs.subrange(0, n));
    } else {
        assert(rs.subrange(0, n) =~= rs);
    }
}

/// In every summary the correct, partially correct and incorrect questions add up
/// to the number of questions asked.
/// When every score is out of 1,000, the incorrect questions are those that got
/// no marks.
pub proof fn summary_counts_add_up(rs: Seq<QuestionResultView>)
    requires
        scores_in_range(rs),
    ensures
        count_correct(rs) + count_partial(rs) + count_incorrect(rs) == rs.len(),
        rs.len() - count_correct(rs) - count_partial(rs) == count_incorrect(rs),
{
    lemma_counts_partition(rs);
}

/// The mean score of a summary is no higher than the highest score of a question.
pub proof fn summary_score_bounded(rs: Seq<QuestionResultView>)
    requires
        forall|i: int| 0 <= i < rs.len() ==> (#[trigger] rs[i]).score <= MAX_SCORE,
        rs.len() > 0,
    ensures
        score_sum(rs) / (rs.len() as int) <= MAX_SCORE,
{
    lemma_sum_at_most(rs);
    lemma_counts_bounded(rs);
    let n = rs.len() as int;
    let s = score_sum(rs);
    assert(s <= MAX_SCORE * n);
    assert(s / n <= MAX_SCORE) by (nonlinear_arith)
        requires
            s <= MAX_SCORE * n,
            n > 0,
            s >= 0,
    ;
}

proof fn lemma_sum_at_most(rs: Seq<QuestionResultView>)
    requires
        forall|i: int| 0 <= i < rs.len() ==> (#[trigger] rs[i]).score <= MAX_SCORE,
    ensures
        score_sum(rs) <= MAX_SCORE * rs.len(),
    decreases rs.len(),
{
    if rs.len() > 0 {
        let d = rs.drop_last();
        assert forall|i: int| 0 <= i < d.len() implies (#[trigger] d[i]).score <= MAX_SCORE by {
            assert(d[i] == rs[i]);
        }
        lemma_sum_at_most(d);
        assert(rs.last() == rs[rs.len() - 1]);
    }
}

} // verus!
