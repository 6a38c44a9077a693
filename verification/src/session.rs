//! The decisions taken while a quiz is taken: what each answer earns, what each
//! signal from the user does, and when a question or the quiz is over. The
//! program around the library asks, prints and reads; these functions decide.
use vstd::prelude::*;

use crate::common::{concat, decimal, decimal_string, Location, QuizError, QuizErrorView, TakeOptions};
use crate::quiz::{
    answer_accepts, check, check_one, clone_strings, common_of, first_accepting, flipped, mkresult,
    mkresultlist, summarize, score_sum, Answer, FlashcardQuestion, ListQuestion,
    MultipleChoiceQuestion, OrderedListQuestion, QuestionResult, QuestionResultView, QuestionView,
    Quiz, QuizResult, QuizView, ShortAnswerQuestion, Timestamp, MAX_SCORE,
};
use crate::random::{pick_one, shuffle, thread_rng};
use crate::repetition::{candidates_below, choose_questions, chosen_ok, is_candidate};
use crate::text::{chars_of, str_eq};

verus! {

/// What came of answering a question that takes a single answer.
pub struct Graded {
    pub correct: bool,
    pub result: QuestionResult,
}

impl ShortAnswerQuestion {
    /// Grade `guess` (`None` when the user gave no answer): full marks if it is one
    /// of the answers, none otherwise.
    pub fn grade(&self, guess: Option<String>) -> (r: Graded)
        ensures
            r.correct == (guess matches Some(g) && answer_accepts(self.answer.deep_view(), g@)),
            r.result@.id == self.common.id@,
            r.result@.text == Some(self.text@),
            r.result@.response == guess.deep_view(),
            r.result@.response_list is None,
            r.result@.timed_out is None,
            r.result@.score == if r.correct {
                MAX_SCORE
            } else {
                0
            },
    {
        let correct = match &guess {
            Some(g) => check(&self.answer, g.as_str()),
            None => false,
        };
        let score = if correct {
            MAX_SCORE
        } else {
            0
        };
        Graded { correct, result: mkresult(self.common.id.as_str(), self.text.as_str(), guess, score) }
    }
}

/// The text of the front of a flashcard as it is shown: its first variant,
/// followed by its context in brackets if it has one.
pub open spec fn front_text(front: Seq<Seq<char>>, context: Option<Seq<char>>) -> Seq<char> {
    match context {
        Some(c) => front[0] + " ["@ + c + "]"@,
        None => front[0],
    }
}

impl FlashcardQuestion {
    /// The text shown for the flashcard.
    pub fn prompt_text(&self) -> (r: String)
        requires
            self.front.len() > 0,
        ensures
            r@ == front_text(self.front.deep_view(), self.front_context.deep_view()),
    {
        match &self.front_context {
            Some(context) => {
                let a = concat(self.front[0].as_str(), " [");
                let b = concat(a.as_str(), context.as_str());
                let r = concat(b.as_str(), "]");
                assert(r@ =~= self.front.deep_view()[0] + " ["@ + context@ + "]"@);
                r
            },
            None => self.front[0].clone(),
        }
    }

    /// Grade `guess` against the back of the card.
    pub fn grade(&self, guess: Option<String>) -> (r: Graded)
        requires
            self.front.len() > 0,
        ensures
            r.correct == (guess matches Some(g) && answer_accepts(self.back.deep_view(), g@)),
            r.result@.id == self.common.id@,
            r.result@.text == Some(front_text(self.front.deep_view(), self.front_context.deep_view())),
            r.result@.response == guess.deep_view(),
            r.result@.response_list is None,
            r.result@.timed_out is None,
            r.result@.score == if r.correct {
                MAX_SCORE
            } else {
                0
            },
    {
        let text = self.prompt_text();
        let correct = match &guess {
            Some(g) => check(&self.back, g.as_str()),
            None => false,
        };
        let score = if correct {
            MAX_SCORE
        } else {
            0
        };
        Graded { correct, result: mkresult(self.common.id.as_str(), text.as_str(), guess, score) }
    }
}

/// What the user can do while answering a question with several answers.
pub enum ListEvent {
    /// An answer.
    Guess(String),
    /// No more answers (end of input).
    Done,
    /// Mark the previous answer correct (`!!`).
    MarkCorrect,
}

/// What follows from an event while answering a list question.
#[derive(Debug, PartialEq, Eq, Structural)]
pub enum ListAction {
    /// The answer is right.
    Correct,
    /// The answer is wrong.
    Incorrect,
    /// The answer was already given.
    AlreadySaid,
    /// The answer earns no credit and costs no attempt.
    NoCredit,
    /// The previous answer was not right; it is taken back.
    Undone,
    /// The previous answer is counted as right.
    MarkedCorrect,
    /// The previous answer was already right.
    AlreadyCorrect,
    /// There is no previous answer to this question: the signal is for the
    /// previous question.
    PassMarkCorrect,
    /// No more answers are taken.
    Stop,
}

/// The state of an unordered list question being answered.
pub struct ListSession {
    /// Which answers have been given.
    pub satisfied: Vec<bool>,
    /// The answers that count as attempts, in order.
    pub responses: Vec<String>,
    /// The user has stopped answering.
    pub stopped: bool,
}

/// The number of `true` values in `s`.
pub open spec fn count_true(s: Seq<bool>) -> nat
    decreases s.len(),
{
    if s.len() == 0 {
        0
    } else {
        count_true(s.drop_last()) + if s.last() {
            1nat
        } else {
            0nat
        }
    }
}

proof fn lemma_count_true_bounded(s: Seq<bool>)
    ensures
        count_true(s) <= s.len(),
    decreases s.len(),
{
    if s.len() > 0 {
        lemma_count_true_bounded(s.drop_last());
    }
}

proof fn lemma_count_true_update(s: Seq<bool>, i: int)
    requires
        0 <= i < s.len(),
        !s[i],
    ensures
        count_true(s.update(i, true)) == count_true(s) + 1,
    decreases s.len(),
{
    let t = s.update(i, true);
    if i == s.len() - 1 {
        assert(t.drop_last() =~= s.drop_last());
    } else {
        assert(t.drop_last() =~= s.drop_last().update(i, true));
        lemma_count_true_update(s.drop_last(), i);
    }
}

/// The first variant of each answer not given, in the order of the list.
pub open spec fn missed_answers(answers: Seq<Seq<Seq<char>>>, satisfied: Seq<bool>) -> Seq<Seq<char>>
    decreases satisfied.len(),
{
    if satisfied.len() == 0 {
        Seq::empty()
    } else {
        let rest = missed_answers(answers, satisfied.drop_last());
        if satisfied.last() {
            rest
        } else {
            rest.push(answers[satisfied.len() - 1][0])
        }
    }
}

/// The answers missed are, in list order, the first variant of each answer that
/// was not given, and of no answer that was: `idx` are their positions.
pub proof fn missed_are_the_answers_not_given(answers: Seq<Seq<Seq<char>>>, satisfied: Seq<bool>) -> (idx: Seq<int>)
    requires
        satisfied.len() <= answers.len(),
    ensures
        idx.len() == missed_answers(answers, satisfied).len(),
        forall|k: int|
            0 <= k < idx.len() ==> {
                &&& 0 <= #[trigger] idx[k] < satisfied.len()
                &&& !satisfied[idx[k]]
                &&& missed_answers(answers, satisfied)[k] == answers[idx[k]][0]
            },
        forall|a: int, b: int| 0 <= a < b < idx.len() ==> #[trigger] idx[a] < #[trigger] idx[b],
        forall|j: int| 0 <= j < satisfied.len() && !satisfied[j] ==> #[trigger] idx.contains(j),
    decreases satisfied.len(),
{
    if satisfied.len() == 0 {
        Seq::empty()
    } else {
        let init = satisfied.drop_last();
        let n = satisfied.len() - 1;
        let prev = missed_are_the_answers_not_given(answers, init);
        let rest = missed_answers(answers, init);
        if satisfied.last() {
            assert forall|j: int| 0 <= j < satisfied.len() && !satisfied[j] implies #[trigger] prev.contains(j) by {
                assert(j != n);
                assert(init[j] == satisfied[j]);
            }
            prev
        } else {
            let idx = prev.push(n);
            assert(missed_answers(answers, satisfied) == rest.push(answers[n][0]));
            assert forall|k: int| 0 <= k < idx.len() implies {
                &&& 0 <= #[trigger] idx[k] < satisfied.len()
                &&& !satisfied[idx[k]]
                &&& missed_answers(answers, satisfied)[k] == answers[idx[k]][0]
            } by {
                if k < prev.len() {
                    assert(idx[k] == prev[k]);
                    assert(init[prev[k]] == satisfied[prev[k]]);
                }
            }
            assert forall|j: int| 0 <= j < satisfied.len() && !satisfied[j] implies #[trigger] idx.contains(j) by {
                if j == n {
                    assert(idx[prev.len() as int] == n);
                } else {
                    assert(init[j] == satisfied[j]);
                    assert(prev.contains(j));
                    let k = choose|k: int| 0 <= k < prev.len() && prev[k] == j;
                    assert(idx[k] == j);
                }
            }
            idx
        }
    }
}

/// The score of `k` right answers out of `n`, out of 1,000 and rounded down; 0
/// when there are no answers. The score is computed with exact integers.
pub open spec fn fraction_score(k: nat, n: nat) -> nat {
    if n == 0 {
        0
    } else {
        (k * 1000) / n
    }
}

/// The score of `k` right answers out of `n`, capped at the largest `u64`.
pub fn score_of(k: u64, n: u64) -> (r: u64)
    ensures
        r == vstd::math::min(fraction_score(k as nat, n as nat) as int, u64::MAX as int),
{
    if n == 0 {
        return 0;
    }
    assert((k as u128) * 1000u128 <= u128::MAX) by (nonlinear_arith)
        requires
            k <= u64::MAX,
    ;
    let big: u128 = (k as u128) * 1000u128 / (n as u128);
    assert(big as int == fraction_score(k as nat, n as nat));
    if big > u64::MAX as u128 {
        u64::MAX
    } else {
        big as u64
    }
}

impl ListQuestion {
    /// Begin answering: no answer given yet.
    pub fn start(&self) -> (s: ListSession)
        ensures
            s.satisfied@.len() == self.answer_list.len(),
            forall|i: int| 0 <= i < s.satisfied@.len() ==> !s.satisfied@[i],
            s.responses@.len() == 0,
            !s.stopped,
    {
        let mut satisfied: Vec<bool> = Vec::new();
        let mut i: usize = 0;
        while i < self.answer_list.len()
            invariant
                0 <= i <= self.answer_list.len(),
                satisfied@.len() == i,
                forall|k: int| 0 <= k < i ==> !satisfied@[k],
            decreases self.answer_list.len() - i,
        {
            satisfied.push(false);
            i += 1;
        }
        ListSession { satisfied, responses: Vec::new(), stopped: false }
    }
}

impl ListSession {
    /// The session belongs to `q`.
    pub open spec fn fits(&self, q: &ListQuestion) -> bool {
        self.satisfied@.len() == q.answer_list@.len()
    }

    /// No more answers are taken: as many attempts as there are answers, or the
    /// user stopped.
    pub fn is_done(&self) -> (r: bool)
        ensures
            r == (self.stopped || self.responses@.len() >= self.satisfied@.len()),
    {
        self.stopped || self.responses.len() >= self.satisfied.len()
    }

    /// Handle an event of the user answering `q`.
    pub fn step(&mut self, q: &ListQuestion, event: ListEvent) -> (r: ListAction)
        requires
            old(self).fits(q),
        ensures
            final(self).fits(q),
            match event {
                ListEvent::Guess(g) => match first_accepting(q.answer_list.deep_view(), g@) {
                    Some(i) => if old(self).satisfied@[i] {
                        r == ListAction::AlreadySaid && *final(self) == *old(self)
                    } else {
                        &&& r == ListAction::Correct
                        &&& final(self).satisfied@ == old(self).satisfied@.update(i, true)
                        &&& final(self).responses.deep_view() == old(self).responses.deep_view().push(g@)
                        &&& final(self).stopped == old(self).stopped
                    },
                    None => if answer_accepts(q.no_credit.deep_view(), g@) {
                        r == ListAction::NoCredit && *final(self) == *old(self)
                    } else {
                        &&& r == ListAction::Incorrect
                        &&& final(self).satisfied@ == old(self).satisfied@
                        &&& final(self).responses.deep_view() == old(self).responses.deep_view().push(g@)
                        &&& final(self).stopped == old(self).stopped
                    },
                },
                ListEvent::Done => {
                    &&& r == ListAction::Stop
                    &&& final(self).satisfied@ == old(self).satisfied@
                    &&& final(self).responses@ == old(self).responses@
                    &&& final(self).stopped
                },
                ListEvent::MarkCorrect => if old(self).responses@.len() == 0 {
                    r == ListAction::PassMarkCorrect && *final(self) == *old(self)
                } else if first_accepting(
                    q.answer_list.deep_view(),
                    old(self).responses.deep_view().last(),
                ) is None {
                    &&& r == ListAction::Undone
                    &&& final(self).satisfied@ == old(self).satisfied@
                    &&& final(self).responses.deep_view() == old(self).responses.deep_view().drop_last()
                    &&& final(self).stopped == old(self).stopped
                } else {
                    r == ListAction::AlreadyCorrect && *final(self) == *old(self)
                },
            },
    {
        match event {
            ListEvent::Guess(guess) => {
                if let Some(index) = check_one(&q.answer_list, guess.as_str()) {
                    if self.satisfied[index] {
                        ListAction::AlreadySaid
                    } else {
                        self.satisfied.set(index, true);
                        let ghost before = self.responses.deep_view();
                        self.responses.push(guess);
                        assert(self.responses.deep_view() =~= before.push(guess@));
                        ListAction::Correct
                    }
                } else if check(&q.no_credit, guess.as_str()) {
                    ListAction::NoCredit
                } else {
                    let ghost before = self.responses.deep_view();
                    self.responses.push(guess);
                    assert(self.responses.deep_view() =~= before.push(guess@));
                    ListAction::Incorrect
                }
            },
            ListEvent::Done => {
                self.stopped = true;
                ListAction::Stop
            },
            ListEvent::MarkCorrect => {
                let n = self.responses.len();
                if n == 0 {
                    // If there was no previous answer to this question, then the
                    // signal is passed on so that the previous question can be
                    // corrected.
                    ListAction::PassMarkCorrect
                } else if check_one(&q.answer_list, self.responses[n - 1].as_str()).is_none() {
                    // The answer cannot be marked correct without knowing which
                    // real answer it was meant to match, so it is undone instead.
                    let ghost before = self.responses.deep_view();
                    self.responses.pop();
                    assert(self.responses.deep_view() =~= before.drop_last());
                    ListAction::Undone
                } else {
                    ListAction::AlreadyCorrect
                }
            },
        }
    }

    /// The answers that were not given (the first variant of each) and the result
    /// of the question: the share of the answers given, out of 1,000.
    pub fn finish(self, q: &ListQuestion) -> (r: (Vec<String>, QuestionResult))
        requires
            self.fits(q),
            forall|i: int| 0 <= i < q.answer_list@.len() ==> (#[trigger] q.answer_list@[i])@.len() > 0,
        ensures
            r.0@.len() == q.answer_list@.len() - count_true(self.satisfied@),
            r.0.deep_view() == missed_answers(q.answer_list.deep_view(), self.satisfied@),
            r.1@.score == fraction_score(count_true(self.satisfied@), q.answer_list@.len() as nat),
            r.1@.score <= MAX_SCORE,
            r.1@.id == q.common.id@,
            r.1@.text == Some(q.text@),
            r.1@.response is None,
            r.1@.response_list == Some(self.responses.deep_view()),
            r.1@.timed_out is None,
    {
        let n = q.answer_list.len();
        let mut missed: Vec<String> = Vec::new();
        let mut i: usize = 0;
        assert(self.satisfied@.subrange(0, 0) =~= Seq::<bool>::empty());
        while i < n
            invariant
                0 <= i <= n == q.answer_list@.len() == self.satisfied@.len(),
                forall|k: int| 0 <= k < n ==> (#[trigger] q.answer_list@[k])@.len() > 0,
                missed@.len() == i - count_true(self.satisfied@.subrange(0, i as int)),
                count_true(self.satisfied@.subrange(0, i as int)) <= i,
                missed.deep_view() == missed_answers(q.answer_list.deep_view(), self.satisfied@.subrange(0, i as int)),
            decreases n - i,
        {
            let ghost p = self.satisfied@.subrange(0, i + 1);
            assert(p.drop_last() =~= self.satisfied@.subrange(0, i as int));
            let ghost before = missed.deep_view();
            if !self.satisfied[i] {
                let v = q.answer_list[i][0].clone();
                assert(v@ == q.answer_list.deep_view()[i as int][0]);
                missed.push(v);
                assert(missed.deep_view() =~= before.push(v@));
            }
            i += 1;
        }
        assert(self.satisfied@.subrange(0, n as int) =~= self.satisfied@);
        proof {
            lemma_count_true_bounded(self.satisfied@);
        }
        let found = (n - missed.len()) as u64;
        let score = score_of(found, n as u64);
        proof {
            let k = count_true(self.satisfied@);
            if n > 0 {
                assert((k * 1000) / (n as nat) <= 1000) by (nonlinear_arith)
                    requires
                        k <= n,
                        n > 0,
                ;
            }
        }
        let result = mkresultlist(q.common.id.as_str(), q.text.as_str(), self.responses, score);
        (missed, result)
    }
}

/// The state of an ordered list question being answered.
pub struct OrderedListSession {
    /// The position of the answer expected next.
    pub index: usize,
    /// How many answers were counted right.
    pub ncorrect: u64,
    /// The answers given, in order.
    pub responses: Vec<String>,
    /// The previous answer has been marked correct already.
    pub last_marked: bool,
    /// The user has stopped answering.
    pub stopped: bool,
}

/// What follows from an event while answering an ordered list question.
#[derive(Debug, PartialEq, Eq, Structural)]
pub enum OrderedAction {
    /// The answer is right.
    Correct,
    /// The answer is wrong; the one expected is at this position of the list.
    Incorrect(usize),
    /// The previous answer is counted as right.
    MarkedCorrect,
    /// The previous answer was already right.
    AlreadyCorrect,
    /// There is no previous answer to this question: the signal is for the
    /// previous question.
    PassMarkCorrect,
    /// No more answers are taken; the one expected was at this position.
    Stop(usize),
}

impl OrderedListQuestion {
    /// Begin answering: the first answer is expected.
    pub fn start(&self) -> (s: OrderedListSession)
        ensures
            s.index == 0,
            s.ncorrect == 0,
            s.responses@.len() == 0,
            !s.last_marked,
            !s.stopped,
    {
        OrderedListSession { index: 0, ncorrect: 0, responses: Vec::new(), last_marked: false, stopped: false }
    }
}

impl OrderedListSession {
    /// No more answers are taken.
    pub fn is_done(&self, q: &OrderedListQuestion) -> (r: bool)
        ensures
            r == (self.stopped || self.index >= q.answer_list@.len()),
    {
        self.stopped || self.index >= q.answer_list.len()
    }

    /// Handle an event of the user answering `q`. Marking the previous answer
    /// correct counts it right once, and only while some answer so far was
    /// counted wrong, so no more answers are counted right than were given.
    pub fn step(&mut self, q: &OrderedListQuestion, event: ListEvent) -> (r: OrderedAction)
        requires
            old(self).index < q.answer_list@.len(),
            old(self).ncorrect <= old(self).index,
        ensures
            final(self).ncorrect <= final(self).index <= q.answer_list@.len(),
            match event {
                ListEvent::Guess(g) => {
                    let right = answer_accepts(q.answer_list.deep_view()[old(self).index as int], g@);
                    &&& r == if right {
                        OrderedAction::Correct
                    } else {
                        OrderedAction::Incorrect(old(self).index)
                    }
                    &&& final(self).responses.deep_view() == old(self).responses.deep_view().push(g@)
                    &&& final(self).index == old(self).index + 1
                    &&& final(self).ncorrect == old(self).ncorrect + if right {
                        1int
                    } else {
                        0int
                    }
                    &&& !final(self).last_marked
                    &&& final(self).stopped == old(self).stopped
                },
                ListEvent::Done => {
                    &&& r == OrderedAction::Stop(old(self).index)
                    &&& final(self).index == old(self).index
                    &&& final(self).ncorrect == old(self).ncorrect
                    &&& final(self).responses@ == old(self).responses@
                    &&& final(self).last_marked == old(self).last_marked
                    &&& final(self).stopped
                },
                ListEvent::MarkCorrect => if old(self).responses@.len() == 0 {
                    r == OrderedAction::PassMarkCorrect && *final(self) == *old(self)
                } else if first_accepting(
                    q.answer_list.deep_view(),
                    old(self).responses.deep_view().last(),
                ) is None && !old(self).last_marked && old(self).ncorrect < old(self).index {
                    &&& r == OrderedAction::MarkedCorrect
                    &&& final(self).ncorrect == old(self).ncorrect + 1
                    &&& final(self).index == old(self).index
                    &&& final(self).responses@ == old(self).responses@
                    &&& final(self).last_marked
                    &&& final(self).stopped == old(self).stopped
                } else {
                    r == OrderedAction::AlreadyCorrect && *final(self) == *old(self)
                },
            },
    {
        match event {
            ListEvent::Guess(guess) => {
                let n = q.answer_list.len();
                assert(self.index < n);
                let right = check(&q.answer_list[self.index], guess.as_str());
                let ghost before = self.responses.deep_view();
                self.responses.push(guess);
                assert(self.responses.deep_view() =~= before.push(guess@));
                let at = self.index;
                self.index += 1;
                self.last_marked = false;
                if right {
                    self.ncorrect += 1;
                    OrderedAction::Correct
                } else {
                    OrderedAction::Incorrect(at)
                }
            },
            ListEvent::Done => {
                self.stopped = true;
                OrderedAction::Stop(self.index)
            },
            ListEvent::MarkCorrect => {
                let n = self.responses.len();
                if n == 0 {
                    OrderedAction::PassMarkCorrect
                } else if check_one(&q.answer_list, self.responses[n - 1].as_str()).is_none() && !self.last_marked
                    && self.ncorrect < self.index as u64 {
                    self.ncorrect += 1;
                    self.last_marked = true;
                    OrderedAction::MarkedCorrect
                } else {
                    OrderedAction::AlreadyCorrect
                }
            },
        }
    }

    /// The result of the question: the share of right answers, out of 1,000.
    pub fn finish(self, q: &OrderedListQuestion) -> (r: QuestionResult)
        requires
            self.ncorrect <= q.answer_list@.len(),
        ensures
            r@.score == fraction_score(self.ncorrect as nat, q.answer_list@.len() as nat),
            r@.score <= MAX_SCORE,
            r@.id == q.common.id@,
            r@.text == Some(q.text@),
            r@.response is None,
            r@.response_list == Some(self.responses.deep_view()),
            r@.timed_out is None,
    {
        let n = q.answer_list.len() as u64;
        let score = score_of(self.ncorrect, n);
        proof {
            let k = self.ncorrect as nat;
            if n > 0 {
                assert((k * 1000) / (n as nat) <= 1000) by (nonlinear_arith)
                    requires
                        k <= n,
                        n > 0,
                ;
            }
        }
        mkresultlist(q.common.id.as_str(), q.text.as_str(), self.responses, score)
    }
}

/// The position of the choice that a guess names: a single letter from `a` to `d`
/// (in either case). `str::len` counts bytes, so a guess of one byte is a single
/// ASCII character.
pub open spec fn letter_position(guess: Seq<char>) -> Option<int> {
    if guess.len() == 1 {
        let c = guess[0] as u32;
        if 97 <= c < 101 {
            Some(c - 97)
        } else if 65 <= c < 69 {
            Some(c - 65)
        } else {
            None
        }
    } else {
        None
    }
}

/// Each of the letters `a` to `d`, in either case, names its choice, and nothing
/// else names one.
pub proof fn every_letter_names_its_choice(x: int, guess: Seq<char>)
    requires
        0 <= x < 4,
    ensures
        letter_position(seq![(97 + x) as char]) == Some(x),
        letter_position(seq![(65 + x) as char]) == Some(x),
        letter_position(guess) matches Some(i) ==> 0 <= i < 4 && guess.len() == 1 && (guess[0] as u32 == 97 + i
            || guess[0] as u32 == 65 + i),
{
    assert(seq![(97 + x) as char][0] == (97 + x) as char);
    assert(seq![(65 + x) as char][0] == (65 + x) as char);
}

/// The position of the choice that `guess` names, if it is one of the letters
/// `a` to `d`.
pub fn letter_index(guess: &str) -> (r: Option<usize>)
    ensures
        r matches Some(i) ==> letter_position(guess@) == Some(i as int),
        r is None ==> letter_position(guess@) is None,
{
    let v = crate::text::chars_of(guess);
    if v.len() != 1 {
        return None;
    }
    let c = v[0] as u32;
    if 97 <= c && c < 101 {
        Some((c - 97) as usize)
    } else if 65 <= c && c < 69 {
        Some((c - 65) as usize)
    } else {
        None
    }
}

/// `shown` holds, as a multiset, the wrong choices at the distinct positions `idx`
/// of `wrong`, as many as there are wrong choices up to three, and the variant
/// `answer` of the answer.
pub open spec fn shown_from(wrong: Seq<String>, idx: Seq<usize>, answer: String, shown: Seq<String>) -> bool {
    &&& idx.len() == vstd::math::min(3, wrong.len() as int)
    &&& idx.no_duplicates()
    &&& forall|k: int| 0 <= k < idx.len() ==> #[trigger] idx[k] < wrong.len()
    &&& shown.to_multiset() == Seq::new(idx.len(), |k: int| wrong[idx[k] as int]).push(answer).to_multiset()
}

/// The choices to show for a multiple-choice question: up to three of the wrong
/// choices `wrong`, picked at random, and one variant of `answer`, in a random
/// order; with the variant of the answer that is shown.
pub fn pick_choices_from(wrong: &Vec<String>, answer: &Vec<String>) -> (r: (Vec<String>, String))
    requires
        answer@.len() > 0,
    ensures
        answer@.contains(r.1),
        answer.deep_view().contains(r.1@),
        r.0.deep_view().contains(r.1@),
        r.0@.len() == vstd::math::min(3, wrong@.len() as int) + 1,
        forall|k: int| 0 <= k < r.0@.len() ==> #[trigger] r.0.deep_view()[k] == r.1@
            || wrong.deep_view().contains(r.0.deep_view()[k]),
        exists|idx: Seq<usize>| #[trigger] shown_from(wrong@, idx, r.1, r.0@),
{
    let mut rng = thread_rng();
    let n = wrong.len();
    // The positions of the wrong choices, shuffled so that the first three listed
    // are not always picked.
    let mut positions: Vec<usize> = Vec::new();
    let mut i: usize = 0;
    while i < n
        invariant
            0 <= i <= n == wrong@.len(),
            positions@.len() == i,
            forall|k: int| 0 <= k < i ==> positions@[k] == k,
        decreases n - i,
    {
        positions.push(i);
        i += 1;
    }
    let ghost ordered = positions@;
    proof {
        assert forall|a: int, c: int| 0 <= a < ordered.len() && 0 <= c < ordered.len() && a != c implies ordered[a] != ordered[c] by {}
        ordered.lemma_multiset_has_no_duplicates();
    }
    shuffle(&mut positions, &mut rng);
    proof {
        broadcast use vstd::seq_lib::group_to_multiset_ensures;
        broadcast use vstd::multiset::group_multiset_axioms;
        assert forall|x: usize| positions@.to_multiset().contains(x) implies positions@.to_multiset().count(x) == 1 by {
            assert(ordered.to_multiset().contains(x));
        }
        positions@.lemma_multiset_has_no_duplicates_conv();
        assert forall|k: int| 0 <= k < positions@.len() implies #[trigger] positions@[k] < n by {
            let x = positions@[k];
            assert(positions@.contains(x));
            assert(positions@.to_multiset().contains(x));
            assert(ordered.contains(x));
        }
    }
    let keep = if n < 3 {
        n
    } else {
        3
    };
    positions.truncate(keep);
    let ghost idx = positions@;
    let mut choices: Vec<String> = Vec::new();
    let mut j: usize = 0;
    while j < keep
        invariant
            0 <= j <= keep == positions@.len(),
            idx == positions@,
            forall|k: int| 0 <= k < idx.len() ==> #[trigger] idx[k] < wrong@.len(),
            choices@ == Seq::new(j as nat, |k: int| wrong@[idx[k] as int]),
        decreases keep - j,
    {
        let c = wrong[positions[j]].clone();
        choices.push(c);
        j += 1;
        assert(choices@ =~= Seq::new(j as nat, |k: int| wrong@[idx[k] as int]));
    }
    let picked = match pick_one(&answer, &mut rng) {
        Some(a) => a.clone(),
        None => answer[0].clone(),
    };
    proof {
        if !answer@.contains(picked) {
            assert(answer@[0] == picked);
        }
        let m = choose|m: int| 0 <= m < answer@.len() && answer@[m] == picked;
        assert(answer.deep_view()[m] == picked@);
    }
    choices.push(picked.clone());
    let ghost pushed = choices@;
    proof {
        assert(pushed == Seq::new(keep as nat, |k: int| wrong@[idx[k] as int]).push(picked));
    }
    // Shuffle again so that the position of the right answer is random.
    shuffle(&mut choices, &mut rng);
    proof {
        broadcast use vstd::seq_lib::group_to_multiset_ensures;
        broadcast use vstd::multiset::group_multiset_axioms;
        assert(shown_from(wrong@, idx, picked, choices@));
        assert(pushed[pushed.len() - 1] == picked);
        assert(pushed.contains(picked));
        assert(choices@.to_multiset().contains(picked));
        assert(choices@.contains(picked));
        let k0 = choose|k: int| 0 <= k < choices@.len() && choices@[k] == picked;
        assert(choices.deep_view()[k0] == picked@);
        assert forall|k: int| 0 <= k < choices@.len() implies #[trigger] choices.deep_view()[k] == picked@
            || wrong.deep_view().contains(choices.deep_view()[k]) by {
            let x = choices@[k];
            assert(choices@.contains(x));
            assert(choices@.to_multiset().contains(x));
            assert(pushed.contains(x));
            let m = choose|m: int| 0 <= m < pushed.len() && pushed[m] == x;
            if m < keep {
                assert(x == wrong@[idx[m] as int]);
                assert(wrong.deep_view()[idx[m] as int] == x@);
            }
        }
    }
    let r = (choices, picked);
    assert(r.0@ == choices@);
    assert(shown_from(wrong@, idx, r.1, r.0@));
    r
}

impl MultipleChoiceQuestion {
    /// The choices to show: up to three of the wrong choices, picked at random,
    /// and one variant of the answer, in a random order; with the variant of the
    /// answer that is shown.
    pub fn pick_choices(&self) -> (r: (Vec<String>, String))
        requires
            self.answer@.len() > 0,
        ensures
            self.answer.deep_view().contains(r.1@),
            r.0.deep_view().contains(r.1@),
            r.0@.len() == vstd::math::min(3, self.choices@.len() as int) + 1,
            forall|k: int| 0 <= k < r.0@.len() ==> #[trigger] r.0.deep_view()[k] == r.1@
                || self.choices.deep_view().contains(r.0.deep_view()[k]),
            self.answer@.contains(r.1),
            exists|idx: Seq<usize>| #[trigger] shown_from(self.choices@, idx, r.1, r.0@),
    {
        pick_choices_from(&self.choices, &self.answer)
    }

    /// Grade the choice `chosen` (`None` when the user gave no answer).
    pub fn grade(&self, chosen: Option<String>) -> (r: Graded)
        ensures
            r.correct == (chosen matches Some(g) && answer_accepts(self.answer.deep_view(), g@)),
            r.result@.id == self.common.id@,
            r.result@.text == Some(self.text@),
            r.result@.response == chosen.deep_view(),
            r.result@.response_list is None,
            r.result@.timed_out is None,
            r.result@.score == if r.correct {
                MAX_SCORE
            } else {
                0
            },
    {
        let correct = match &chosen {
            Some(g) => check(&self.answer, g.as_str()),
            None => false,
        };
        let score = if correct {
            MAX_SCORE
        } else {
            0
        };
        Graded { correct, result: mkresult(self.common.id.as_str(), self.text.as_str(), chosen, score) }
    }
}

/// What the program reports back while a quiz is taken.
pub enum TakeEvent {
    /// The question was answered, with this result.
    Answered(QuestionResult),
    /// The user interrupted the quiz (Ctrl+C).
    Interrupted,
    /// The user asked to mark the previous answer correct (`!!`).
    MarkCorrect,
    /// The user asked to edit the previous question (`!edit`).
    Edit,
}

/// What the program does next while a quiz is taken.
#[derive(Debug)]
pub enum TakeAction {
    /// Ask the question at this position of the quiz.
    Ask(usize),
    /// Show this message, then ask the same question again.
    Status(String),
    /// Open the question at this position of the quiz in an editor, then ask the
    /// same question again.
    Edit(usize),
    /// The quiz is over.
    Finish,
}

/// The state of a quiz being taken.
pub struct TakeSession {
    /// The positions in the quiz of the questions to ask, in the order to ask them.
    pub order: Vec<usize>,
    /// How many questions have been answered.
    pub index: usize,
    /// The results of the questions answered, in order.
    pub results: Vec<QuestionResult>,
}

impl Quiz {
    /// Get ready to take the quiz: flip the flashcards if asked to, then choose the
    /// questions to ask. It is an error (`EmptyQuiz`) when no question is chosen.
    pub fn start_take(&mut self, options: &TakeOptions) -> (r: Result<TakeSession, QuizError>)
        ensures
            final(self)@.instructions == old(self)@.instructions,
            final(self)@.questions.len() == old(self)@.questions.len(),
            forall|k: int|
                0 <= k < old(self)@.questions.len() ==> #[trigger] final(self)@.questions[k] == if options.flip {
                    flipped(old(self)@.questions[k])
                } else {
                    old(self)@.questions[k]
                },
            r is Err <==> (options.num_to_ask == 0 || candidates_below(
                final(self)@.questions,
                options.filter_opts.tags.deep_view(),
                options.filter_opts.exclude.deep_view(),
                final(self)@.questions.len(),
            ).len() == 0),
            r is Err ==> (r matches Err(e) && e@ == QuizErrorView::EmptyQuiz),
            r matches Ok(s) ==> {
                &&& s.order@.len() > 0
                &&& s.wf()
                &&& s.index == 0
                &&& s.results@.len() == 0
                &&& chosen_ok(
                    final(self)@.questions,
                    options.filter_opts.tags.deep_view(),
                    options.filter_opts.exclude.deep_view(),
                    options.num_to_ask as nat,
                    options.random,
                    options.in_order,
                    s.order@,
                )
            },
    {
        if options.flip {
            self.flip_all();
        }
        let order = choose_questions(&self.questions, options);
        if order.len() == 0 {
            return Err(QuizError::EmptyQuiz);
        }
        Ok(TakeSession { order, index: 0, results: Vec::new() })
    }
}

/// The result `r` with full marks.
pub open spec fn marked_correct(r: QuestionResultView) -> QuestionResultView {
    QuestionResultView { score: MAX_SCORE, ..r }
}

impl TakeSession {
    /// The session is consistent: it has not asked more questions than it holds,
    /// and every score is out of 1,000.
    pub open spec fn wf(&self) -> bool {
        &&& self.index <= self.order@.len()
        &&& self.results@.len() <= self.index
        &&& crate::quiz::scores_in_range(self.results.deep_view())
    }

    /// The position in the quiz of the question being asked.
    pub fn current(&self) -> (r: usize)
        requires
            self.index < self.order@.len(),
        ensures
            r == self.order@[self.index as int],
    {
        self.order[self.index]
    }

    /// Whether every question has been answered.
    pub fn is_over(&self) -> (r: bool)
        ensures
            r == (self.index >= self.order@.len()),
    {
        self.index >= self.order.len()
    }

    /// Handle what happened while the current question was asked.
    pub fn step(&mut self, event: TakeEvent) -> (r: TakeAction)
        requires
            old(self).wf(),
            old(self).index < old(self).order@.len(),
            event matches TakeEvent::Answered(res) ==> res@.score <= MAX_SCORE,
        ensures
            final(self).wf(),
            final(self).order@ == old(self).order@,
            match event {
                TakeEvent::Answered(res) => {
                    &&& final(self).results.deep_view() == old(self).results.deep_view().push(res@)
                    &&& final(self).index == old(self).index + 1
                    &&& if final(self).index < final(self).order@.len() {
                        (r matches TakeAction::Ask(q) && q == final(self).order@[final(self).index as int])
                    } else {
                        r is Finish
                    }
                },
                TakeEvent::Interrupted => {
                    &&& r is Finish
                    &&& final(self).index == old(self).index
                    &&& final(self).results.deep_view() == old(self).results.deep_view()
                },
                TakeEvent::MarkCorrect => {
                    &&& final(self).index == old(self).index
                    &&& if old(self).results@.len() == 0 {
                        &&& (r matches TakeAction::Status(m) && m@ == "No previous question to mark correct."@)
                        &&& final(self).results.deep_view() == old(self).results.deep_view()
                    } else if old(self).results.deep_view().last().score < MAX_SCORE {
                        let last = old(self).results@.len() - 1;
                        &&& (r matches TakeAction::Status(m) && m@ == "Previous answer marked correct."@)
                        &&& final(self).results.deep_view() == old(self).results.deep_view().update(
                            last,
                            marked_correct(old(self).results.deep_view()[last]),
                        )
                    } else {
                        &&& (r matches TakeAction::Status(m) && m@ == "Previous answer was already correct."@)
                        &&& final(self).results.deep_view() == old(self).results.deep_view()
                    }
                },
                TakeEvent::Edit => {
                    &&& final(self).index == old(self).index
                    &&& final(self).results.deep_view() == old(self).results.deep_view()
                    &&& if old(self).index > 0 {
                        (r matches TakeAction::Edit(q) && q == old(self).order@[old(self).index - 1])
                    } else {
                        (r matches TakeAction::Status(m) && m@ == "No previous question to edit."@)
                    }
                },
            },
    {
        match event {
            TakeEvent::Answered(res) => {
                let ghost before = self.results.deep_view();
                let total = self.order.len();
                let next = if self.index < total { self.index + 1 } else { total };
                self.results.push(res);
                assert(self.results.deep_view() =~= before.push(res@));
                self.index = next;
                if self.index < self.order.len() {
                    TakeAction::Ask(self.order[self.index])
                } else {
                    TakeAction::Finish
                }
            },
            TakeEvent::Interrupted => TakeAction::Finish,
            TakeEvent::MarkCorrect => {
                let n = self.results.len();
                if n > 0 {
                    let last = n - 1;
                    if self.results[last].score < MAX_SCORE {
                        let ghost before = self.results.deep_view();
                        let mut r = self.results.remove(last);
                        r.score = MAX_SCORE;
                        let ghost rv = r@;
                        self.results.push(r);
                        assert(self.results.deep_view() =~= before.update(last as int, rv));
                        TakeAction::Status(String::from_str("Previous answer marked correct."))
                    } else {
                        TakeAction::Status(String::from_str("Previous answer was already correct."))
                    }
                } else {
                    TakeAction::Status(String::from_str("No previous question to mark correct."))
                }
            },
            TakeEvent::Edit => {
                if self.index > 0 {
                    TakeAction::Edit(self.order[self.index - 1])
                } else {
                    TakeAction::Status(String::from_str("No previous question to edit."))
                }
            },
        }
    }

    /// The summary of the quiz, finished at `time`.
    pub fn finish(self, time: Timestamp) -> (r: QuizResult)
        requires
            self.wf(),
            score_sum(self.results.deep_view()) <= u64::MAX,
        ensures
            r.time_finished == time,
            r.per_question.deep_view() == self.results.deep_view(),
            r.total == self.results@.len(),
            r.total_correct == crate::quiz::count_correct(self.results.deep_view()),
            r.total_partially_correct == crate::quiz::count_partial(self.results.deep_view()),
            r.total_incorrect == self.results@.len() - crate::quiz::count_correct(self.results.deep_view())
                - crate::quiz::count_partial(self.results.deep_view()),
            crate::quiz::scores_in_range(r.per_question.deep_view()),
            r.total_incorrect == crate::quiz::count_incorrect(self.results.deep_view()),
            r.total_correct + r.total_partially_correct + r.total_incorrect == r.total,
            r.score == if self.results@.len() > 0 {
                score_sum(self.results.deep_view()) / (self.results@.len() as int)
            } else {
                0
            },
    {
        summarize(self.results, time)
    }
}

/// What a line typed at the prompt means: `!!` asks to mark the previous answer
/// correct, a beginning of `!edit` asks to edit the previous question, and
/// anything else is an answer (`None` when the user gave up).
pub fn classify_response(response: Option<String>) -> (r: Result<Option<String>, QuizError>)
    ensures
        (response matches Some(s) && s@ == "!!"@) ==> (r matches Err(e) && e@ == QuizErrorView::SignalMarkCorrect),
        (response matches Some(s) && s@ != "!!"@ && s@.is_prefix_of("!edit"@)) ==> (r matches Err(e) && e@
            == QuizErrorView::SignalEdit),
        (response is None || (response matches Some(s) && s@ != "!!"@ && !s@.is_prefix_of("!edit"@))) ==> (
        r matches Ok(x) && x.deep_view() == response.deep_view()),
{
    match response {
        Some(s) => {
            if str_eq(s.as_str(), "!!") {
                Err(QuizError::SignalMarkCorrect)
            } else if is_prefix_of_edit(s.as_str()) {
                Err(QuizError::SignalEdit)
            } else {
                Ok(Some(s))
            }
        },
        None => Ok(None),
    }
}

/// Whether `s` is a beginning of `!edit`.
fn is_prefix_of_edit(s: &str) -> (r: bool)
    ensures
        r == s@.is_prefix_of("!edit"@),
{
    let v = chars_of(s);
    let w = chars_of("!edit");
    if v.len() > w.len() {
        return false;
    }
    let mut i: usize = 0;
    while i < v.len()
        invariant
            v.len() <= w.len(),
            0 <= i <= v.len(),
            v@ == s@,
            w@ == "!edit"@,
            forall|k: int| 0 <= k < i ==> v@[k] == w@[k],
        decreases v.len() - i,
    {
        if v[i] != w[i] {
            assert(w@.subrange(0, v.len() as int)[i as int] != v@[i as int]);
            return false;
        }
        i += 1;
    }
    assert(w@.subrange(0, v.len() as int) =~= v@);
    true
}

/// The arguments with which the editor `editor` opens the question at
/// `location`: the file, and for `vim` also the line to jump to (`+N`).
pub fn editor_args(editor: &str, location: &Location) -> (r: Vec<String>)
    ensures
        editor@ == "vim"@ ==> r.deep_view() == seq![location.path@, "+"@ + decimal(location.line as nat)],
        editor@ != "vim"@ ==> r.deep_view() == seq![location.path@],
{
    let mut r: Vec<String> = Vec::new();
    r.push(location.path.clone());
    if str_eq(editor, "vim") {
        let n = decimal_string(location.line);
        r.push(concat("+", n.as_str()));
        assert(r.deep_view() =~= seq![location.path@, "+"@ + decimal(location.line as nat)]);
    } else {
        assert(r.deep_view() =~= seq![location.path@]);
    }
    r
}

} // verus!
