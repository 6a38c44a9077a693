//! Recording the results of a quiz next to those of earlier sessions, and the
//! table of past results that the `results` subcommand shows.
use vstd::prelude::*;

use crate::format::{assoc_get, assoc_insert, keys_distinct, StoredResultsView};
use crate::persistence::{assoc_put, StoredResults};
use crate::quiz::{
    clone_results, common_of, has_text, score_sum, text_of, QuestionResult, QuestionResultView,
    QuestionView, Quiz, QuizResult,
};
use crate::text::{chars_of, str_eq};

verus! {

/// The results among `rs` for the question `id`, in order.
pub open spec fn with_id(rs: Seq<QuestionResultView>, id: Seq<char>) -> Seq<QuestionResultView>
    decreases rs.len(),
{
    if rs.len() == 0 {
        Seq::empty()
    } else if rs.last().id == id {
        with_id(rs.drop_last(), id).push(rs.last())
    } else {
        with_id(rs.drop_last(), id)
    }
}

/// What is stored for the question `id` once the results `new` are recorded after
/// the stored results `old`: the old results followed by the new ones for that
/// question, and nothing for a question that has neither.
pub open spec fn recorded(old: StoredResultsView, new: Seq<QuestionResultView>, id: Seq<char>) -> Option<
    Seq<QuestionResultView>,
> {
    match assoc_get(old, id) {
        Some(v) => Some(v + with_id(new, id)),
        None => if with_id(new, id).len() > 0 {
            Some(with_id(new, id))
        } else {
            None
        },
    }
}

/// In a list with distinct keys, the value of a key is the one next to it.
proof fn lemma_assoc_get_at<V>(m: Seq<(Seq<char>, V)>, i: int)
    requires
        keys_distinct(m),
        0 <= i < m.len(),
    ensures
        assoc_get(m, m[i].0) == Some(m[i].1),
    decreases m.len(),
{
    if i > 0 {
        assert(m[0].0 != m[i].0);
        let rest = m.drop_first();
        assert(keys_distinct(rest)) by {
            assert forall|a: int, b: int| 0 <= a < b < rest.len() implies (#[trigger] rest[a]).0 != (
            #[trigger] rest[b]).0 by {
                assert(rest[a] == m[a + 1] && rest[b] == m[b + 1]);
            }
        }
        assert(rest[i - 1] == m[i]);
        lemma_assoc_get_at(rest, i - 1);
    }
}

/// A key that no pair holds has no value.
proof fn lemma_assoc_get_absent<V>(m: Seq<(Seq<char>, V)>, k: Seq<char>)
    requires
        forall|i: int| 0 <= i < m.len() ==> (#[trigger] m[i]).0 != k,
    ensures
        assoc_get(m, k) is None,
    decreases m.len(),
{
    if m.len() > 0 {
        let rest = m.drop_first();
        assert forall|i: int| 0 <= i < rest.len() implies (#[trigger] rest[i]).0 != k by {
            assert(rest[i] == m[i + 1]);
        }
        lemma_assoc_get_absent(rest, k);
    }
}

/// Setting the value of `k` changes the value of `k` alone.
pub proof fn lemma_assoc_insert_get<V>(m: Seq<(Seq<char>, V)>, k: Seq<char>, v: V, j: Seq<char>)
    requires
        keys_distinct(m),
    ensures
        keys_distinct(assoc_insert(m, k, v)),
        assoc_get(assoc_insert(m, k, v), j) == if j == k {
            Some(v)
        } else {
            assoc_get(m, j)
        },
{
    let n = assoc_insert(m, k, v);
    if exists|i: int| 0 <= i < m.len() && (#[trigger] m[i]).0 == k {
        let i = choose|i: int| 0 <= i < m.len() && (#[trigger] m[i]).0 == k;
        assert(n == m.update(i, (k, v)));
        assert(keys_distinct(n)) by {
            assert forall|a: int, b: int| 0 <= a < b < n.len() implies (#[trigger] n[a]).0 != (
            #[trigger] n[b]).0 by {
                assert(m[a].0 != m[b].0);
            }
        }
        if j == k {
            lemma_assoc_get_at(n, i);
        } else if exists|c: int| 0 <= c < m.len() && (#[trigger] m[c]).0 == j {
            let c = choose|c: int| 0 <= c < m.len() && (#[trigger] m[c]).0 == j;
            lemma_assoc_get_at(m, c);
            assert(n[c] == m[c]);
            lemma_assoc_get_at(n, c);
        } else {
            lemma_assoc_get_absent(m, j);
            assert forall|c: int| 0 <= c < n.len() implies (#[trigger] n[c]).0 != j by {
                if c != i {
                    assert(n[c] == m[c]);
                }
            }
            lemma_assoc_get_absent(n, j);
        }
    } else {
        assert(n == m.push((k, v)));
        assert(keys_distinct(n)) by {
            assert forall|a: int, b: int| 0 <= a < b < n.len() implies (#[trigger] n[a]).0 != (
            #[trigger] n[b]).0 by {
                if b < m.len() {
                    assert(m[a].0 != m[b].0);
                } else {
                    assert(n[a] == m[a]);
                }
            }
        }
        if j == k {
            lemma_assoc_get_at(n, m.len() as int);
        } else if exists|c: int| 0 <= c < m.len() && (#[trigger] m[c]).0 == j {
            let c = choose|c: int| 0 <= c < m.len() && (#[trigger] m[c]).0 == j;
            lemma_assoc_get_at(m, c);
            assert(n[c] == m[c]);
            lemma_assoc_get_at(n, c);
        } else {
            lemma_assoc_get_absent(m, j);
            assert forall|c: int| 0 <= c < n.len() implies (#[trigger] n[c]).0 != j by {
                if c < m.len() {
                    assert(n[c] == m[c]);
                }
            }
            lemma_assoc_get_absent(n, j);
        }
    }
}

impl StoredResults {
    /// Each question appears once.
    pub open spec fn wf(&self) -> bool {
        keys_distinct(self@)
    }

    /// Store `results` as the results of the question `id`, in place of any
    /// stored before.
    pub fn insert(&mut self, id: String, results: Vec<QuestionResult>)
        requires
            old(self).wf(),
        ensures
            final(self).wf(),
            forall|j: Seq<char>|
                #![trigger assoc_get(final(self)@, j)]
                assoc_get(final(self)@, j) == if j == id@ {
                    Some(results.deep_view())
                } else {
                    assoc_get(old(self)@, j)
                },
    {
        let ghost before = self@;
        let ghost k = id@;
        let ghost v = results.deep_view();
        assoc_put(&mut self.entries, id, results);
        proof {
            assert forall|j: Seq<char>| #![trigger assoc_get(self@, j)]
                assoc_get(self@, j) == if j == k { Some(v) } else { assoc_get(before, j) } by {
                lemma_assoc_insert_get(before, k, v, j);
            }
        }
    }

    /// Append the results of a quiz to the stored ones: each question's new
    /// results come after its old ones, in the order in which they were given.
    pub fn record(&mut self, results: &QuizResult)
        requires
            old(self).wf(),
        ensures
            final(self).wf(),
            forall|id: Seq<char>|
                #![trigger assoc_get(final(self)@, id)]
                assoc_get(final(self)@, id) == recorded(old(self)@, results.per_question.deep_view(), id),
    {
        let ghost old_view = self@;
        let new = &results.per_question;
        let mut i: usize = 0;
        proof {
            assert forall|id: Seq<char>| #![trigger assoc_get(self@, id)]
                assoc_get(self@, id) == recorded(old_view, new.deep_view().subrange(0, 0), id) by {
                assert(with_id(new.deep_view().subrange(0, 0), id) =~= Seq::<QuestionResultView>::empty());
                if let Some(v) = assoc_get(old_view, id) {
                    assert(v + Seq::<QuestionResultView>::empty() =~= v);
                }
            }
        }
        while i < new.len()
            invariant
                0 <= i <= new.len(),
                self.wf(),
                forall|id: Seq<char>|
                    #![trigger assoc_get(self@, id)]
                    assoc_get(self@, id) == recorded(old_view, new.deep_view().subrange(0, i as int), id),
            decreases new.len() - i,
        {
            let r = &new[i];
            let ghost rv = r@;
            let ghost before = self@;
            let mut list = match self.get(r.id.as_str()) {
                Some(v) => clone_results(v),
                None => Vec::new(),
            };
            let ghost old_list = list.deep_view();
            list.push(r.duplicate());
            assert(list.deep_view() =~= old_list.push(rv));
            let ghost lv = list.deep_view();
            self.insert(r.id.clone(), list);
            proof {
                let pre = new.deep_view().subrange(0, i as int);
                let post = new.deep_view().subrange(0, i + 1);
                assert(post.drop_last() =~= pre);
                assert(post.last() == rv);
                assert forall|id: Seq<char>| #![trigger assoc_get(self@, id)]
                    assoc_get(self@, id) == recorded(old_view, post, id) by {
                    if id == rv.id {
                        assert(with_id(post, id) == with_id(pre, id).push(rv));
                        match assoc_get(old_view, id) {
                            Some(v) => {
                                assert(v + with_id(pre, id).push(rv) =~= (v + with_id(pre, id)).push(rv));
                            },
                            None => {
                                if with_id(pre, id).len() == 0 {
                                    assert(old_list =~= Seq::<QuestionResultView>::empty());
                                }
                            },
                        }
                    } else {
                        assert(with_id(post, id) == with_id(pre, id));
                    }
                }
            }
            i += 1;
        }
        proof {
            assert(new.deep_view().subrange(0, new.len() as int) =~= new.deep_view());
        }
    }
}

/// The mean score of `results`, rounded down; `None` when there are none.
pub fn results_mean(results: &Vec<QuestionResult>) -> (r: Option<u64>)
    requires
        score_sum(results.deep_view()) <= u64::MAX,
    ensures
        results.len() == 0 ==> r is None,
        results.len() > 0 ==> (r matches Some(m) && m == score_sum(results.deep_view()) / (results.len() as int)),
{
    if results.len() == 0 {
        return None;
    }
    let ghost rs = results.deep_view();
    let mut sum: u64 = 0;
    let mut i: usize = 0;
    while i < results.len()
        invariant
            0 <= i <= results.len(),
            rs == results.deep_view(),
            score_sum(rs) <= u64::MAX,
            sum == score_sum(rs.subrange(0, i as int)),
        decreases results.len() - i,
    {
        proof {
            lemma_score_sum_prefix(rs, i + 1);
            assert(rs.subrange(0, i + 1).drop_last() =~= rs.subrange(0, i as int));
        }
        sum = sum + results[i].score;
        i += 1;
    }
    assert(rs.subrange(0, i as int) =~= rs);
    proof {
        assert(score_sum(rs) / (results.len() as int) <= score_sum(rs)) by (nonlinear_arith)
            requires
                score_sum(rs) >= 0,
                results.len() >= 1,
        ;
    }
    Some(sum / (results.len() as u64))
}

/// The score of a prefix is at most that of the whole.
proof fn lemma_score_sum_prefix(rs: Seq<QuestionResultView>, n: int)
    requires
        0 <= n <= rs.len(),
    ensures
        0 <= score_sum(rs.subrange(0, n)) <= score_sum(rs),
    decreases rs.len(),
{
    if rs.len() > 0 {
        if n == rs.len() {
            assert(rs.subrange(0, n) =~= rs);
            lemma_score_sum_prefix(rs.drop_last(), n - 1);
            assert(rs.drop_last().subrange(0, n - 1) =~= rs.drop_last());
        } else {
            lemma_score_sum_prefix(rs.drop_last(), n);
            assert(rs.drop_last().subrange(0, n) =~= rs.subrange(0, n));
        }
    }
}

/// A line of the table of past results.
pub struct ResultRow {
    /// The mean score, out of 1,000.
    pub score: u64,
    /// How many times the question was answered.
    pub attempts: usize,
    pub id: String,
    pub text: String,
}

/// The mathematical value of a `ResultRow`.
pub struct ResultRowView {
    pub score: u64,
    pub attempts: nat,
    pub id: Seq<char>,
    pub text: Seq<char>,
}

impl View for ResultRow {
    type V = ResultRowView;

    open spec fn view(&self) -> ResultRowView {
        ResultRowView { score: self.score, attempts: self.attempts as nat, id: self.id@, text: self.text@ }
    }
}

impl DeepView for ResultRow {
    type V = ResultRowView;

    open spec fn deep_view(&self) -> ResultRowView {
        self@
    }
}

/// `a` comes before `b` in the order of strings: the order of their first
/// differing characters, or `a` is a proper prefix of `b`.
pub open spec fn str_less(a: Seq<char>, b: Seq<char>) -> bool
    decreases a.len(),
{
    if a.len() == 0 {
        b.len() > 0
    } else if b.len() == 0 {
        false
    } else if a[0] != b[0] {
        (a[0] as int) < (b[0] as int)
    } else {
        str_less(a.drop_first(), b.drop_first())
    }
}

pub proof fn lemma_str_less_irreflexive(a: Seq<char>)
    ensures
        !str_less(a, a),
    decreases a.len(),
{
    if a.len() > 0 {
        lemma_str_less_irreflexive(a.drop_first());
    }
}

pub proof fn lemma_str_less_total(a: Seq<char>, b: Seq<char>)
    requires
        a != b,
    ensures
        str_less(a, b) || str_less(b, a),
    decreases a.len(),
{
    if a.len() > 0 && b.len() > 0 && a[0] == b[0] {
        if a.drop_first() == b.drop_first() {
            assert(a =~= seq![a[0]] + a.drop_first());
            assert(b =~= seq![b[0]] + b.drop_first());
        }
        lemma_str_less_total(a.drop_first(), b.drop_first());
    } else if a.len() > 0 && b.len() > 0 {
        assert((a[0] as int) != (b[0] as int));
    } else if a.len() == 0 && b.len() == 0 {
        assert(a =~= b);
    }
}

pub proof fn lemma_str_less_trans(a: Seq<char>, b: Seq<char>, c: Seq<char>)
    requires
        str_less(a, b),
        str_less(b, c),
    ensures
        str_less(a, c),
    decreases a.len(),
{
    if a.len() > 0 && b.len() > 0 && c.len() > 0 && a[0] == b[0] && b[0] == c[0] {
        lemma_str_less_trans(a.drop_first(), b.drop_first(), c.drop_first());
    }
}

/// Whether `a` comes before `b` in the order of strings.
pub fn str_before(a: &str, b: &str) -> (r: bool)
    ensures
        r == str_less(a@, b@),
{
    let va = chars_of(a);
    let vb = chars_of(b);
    let mut i: usize = 0;
    assert(a@.subrange(0, a@.len() as int) =~= a@);
    assert(b@.subrange(0, b@.len() as int) =~= b@);
    while i < va.len() && i < vb.len() && va[i] == vb[i]
        invariant
            0 <= i <= va.len(),
            i <= vb.len(),
            va@ == a@,
            vb@ == b@,
            str_less(a@, b@) == str_less(a@.subrange(i as int, a@.len() as int), b@.subrange(i as int, b@.len() as int)),
        decreases va.len() - i,
    {
        let ghost sa = a@.subrange(i as int, a@.len() as int);
        let ghost sb = b@.subrange(i as int, b@.len() as int);
        assert(sa.drop_first() =~= a@.subrange(i + 1, a@.len() as int));
        assert(sb.drop_first() =~= b@.subrange(i + 1, b@.len() as int));
        i += 1;
    }
    if i == va.len() {
        i < vb.len()
    } else if i == vb.len() {
        false
    } else {
        va[i] < vb[i]
    }
}

/// The orders in which the table of results can be listed.
#[derive(Debug, Clone, Copy, PartialEq, Eq, Structural)]
pub enum SortOrder {
    /// The best scores first, then the most attempts.
    Best,
    /// The worst scores first, then the fewest attempts.
    Worst,
    /// The most attempts first.
    Most,
    /// The fewest attempts first.
    Least,
}

/// The order that the value `s` of `--sort` names, if any.
pub open spec fn sort_order_of(s: Seq<char>) -> Option<SortOrder> {
    if s == "best"@ {
        Some(SortOrder::Best)
    } else if s == "worst"@ {
        Some(SortOrder::Worst)
    } else if s == "most"@ {
        Some(SortOrder::Most)
    } else if s == "least"@ {
        Some(SortOrder::Least)
    } else {
        None
    }
}

/// The order that the value `s` of `--sort` names, if any.
pub fn sort_order(s: &str) -> (r: Option<SortOrder>)
    ensures
        r == sort_order_of(s@),
{
    if str_eq(s, "best") {
        Some(SortOrder::Best)
    } else if str_eq(s, "worst") {
        Some(SortOrder::Worst)
    } else if str_eq(s, "most") {
        Some(SortOrder::Most)
    } else if str_eq(s, "least") {
        Some(SortOrder::Least)
    } else {
        None
    }
}

/// Row `a` is listed before row `b` in the order `order`; rows that the order
/// does not tell apart are listed by ID, in alphabetical order.
pub open spec fn row_before(order: SortOrder, a: ResultRowView, b: ResultRowView) -> bool {
    match order {
        SortOrder::Best => {
            ||| a.score > b.score
            ||| (a.score == b.score && a.attempts > b.attempts)
            ||| (a.score == b.score && a.attempts == b.attempts && str_less(a.id, b.id))
        },
        SortOrder::Worst => {
            ||| a.score < b.score
            ||| (a.score == b.score && a.attempts < b.attempts)
            ||| (a.score == b.score && a.attempts == b.attempts && str_less(a.id, b.id))
        },
        SortOrder::Most => {
            ||| a.attempts > b.attempts
            ||| (a.attempts == b.attempts && str_less(a.id, b.id))
        },
        SortOrder::Least => {
            ||| a.attempts < b.attempts
            ||| (a.attempts == b.attempts && str_less(a.id, b.id))
        },
    }
}

proof fn lemma_row_before_trans(order: SortOrder, a: ResultRowView, b: ResultRowView, c: ResultRowView)
    requires
        row_before(order, a, b),
        row_before(order, b, c),
    ensures
        row_before(order, a, c),
{
    if a.attempts == b.attempts && b.attempts == c.attempts && str_less(a.id, b.id) && str_less(b.id, c.id) {
        lemma_str_less_trans(a.id, b.id, c.id);
    }
}

proof fn lemma_row_before_total(order: SortOrder, a: ResultRowView, b: ResultRowView)
    requires
        a.id != b.id,
    ensures
        row_before(order, a, b) || row_before(order, b, a),
{
    lemma_str_less_total(a.id, b.id);
}

/// Each order lists rows by what it names: `Best` a higher mean score first and
/// `Worst` a lower one, `Most` more attempts first and `Least` fewer.
pub proof fn orders_list_rows_by_their_key(a: ResultRowView, b: ResultRowView)
    ensures
        a.score > b.score ==> row_before(SortOrder::Best, a, b) && !row_before(SortOrder::Best, b, a),
        a.score < b.score ==> row_before(SortOrder::Worst, a, b) && !row_before(SortOrder::Worst, b, a),
        a.attempts > b.attempts ==> row_before(SortOrder::Most, a, b) && !row_before(SortOrder::Most, b, a),
        a.attempts < b.attempts ==> row_before(SortOrder::Least, a, b) && !row_before(SortOrder::Least, b, a),
        a.score == b.score && a.attempts > b.attempts ==> row_before(SortOrder::Best, a, b),
        a.score == b.score && a.attempts < b.attempts ==> row_before(SortOrder::Worst, a, b),
{
}

/// In a table sorted by an order, the rows come in order of what it names: mean
/// scores fall for `Best` and rise for `Worst`, attempts fall for `Most` and rise
/// for `Least`.
pub proof fn sorted_rows_follow_their_key(order: SortOrder, rows: Seq<ResultRowView>, i: int, j: int)
    requires
        rows_sorted(order, rows),
        0 <= i < j < rows.len(),
    ensures
        order == SortOrder::Best ==> rows[i].score >= rows[j].score,
        order == SortOrder::Worst ==> rows[i].score <= rows[j].score,
        order == SortOrder::Most ==> rows[i].attempts >= rows[j].attempts,
        order == SortOrder::Least ==> rows[i].attempts <= rows[j].attempts,
{
    assert(row_before(order, rows[i], rows[j]));
}

/// Whether `a` is listed before `b`.
pub fn is_listed_before(order: SortOrder, a: &ResultRow, b: &ResultRow) -> (r: bool)
    ensures
        r == row_before(order, a@, b@),
{
    match order {
        SortOrder::Best => if a.score != b.score {
            a.score > b.score
        } else if a.attempts != b.attempts {
            a.attempts > b.attempts
        } else {
            str_before(a.id.as_str(), b.id.as_str())
        },
        SortOrder::Worst => if a.score != b.score {
            a.score < b.score
        } else if a.attempts != b.attempts {
            a.attempts < b.attempts
        } else {
            str_before(a.id.as_str(), b.id.as_str())
        },
        SortOrder::Most => if a.attempts != b.attempts {
            a.attempts > b.attempts
        } else {
            str_before(a.id.as_str(), b.id.as_str())
        },
        SortOrder::Least => if a.attempts != b.attempts {
            a.attempts < b.attempts
        } else {
            str_before(a.id.as_str(), b.id.as_str())
        },
    }
}

/// The rows are listed in order, each strictly before the next.
pub open spec fn rows_sorted(order: SortOrder, rows: Seq<ResultRowView>) -> bool {
    forall|i: int, j: int| 0 <= i < j < rows.len() ==> row_before(order, #[trigger] rows[i], #[trigger] rows[j])
}

/// Put `row` into the ordered `rows` at its place.
pub fn insert_row(order: SortOrder, rows: &mut Vec<ResultRow>, row: ResultRow)
    requires
        rows_sorted(order, old(rows).deep_view()),
        forall|i: int| 0 <= i < old(rows).len() ==> (#[trigger] old(rows).deep_view()[i]).id != row@.id,
    ensures
        rows_sorted(order, final(rows).deep_view()),
        final(rows).len() == old(rows).len() + 1,
        forall|x: ResultRowView|
            #![trigger final(rows).deep_view().contains(x)]
            final(rows).deep_view().contains(x) <==> (old(rows).deep_view().contains(x) || x == row@),
{
    let ghost before = rows.deep_view();
    let ghost rv = row@;
    let mut p: usize = 0;
    while p < rows.len() && is_listed_before(order, &rows[p], &row)
        invariant
            0 <= p <= rows.len(),
            rows.deep_view() == before,
            rv == row@,
            forall|k: int| 0 <= k < p ==> row_before(order, #[trigger] before[k], rv),
        decreases rows.len() - p,
    {
        assert(before[p as int] == rows@[p as int]@);
        p += 1;
    }
    proof {
        if p < before.len() {
            lemma_row_before_total(order, before[p as int], rv);
        }
        assert forall|k: int| p <= k < before.len() implies row_before(order, rv, #[trigger] before[k]) by {
            if k > p {
                lemma_row_before_trans(order, rv, before[p as int], before[k]);
            }
        }
    }
    rows.insert(p, row);
    proof {
        let after = rows.deep_view();
        assert(after =~= before.insert(p as int, rv));
        assert forall|i: int, j: int| 0 <= i < j < after.len() implies row_before(order, 
            #[trigger] after[i],
            #[trigger] after[j],
        ) by {
            if j < p {
            } else if j == p {
            } else if i < p {
                lemma_row_before_trans(order, after[i], rv, after[j]);
            } else if i == p {
            } else {
            }
        }
        assert forall|x: ResultRowView| #![trigger after.contains(x)]
            after.contains(x) <==> (before.contains(x) || x == rv) by {
            if after.contains(x) {
                let k = choose|k: int| 0 <= k < after.len() && after[k] == x;
                if k < p {
                    assert(before[k] == x);
                } else if k > p {
                    assert(before[k - 1] == x);
                }
            }
            if before.contains(x) {
                let k = choose|k: int| 0 <= k < before.len() && before[k] == x;
                if k < p {
                    assert(after[k] == x);
                } else {
                    assert(after[k + 1] == x);
                }
            }
            if x == rv {
                assert(after[p as int] == x);
            }
        }
    }
}

/// `row` is the line of the table for the stored results `e` of one question:
/// the question has results and appears in the quiz `qs`, and the line holds its
/// mean score, its number of results, its ID and the text of its first
/// occurrence in the quiz.
pub open spec fn is_row_for(qs: Seq<QuestionView>, e: (Seq<char>, Seq<QuestionResultView>), row: ResultRowView) -> bool {
    &&& e.1.len() > 0
    &&& row.id == e.0
    &&& row.attempts == e.1.len()
    &&& row.score == score_sum(e.1) / (e.1.len() as int)
    &&& exists|p: int|
        0 <= p < qs.len() && common_of(#[trigger] qs[p]).id == e.0 && (forall|k: int|
            0 <= k < p ==> common_of(#[trigger] qs[k]).id != e.0) && row.text == text_of(qs[p])
}

/// The table of past results of the quiz, listed in the order `order` (see
/// `row_before`): one line for each question that has stored results and is
/// still in the quiz, and no more than `limit` lines when a limit is given, the
/// first ones of the order.
pub fn result_rows(quiz: &Quiz, stored: &StoredResults, order: SortOrder, limit: Option<usize>) -> (r: Vec<ResultRow>)
    requires
        stored.wf(),
        forall|p: int| 0 <= p < quiz@.questions.len() ==> has_text(#[trigger] quiz@.questions[p]),
        forall|k: int| 0 <= k < stored@.len() ==> score_sum(#[trigger] stored@[k].1) <= u64::MAX,
    ensures
        rows_sorted(order, r.deep_view()),
        forall|x: ResultRowView|
            #![trigger r.deep_view().contains(x)]
            r.deep_view().contains(x) ==> exists|k: int|
                0 <= k < stored@.len() && is_row_for(quiz@.questions, #[trigger] stored@[k], x),
        forall|x: ResultRowView, k: int|
            0 <= k < stored@.len() && #[trigger] is_row_for(quiz@.questions, stored@[k], x)
                && !r.deep_view().contains(x) ==> {
                &&& limit matches Some(n) && r@.len() == n
                &&& forall|j: int| 0 <= j < r@.len() ==> row_before(order, #[trigger] r.deep_view()[j], x)
            },
        limit matches Some(n) ==> r@.len() <= n,
{
    let ghost qs = quiz@.questions;
    let ghost st = stored@;
    let mut rows: Vec<ResultRow> = Vec::new();
    let mut i: usize = 0;
    while i < stored.entries.len()
        invariant
            0 <= i <= stored.entries.len(),
            qs == quiz@.questions,
            st == stored@,
            st.len() == stored.entries.len(),
            keys_distinct(st),
            forall|p: int| 0 <= p < qs.len() ==> has_text(#[trigger] qs[p]),
            forall|k: int| 0 <= k < st.len() ==> score_sum(#[trigger] st[k].1) <= u64::MAX,
            rows_sorted(order, rows.deep_view()),
            forall|x: ResultRowView|
                #![trigger rows.deep_view().contains(x)]
                rows.deep_view().contains(x) <==> exists|k: int|
                    0 <= k < i && is_row_for(qs, #[trigger] st[k], x),
        decreases stored.entries.len() - i,
    {
        let entry = &stored.entries[i];
        let ghost e = st[i as int];
        assert(e == (entry.0@, entry.1.deep_view()));
        assert(score_sum(st[i as int].1) <= u64::MAX);
        let mean = results_mean(&entry.1);
        match mean {
            Some(score) => {
                match quiz.find(entry.0.as_str()) {
                    Some(pos) => {
                        let text = quiz.questions[pos].get_text();
                        let row = ResultRow {
                            score,
                            attempts: entry.1.len(),
                            id: entry.0.clone(),
                            text,
                        };
                        let ghost rv = row@;
                        proof {
                            assert(qs[pos as int] == quiz.questions@[pos as int]@);
                            assert(common_of(qs[pos as int]).id == e.0);
                            assert(rv.text == text_of(qs[pos as int]));
                            assert(is_row_for(qs, e, rv));
                            assert forall|j: int| 0 <= j < rows.len() implies (#[trigger] rows.deep_view()[j]).id != rv.id by {
                                let x = rows.deep_view()[j];
                                assert(rows.deep_view().contains(x));
                                let k = choose|k: int| 0 <= k < i && is_row_for(qs, #[trigger] st[k], x);
                                assert(st[k].0 != st[i as int].0);
                            }
                        }
                        let ghost before = rows.deep_view();
                        insert_row(order, &mut rows, row);
                        proof {
                            assert forall|x: ResultRowView| #![trigger rows.deep_view().contains(x)]
                                rows.deep_view().contains(x) <==> exists|k: int|
                                    0 <= k < i + 1 && is_row_for(qs, #[trigger] st[k], x) by {
                                if rows.deep_view().contains(x) {
                                    if x == rv {
                                        assert(is_row_for(qs, st[i as int], x));
                                    } else {
                                        assert(before.contains(x));
                                    }
                                }
                                if exists|k: int| 0 <= k < i + 1 && is_row_for(qs, #[trigger] st[k], x) {
                                    let k = choose|k: int| 0 <= k < i + 1 && is_row_for(qs, #[trigger] st[k], x);
                                    if k < i {
                                        assert(before.contains(x));
                                    } else {
                                        let p1 = choose|p: int|
                                            0 <= p < qs.len() && common_of(#[trigger] qs[p]).id == e.0 && (forall|k: int|
                                                0 <= k < p ==> common_of(#[trigger] qs[k]).id != e.0) && x.text == text_of(qs[p]);
                                        if p1 < pos {
                                            assert(common_of(qs[p1]).id != e.0);
                                        } else if p1 > pos {
                                            assert(common_of(qs[pos as int]).id != e.0);
                                        }
                                        assert(x == rv);
                                    }
                                }
                            }
                        }
                    },
                    None => {
                        proof {
                            assert forall|x: ResultRowView| #![trigger rows.deep_view().contains(x)]
                                rows.deep_view().contains(x) <==> exists|k: int|
                                    0 <= k < i + 1 && is_row_for(qs, #[trigger] st[k], x) by {
                                if exists|k: int| 0 <= k < i + 1 && is_row_for(qs, #[trigger] st[k], x) {
                                    let k = choose|k: int| 0 <= k < i + 1 && is_row_for(qs, #[trigger] st[k], x);
                                    if k == i {
                                        let p1 = choose|p: int|
                                            0 <= p < qs.len() && common_of(#[trigger] qs[p]).id == e.0 && (forall|k: int|
                                                0 <= k < p ==> common_of(#[trigger] qs[k]).id != e.0) && x.text == text_of(qs[p]);
                                        assert(common_of(qs[p1]).id != e.0);
                                    }
                                }
                            }
                        }
                    },
                }
            },
            None => {
                proof {
                    assert forall|x: ResultRowView| #![trigger rows.deep_view().contains(x)]
                        rows.deep_view().contains(x) <==> exists|k: int|
                            0 <= k < i + 1 && is_row_for(qs, #[trigger] st[k], x) by {
                        if exists|k: int| 0 <= k < i + 1 && is_row_for(qs, #[trigger] st[k], x) {
                            let k = choose|k: int| 0 <= k < i + 1 && is_row_for(qs, #[trigger] st[k], x);
                            assert(k != i);
                        }
                    }
                }
            },
        }
        i += 1;
    }
    let ghost full = rows.deep_view();
    match limit {
        Some(n) => {
            if n < rows.len() {
                rows.truncate(n);
            }
        },
        None => {},
    }
    proof {
        assert(rows.deep_view() =~= full.subrange(0, rows.len() as int));
        assert forall|x: ResultRowView| #![trigger rows.deep_view().contains(x)] rows.deep_view().contains(x) implies full.contains(x) by {
            let j = choose|j: int| 0 <= j < rows.len() && rows.deep_view()[j] == x;
            assert(full[j] == x);
        }
        assert forall|x: ResultRowView, k: int|
            0 <= k < st.len() && #[trigger] is_row_for(qs, st[k], x) && !rows.deep_view().contains(x) implies {
                &&& limit matches Some(n) && rows@.len() == n
                &&& forall|j: int| 0 <= j < rows@.len() ==> row_before(order, #[trigger] rows.deep_view()[j], x)
            } by {
            assert(full.contains(x));
            let m = choose|m: int| 0 <= m < full.len() && full[m] == x;
            if m < rows.len() {
                assert(rows.deep_view()[m] == x);
            }
            assert forall|j: int| 0 <= j < rows@.len() implies row_before(order, #[trigger] rows.deep_view()[j], x) by {
                assert(rows.deep_view()[j] == full[j]);
            }
        }
    }
    rows
}

/// The keys and items of a store of items grouped by key.
pub open spec fn grouped_view<V>(m: Seq<(String, Vec<V>)>) -> Seq<(Seq<char>, Seq<V>)> {
    m.map_values(|p: (String, Vec<V>)| (p.0@, p.1@))
}

/// The items among `items` whose key is `k`, in order.
pub open spec fn items_with_key<V>(items: Seq<(String, V)>, k: Seq<char>) -> Seq<V>
    decreases items.len(),
{
    if items.len() == 0 {
        Seq::empty()
    } else if items.last().0@ == k {
        items_with_key(items.drop_last(), k).push(items.last().1)
    } else {
        items_with_key(items.drop_last(), k)
    }
}

/// What a store `old` of items grouped by key holds for `k` once `items` are
/// appended: the old items followed by the new ones with that key, and nothing
/// for a key that has neither.
pub open spec fn appended<V>(old: Seq<(Seq<char>, Seq<V>)>, items: Seq<(String, V)>, k: Seq<char>) -> Option<Seq<V>> {
    match assoc_get(old, k) {
        Some(v) => Some(v + items_with_key(items, k)),
        None => if items_with_key(items, k).len() > 0 {
            Some(items_with_key(items, k))
        } else {
            None
        },
    }
}

/// Append each of `items` to the group of its key in `store`, starting a group
/// for a key that has none.
pub fn append_grouped<V>(store: &mut Vec<(String, Vec<V>)>, items: Vec<(String, V)>)
    requires
        keys_distinct(grouped_view(old(store)@)),
    ensures
        keys_distinct(grouped_view(final(store)@)),
        forall|k: Seq<char>|
            #![trigger assoc_get(grouped_view(final(store)@), k)]
            assoc_get(grouped_view(final(store)@), k) == appended(grouped_view(old(store)@), items@, k),
{
    let ghost old_view = grouped_view(store@);
    let ghost all = items@;
    let mut rest = items;
    let mut done: usize = 0;
    assert(all.len() == rest.len());
    proof {
        assert forall|k: Seq<char>| #![trigger assoc_get(grouped_view(store@), k)]
            assoc_get(grouped_view(store@), k) == appended(old_view, all.subrange(0, 0), k) by {
            assert(items_with_key(all.subrange(0, 0), k) =~= Seq::<V>::empty());
            if let Some(v) = assoc_get(old_view, k) {
                assert(v + Seq::<V>::empty() =~= v);
            }
        }
    }
    while rest.len() > 0
        invariant
            done + rest@.len() == all.len(),
            all.len() <= usize::MAX,
            rest@ == all.subrange(done as int, all.len() as int),
            keys_distinct(grouped_view(store@)),
            forall|k: Seq<char>|
                #![trigger assoc_get(grouped_view(store@), k)]
                assoc_get(grouped_view(store@), k) == appended(old_view, all.subrange(0, done as int), k),
        decreases rest@.len(),
    {
        let ghost item = rest@[0];
        let (key, value) = rest.remove(0);
        let ghost before = grouped_view(store@);
        let ghost kv = key@;
        // Find the group of the key.
        let mut p: usize = 0;
        while p < store.len() && !crate::text::str_eq(store[p].0.as_str(), key.as_str())
            invariant
                0 <= p <= store.len(),
                grouped_view(store@) == before,
                kv == key@,
                forall|j: int| 0 <= j < p ==> (#[trigger] before[j]).0 != kv,
            decreases store.len() - p,
        {
            assert(before[p as int].0 == store@[p as int].0@);
            p += 1;
        }
        let ghost new_list: Seq<V>;
        if p < store.len() {
            assert(before[p as int].0 == kv);
            let (k2, mut list) = store.remove(p);
            let ghost old_list = list@;
            list.push(value);
            proof {
                new_list = old_list.push(item.1);
                lemma_assoc_get_at(before, p as int);
            }
            store.insert(p, (k2, list));
            proof {
                assert(grouped_view(store@) =~= before.update(p as int, (kv, new_list)));
                assert(assoc_insert(before, kv, new_list) == before.update(p as int, (kv, new_list))) by {
                    let c = choose|c: int| 0 <= c < before.len() && (#[trigger] before[c]).0 == kv;
                    if c != p {
                        if c < p {
                            assert(before[c].0 != before[p as int].0);
                        } else {
                            assert(before[p as int].0 != before[c].0);
                        }
                    }
                }
            }
        } else {
            let mut list: Vec<V> = Vec::new();
            list.push(value);
            proof {
                new_list = seq![item.1];
                assert(list@ =~= new_list);
                lemma_assoc_get_absent(before, kv);
            }
            store.push((key, list));
            proof {
                assert(grouped_view(store@) =~= before.push((kv, new_list)));
                assert(!(exists|c: int| 0 <= c < before.len() && (#[trigger] before[c]).0 == kv));
            }
        }
        proof {
            lemma_assoc_insert_get(before, kv, new_list, kv);
            let pre = all.subrange(0, done as int);
            let post = all.subrange(0, done + 1);
            assert(post.drop_last() =~= pre);
            assert(post.last() == item);
            assert forall|k: Seq<char>| #![trigger assoc_get(grouped_view(store@), k)]
                assoc_get(grouped_view(store@), k) == appended(old_view, post, k) by {
                lemma_assoc_insert_get(before, kv, new_list, k);
                if k == kv {
                    assert(items_with_key(post, k) == items_with_key(pre, k).push(item.1));
                    match assoc_get(old_view, k) {
                        Some(v) => {
                            assert(v + items_with_key(pre, k).push(item.1) =~= (v + items_with_key(pre, k)).push(item.1));
                        },
                        None => {
                            if items_with_key(pre, k).len() == 0 {
                                assert(new_list =~= items_with_key(pre, k).push(item.1));
                            }
                        },
                    }
                } else {
                    assert(items_with_key(post, k) == items_with_key(pre, k));
                }
            }
            assert(rest@ =~= all.subrange(done + 1, all.len() as int));
        }
        done += 1;
    }
    proof {
        assert(all.subrange(0, done as int) =~= all);
    }
}

} // verus!
