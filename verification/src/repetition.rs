//! Choose the most optimal questions to ask based on past results.
//!
//! Bucket 0: never asked before
//! Bucket 1: don't know at all, should ask immediately
//! Bucket 2: just learned, should ask within a day
//! Bucket 3: should ask within a week
//! Bucket 4: ask once a month or so
//!
//! Each bucket gets a share of the questions to ask: all of them for bucket 0,
//! then a half, a fifth, a fifth and a tenth; the last bucket takes whatever is
//! left of the number to ask. What a bucket cannot fill of its share, for want
//! of questions, is carried over to the buckets after it.
use vstd::prelude::*;

use crate::common::{filter_tags, tags_pass, FilterOptions, TakeOptions};
use crate::quiz::{common_of, Question, QuestionResult, QuestionResultView, QuestionView};
use crate::random::{shuffle, thread_rng};

verus! {

/// The number of buckets.
pub const NUM_BUCKETS: usize = 5;

/// What percentage correct for a question to move up a bucket.
pub const UP_THRESHOLD: u64 = 900;

/// What percentage correct for a question to move down a bucket.
pub const DOWN_THRESHOLD: u64 = 400;

/// The share of the questions to ask that bucket `b` gets, as the divisor of an
/// integer fraction: 2 means a half, 5 a fifth.
pub open spec fn allocation_divisor(b: int) -> nat {
    if b == 0 {
        1
    } else if b == 1 {
        2
    } else if b == 2 {
        5
    } else if b == 3 {
        5
    } else {
        10
    }
}

/// The bucket that a question with the results `rs` is in. A question never
/// asked is in bucket 0, and one that was asked is never in it: each result of at
/// least `UP_THRESHOLD` moves it up a bucket, each result of at most
/// `DOWN_THRESHOLD` moves it down one, within buckets 1 to 4.
pub open spec fn bucket_of(rs: Seq<QuestionResultView>) -> nat
    decreases rs.len(),
{
    if rs.len() == 0 {
        0
    } else {
        let b = bucket_of(rs.drop_last());
        let s = rs.last().score;
        let stepped: nat = if s >= UP_THRESHOLD && b < NUM_BUCKETS - 1 {
            b + 1
        } else if s <= DOWN_THRESHOLD && b > 1 {
            (b - 1) as nat
        } else {
            b
        };
        if stepped == 0 {
            1
        } else {
            stepped
        }
    }
}

/// Every question is in one of the buckets, and in bucket 0 exactly when it was
/// never asked.
pub proof fn bucket_in_range(rs: Seq<QuestionResultView>)
    ensures
        bucket_of(rs) < NUM_BUCKETS,
        bucket_of(rs) == 0 <==> rs.len() == 0,
    decreases rs.len(),
{
    if rs.len() > 0 {
        bucket_in_range(rs.drop_last());
    }
}

/// The bucket of a question, from its previous results.
pub fn get_bucket(results: &Vec<QuestionResult>) -> (r: usize)
    ensures
        r == bucket_of(results.deep_view()),
        r < NUM_BUCKETS,
        r == 0 <==> results.len() == 0,
{
    let mut bucket: usize = 0;
    let mut i: usize = 0;
    assert(results.deep_view().subrange(0, 0) =~= Seq::<QuestionResultView>::empty());
    while i < results.len()
        invariant
            0 <= i <= results.len(),
            bucket == bucket_of(results.deep_view().subrange(0, i as int)),
            bucket < NUM_BUCKETS,
        decreases results.len() - i,
    {
        let ghost prefix = results.deep_view().subrange(0, i + 1);
        assert(prefix.drop_last() =~= results.deep_view().subrange(0, i as int));
        assert(prefix.last() == results.deep_view()[i as int]);
        let score = results[i].score;
        // 90% and 40% are arbitrary thresholds that may need adjusting.
        if score >= UP_THRESHOLD && bucket < NUM_BUCKETS - 1 {
            bucket += 1;
        } else if score <= DOWN_THRESHOLD && bucket > 1 {
            bucket -= 1;
        }
        // A question that has been asked is never in the bucket of the questions
        // never asked.
        if bucket == 0 {
            bucket = 1;
        }
        i += 1;
    }
    assert(results.deep_view().subrange(0, i as int) =~= results.deep_view());
    bucket
}

/// When a question was last asked, as a key that sorts questions never asked
/// before all others and the others from the longest ago to the most recent.
pub open spec fn age_key(q: QuestionView) -> (nat, int, nat) {
    let rs = common_of(q).prior_results;
    if rs.len() == 0 {
        (0, 0, 0)
    } else {
        (1, rs.last().time_asked.secs as int, rs.last().time_asked.nanos as nat)
    }
}

/// The key `a` sorts strictly before `b`.
pub open spec fn key_lt(a: (nat, int, nat), b: (nat, int, nat)) -> bool {
    a.0 < b.0 || (a.0 == b.0 && (a.1 < b.1 || (a.1 == b.1 && a.2 < b.2)))
}

/// Question `i` should be asked before question `j`: it was asked longer ago (or
/// never), or as long ago and it comes first in the quiz.
pub open spec fn asked_before(qs: Seq<QuestionView>, i: int, j: int) -> bool {
    key_lt(age_key(qs[i]), age_key(qs[j])) || (age_key(qs[i]) == age_key(qs[j]) && i < j)
}

/// Whether question `i` should be asked before question `j`.
fn is_asked_before(questions: &Vec<Question>, i: usize, j: usize) -> (r: bool)
    requires
        i < questions.len(),
        j < questions.len(),
    ensures
        r == asked_before(questions.deep_view(), i as int, j as int),
{
    let a = &questions[i].get_common().prior_results;
    let b = &questions[j].get_common().prior_results;
    let ghost qs = questions.deep_view();
    assert(a.deep_view() == common_of(qs[i as int]).prior_results);
    assert(b.deep_view() == common_of(qs[j as int]).prior_results);
    let (a0, a1, a2): (u8, i64, u32) = if a.len() == 0 {
        (0, 0, 0)
    } else {
        let t = a[a.len() - 1].time_asked;
        (1, t.secs, t.nanos)
    };
    let (b0, b1, b2): (u8, i64, u32) = if b.len() == 0 {
        (0, 0, 0)
    } else {
        let t = b[b.len() - 1].time_asked;
        (1, t.secs, t.nanos)
    };
    assert(age_key(qs[i as int]) == (a0 as nat, a1 as int, a2 as nat));
    assert(age_key(qs[j as int]) == (b0 as nat, b1 as int, b2 as nat));
    if a0 < b0 || (a0 == b0 && (a1 < b1 || (a1 == b1 && a2 < b2))) {
        true
    } else {
        a0 == b0 && a1 == b1 && a2 == b2 && i < j
    }
}

/// `s` is in strictly increasing order of `asked_before`.
pub open spec fn sorted_oldest_first(qs: Seq<QuestionView>, s: Seq<usize>) -> bool {
    forall|a: int, b: int|
        0 <= a < b < s.len() ==> asked_before(qs, #[trigger] s[a] as int, #[trigger] s[b] as int)
}

proof fn lemma_asked_before_total(qs: Seq<QuestionView>, i: int, j: int)
    ensures
        i != j ==> (asked_before(qs, i, j) || asked_before(qs, j, i)),
        !(asked_before(qs, i, j) && asked_before(qs, j, i)),
        !asked_before(qs, i, i),
{
}

proof fn lemma_asked_before_trans(qs: Seq<QuestionView>, i: int, j: int, k: int)
    requires
        asked_before(qs, i, j),
        asked_before(qs, j, k),
    ensures
        asked_before(qs, i, k),
{
}

/// The indices `v` sorted so that the questions asked longest ago come first.
pub fn sort_oldest_first(questions: &Vec<Question>, v: &Vec<usize>) -> (r: Vec<usize>)
    requires
        forall|k: int| 0 <= k < v.len() ==> v@[k] < questions.len(),
        v@.no_duplicates(),
    ensures
        r@.len() == v@.len(),
        r@.no_duplicates(),
        forall|x: usize| #[trigger] r@.contains(x) <==> v@.contains(x),
        sorted_oldest_first(questions.deep_view(), r@),
{
    let ghost qs = questions.deep_view();
    let mut out: Vec<usize> = Vec::new();
    let mut i: usize = 0;
    while i < v.len()
        invariant
            0 <= i <= v.len(),
            qs == questions.deep_view(),
            forall|k: int| 0 <= k < v.len() ==> v@[k] < questions.len(),
            v@.no_duplicates(),
            out@.len() == i,
            forall|k: int| 0 <= k < out.len() ==> out@[k] < questions.len(),
            out@.no_duplicates(),
            forall|x: usize| #[trigger] out@.contains(x) <==> v@.subrange(0, i as int).contains(x),
            sorted_oldest_first(qs, out@),
        decreases v.len() - i,
    {
        let x = v[i];
        // Find the first element of `out` that should not come before `x`.
        let mut p: usize = 0;
        while p < out.len() && is_asked_before(questions, out[p], x)
            invariant
                0 <= p <= out.len(),
                x < questions.len(),
                qs == questions.deep_view(),
                forall|k: int| 0 <= k < out.len() ==> out@[k] < questions.len(),
                forall|k: int| 0 <= k < p ==> asked_before(qs, #[trigger] out@[k] as int, x as int),
            decreases out.len() - p,
        {
            p += 1;
        }
        proof {
            assert(!out@.contains(x)) by {
                if out@.contains(x) {
                    let k = choose|k: int| 0 <= k < out@.len() && out@[k] == x;
                    assert(v@.subrange(0, i as int).contains(x));
                    let m = choose|m: int| 0 <= m < i && #[trigger] v@.subrange(0, i as int)[m] == x;
                    assert(v@[m] == v@[i as int]);
                }
            }
            if p < out@.len() {
                lemma_asked_before_total(qs, out@[p as int] as int, x as int);
                assert(asked_before(qs, x as int, out@[p as int] as int));
            }
        }
        let ghost before = out@;
        out.insert(p, x);
        proof {
            assert(out@ =~= before.subrange(0, p as int).push(x) + before.subrange(p as int, before.len() as int));
            assert forall|a: int, b: int| 0 <= a < b < out@.len() implies asked_before(
                qs,
                #[trigger] out@[a] as int,
                #[trigger] out@[b] as int,
            ) by {
                if b < p {
                    assert(out@[a] == before[a] && out@[b] == before[b]);
                } else if b == p {
                    assert(out@[a] == before[a]);
                } else if a == p {
                    assert(out@[b] == before[b - 1]);
                    if b - 1 > p {
                        assert(asked_before(qs, before[p as int] as int, before[b - 1] as int));
                        lemma_asked_before_trans(qs, x as int, before[p as int] as int, before[b - 1] as int);
                    }
                } else if a < p {
                    assert(out@[a] == before[a] && out@[b] == before[b - 1]);
                } else {
                    assert(out@[a] == before[a - 1] && out@[b] == before[b - 1]);
                }
            }
            assert forall|a: int, b: int| 0 <= a < out@.len() && 0 <= b < out@.len() && a != b implies out@[a] != out@[b] by {
                if a < b {
                    lemma_asked_before_total(qs, out@[a] as int, out@[b] as int);
                } else {
                    lemma_asked_before_total(qs, out@[b] as int, out@[a] as int);
                }
            }
            assert forall|y: usize| #[trigger] out@.contains(y) <==> v@.subrange(0, i + 1).contains(y) by {
                if out@.contains(y) {
                    let k = choose|k: int| 0 <= k < out@.len() && out@[k] == y;
                    if k == p {
                        assert(v@.subrange(0, i + 1)[i as int] == y);
                    } else {
                        let kk = if k < p { k } else { k - 1 };
                        assert(before[kk] == y);
                        assert(before.contains(y));
                        let m = choose|m: int| 0 <= m < i && #[trigger] v@.subrange(0, i as int)[m] == y;
                        assert(v@.subrange(0, i + 1)[m] == y);
                    }
                }
                if v@.subrange(0, i + 1).contains(y) {
                    let m = choose|m: int| 0 <= m < i + 1 && #[trigger] v@.subrange(0, i + 1)[m] == y;
                    if m == i {
                        assert(out@[p as int] == y);
                    } else {
                        assert(v@.subrange(0, i as int)[m] == y);
                        assert(before.contains(y));
                        let k = choose|k: int| 0 <= k < before.len() && before[k] == y;
                        if k < p {
                            assert(out@[k] == y);
                        } else {
                            assert(out@[k + 1] == y);
                        }
                    }
                }
            }
        }
        i += 1;
    }
    assert(v@.subrange(0, i as int) =~= v@);
    out
}

/// `s` is in non-decreasing order of the lines where its questions are defined.
pub open spec fn sorted_by_line(qs: Seq<QuestionView>, s: Seq<usize>) -> bool {
    forall|a: int, b: int|
        0 <= a < b < s.len() ==> common_of(qs[#[trigger] s[a] as int]).location.line <= common_of(
            qs[#[trigger] s[b] as int],
        ).location.line
}

/// The indices `v` sorted by the line where their questions are defined; those on
/// the same line keep their order.
pub fn sort_by_line(questions: &Vec<Question>, v: &Vec<usize>) -> (r: Vec<usize>)
    requires
        forall|k: int| 0 <= k < v.len() ==> v@[k] < questions.len(),
    ensures
        r@.to_multiset() == v@.to_multiset(),
        r@.len() == v@.len(),
        sorted_by_line(questions.deep_view(), r@),
{
    let ghost qs = questions.deep_view();
    let mut out: Vec<usize> = Vec::new();
    let mut i: usize = 0;
    broadcast use vstd::seq_lib::group_to_multiset_ensures;

    while i < v.len()
        invariant
            0 <= i <= v.len(),
            qs == questions.deep_view(),
            forall|k: int| 0 <= k < v.len() ==> v@[k] < questions.len(),
            forall|k: int| 0 <= k < out.len() ==> out@[k] < questions.len(),
            out@.to_multiset() == v@.subrange(0, i as int).to_multiset(),
            out@.len() == i,
            sorted_by_line(qs, out@),
        decreases v.len() - i,
    {
        let x = v[i];
        let lx = questions[x].get_common().location.line;
        assert(lx == common_of(qs[x as int]).location.line);
        // Find the first element after which `x` may go: past all on lines up to its own.
        let mut p: usize = 0;
        while p < out.len() && questions[out[p]].get_common().location.line <= lx
            invariant
                0 <= p <= out.len(),
                qs == questions.deep_view(),
                lx == common_of(qs[x as int]).location.line,
                forall|k: int| 0 <= k < out.len() ==> out@[k] < questions.len(),
                forall|k: int| 0 <= k < p ==> common_of(qs[#[trigger] out@[k] as int]).location.line <= lx,
            decreases out.len() - p,
        {
            p += 1;
        }
        let ghost before = out@;
        out.insert(p, x);
        proof {
            assert(out@ =~= before.subrange(0, p as int).push(x) + before.subrange(p as int, before.len() as int));
            if p < before.len() {
                assert(common_of(qs[before[p as int] as int]).location.line > lx);
            }
            assert forall|a: int, b: int| 0 <= a < b < out@.len() implies common_of(qs[#[trigger] out@[a] as int]).location.line
                <= common_of(qs[#[trigger] out@[b] as int]).location.line by {
                if b < p {
                    assert(out@[a] == before[a] && out@[b] == before[b]);
                } else if b == p {
                    assert(out@[a] == before[a]);
                } else if a == p {
                    assert(out@[b] == before[b - 1]);
                    assert(common_of(qs[before[p as int] as int]).location.line <= common_of(qs[before[b - 1] as int]).location.line
                        || b - 1 == p);
                } else if a < p {
                    assert(out@[a] == before[a] && out@[b] == before[b - 1]);
                } else {
                    assert(out@[a] == before[a - 1] && out@[b] == before[b - 1]);
                }
            }
            assert(before =~= before.subrange(0, p as int) + before.subrange(p as int, before.len() as int));
            vstd::seq_lib::lemma_multiset_commutative(before.subrange(0, p as int), before.subrange(p as int, before.len() as int));
            vstd::seq_lib::lemma_multiset_commutative(before.subrange(0, p as int).push(x), before.subrange(p as int, before.len() as int));
            broadcast use vstd::multiset::group_multiset_axioms;
            let sa = before.subrange(0, p as int);
            let sb = before.subrange(p as int, before.len() as int);
            assert(out@.to_multiset() == sa.push(x).to_multiset().add(sb.to_multiset()));
            sa.to_multiset_ensures();
            v@.subrange(0, i as int).to_multiset_ensures();
            assert(sa.push(x).to_multiset() == sa.to_multiset().insert(x));
            assert(before.to_multiset() == sa.to_multiset().add(sb.to_multiset()));
            assert(sa.to_multiset().insert(x).add(sb.to_multiset()) =~= sa.to_multiset().add(sb.to_multiset()).insert(x));
            assert(v@.subrange(0, i + 1) =~= v@.subrange(0, i as int).push(x));
            assert(v@.subrange(0, i + 1).to_multiset() == v@.subrange(0, i as int).to_multiset().insert(x));
            assert(out@.to_multiset() =~= v@.subrange(0, i + 1).to_multiset());
        }
        i += 1;
    }
    assert(v@.subrange(0, i as int) =~= v@);
    out
}

/// Question `i` passes the tag filter.
pub open spec fn is_candidate(qs: Seq<QuestionView>, wanted: Seq<Seq<char>>, excluded: Seq<Seq<char>>, i: int) -> bool {
    tags_pass(common_of(qs[i]).tags, wanted, excluded)
}

/// The bucket of question `i`.
pub open spec fn bucket_index(qs: Seq<QuestionView>, i: int) -> nat {
    bucket_of(common_of(qs[i]).prior_results)
}

/// The questions among the first `n` that pass the tag filter, in order.
pub open spec fn candidates_below(qs: Seq<QuestionView>, wanted: Seq<Seq<char>>, excluded: Seq<Seq<char>>, n: nat) -> Seq<usize>
    decreases n,
{
    if n == 0 {
        Seq::empty()
    } else {
        let rest = candidates_below(qs, wanted, excluded, (n - 1) as nat);
        if is_candidate(qs, wanted, excluded, n - 1) {
            rest.push((n - 1) as usize)
        } else {
            rest
        }
    }
}

/// The questions among the first `n` that pass the tag filter and are in bucket `b`.
pub open spec fn bucket_below(qs: Seq<QuestionView>, wanted: Seq<Seq<char>>, excluded: Seq<Seq<char>>, b: nat, n: nat) -> nat
    decreases n,
{
    if n == 0 {
        0
    } else {
        bucket_below(qs, wanted, excluded, b, (n - 1) as nat) + if is_candidate(qs, wanted, excluded, n - 1)
            && bucket_index(qs, n - 1) == b {
            1nat
        } else {
            0nat
        }
    }
}

/// The shares of the buckets before bucket `b`, added up.
pub open spec fn shares_before(num: nat, b: int) -> nat
    decreases b,
{
    if b <= 0 {
        0
    } else {
        shares_before(num, b - 1) + num / allocation_divisor(b - 1)
    }
}

/// How many questions bucket `b` gives, when it holds `size` candidates and
/// `chosen` questions have been chosen from the buckets before it. A bucket gets
/// its own share and, if the buckets before it did not have enough questions to
/// fill theirs, what is left of their shares; the last bucket gets whatever is
/// left to ask.
pub open spec fn allocation(num: nat, size: nat, b: int, chosen: nat) -> nat {
    let carried: nat = if shares_before(num, b) > chosen {
        (shares_before(num, b) - chosen) as nat
    } else {
        0
    };
    let share: nat = if b == NUM_BUCKETS - 1 {
        (num - chosen) as nat
    } else {
        num / allocation_divisor(b) + carried
    };
    let a = if share < size {
        share
    } else {
        size
    };
    let left = (num - chosen) as nat;
    if a < left {
        a
    } else {
        left
    }
}

/// The questions chosen from bucket `b` are `alloc` of its candidates, and each is
/// to be asked before every candidate of the bucket that was not chosen.
pub open spec fn part_ok(
    qs: Seq<QuestionView>,
    wanted: Seq<Seq<char>>,
    excluded: Seq<Seq<char>>,
    b: nat,
    part: Seq<usize>,
    alloc: nat,
) -> bool {
    &&& part.len() == alloc
    &&& part.no_duplicates()
    &&& forall|k: int|
        0 <= k < part.len() ==> {
            &&& (#[trigger] part[k]) < qs.len()
            &&& is_candidate(qs, wanted, excluded, part[k] as int)
            &&& bucket_index(qs, part[k] as int) == b
        }
    &&& forall|k: int, y: usize|
        0 <= k < part.len() && y < qs.len() && is_candidate(qs, wanted, excluded, y as int)
            && bucket_index(qs, y as int) == b && !part.contains(y) ==> #[trigger] asked_before(
            qs,
            part[k] as int,
            y as int,
        )
}

/// How many questions the parts before bucket `b` hold.
pub open spec fn chosen_before(parts: Seq<Seq<usize>>, b: int) -> nat
    decreases b,
{
    if b <= 0 {
        0
    } else {
        chosen_before(parts, b - 1) + parts[b - 1].len()
    }
}

/// `parts[b]` are the questions chosen from bucket `b`, for each bucket.
pub open spec fn selection_ok(
    qs: Seq<QuestionView>,
    wanted: Seq<Seq<char>>,
    excluded: Seq<Seq<char>>,
    num: nat,
    parts: Seq<Seq<usize>>,
) -> bool {
    &&& parts.len() == NUM_BUCKETS
    &&& forall|b: int|
        0 <= b < NUM_BUCKETS ==> part_ok(
            qs,
            wanted,
            excluded,
            b as nat,
            #[trigger] parts[b],
            allocation(num, bucket_below(qs, wanted, excluded, b as nat, qs.len()), b, chosen_before(parts, b)),
        )
}

/// All the parts, one after another.
pub open spec fn joined(parts: Seq<Seq<usize>>) -> Seq<usize> {
    parts[0] + parts[1] + parts[2] + parts[3] + parts[4]
}

/// The questions of bucket `b` that pass the tag filter, in order.
fn bucket_members(questions: &Vec<Question>, filter: &FilterOptions, b: usize) -> (r: Vec<usize>)
    ensures
        r@.len() == bucket_below(questions.deep_view(), filter.tags.deep_view(), filter.exclude.deep_view(), b as nat, questions.len() as nat),
        r@.no_duplicates(),
        forall|k: int| 0 <= k < r@.len() ==> r@[k] < questions.len(),
        forall|y: usize| #[trigger] r@.contains(y) <==> (y < questions.len() && is_candidate(questions.deep_view(), filter.tags.deep_view(), filter.exclude.deep_view(), y as int)
            && bucket_index(questions.deep_view(), y as int) == b),
{
    let ghost qs = questions.deep_view();
    let ghost w = filter.tags.deep_view();
    let ghost e = filter.exclude.deep_view();
    let mut r: Vec<usize> = Vec::new();
    let mut i: usize = 0;
    while i < questions.len()
        invariant
            0 <= i <= questions.len(),
            qs == questions.deep_view(),
            w == filter.tags.deep_view(),
            e == filter.exclude.deep_view(),
            r@.len() == bucket_below(qs, w, e, b as nat, i as nat),
            forall|k: int| 0 <= k < r@.len() ==> r@[k] < i,
            forall|k1: int, k2: int| 0 <= k1 < k2 < r@.len() ==> r@[k1] < r@[k2],
            forall|y: usize| #[trigger] r@.contains(y) <==> (y < i && is_candidate(qs, w, e, y as int) && bucket_index(qs, y as int) == b),
        decreases questions.len() - i,
    {
        let common = questions[i].get_common();
        assert(common@ == common_of(qs[i as int]));
        let keep = filter_tags(&common.tags, filter) && get_bucket(&common.prior_results) == b;
        assert(keep == (is_candidate(qs, w, e, i as int) && bucket_index(qs, i as int) == b));
        let ghost before = r@;
        if keep {
            r.push(i);
        }
        proof {
            if keep {
                assert(r@ == before.push(i));
            } else {
                assert(r@ == before);
            }
            assert forall|y: usize| #[trigger] r@.contains(y) <==> (y < i + 1 && is_candidate(qs, w, e, y as int) && bucket_index(qs, y as int) == b) by {
                if r@.contains(y) {
                    let k = choose|k: int| 0 <= k < r@.len() && r@[k] == y;
                    if keep && k == before.len() {
                        assert(y == i);
                    } else {
                        assert(before[k] == y);
                        assert(before.contains(y));
                    }
                }
                if y < i + 1 && is_candidate(qs, w, e, y as int) && bucket_index(qs, y as int) == b {
                    if y == i {
                        assert(r@[before.len() as int] == y);
                    } else {
                        assert(before.contains(y));
                        let k = choose|k: int| 0 <= k < before.len() && before[k] == y;
                        assert(r@[k] == y);
                    }
                }
            }
        }
        i += 1;
    }
    proof {
        assert forall|a: int, c: int| 0 <= a < r@.len() && 0 <= c < r@.len() && a != c implies r@[a] != r@[c] by {
            if a < c {
                assert(r@[a] < r@[c]);
            } else {
                assert(r@[c] < r@[a]);
            }
        }
    }
    r
}


/// The share of bucket `b`, as the divisor of an integer fraction.
fn divisor_of(b: usize) -> (d: usize)
    ensures
        d == allocation_divisor(b as int),
        d >= 1,
{
    if b == 0 {
        1
    } else if b == 1 {
        2
    } else if b == 2 {
        5
    } else if b == 3 {
        5
    } else {
        10
    }
}

/// The shares of the buckets before bucket `b`, added up.
fn shares_before_exec(num: usize, b: usize) -> (r: u128)
    requires
        b <= NUM_BUCKETS,
    ensures
        r == shares_before(num as nat, b as int),
        r <= b * num,
{
    let mut sum: u128 = 0;
    let mut j: usize = 0;
    while j < b
        invariant
            0 <= j <= b <= NUM_BUCKETS,
            sum == shares_before(num as nat, j as int),
            sum <= j * num,
        decreases b - j,
    {
        let d = divisor_of(j);
        assert(num / d <= num) by (nonlinear_arith)
            requires
                d >= 1,
        ;
        assert(sum + num <= (j + 1) * num) by (nonlinear_arith)
            requires
                sum <= j * num,
        ;
        assert((j + 1) * num <= 5 * num) by (nonlinear_arith)
            requires
                j + 1 <= 5,
        ;
        sum = sum + (num / d) as u128;
        j += 1;
    }
    sum
}

/// Choose the questions that bucket `b` contributes, least recently asked first,
/// and append them to `chosen`.
fn choose_from_bucket(
    questions: &Vec<Question>,
    filter: &FilterOptions,
    b: usize,
    num: usize,
    chosen: &mut Vec<usize>,
) -> (part: Ghost<Seq<usize>>)
    requires
        b < NUM_BUCKETS,
        old(chosen)@.len() <= num,
        old(chosen)@.no_duplicates(),
        forall|k: int| 0 <= k < old(chosen)@.len() ==> {
            &&& (#[trigger] old(chosen)@[k]) < questions.len()
            &&& is_candidate(questions.deep_view(), filter.tags.deep_view(), filter.exclude.deep_view(), old(chosen)@[k] as int)
            &&& bucket_index(questions.deep_view(), old(chosen)@[k] as int) < b
        },
    ensures
        final(chosen)@ == old(chosen)@ + part@,
        final(chosen)@.len() <= num,
        final(chosen)@.no_duplicates(),
        forall|k: int| 0 <= k < final(chosen)@.len() ==> {
            &&& (#[trigger] final(chosen)@[k]) < questions.len()
            &&& is_candidate(questions.deep_view(), filter.tags.deep_view(), filter.exclude.deep_view(), final(chosen)@[k] as int)
            &&& bucket_index(questions.deep_view(), final(chosen)@[k] as int) < b + 1
        },
        part_ok(
            questions.deep_view(),
            filter.tags.deep_view(),
            filter.exclude.deep_view(),
            b as nat,
            part@,
            allocation(num as nat, bucket_below(questions.deep_view(), filter.tags.deep_view(), filter.exclude.deep_view(), b as nat, questions.len() as nat), b as int, old(chosen)@.len()),
        ),
{
    let ghost qs = questions.deep_view();
    let ghost w = filter.tags.deep_view();
    let ghost e = filter.exclude.deep_view();
    let bucket = bucket_members(questions, filter, b);
    let sorted = sort_oldest_first(questions, &bucket);
    let divisor = divisor_of(b);
    let before = shares_before_exec(num, b);
    let so_far = chosen.len() as u128;
    let left = (num - chosen.len()) as u128;
    let mut alloc: u128 = if b == NUM_BUCKETS - 1 {
        left
    } else {
        // If previous buckets didn't have enough questions to fill their
        // allocations, spill over the extra question allocation into this bucket.
        let carried = if before > so_far {
            before - so_far
        } else {
            0
        };
        assert(num / divisor <= num) by (nonlinear_arith)
            requires
                divisor >= 1,
        ;
        (num / divisor) as u128 + carried
    };
    if (sorted.len() as u128) < alloc {
        alloc = sorted.len() as u128;
    }
    if left < alloc {
        alloc = left;
    }
    let allocation_b = alloc as usize;
    assert(allocation_b == allocation(num as nat, bucket_below(qs, w, e, b as nat, qs.len()), b as int, old(chosen)@.len()));
    let ghost start = chosen@;
    let mut j: usize = 0;
    while j < allocation_b
        invariant
            0 <= j <= allocation_b <= sorted@.len(),
            chosen@ == start + sorted@.subrange(0, j as int),
            qs == questions.deep_view(),
            start.no_duplicates(),
            sorted@.no_duplicates(),
            chosen@.no_duplicates(),
            forall|y: usize| #[trigger] sorted@.contains(y) <==> (y < qs.len() && is_candidate(qs, w, e, y as int)
                && bucket_index(qs, y as int) == b),
            forall|k: int| 0 <= k < start.len() ==> {
                &&& (#[trigger] start[k]) < qs.len()
                &&& is_candidate(qs, w, e, start[k] as int)
                &&& bucket_index(qs, start[k] as int) < b
            },
            forall|k: int| 0 <= k < chosen@.len() ==> {
                &&& (#[trigger] chosen@[k]) < qs.len()
                &&& is_candidate(qs, w, e, chosen@[k] as int)
                &&& bucket_index(qs, chosen@[k] as int) <= b
            },
        decreases allocation_b - j,
    {
        let x = sorted[j];
        proof {
            assert(sorted@.contains(x));
            assert(x < qs.len() && is_candidate(qs, w, e, x as int) && bucket_index(qs, x as int) == b);
            assert forall|k: int| 0 <= k < chosen@.len() implies chosen@[k] != x by {
                if k < start.len() {
                    assert(chosen@[k] == start[k]);
                } else {
                    assert(chosen@[k] == sorted@[k - start.len()]);
                }
            }
        }
        let ghost before = chosen@;
        chosen.push(x);
        j += 1;
        assert(chosen@ =~= start + sorted@.subrange(0, j as int));
        proof {
            assert forall|a: int, c: int| 0 <= a < chosen@.len() && 0 <= c < chosen@.len() && a != c implies chosen@[a] != chosen@[c] by {
                if a < before.len() && c < before.len() {
                    assert(before[a] != before[c]);
                } else if a == before.len() {
                    assert(before[c] != x);
                } else {
                    assert(before[a] != x);
                }
            }
        }
    }
    let ghost part = sorted@.subrange(0, allocation_b as int);
    proof {
        assert(part_ok(qs, w, e, b as nat, part, allocation_b as nat)) by {
            assert forall|k: int, y: usize|
                0 <= k < part.len() && y < qs.len() && is_candidate(qs, w, e, y as int)
                    && bucket_index(qs, y as int) == b && !part.contains(y) implies #[trigger] asked_before(
                    qs,
                    part[k] as int,
                    y as int,
                ) by {
                assert(bucket@.contains(y));
                assert(sorted@.contains(y));
                let m = choose|m: int| 0 <= m < sorted@.len() && sorted@[m] == y;
                if m < allocation_b {
                    assert(part[m] == y);
                }
                assert(sorted@[k] == part[k]);
            }
            assert forall|k: int| 0 <= k < part.len() implies {
                &&& (#[trigger] part[k]) < qs.len()
                &&& is_candidate(qs, w, e, part[k] as int)
                &&& bucket_index(qs, part[k] as int) == b
            } by {
                assert(sorted@.contains(part[k]));
                assert(bucket@.contains(part[k]));
            }
        }
        assert(chosen@ =~= start + part);
    }
    Ghost(part)
}

/// `r` is a choice of the questions `qs` to ask: distinct questions that pass the
/// tag filter, no more than `num`, and none only when nothing is to be asked or
/// no question passes the filter. At random, as many as can be; otherwise the
/// questions that each bucket gives, in the order of the quiz file when
/// `in_order`.
pub open spec fn chosen_ok(
    qs: Seq<QuestionView>,
    wanted: Seq<Seq<char>>,
    excluded: Seq<Seq<char>>,
    num: nat,
    random: bool,
    in_order: bool,
    r: Seq<usize>,
) -> bool {
    &&& r.no_duplicates()
    &&& forall|k: int| 0 <= k < r.len() ==> r[k] < qs.len() && is_candidate(qs, wanted, excluded, #[trigger] r[k] as int)
    &&& r.len() <= num
    &&& (r.len() == 0 <==> (num == 0 || candidates_below(qs, wanted, excluded, qs.len()).len() == 0))
    &&& random ==> r.len() == vstd::math::min(num as int, candidates_below(qs, wanted, excluded, qs.len()).len() as int)
    &&& !random ==> exists|parts: Seq<Seq<usize>>|
        selection_ok(qs, wanted, excluded, num, parts) && r.to_multiset() == joined(parts).to_multiset()
    &&& !random && in_order ==> sorted_by_line(qs, r)
}

/// Choose a set of questions, filtered by the command-line options, and return
/// their positions in `questions`.
///
/// With `random`, the result is a random selection of the questions that pass the
/// tag filter. Otherwise each bucket contributes its share of the questions,
/// least recently asked first; the chosen questions are then put in the order of
/// the quiz file (`in_order`) or in a random order.
pub fn choose_questions(questions: &Vec<Question>, options: &TakeOptions) -> (r: Vec<usize>)
    ensures
        chosen_ok(
            questions.deep_view(),
            options.filter_opts.tags.deep_view(),
            options.filter_opts.exclude.deep_view(),
            options.num_to_ask as nat,
            options.random,
            options.in_order,
            r@,
        ),
{
    let ghost qs = questions.deep_view();
    let ghost w = options.filter_opts.tags.deep_view();
    let ghost e = options.filter_opts.exclude.deep_view();
    let num = options.num_to_ask;
    broadcast use vstd::seq_lib::group_to_multiset_ensures;

    if options.random {
        let mut candidates: Vec<usize> = Vec::new();
        let mut i: usize = 0;
        while i < questions.len()
            invariant
                0 <= i <= questions.len(),
                qs == questions.deep_view(),
                w == options.filter_opts.tags.deep_view(),
                e == options.filter_opts.exclude.deep_view(),
                candidates@ == candidates_below(qs, w, e, i as nat),
                forall|k: int| 0 <= k < candidates@.len() ==> candidates@[k] < i && is_candidate(qs, w, e, #[trigger] candidates@[k] as int),
                forall|k1: int, k2: int| 0 <= k1 < k2 < candidates@.len() ==> candidates@[k1] < candidates@[k2],
            decreases questions.len() - i,
        {
            if filter_tags(&questions[i].get_common().tags, &options.filter_opts) {
                candidates.push(i);
            }
            i += 1;
        }
        proof {
            assert forall|a: int, c: int| 0 <= a < candidates@.len() && 0 <= c < candidates@.len() && a != c implies candidates@[a] != candidates@[c] by {
                if a < c {
                    assert(candidates@[a] < candidates@[c]);
                } else {
                    assert(candidates@[c] < candidates@[a]);
                }
            }
            candidates@.lemma_multiset_has_no_duplicates();
        }
        let ghost before = candidates@;
        let mut rng = thread_rng();
        shuffle(&mut candidates, &mut rng);
        proof {
            broadcast use vstd::multiset::group_multiset_axioms;
            assert forall|x: usize| candidates@.to_multiset().contains(x) implies candidates@.to_multiset().count(x) == 1 by {
                assert(before.to_multiset().contains(x));
            }
            candidates@.lemma_multiset_has_no_duplicates_conv();
            assert forall|k: int| 0 <= k < candidates@.len() implies candidates@[k] < questions.len() && is_candidate(qs, w, e, #[trigger] candidates@[k] as int) by {
                let x = candidates@[k];
                assert(candidates@.contains(x));
                assert(candidates@.to_multiset().contains(x));
                assert(before.contains(x));
                let m = choose|m: int| 0 <= m < before.len() && before[m] == x;
                assert(is_candidate(qs, w, e, before[m] as int));
            }
        }
        let keep = if num < candidates.len() {
            num
        } else {
            candidates.len()
        };
        candidates.truncate(keep);
        return candidates;
    }
    let mut chosen: Vec<usize> = Vec::new();
    let ghost mut parts: Seq<Seq<usize>> = Seq::empty();
    let mut b: usize = 0;
    while b < NUM_BUCKETS
        invariant
            0 <= b <= NUM_BUCKETS,
            qs == questions.deep_view(),
            w == options.filter_opts.tags.deep_view(),
            e == options.filter_opts.exclude.deep_view(),
            num == options.num_to_ask,
            parts.len() == b,
            chosen@.len() <= num,
            chosen@ == joined_prefix(parts, b as int),
            chosen@.len() == chosen_before(parts, b as int),
            chosen@.no_duplicates(),
            forall|k: int| 0 <= k < chosen@.len() ==> {
                &&& (#[trigger] chosen@[k]) < qs.len()
                &&& is_candidate(qs, w, e, chosen@[k] as int)
                &&& bucket_index(qs, chosen@[k] as int) < b
            },
            forall|c: int| 0 <= c < b ==> part_ok(
                qs,
                w,
                e,
                c as nat,
                #[trigger] parts[c],
                allocation(num as nat, bucket_below(qs, w, e, c as nat, qs.len()), c, chosen_before(parts, c)),
            ),
        decreases NUM_BUCKETS - b,
    {
        let ghost old_chosen = chosen@;
        let part = choose_from_bucket(questions, &options.filter_opts, b, num, &mut chosen);
        proof {
            let old_parts = parts;
            parts = parts.push(part@);
            assert forall|c: int| 0 <= c < b + 1 implies chosen_before(parts, c) == chosen_before(old_parts, c) by {
                lemma_chosen_before_push(old_parts, part@, c);
            }
            lemma_chosen_before_push(old_parts, part@, b + 1);
            lemma_joined_prefix_push(old_parts, part@, b + 1);
            assert(parts[b as int] == part@);
            assert forall|c: int| 0 <= c < b + 1 implies part_ok(
                qs,
                w,
                e,
                c as nat,
                #[trigger] parts[c],
                allocation(num as nat, bucket_below(qs, w, e, c as nat, qs.len()), c, chosen_before(parts, c)),
            ) by {
                if c < b {
                    assert(parts[c] == old_parts[c]);
                }
            }
        }
        b += 1;
    }
    proof {
        assert(joined_prefix(parts, 5) == joined(parts)) by {
            reveal_with_fuel(joined_prefix, 6);
        }
        assert(selection_ok(qs, w, e, num as nat, parts));
        assert forall|k: int| 0 <= k < joined(parts).len() implies joined(parts)[k] < qs.len() && is_candidate(qs, w, e, #[trigger] joined(parts)[k] as int) by {
            assert(chosen@[k] == joined(parts)[k]);
        }
    }
    if options.in_order {
        let sorted = sort_by_line(questions, &chosen);
        proof {
            lemma_members_of_selection(qs, w, e, num as nat, parts, sorted@);
            lemma_selection_empty(qs, w, e, num as nat, parts);
            assert(sorted@.len() == sorted@.to_multiset().len());
            assert(joined(parts).len() == joined(parts).to_multiset().len());
        }
        sorted
    } else {
        let mut rng = thread_rng();
        let ghost before = chosen@;
        shuffle(&mut chosen, &mut rng);
        proof {
            lemma_members_of_selection(qs, w, e, num as nat, parts, chosen@);
            lemma_selection_empty(qs, w, e, num as nat, parts);
            assert(chosen@.len() == chosen@.to_multiset().len());
            assert(joined(parts).len() == joined(parts).to_multiset().len());
        }
        chosen
    }
}

proof fn lemma_no_candidates(qs: Seq<QuestionView>, w: Seq<Seq<char>>, e: Seq<Seq<char>>, b: nat, n: nat)
    requires
        candidates_below(qs, w, e, n).len() == 0,
    ensures
        bucket_below(qs, w, e, b, n) == 0,
    decreases n,
{
    if n > 0 {
        lemma_no_candidates(qs, w, e, b, (n - 1) as nat);
    }
}

proof fn lemma_some_candidate(qs: Seq<QuestionView>, w: Seq<Seq<char>>, e: Seq<Seq<char>>, n: nat) -> (y: int)
    requires
        candidates_below(qs, w, e, n).len() > 0,
    ensures
        0 <= y < n,
        is_candidate(qs, w, e, y),
        bucket_below(qs, w, e, bucket_index(qs, y), n) >= 1,
    decreases n,
{
    let rest = candidates_below(qs, w, e, (n - 1) as nat);
    if is_candidate(qs, w, e, n - 1) {
        lemma_bucket_below_mono(qs, w, e, bucket_index(qs, n - 1), n);
        n - 1
    } else {
        let y = lemma_some_candidate(qs, w, e, (n - 1) as nat);
        lemma_bucket_below_mono(qs, w, e, bucket_index(qs, y), n);
        y
    }
}

proof fn lemma_bucket_below_mono(qs: Seq<QuestionView>, w: Seq<Seq<char>>, e: Seq<Seq<char>>, b: nat, n: nat)
    requires
        n > 0,
    ensures
        bucket_below(qs, w, e, b, (n - 1) as nat) <= bucket_below(qs, w, e, b, n),
{
}

/// A bucket with candidates gives some question when none was chosen before it.
proof fn lemma_allocation_positive(num: nat, size: nat, b: int)
    requires
        num > 0,
        size > 0,
        0 <= b < NUM_BUCKETS,
    ensures
        allocation(num, size, b, 0) > 0,
{
    reveal_with_fuel(shares_before, 6);
}

/// A valid selection is empty exactly when nothing is to be asked or no question
/// passes the tag filter.
proof fn lemma_selection_empty(qs: Seq<QuestionView>, w: Seq<Seq<char>>, e: Seq<Seq<char>>, num: nat, parts: Seq<Seq<usize>>)
    requires
        selection_ok(qs, w, e, num, parts),
    ensures
        joined(parts).len() == 0 <==> (num == 0 || candidates_below(qs, w, e, qs.len()).len() == 0),
{
    reveal_with_fuel(chosen_before, 6);
    assert(part_ok(qs, w, e, 0, parts[0], allocation(num, bucket_below(qs, w, e, 0, qs.len()), 0, chosen_before(parts, 0))));
    assert(part_ok(qs, w, e, 1, parts[1], allocation(num, bucket_below(qs, w, e, 1, qs.len()), 1, chosen_before(parts, 1))));
    assert(part_ok(qs, w, e, 2, parts[2], allocation(num, bucket_below(qs, w, e, 2, qs.len()), 2, chosen_before(parts, 2))));
    assert(part_ok(qs, w, e, 3, parts[3], allocation(num, bucket_below(qs, w, e, 3, qs.len()), 3, chosen_before(parts, 3))));
    assert(part_ok(qs, w, e, 4, parts[4], allocation(num, bucket_below(qs, w, e, 4, qs.len()), 4, chosen_before(parts, 4))));
    if candidates_below(qs, w, e, qs.len()).len() == 0 {
        lemma_no_candidates(qs, w, e, 0, qs.len());
        lemma_no_candidates(qs, w, e, 1, qs.len());
        lemma_no_candidates(qs, w, e, 2, qs.len());
        lemma_no_candidates(qs, w, e, 3, qs.len());
        lemma_no_candidates(qs, w, e, 4, qs.len());
    } else if num > 0 {
        let y = lemma_some_candidate(qs, w, e, qs.len());
        let b = bucket_index(qs, y);
        bucket_in_range(common_of(qs[y]).prior_results);
        lemma_allocation_positive(num, bucket_below(qs, w, e, b, qs.len()), b as int);
        if joined(parts).len() == 0 {
            assert(parts[b as int].len() > 0);
        }
    }
}

/// The first `b` parts, one after another.
pub open spec fn joined_prefix(parts: Seq<Seq<usize>>, b: int) -> Seq<usize>
    decreases b,
{
    if b <= 0 {
        Seq::empty()
    } else {
        joined_prefix(parts, b - 1) + parts[b - 1]
    }
}

proof fn lemma_chosen_before_push(parts: Seq<Seq<usize>>, part: Seq<usize>, c: int)
    requires
        0 <= c <= parts.len() + 1,
    ensures
        c <= parts.len() ==> chosen_before(parts.push(part), c) == chosen_before(parts, c),
        c == parts.len() + 1 ==> chosen_before(parts.push(part), c) == chosen_before(parts, c - 1) + parts.push(part)[c - 1].len(),
    decreases c,
{
    if c > 0 {
        lemma_chosen_before_push(parts, part, c - 1);
        if c <= parts.len() {
            assert(parts.push(part)[c - 1] == parts[c - 1]);
        }
    }
}

proof fn lemma_joined_prefix_push(parts: Seq<Seq<usize>>, part: Seq<usize>, c: int)
    requires
        0 <= c <= parts.len() + 1,
    ensures
        c <= parts.len() ==> joined_prefix(parts.push(part), c) == joined_prefix(parts, c),
        c == parts.len() + 1 ==> joined_prefix(parts.push(part), c) == joined_prefix(parts, c - 1) + part,
    decreases c,
{
    if c > 0 {
        lemma_joined_prefix_push(parts, part, c - 1);
        if c <= parts.len() {
            assert(parts.push(part)[c - 1] == parts[c - 1]);
        }
    }
}

/// A permutation of a valid selection holds distinct candidates, no more of them
/// than asked for.
proof fn lemma_members_of_selection(
    qs: Seq<QuestionView>,
    wanted: Seq<Seq<char>>,
    excluded: Seq<Seq<char>>,
    num: nat,
    parts: Seq<Seq<usize>>,
    r: Seq<usize>,
)
    requires
        r.to_multiset() == joined(parts).to_multiset(),
        joined(parts).len() <= num,
        joined(parts).no_duplicates(),
        forall|k: int| 0 <= k < joined(parts).len() ==> joined(parts)[k] < qs.len() && is_candidate(qs, wanted, excluded, #[trigger] joined(parts)[k] as int),
    ensures
        r.no_duplicates(),
        r.len() <= num,
        forall|k: int| 0 <= k < r.len() ==> r[k] < qs.len() && is_candidate(qs, wanted, excluded, #[trigger] r[k] as int),
{
    broadcast use vstd::seq_lib::group_to_multiset_ensures;
    broadcast use vstd::multiset::group_multiset_axioms;

    let j = joined(parts);
    j.lemma_multiset_has_no_duplicates();
    assert forall|x: usize| r.to_multiset().contains(x) implies r.to_multiset().count(x) == 1 by {
        assert(j.to_multiset().contains(x));
    }
    r.lemma_multiset_has_no_duplicates_conv();
    assert(r.len() == r.to_multiset().len());
    assert forall|k: int| 0 <= k < r.len() implies r[k] < qs.len() && is_candidate(qs, wanted, excluded, #[trigger] r[k] as int) by {
        let x = r[k];
        assert(r.contains(x));
        assert(r.to_multiset().contains(x));
        assert(j.contains(x));
        let m = choose|m: int| 0 <= m < j.len() && j[m] == x;
        assert(is_candidate(qs, wanted, excluded, j[m] as int));
    }
}


/// What the parts hold, one after another, is what some part holds.
proof fn lemma_in_joined(parts: Seq<Seq<usize>>, x: usize)
    requires
        parts.len() == NUM_BUCKETS,
    ensures
        joined(parts).contains(x) <==> exists|c: int| 0 <= c < NUM_BUCKETS && #[trigger] parts[c].contains(x),
{
    let j = joined(parts);
    let a0 = parts[0].len() as int;
    let a1 = a0 + parts[1].len();
    let a2 = a1 + parts[2].len();
    let a3 = a2 + parts[3].len();
    assert forall|m: int| 0 <= m < j.len() implies {
        &&& m < a0 ==> j[m] == parts[0][m]
        &&& a0 <= m < a1 ==> j[m] == parts[1][m - a0]
        &&& a1 <= m < a2 ==> j[m] == parts[2][m - a1]
        &&& a2 <= m < a3 ==> j[m] == parts[3][m - a2]
        &&& a3 <= m ==> j[m] == parts[4][m - a3]
    } by {}
    if j.contains(x) {
        let m = choose|m: int| 0 <= m < j.len() && j[m] == x;
        if m < a0 {
            assert(parts[0][m] == x);
            assert(parts[0].contains(x));
        } else if m < a1 {
            assert(parts[1][m - a0] == x);
            assert(parts[1].contains(x));
        } else if m < a2 {
            assert(parts[2][m - a1] == x);
            assert(parts[2].contains(x));
        } else if m < a3 {
            assert(parts[3][m - a2] == x);
            assert(parts[3].contains(x));
        } else {
            assert(parts[4][m - a3] == x);
            assert(parts[4].contains(x));
        }
    }
    if exists|c: int| 0 <= c < NUM_BUCKETS && #[trigger] parts[c].contains(x) {
        let c = choose|c: int| 0 <= c < NUM_BUCKETS && #[trigger] parts[c].contains(x);
        let k = choose|k: int| 0 <= k < parts[c].len() && parts[c][k] == x;
        let m = if c == 0 {
            k
        } else if c == 1 {
            a0 + k
        } else if c == 2 {
            a1 + k
        } else if c == 3 {
            a2 + k
        } else {
            a3 + k
        };
        assert(j[m] == x);
    }
}

/// Within a bucket, the questions chosen (not at random) were last asked no later
/// than any question of the same bucket that passes the filter and was left out:
/// the questions asked longest ago are asked first.
pub proof fn chosen_questions_were_asked_longest_ago(
    qs: Seq<QuestionView>,
    wanted: Seq<Seq<char>>,
    excluded: Seq<Seq<char>>,
    num: nat,
    in_order: bool,
    r: Seq<usize>,
    x: usize,
    y: usize,
)
    requires
        chosen_ok(qs, wanted, excluded, num, false, in_order, r),
        r.contains(x),
        !r.contains(y),
        y < qs.len(),
        is_candidate(qs, wanted, excluded, y as int),
        bucket_index(qs, x as int) == bucket_index(qs, y as int),
        bucket_index(qs, y as int) >= 1,
    ensures
        common_of(qs[x as int]).prior_results.len() > 0,
        common_of(qs[y as int]).prior_results.len() > 0,
        ({
            let tx = common_of(qs[x as int]).prior_results.last().time_asked;
            let ty = common_of(qs[y as int]).prior_results.last().time_asked;
            tx.secs < ty.secs || (tx.secs == ty.secs && tx.nanos <= ty.nanos)
        }),
{
    broadcast use vstd::seq_lib::group_to_multiset_ensures;

    let parts = choose|parts: Seq<Seq<usize>>|
        selection_ok(qs, wanted, excluded, num, parts) && r.to_multiset() == joined(parts).to_multiset();
    assert(r.to_multiset().count(x) > 0);
    assert(joined(parts).contains(x));
    if joined(parts).contains(y) {
        assert(joined(parts).to_multiset().count(y) > 0);
        assert(r.contains(y));
    }
    lemma_in_joined(parts, x);
    lemma_in_joined(parts, y);
    let c = choose|c: int| 0 <= c < NUM_BUCKETS && #[trigger] parts[c].contains(x);
    let b = bucket_index(qs, y as int);
    bucket_in_range(common_of(qs[y as int]).prior_results);
    bucket_in_range(common_of(qs[x as int]).prior_results);
    assert(part_ok(
        qs,
        wanted,
        excluded,
        c as nat,
        parts[c],
        allocation(num, bucket_below(qs, wanted, excluded, c as nat, qs.len()), c, chosen_before(parts, c)),
    ));
    let k = choose|k: int| 0 <= k < parts[c].len() && parts[c][k] == x;
    assert(bucket_index(qs, parts[c][k] as int) == c);
    assert(c == b);
    assert(!parts[c].contains(y));
    assert(asked_before(qs, parts[c][k] as int, y as int));
}

} // verus!
