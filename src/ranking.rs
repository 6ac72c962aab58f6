//! Ranklists: a representative job per user and problem, totals, tie-breakers and
//! competition ranks.
use vstd::prelude::*;

use std::cmp::Ordering;

use crate::models::{Job, Ranking, ScoringRule, TieBreaker, User};

verus! {

/// What the scoring rules look at in a job: its score and its creation time.
pub open spec fn job_key(j: Job) -> (int, int) {
    (j.score as int, j.created_time as int)
}

/// `a` is at least as good a representative as `b` under `rule`: the later one for
/// `Latest`; for `Highest` the higher score, then the earlier one.
pub open spec fn at_least(rule: ScoringRule, a: (int, int), b: (int, int)) -> bool {
    match rule {
        ScoringRule::Latest => a.1 >= b.1,
        ScoringRule::Highest => a.0 > b.0 || (a.0 == b.0 && a.1 <= b.1),
    }
}

/// Index of the representative among the first `n` keys: the last of the best ones.
pub open spec fn pick(rule: ScoringRule, keys: Seq<(int, int)>, n: int) -> int
    decreases n,
{
    if n <= 1 {
        0
    } else {
        let b = pick(rule, keys, n - 1);
        if at_least(rule, keys[n - 1], keys[b]) {
            n - 1
        } else {
            b
        }
    }
}

pub open spec fn keys_of(jobs: Seq<Job>) -> Seq<(int, int)> {
    jobs.map_values(|j: Job| job_key(j))
}

proof fn lemma_pick(rule: ScoringRule, keys: Seq<(int, int)>, n: int)
    requires
        1 <= n <= keys.len(),
    ensures
        0 <= pick(rule, keys, n) < n,
        forall|k: int| 0 <= k < n ==> at_least(rule, keys[pick(rule, keys, n)], #[trigger] keys[k]),
    decreases n,
{
    if n > 1 {
        lemma_pick(rule, keys, n - 1);
    }
}

impl ScoringRule {
    /// The job that represents a user on a problem: the latest one, or the one with
    /// the highest score (the earliest among equals). `None` when there is no job.
    pub fn select<'a>(&self, jobs: &'a [Job]) -> (r: Option<&'a Job>)
        ensures
            jobs@.len() == 0 <==> r is None,
            r matches Some(j) ==> *j == jobs@[pick(*self, keys_of(jobs@), jobs@.len() as int)],
            r matches Some(j) ==> forall|k: int|
                0 <= k < jobs@.len() ==> at_least(*self, job_key(*j), #[trigger] job_key(jobs@[k])),
    {
        if jobs.len() == 0 {
            return None;
        }
        let ghost keys = keys_of(jobs@);
        let mut best: usize = 0;
        let mut i: usize = 1;
        while i < jobs.len()
            invariant
                1 <= i <= jobs@.len(),
                best < i,
                keys == keys_of(jobs@),
                best == pick(*self, keys, i as int),
            decreases jobs@.len() - i,
        {
            let better = match *self {
                ScoringRule::Latest => jobs[i].created_time >= jobs[best].created_time,
                ScoringRule::Highest => jobs[i].score > jobs[best].score || (jobs[i].score
                    == jobs[best].score && jobs[i].created_time <= jobs[best].created_time),
            };
            if better {
                best = i;
            }
            i = i + 1;
        }
        proof {
            lemma_pick(*self, keys, jobs@.len() as int);
            assert forall|k: int| 0 <= k < jobs@.len() implies at_least(
                *self,
                job_key(jobs@[best as int]),
                #[trigger] job_key(jobs@[k]),
            ) by {
                assert(keys[k] == job_key(jobs@[k]));
            }
        }
        Some(&jobs[best])
    }
}

/// A user's representative jobs (one slot per problem in scope) and how many jobs
/// they submitted to each.
#[derive(Clone, Debug)]
pub struct RankHelper {
    pub user: User,
    pub jobs: Vec<Option<Job>>,
    pub job_counts: Vec<u32>,
}

/// Sum of the representative scores in the first `n` slots.
pub open spec fn total_of(jobs: Seq<Option<Job>>, n: int) -> int
    decreases n,
{
    if n <= 0 {
        0
    } else {
        total_of(jobs, n - 1) + match jobs[n - 1] {
            Some(j) => j.score as int,
            None => 0,
        }
    }
}

/// A time later than any: what a slot without a job counts as.
pub open spec fn never() -> int {
    i64::MAX as int + 1
}

/// Earliest creation time among the first `n` slots, `never()` if none holds a job.
pub open spec fn earliest_of(jobs: Seq<Option<Job>>, n: int) -> int
    decreases n,
{
    if n <= 0 {
        never()
    } else {
        let e = earliest_of(jobs, n - 1);
        let t = match jobs[n - 1] {
            Some(j) => j.created_time as int,
            None => never(),
        };
        if t < e {
            t
        } else {
            e
        }
    }
}

/// Sum of the first `n` counts.
pub open spec fn count_of(counts: Seq<u32>, n: int) -> int
    decreases n,
{
    if n <= 0 {
        0
    } else {
        count_of(counts, n - 1) + counts[n - 1]
    }
}

/// A user's total score.
pub open spec fn total(h: RankHelper) -> int {
    total_of(h.jobs@, h.jobs@.len() as int)
}

/// The value a tie-breaker orders users by, ascending; the same for everyone when
/// there is none.
pub open spec fn tie_value(h: RankHelper, tie_breaker: Option<TieBreaker>) -> int {
    match tie_breaker {
        Some(TieBreaker::SubmissionTime) => earliest_of(h.jobs@, h.jobs@.len() as int),
        Some(TieBreaker::SubmissionCount) => count_of(h.job_counts@, h.job_counts@.len() as int),
        Some(TieBreaker::UserId) => h.user.id as int,
        None => 0,
    }
}

/// Where a user stands: total descending, then tie-breaker value ascending.
pub open spec fn rank_key(h: RankHelper, tie_breaker: Option<TieBreaker>) -> (int, int) {
    (total(h), tie_value(h, tie_breaker))
}

/// `a` ranks strictly ahead of `b`.
pub open spec fn ahead(a: (int, int), b: (int, int)) -> bool {
    a.0 > b.0 || (a.0 == b.0 && a.1 < b.1)
}

impl RankHelper {
    /// The user's total score.
    pub fn score(&self) -> (r: u128)
        ensures
            r == total(*self),
    {
        let mut sum: u128 = 0;
        let mut i: usize = 0;
        while i < self.jobs.len()
            invariant
                i <= self.jobs@.len(),
                sum == total_of(self.jobs@, i as int),
                sum <= i * (u64::MAX as int),
            decreases self.jobs@.len() - i,
        {
            proof {
                let k = i as int;
                assert(k * (u64::MAX as int) + (u64::MAX as int) == (k + 1) * (u64::MAX as int)) by (nonlinear_arith);
                assert((k + 1) * (u64::MAX as int) <= (usize::MAX as int) * (u64::MAX as int)) by (nonlinear_arith)
                    requires k + 1 <= usize::MAX as int, k >= 0;
            }
            match &self.jobs[i] {
                Some(job) => {
                    sum = sum + job.score as u128;
                },
                None => {},
            }
            i = i + 1;
        }
        sum
    }

    /// Earliest creation time of a representative job; `None` stands for "never".
    fn earliest(&self) -> (r: Option<i64>)
        ensures
            earliest_of(self.jobs@, self.jobs@.len() as int) == match r {
                Some(t) => t as int,
                None => never(),
            },
    {
        let mut best: Option<i64> = None;
        let mut i: usize = 0;
        while i < self.jobs.len()
            invariant
                i <= self.jobs@.len(),
                earliest_of(self.jobs@, i as int) == match best {
                    Some(t) => t as int,
                    None => never(),
                },
            decreases self.jobs@.len() - i,
        {
            match &self.jobs[i] {
                Some(job) => {
                    match best {
                        Some(t) => {
                            if job.created_time < t {
                                best = Some(job.created_time);
                            }
                        },
                        None => {
                            best = Some(job.created_time);
                        },
                    }
                },
                None => {},
            }
            i = i + 1;
        }
        best
    }

    /// Total number of submissions over the problems in scope.
    fn submissions(&self) -> (r: u128)
        ensures
            r == count_of(self.job_counts@, self.job_counts@.len() as int),
    {
        let mut sum: u128 = 0;
        let mut i: usize = 0;
        while i < self.job_counts.len()
            invariant
                i <= self.job_counts@.len(),
                sum == count_of(self.job_counts@, i as int),
                sum <= i * (u32::MAX as int),
            decreases self.job_counts@.len() - i,
        {
            proof {
                let k = i as int;
                assert(k * (u32::MAX as int) + (u32::MAX as int) == (k + 1) * (u32::MAX as int)) by (nonlinear_arith);
                assert((k + 1) * (u32::MAX as int) <= (usize::MAX as int) * (u32::MAX as int)) by (nonlinear_arith)
                    requires k + 1 <= usize::MAX as int, k >= 0;
            }
            sum = sum + self.job_counts[i] as u128;
            i = i + 1;
        }
        sum
    }
}

/// The tie-breaker value as a machine integer.
fn tie_number(h: &RankHelper, tie_breaker: Option<TieBreaker>) -> (r: i128)
    ensures
        r == tie_value(*h, tie_breaker),
{
    match tie_breaker {
        Some(TieBreaker::SubmissionTime) => {
            let e = h.earliest();
            match e {
                Some(t) => t as i128,
                None => {
                    let never_time: i128 = 0x8000_0000_0000_0000;
                    never_time
                },
            }
        },
        Some(TieBreaker::SubmissionCount) => {
            let c = h.submissions();
            let n = h.job_counts.len();
            proof {
                lemma_count_bound(h.job_counts@, n as int);
                assert(n * (u32::MAX as int) <= (usize::MAX as int) * (u32::MAX as int)) by (nonlinear_arith)
                    requires n <= usize::MAX as int;
            }
            c as i128
        },
        Some(TieBreaker::UserId) => h.user.id as i128,
        None => 0,
    }
}

proof fn lemma_count_bound(counts: Seq<u32>, n: int)
    requires
        0 <= n <= counts.len(),
    ensures
        0 <= count_of(counts, n) <= n * (u32::MAX as int),
    decreases n,
{
    if n > 0 {
        lemma_count_bound(counts, n - 1);
        assert((n - 1) * (u32::MAX as int) + (u32::MAX as int) == n * (u32::MAX as int)) by (nonlinear_arith);
    }
}

impl TieBreaker {
    /// Orders two users by this tie-breaker: earliest representative submission,
    /// fewest submissions, or smallest user id first.
    pub fn compare(&self, a: &RankHelper, b: &RankHelper) -> (r: Ordering)
        ensures
            (r == Ordering::Less) == (tie_value(*a, Some(*self)) < tie_value(*b, Some(*self))),
            (r == Ordering::Equal) == (tie_value(*a, Some(*self)) == tie_value(*b, Some(*self))),
            (r == Ordering::Greater) == (tie_value(*a, Some(*self)) > tie_value(*b, Some(*self))),
    {
        let x = tie_number(a, Some(*self));
        let y = tie_number(b, Some(*self));
        if x < y {
            Ordering::Less
        } else if x == y {
            Ordering::Equal
        } else {
            Ordering::Greater
        }
    }
}

/// Score of the representative job in each slot, 0 where there is none.
pub open spec fn slot_scores(jobs: Seq<Option<Job>>) -> Seq<u64> {
    jobs.map_values(|j: Option<Job>| match j {
        Some(job) => job.score,
        None => 0u64,
    })
}

/// `order` lists each of `0..n` once.
pub open spec fn is_permutation(order: Seq<int>, n: int) -> bool {
    &&& order.len() == n
    &&& forall|a: int| 0 <= a < n ==> 0 <= #[trigger] order[a] < n
    &&& forall|a: int, b: int| 0 <= a < b < n ==> #[trigger] order[a] != #[trigger] order[b]
}

/// `out` is the ranklist of `helpers` taken in `order`: best first, ties in their
/// given order, each row with the competition rank of its user.
pub open spec fn arranged(
    helpers: Seq<RankHelper>,
    tie_breaker: Option<TieBreaker>,
    order: Seq<int>,
    out: Seq<Ranking>,
) -> bool {
    let n = helpers.len() as int;
    let key = |a: int| rank_key(helpers[order[a]], tie_breaker);
    &&& is_permutation(order, n)
    &&& out.len() == n
    &&& forall|a: int, b: int| 0 <= a < b < n ==> !ahead(key(b), key(a)) && (key(a) == key(b) ==> order[a] < order[b])
    &&& forall|a: int|
        0 <= a < n ==> {
            &&& (#[trigger] out[a]).user == helpers[order[a]].user
            &&& out[a].scores@ == slot_scores(helpers[order[a]].jobs@)
            &&& out[a].rank == if a > 0 && key(a) == key(a - 1) {
                out[a - 1].rank as int
            } else {
                a + 1
            }
        }
}

fn key_ahead(a: (u128, i128), b: (u128, i128)) -> (r: bool)
    ensures
        r == ahead((a.0 as int, a.1 as int), (b.0 as int, b.1 as int)),
{
    a.0 > b.0 || (a.0 == b.0 && a.1 < b.1)
}

fn slot_score_list(jobs: &Vec<Option<Job>>) -> (r: Vec<u64>)
    ensures
        r@ == slot_scores(jobs@),
{
    let mut r: Vec<u64> = Vec::new();
    let mut i: usize = 0;
    while i < jobs.len()
        invariant
            i <= jobs@.len(),
            r@ == slot_scores(jobs@).take(i as int),
        decreases jobs@.len() - i,
    {
        let v = match &jobs[i] {
            Some(job) => job.score,
            None => 0,
        };
        r.push(v);
        i = i + 1;
        assert(r@ =~= slot_scores(jobs@).take(i as int));
    }
    assert(r@ =~= slot_scores(jobs@));
    r
}

/// Ranks users: total score descending, then the tie-breaker ascending; users that
/// neither orders apart keep their given order and share a rank, and a user after
/// them ranks at its 1-based position.
pub fn rank_users(helpers: &Vec<RankHelper>, tie_breaker: Option<TieBreaker>) -> (r: Vec<Ranking>)
    requires
        helpers@.len() < i32::MAX,
    ensures
        exists|order: Seq<int>| arranged(helpers@, tie_breaker, order, r@),
{
    let n = helpers.len();
    let mut keys: Vec<(u128, i128)> = Vec::new();
    let mut i: usize = 0;
    while i < n
        invariant
            n == helpers@.len(),
            i <= n,
            keys@.len() == i,
            forall|a: int|
                0 <= a < i ==> (#[trigger] keys@[a].0 as int, keys@[a].1 as int) == rank_key(
                    helpers@[a],
                    tie_breaker,
                ),
        decreases n - i,
    {
        let t = helpers[i].score();
        let v = tie_number(&helpers[i], tie_breaker);
        keys.push((t, v));
        i = i + 1;
    }
    let ghost key = |a: int| rank_key(helpers@[a], tie_breaker);
    let mut order: Vec<usize> = Vec::new();
    let mut i: usize = 0;
    while i < n
        invariant
            n == helpers@.len(),
            keys@.len() == n,
            forall|a: int|
                0 <= a < n ==> (#[trigger] keys@[a].0 as int, keys@[a].1 as int) == key(a),
            i <= n,
            order@.len() == i,
            forall|a: int| 0 <= a < i ==> #[trigger] order@[a] < i,
            forall|a: int, b: int| 0 <= a < b < i ==> #[trigger] order@[a] != #[trigger] order@[b],
            forall|a: int, b: int|
                0 <= a < b < i ==> !ahead(key(order@[b] as int), key(order@[a] as int)) && (key(
                    order@[a] as int,
                ) == key(order@[b] as int) ==> order@[a] < order@[b]),
        decreases n - i,
    {
        let mut p = order.len();
        while p > 0 && key_ahead(keys[i], keys[order[p - 1]])
            invariant
                n == helpers@.len(),
                keys@.len() == n,
                forall|a: int|
                    0 <= a < n ==> (#[trigger] keys@[a].0 as int, keys@[a].1 as int) == key(a),
                i < n,
                order@.len() == i,
                p <= i,
                forall|a: int| 0 <= a < i ==> #[trigger] order@[a] < i,
                forall|q: int| p <= q < i ==> ahead(key(i as int), key(#[trigger] order@[q] as int)),
            decreases p,
        {
            p = p - 1;
        }
        let ghost before = order@;
        order.insert(p, i);
        proof {
            assert forall|a: int, b: int| 0 <= a < b < i + 1 implies !ahead(
                key(order@[b] as int),
                key(order@[a] as int),
            ) && (key(order@[a] as int) == key(order@[b] as int) ==> order@[a] < order@[b]) by {
                if a < p && b < p {
                    assert(order@[a] == before[a] && order@[b] == before[b]);
                } else if a < p && b == p {
                    assert(order@[a] == before[a]);
                    if p > 0 {
                        assert(order@[p - 1] == before[p - 1]);
                    }
                } else if a < p && b > p {
                    assert(order@[a] == before[a] && order@[b] == before[b - 1]);
                } else if a == p {
                    assert(order@[b] == before[b - 1]);
                } else {
                    assert(order@[a] == before[a - 1] && order@[b] == before[b - 1]);
                }
            }
            assert forall|a: int, b: int| 0 <= a < b < i + 1 implies #[trigger] order@[a] != #[trigger] order@[b] by {
                if a < p && b < p {
                    assert(order@[a] == before[a] && order@[b] == before[b]);
                } else if a < p && b > p {
                    assert(order@[a] == before[a] && order@[b] == before[b - 1]);
                } else if a > p {
                    assert(order@[a] == before[a - 1] && order@[b] == before[b - 1]);
                } else if a < p {
                    assert(order@[a] == before[a]);
                } else {
                    assert(order@[b] == before[b - 1]);
                }
            }
            assert forall|a: int| 0 <= a < i + 1 implies #[trigger] order@[a] < i + 1 by {
                if a < p {
                    assert(order@[a] == before[a]);
                } else if a > p {
                    assert(order@[a] == before[a - 1]);
                }
            }
        }
        i = i + 1;
    }
    let ghost ord = order@.map_values(|x: usize| x as int);
    let mut out: Vec<Ranking> = Vec::new();
    let mut a: usize = 0;
    while a < n
        invariant
            n == helpers@.len(),
            n < i32::MAX,
            keys@.len() == n,
            forall|b: int|
                0 <= b < n ==> (#[trigger] keys@[b].0 as int, keys@[b].1 as int) == key(b),
            order@.len() == n,
            ord == order@.map_values(|x: usize| x as int),
            forall|b: int| 0 <= b < n ==> #[trigger] order@[b] < n,
            a <= n,
            out@.len() == a,
            forall|b: int|
                0 <= b < a ==> {
                    &&& (#[trigger] out@[b]).user == helpers@[ord[b]].user
                    &&& out@[b].scores@ == slot_scores(helpers@[ord[b]].jobs@)
                    &&& out@[b].rank == if b > 0 && key(ord[b]) == key(ord[b - 1]) {
                        out@[b - 1].rank as int
                    } else {
                        b + 1
                    }
                },
        decreases n - a,
    {
        let h = &helpers[order[a]];
        let rank: i32 = if a > 0 && keys[order[a]].0 == keys[order[a - 1]].0 && keys[order[a]].1
            == keys[order[a - 1]].1 {
            out[a - 1].rank
        } else {
            (a + 1) as i32
        };
        proof {
            assert(keys@[order@[a as int] as int].0 as int == key(ord[a as int]).0);
            if a > 0 {
                assert(keys@[order@[a - 1] as int].0 as int == key(ord[a - 1]).0);
            }
        }
        out.push(Ranking { user: h.user.duplicate(), rank, scores: slot_score_list(&h.jobs) });
        a = a + 1;
    }
    assert(arranged(helpers@, tie_breaker, ord, out@));
    out
}

/// Competition ranking: users that neither total nor tie-breaker tells apart share
/// a rank, and a user after a different one ranks at its 1-based position.
pub proof fn law_competition_ranks(
    helpers: Seq<RankHelper>,
    tie_breaker: Option<TieBreaker>,
    order: Seq<int>,
    out: Seq<Ranking>,
    a: int,
    b: int,
)
    requires
        arranged(helpers, tie_breaker, order, out),
        0 <= a < b < helpers.len(),
    ensures
        rank_key(helpers[order[a]], tie_breaker) == rank_key(helpers[order[b]], tie_breaker)
            ==> out[a].rank == out[b].rank,
        rank_key(helpers[order[b - 1]], tie_breaker) != rank_key(helpers[order[b]], tie_breaker)
            ==> out[b].rank == b + 1,
    decreases b - a,
{
    let key = |i: int| rank_key(helpers[order[i]], tie_breaker);
    assert(out[b].rank == if b > 0 && key(b) == key(b - 1) {
        out[b - 1].rank as int
    } else {
        b + 1
    });
    if key(a) == key(b) {
        assert(!ahead(key(b - 1), key(a)));
        assert(!ahead(key(b), key(b - 1)));
        assert(key(b - 1) == key(b));
        if a < b - 1 {
            law_competition_ranks(helpers, tie_breaker, order, out, a, b - 1);
        }
    }
}

/// Sum of the first `n` scores of a ranklist row.
pub open spec fn sum_of(s: Seq<u64>, n: int) -> int
    decreases n,
{
    if n <= 0 {
        0
    } else {
        sum_of(s, n - 1) + s[n - 1]
    }
}

proof fn lemma_row_total(jobs: Seq<Option<Job>>, n: int)
    requires
        0 <= n <= jobs.len(),
    ensures
        sum_of(slot_scores(jobs), n) == total_of(jobs, n),
    decreases n,
{
    if n > 0 {
        lemma_row_total(jobs, n - 1);
    }
}

/// Read off the rows: the first row ranks 1; a row whose score total and
/// tie-breaker value equal the row above shares its rank, and any other row ranks
/// at its 1-based position.
pub proof fn law_ranklist_rows(
    helpers: Seq<RankHelper>,
    tie_breaker: Option<TieBreaker>,
    order: Seq<int>,
    out: Seq<Ranking>,
)
    requires
        arranged(helpers, tie_breaker, order, out),
    ensures
        out.len() > 0 ==> out[0].rank == 1,
        forall|k: int|
            0 < k < out.len() ==> (#[trigger] out[k]).rank == if sum_of(out[k].scores@, out[k].scores@.len() as int)
                == sum_of(out[k - 1].scores@, out[k - 1].scores@.len() as int) && tie_value(
                helpers[order[k]],
                tie_breaker,
            ) == tie_value(helpers[order[k - 1]], tie_breaker) {
                out[k - 1].rank as int
            } else {
                k + 1
            },
{
    assert forall|k: int| 0 <= k < out.len() implies sum_of(
        (#[trigger] out[k]).scores@,
        out[k].scores@.len() as int,
    ) == total(helpers[order[k]]) by {
        lemma_row_total(helpers[order[k]].jobs@, helpers[order[k]].jobs@.len() as int);
    }
    if out.len() > 0 {
        assert(out[0].rank == 1);
    }
    assert forall|k: int| 0 < k < out.len() implies (#[trigger] out[k]).rank == if sum_of(
        out[k].scores@,
        out[k].scores@.len() as int,
    ) == sum_of(out[k - 1].scores@, out[k - 1].scores@.len() as int) && tie_value(
        helpers[order[k]],
        tie_breaker,
    ) == tie_value(helpers[order[k - 1]], tie_breaker) {
        out[k - 1].rank as int
    } else {
        k + 1
    } by {
        assert(sum_of(out[k - 1].scores@, out[k - 1].scores@.len() as int) == total(helpers[order[k - 1]]));
    }
}

/// The jobs of `user` on `problem`, in order.
pub open spec fn jobs_for(jobs: Seq<Job>, user: i32, problem: i32) -> Seq<Job>
    decreases jobs.len(),
{
    if jobs.len() == 0 {
        Seq::empty()
    } else {
        let r = jobs_for(jobs.drop_last(), user, problem);
        let j = jobs.last();
        if j.submission.user_id == user && j.submission.problem_id == problem {
            r.push(j)
        } else {
            r
        }
    }
}

/// `a` and `b` hold the same jobs, field by field, in the same order.
pub open spec fn same_jobs(a: Seq<Job>, b: Seq<Job>) -> bool {
    a.len() == b.len() && forall|i: int| 0 <= i < a.len() ==> (#[trigger] a[i]).same_as(&b[i])
}

/// `h` describes `user` over the problems `pids`: in each slot the representative
/// of the user's jobs on that problem under `rule` (none without jobs), and how many
/// jobs there are (at most `u32::MAX` counted).
pub open spec fn helper_ok(h: RankHelper, user: User, pids: Seq<i32>, jobs: Seq<Job>, rule: ScoringRule) -> bool {
    &&& h.user == user
    &&& h.jobs@.len() == pids.len()
    &&& h.job_counts@.len() == pids.len()
    &&& forall|p: int|
        0 <= p < pids.len() ==> {
            let m = jobs_for(jobs, user.id, #[trigger] pids[p]);
            &&& (h.jobs@[p] is None <==> m.len() == 0)
            &&& (h.jobs@[p] matches Some(j) ==> j.same_as(&m[pick(rule, keys_of(m), m.len() as int)]))
            &&& h.job_counts@[p] == if m.len() > u32::MAX { u32::MAX as int } else { m.len() as int }
        }
}

/// `out` is the ranklist of `users` over the problems `pids`, from `jobs`.
pub open spec fn ranked(
    users: Seq<User>,
    pids: Seq<i32>,
    jobs: Seq<Job>,
    rule: ScoringRule,
    tie_breaker: Option<TieBreaker>,
    out: Seq<Ranking>,
) -> bool {
    exists|helpers: Seq<RankHelper>, order: Seq<int>|
        helpers.len() == users.len() && (forall|u: int|
            0 <= u < users.len() ==> helper_ok(#[trigger] helpers[u], users[u], pids, jobs, rule))
            && #[trigger] arranged(helpers, tie_breaker, order, out)
}

/// Copies of the jobs of `user` on `problem`.
fn jobs_of(jobs: &Vec<Job>, user: i32, problem: i32) -> (r: Vec<Job>)
    ensures
        same_jobs(r@, jobs_for(jobs@, user, problem)),
{
    let mut r: Vec<Job> = Vec::new();
    let mut i: usize = 0;
    while i < jobs.len()
        invariant
            i <= jobs@.len(),
            same_jobs(r@, jobs_for(jobs@.take(i as int), user, problem)),
        decreases jobs@.len() - i,
    {
        assert(jobs@.take(i + 1).drop_last() =~= jobs@.take(i as int));
        let j = &jobs[i];
        if j.submission.user_id == user && j.submission.problem_id == problem {
            r.push(j.duplicate());
        }
        i = i + 1;
    }
    assert(jobs@.take(i as int) =~= jobs@);
    r
}

proof fn lemma_same_keys(a: Seq<Job>, b: Seq<Job>)
    requires
        same_jobs(a, b),
    ensures
        keys_of(a) == keys_of(b),
{
    assert(keys_of(a) =~= keys_of(b));
}

/// The user's representative jobs and submission counts over `pids`.
fn build_helper(user: &User, pids: &Vec<i32>, jobs: &Vec<Job>, rule: ScoringRule) -> (h: RankHelper)
    ensures
        helper_ok(h, *user, pids@, jobs@, rule),
{
    let mut slots: Vec<Option<Job>> = Vec::new();
    let mut counts: Vec<u32> = Vec::new();
    let mut p: usize = 0;
    while p < pids.len()
        invariant
            p <= pids@.len(),
            slots@.len() == p,
            counts@.len() == p,
            forall|q: int|
                0 <= q < p ==> {
                    let m = jobs_for(jobs@, user.id, #[trigger] pids@[q]);
                    &&& (slots@[q] is None <==> m.len() == 0)
                    &&& (slots@[q] matches Some(j) ==> j.same_as(&m[pick(rule, keys_of(m), m.len() as int)]))
                    &&& counts@[q] == if m.len() > u32::MAX { u32::MAX as int } else { m.len() as int }
                },
        decreases pids@.len() - p,
    {
        let mine = jobs_of(jobs, user.id, pids[p]);
        let ghost m = jobs_for(jobs@, user.id, pids@[p as int]);
        proof {
            lemma_same_keys(mine@, m);
        }
        let chosen = rule.select(mine.as_slice());
        let slot = match chosen {
            Some(j) => Some(j.duplicate()),
            None => None,
        };
        proof {
            if slot is Some {
                lemma_pick(rule, keys_of(m), m.len() as int);
                assert(mine@[pick(rule, keys_of(m), m.len() as int)].same_as(&m[pick(rule, keys_of(m), m.len() as int)]));
            }
        }
        slots.push(slot);
        let n = mine.len();
        counts.push(if n > 0xffff_ffff { 0xffff_ffffu32 } else { n as u32 });
        p = p + 1;
    }
    RankHelper { user: user.duplicate(), jobs: slots, job_counts: counts }
}

/// The ranklist of `users` over the problems `pids`, from `jobs`: each user's
/// representative job per problem under `rule`, ranked by total and `tie_breaker`.
/// Fails when there are too many users to number.
pub fn ranklist(
    users: &Vec<User>,
    pids: &Vec<i32>,
    jobs: &Vec<Job>,
    rule: ScoringRule,
    tie_breaker: Option<TieBreaker>,
) -> (r: Result<Vec<Ranking>, crate::models::Error>)
    ensures
        users@.len() < i32::MAX <==> r is Ok,
        r matches Ok(out) ==> ranked(users@, pids@, jobs@, rule, tie_breaker, out@),
        r matches Err(e) ==> e.code == crate::models::CODE_INTERNAL,
{
    if users.len() >= 0x7fff_ffff {
        return Err(crate::models::Error::internal());
    }
    let mut helpers: Vec<RankHelper> = Vec::new();
    let mut u: usize = 0;
    while u < users.len()
        invariant
            u <= users@.len(),
            helpers@.len() == u,
            forall|k: int| 0 <= k < u ==> helper_ok(#[trigger] helpers@[k], users@[k], pids@, jobs@, rule),
        decreases users@.len() - u,
    {
        helpers.push(build_helper(&users[u], pids, jobs, rule));
        u = u + 1;
    }
    let out = rank_users(&helpers, tie_breaker);
    proof {
        let order = choose|order: Seq<int>| arranged(helpers@, tie_breaker, order, out@);
        assert(arranged(helpers@, tie_breaker, order, out@));
    }
    Ok(out)
}

} // verus!
