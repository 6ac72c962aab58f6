//! The judging engine for one job, as a session that the worker drives step by step:
//! compile, then each case in plan order, with packed groups scored all or nothing.
//! The worker performs the compile and the runs; the session decides what runs next
//! and how each outcome changes the job.
use vstd::prelude::*;

use crate::clock::now_micros;
use crate::models::{Job, JobCase, JobStatus, MiscType, Problem, Resources, Status};

verus! {

/// Most case slots a problem may list, and most cases it may have.
pub const MAX_SLOTS: usize = 0x7fff_fffe;

/// The largest score of one case.
pub open spec fn case_cap() -> int {
    u32::MAX as int
}

/// Flat mode as a plan: every case its own group, in order.
pub open spec fn flat_plan(n: nat) -> Seq<Seq<int>> {
    Seq::new(n, |i: int| seq![i + 1])
}

/// The groups of 1-based case indices that a problem is judged by.
pub open spec fn plan_of(p: Problem) -> Seq<Seq<int>> {
    match p.misc {
        MiscType::Packed { packing } => packing@.map_values(
            |g: Vec<i32>| g@.map_values(|x: i32| x as int),
        ),
        _ => flat_plan(p.cases@.len()),
    }
}

/// Score of each case, case `i` (1-based) at `i - 1`.
pub open spec fn case_scores(p: Problem) -> Seq<int> {
    p.cases@.map_values(|c: crate::models::Case| c.score as int)
}

/// The recorded result of each step of a job (0 is the compile step).
pub open spec fn results(job: Job) -> Seq<Status> {
    job.cases@.map_values(|c: JobCase| c.result)
}

/// Number of case slots in the first `n` groups.
pub open spec fn slots(plan: Seq<Seq<int>>, n: int) -> int
    decreases n,
{
    if n <= 0 {
        0
    } else {
        slots(plan, n - 1) + plan[n - 1].len()
    }
}

/// Every index of the plan names a case of `1..=n`, no case is listed twice, and the
/// plan fits the limits.
pub open spec fn plan_fits(plan: Seq<Seq<int>>, n: int) -> bool {
    &&& plan_distinct(plan)
    &&& n <= MAX_SLOTS
    &&& slots(plan, plan.len() as int) <= MAX_SLOTS
    &&& forall|g: int, k: int|
        0 <= g < plan.len() && 0 <= k < plan[g].len() ==> 1 <= #[trigger] plan[g][k] <= n
}

/// No case is listed twice.
pub open spec fn plan_distinct(plan: Seq<Seq<int>>) -> bool {
    forall|g1: int, k1: int, g2: int, k2: int|
        0 <= g1 < plan.len() && 0 <= k1 < plan[g1].len() && 0 <= g2 < plan.len() && 0 <= k2
            < plan[g2].len() && (g1 != g2 || k1 != k2) ==> #[trigger] plan[g1][k1]
            != #[trigger] plan[g2][k2]
}

/// Case `i` is listed in some group.
pub open spec fn listed(plan: Seq<Seq<int>>, i: int) -> bool {
    exists|g: int, k: int| 0 <= g < plan.len() && 0 <= k < plan[g].len() && #[trigger] plan[g][k] == i
}

/// Every case is listed somewhere.
pub open spec fn plan_covers(plan: Seq<Seq<int>>, n: int) -> bool {
    forall|i: int| 1 <= i <= n ==> #[trigger] listed(plan, i)
}

/// A problem that can be judged: its plan names its own cases, lists none twice, and
/// fits the limits. Listing a case twice is refused on purpose: a second run of the
/// case could overwrite the outcome that an earlier group was scored on.
pub open spec fn problem_fits(p: Problem) -> bool {
    plan_fits(plan_of(p), p.cases@.len() as int)
}

/// The first `k` cases of `group` were all accepted.
pub open spec fn all_accepted(group: Seq<int>, k: int, res: Seq<Status>) -> bool {
    forall|j: int| 0 <= j < k ==> res[#[trigger] group[j]] == Status::Accepted
}

/// Total score of the first `k` cases of `group`.
pub open spec fn group_sum(group: Seq<int>, k: int, scores: Seq<int>) -> int
    decreases k,
{
    if k <= 0 {
        0
    } else {
        group_sum(group, k - 1, scores) + scores[group[k - 1] - 1]
    }
}

/// What a group adds to the job: its total if every case in it was accepted, else 0.
pub open spec fn group_value(group: Seq<int>, res: Seq<Status>, scores: Seq<int>) -> int {
    if all_accepted(group, group.len() as int, res) {
        group_sum(group, group.len() as int, scores)
    } else {
        0
    }
}

/// Score of a job over the first `n` groups of its plan.
pub open spec fn packed_total(plan: Seq<Seq<int>>, n: int, res: Seq<Status>, scores: Seq<int>) -> int
    decreases n,
{
    if n <= 0 {
        0
    } else {
        packed_total(plan, n - 1, res, scores) + group_value(plan[n - 1], res, scores)
    }
}

/// Score of a job judged case by case: the scores of the accepted cases among `1..=n`.
pub open spec fn flat_total(res: Seq<Status>, scores: Seq<int>, n: int) -> int
    decreases n,
{
    if n <= 0 {
        0
    } else {
        flat_total(res, scores, n - 1) + if res[n] == Status::Accepted {
            scores[n - 1]
        } else {
            0
        }
    }
}

/// Within a group, every case after one that was not accepted was skipped.
pub open spec fn skips_after_failure(group: Seq<int>, k: int, res: Seq<Status>) -> bool {
    forall|j: int, l: int|
        0 <= j < l < k && res[#[trigger] group[j]] != Status::Accepted ==> res[#[trigger] group[l]]
            == Status::Skipped
}

/// `p` is a case slot of the plan: a group, and a position in it.
pub open spec fn is_slot(plan: Seq<Seq<int>>, p: (int, int)) -> bool {
    0 <= p.0 < plan.len() && 0 <= p.1 < plan[p.0].len()
}

/// Slot `p` comes before `q` in plan order.
pub open spec fn slot_before(p: (int, int), q: (int, int)) -> bool {
    p.0 < q.0 || (p.0 == q.0 && p.1 < q.1)
}

/// The case index listed at slot `p`.
pub open spec fn slot_case(plan: Seq<Seq<int>>, p: (int, int)) -> int {
    plan[p.0][p.1]
}

/// Case `x` is listed at a slot from `from` (inclusive) to `to` (exclusive).
pub open spec fn listed_between(plan: Seq<Seq<int>>, from: (int, int), to: (int, int), x: int) -> bool {
    exists|p: (int, int)|
        is_slot(plan, p) && !slot_before(p, from) && slot_before(p, to) && #[trigger] slot_case(plan, p) == x
}

/// Some case before slot `p` in its own group was not accepted.
pub open spec fn failed_before(plan: Seq<Seq<int>>, res: Seq<Status>, p: (int, int)) -> bool {
    exists|j: int| 0 <= j < p.1 && res[#[trigger] plan[p.0][j]] != Status::Accepted
}

proof fn lemma_failed_frame(plan: Seq<Seq<int>>, r1: Seq<Status>, r2: Seq<Status>, p: (int, int))
    requires
        failed_before(plan, r1, p),
        forall|j: int| 0 <= j < p.1 ==> r1[#[trigger] plan[p.0][j]] == r2[plan[p.0][j]],
    ensures
        failed_before(plan, r2, p),
{
    let j = choose|j: int| 0 <= j < p.1 && r1[#[trigger] plan[p.0][j]] != Status::Accepted;
    assert(r2[plan[p.0][j]] != Status::Accepted);
}

/// The slot after `p`, leaving a group once its last slot is passed.
pub open spec fn next_slot(plan: Seq<Seq<int>>, p: (int, int)) -> (int, int) {
    if p.1 + 1 < plan[p.0].len() {
        (p.0, p.1 + 1)
    } else {
        (p.0 + 1, 0)
    }
}

proof fn lemma_listed_grow(plan: Seq<Seq<int>>, from: (int, int), to: (int, int), to2: (int, int), x: int)
    requires
        listed_between(plan, from, to, x),
        !slot_before(to2, to),
    ensures
        listed_between(plan, from, to2, x),
{
    let p = choose|p: (int, int)|
        is_slot(plan, p) && !slot_before(p, from) && slot_before(p, to) && #[trigger] slot_case(plan, p) == x;
    assert(slot_before(p, to2));
}

/// What is recorded for a case judged `v`: `v` itself, but for `Running`, which
/// only a special judge could report and which is recorded as a special-judge error.
/// A case left running would keep the job open, and the job would end accepted with
/// a case that was never judged.
pub open spec fn recorded_as(v: Status) -> Status {
    if v == Status::Running {
        Status::SpecialJudgeError
    } else {
        v
    }
}

fn recorded_verdict(v: Status) -> (r: Status)
    ensures
        r == recorded_as(v),
{
    if v == Status::Running {
        Status::SpecialJudgeError
    } else {
        v
    }
}

/// Where the session stands.
#[derive(Clone, Copy, Debug, PartialEq, Eq, Structural)]
pub enum Phase {
    /// Waiting for the compile step's outcome.
    Compiling,
    /// Judging cases; `awaiting` tells whether a case was handed out.
    Judging,
    /// Every case was judged and the job is finished.
    Done,
    /// The job was finished early, by a compilation error or a host-side failure.
    Stopped,
}

/// A job being judged against its problem.
pub struct Judging {
    job: Job,
    groups: Vec<Vec<usize>>,
    scores: Vec<u32>,
    group: usize,
    pos: usize,
    group_valid: bool,
    group_score: u64,
    phase: Phase,
    awaiting: bool,
    plan: Ghost<Seq<Seq<int>>>,
    n: Ghost<nat>,
}

impl Judging {
    /// The job as it stands.
    pub closed spec fn job(&self) -> Job {
        self.job
    }

    pub closed spec fn plan(&self) -> Seq<Seq<int>> {
        self.plan@
    }

    pub closed spec fn scores(&self) -> Seq<int> {
        self.scores@.map_values(|s: u32| s as int)
    }

    /// Number of test cases.
    pub closed spec fn case_count(&self) -> nat {
        self.n@
    }

    pub closed spec fn phase(&self) -> Phase {
        self.phase
    }

    /// Where judging stands in plan order: the current group and the position in it.
    /// Every slot before it is through.
    pub closed spec fn cursor(&self) -> (int, int) {
        (self.group as int, self.pos as int)
    }

    /// A case was handed out and its outcome is awaited.
    pub closed spec fn is_awaiting(&self) -> bool {
        self.awaiting
    }

    /// The case whose outcome is awaited.
    pub closed spec fn awaited_case(&self) -> int {
        self.plan@[self.group as int][self.pos as int]
    }

    /// Case slots whose outcome is in (or that were skipped).
    closed spec fn done(&self, g: int, k: int) -> bool {
        g < self.group || (g == self.group && k < self.pos)
    }

    closed spec fn shape(&self) -> bool {
        let plan = self.plan@;
        &&& plan_fits(plan, self.n@ as int)
        &&& self.groups@.len() == plan.len()
        &&& forall|g: int|
            0 <= g < plan.len() ==> (#[trigger] self.groups@[g])@.len() == plan[g].len()
        &&& forall|g: int, k: int|
            0 <= g < plan.len() && 0 <= k < plan[g].len() ==> #[trigger] self.groups@[g]@[k]
                as int == plan[g][k]
        &&& self.scores@.len() == self.n@
        &&& self.job.cases@.len() == self.n@ + 1
        &&& self.group <= plan.len()
        &&& self.group < plan.len() ==> self.pos <= plan[self.group as int].len()
        &&& self.group == plan.len() ==> self.pos == 0
    }

    closed spec fn bounded(&self) -> bool {
        let plan = self.plan@;
        &&& self.job.score <= slots(plan, self.group as int) * case_cap()
        &&& self.group_score <= self.pos * case_cap()
    }

    /// What the judged cases so far say of the job; `open` tells whether no case
    /// has failed the job yet.
    closed spec fn accounted(&self, open: bool) -> bool {
        let plan = self.plan@;
        let res = results(self.job);
        let cur = plan[self.group as int];
        &&& self.job.score == packed_total(plan, self.group as int, res, self.scores())
        &&& self.group < plan.len() ==> self.group_valid == all_accepted(cur, self.pos as int, res)
        &&& self.group < plan.len() ==> self.group_score == if self.group_valid {
            group_sum(cur, self.pos as int, self.scores())
        } else {
            0
        }
        &&& forall|g: int| 0 <= g < self.group ==> skips_after_failure(#[trigger] plan[g], plan[g].len() as int, res)
        &&& self.group < plan.len() ==> skips_after_failure(cur, self.pos as int, res)
        &&& open ==> forall|g: int, k: int|
            0 <= g < plan.len() && 0 <= k < plan[g].len() && self.done(g, k) ==> res[#[trigger] plan[g][k]] == Status::Accepted
        &&& self.awaiting ==> res[self.awaited_case()] == Status::Running
        &&& forall|g: int, k: int|
            0 <= g < plan.len() && 0 <= k < plan[g].len() && !self.done(g, k) ==> res[#[trigger] plan[g][k]]
                != Status::Accepted
    }

    /// Between steps a non-empty group is never left complete: its score has gone to
    /// the job.
    closed spec fn at_rest(&self) -> bool {
        self.group < self.plan@.len() && self.plan@[self.group as int].len() > 0 ==> self.pos
            < self.plan@[self.group as int].len()
    }

    /// The session's invariant.
    pub closed spec fn wf(&self) -> bool {
        self.sound() && self.at_rest()
    }

    /// The session's invariant, but for `at_rest`.
    closed spec fn sound(&self) -> bool {
        &&& self.shape()
        &&& self.bounded()
        &&& (self.phase == Phase::Compiling ==> {
            &&& self.group == 0 && self.pos == 0 && self.group_valid && self.group_score == 0
            &&& self.job.score == 0
            &&& self.job.result == Status::Running
            &&& self.job.state == JobStatus::Running
            &&& forall|i: int| 0 <= i < self.job.cases@.len() ==> (#[trigger] self.job.cases@[i]).result == Status::Waiting
            &&& !self.awaiting
        })
        &&& (self.phase == Phase::Judging ==> {
            &&& self.job.state == JobStatus::Running
            &&& self.job.result != Status::Accepted
            &&& (self.awaiting ==> self.group < self.plan@.len() && self.pos < self.plan@[self.group as int].len() && self.group_valid)
            &&& self.accounted(self.job.result == Status::Running)
        })
        &&& (self.phase == Phase::Done ==> {
            &&& self.job.state == JobStatus::Finished
            &&& !self.awaiting
            &&& self.group == self.plan@.len()
            &&& self.accounted(self.job.result == Status::Accepted)
        })
        &&& (self.phase == Phase::Stopped ==> {
            &&& self.job.state == JobStatus::Finished
            &&& self.job.result != Status::Accepted
            &&& !self.awaiting
            &&& self.accounted(false)
        })
    }
}

proof fn lemma_slots_mono(plan: Seq<Seq<int>>, a: int, b: int)
    requires
        0 <= a <= b,
    ensures
        slots(plan, a) <= slots(plan, b),
    decreases b - a,
{
    if a < b {
        lemma_slots_mono(plan, a, b - 1);
    }
}

/// `packed_total` reads the results only at the indices that the counted groups list.
proof fn lemma_total_frame(
    plan: Seq<Seq<int>>,
    n: int,
    r1: Seq<Status>,
    r2: Seq<Status>,
    scores: Seq<int>,
)
    requires
        0 <= n <= plan.len(),
        forall|g: int, k: int|
            0 <= g < n && 0 <= k < plan[g].len() ==> r1[#[trigger] plan[g][k]] == r2[plan[g][k]],
    ensures
        packed_total(plan, n, r1, scores) == packed_total(plan, n, r2, scores),
        forall|g: int| 0 <= g < n ==> group_value(#[trigger] plan[g], r1, scores) == group_value(plan[g], r2, scores),
        forall|g: int|
            0 <= g < n ==> skips_after_failure(#[trigger] plan[g], plan[g].len() as int, r1)
                == skips_after_failure(plan[g], plan[g].len() as int, r2),
    decreases n,
{
    if n > 0 {
        lemma_total_frame(plan, n - 1, r1, r2, scores);
        let grp = plan[n - 1];
        assert(all_accepted(grp, grp.len() as int, r1) == all_accepted(grp, grp.len() as int, r2)) by {
            assert forall|j: int| 0 <= j < grp.len() implies r1[#[trigger] grp[j]] == r2[grp[j]] by {
                assert(r1[plan[n - 1][j]] == r2[plan[n - 1][j]]);
            }
        }
        assert forall|g: int| 0 <= g < n implies skips_after_failure(#[trigger] plan[g], plan[g].len() as int, r1)
            == skips_after_failure(plan[g], plan[g].len() as int, r2) by {
            assert forall|j: int| 0 <= j < plan[g].len() implies r1[#[trigger] plan[g][j]] == r2[plan[g][j]] by {}
        }
    }
}

/// What a group's first `k` cases say reads the results only at their indices.
proof fn lemma_prefix_frame(group: Seq<int>, k: int, r1: Seq<Status>, r2: Seq<Status>)
    requires
        0 <= k <= group.len(),
        forall|j: int| 0 <= j < k ==> r1[#[trigger] group[j]] == r2[group[j]],
    ensures
        all_accepted(group, k, r1) == all_accepted(group, k, r2),
        skips_after_failure(group, k, r1) == skips_after_failure(group, k, r2),
{
}

/// In flat mode the packed total is the sum over accepted cases.
proof fn lemma_flat_total(n: nat, m: int, res: Seq<Status>, scores: Seq<int>)
    requires
        0 <= m <= n,
    ensures
        packed_total(flat_plan(n), m, res, scores) == flat_total(res, scores, m),
    decreases m,
{
    if m > 0 {
        lemma_flat_total(n, m - 1, res, scores);
        let grp = flat_plan(n)[m - 1];
        assert(grp == seq![m]);
        assert(group_sum(grp, 0, scores) == 0);
        assert(group_sum(grp, 1, scores) == scores[m - 1]);
        if res[m] == Status::Accepted {
            assert(all_accepted(grp, 1, res));
        } else {
            assert(res[grp[0]] != Status::Accepted);
        }
    }
}

fn set_result(job: &mut Job, i: usize, s: Status)
    requires
        i < old(job).cases@.len(),
    ensures
        final(job).cases@.len() == old(job).cases@.len(),
        results(*final(job)) == results(*old(job)).update(i as int, s),
        final(job).id == old(job).id,
        final(job).created_time == old(job).created_time,
        final(job).submission == old(job).submission,
        final(job).state == old(job).state,
        final(job).result == old(job).result,
        final(job).score == old(job).score,
        forall|j: int|
            0 <= j < final(job).cases@.len() ==> (#[trigger] final(job).cases@[j]).id == old(job).cases@[j].id,
        forall|j: int|
            0 <= j < final(job).cases@.len() ==> (#[trigger] final(job).cases@[j]).info == old(job).cases@[j].info,
{
    job.cases[i].result = s;
    assert(results(*job) =~= results(*old(job)).update(i as int, s));
}

fn set_usage(job: &mut Job, i: usize, usage: Resources)
    requires
        i < old(job).cases@.len(),
    ensures
        final(job).cases@.len() == old(job).cases@.len(),
        results(*final(job)) == results(*old(job)),
        final(job).id == old(job).id,
        final(job).created_time == old(job).created_time,
        final(job).submission == old(job).submission,
        final(job).state == old(job).state,
        final(job).result == old(job).result,
        final(job).score == old(job).score,
        final(job).cases@[i as int].time == usage.time,
        final(job).cases@[i as int].memory == usage.memory,
        forall|j: int|
            0 <= j < final(job).cases@.len() ==> (#[trigger] final(job).cases@[j]).id == old(job).cases@[j].id,
        forall|j: int|
            0 <= j < final(job).cases@.len() ==> (#[trigger] final(job).cases@[j]).info == old(job).cases@[j].info,
{
    job.cases[i].time = usage.time;
    job.cases[i].memory = usage.memory;
    assert(results(*job) =~= results(*old(job)));
}

fn set_info(job: &mut Job, i: usize, info: String)
    requires
        i < old(job).cases@.len(),
    ensures
        final(job).cases@.len() == old(job).cases@.len(),
        results(*final(job)) == results(*old(job)),
        final(job).id == old(job).id,
        final(job).created_time == old(job).created_time,
        final(job).submission == old(job).submission,
        final(job).state == old(job).state,
        final(job).result == old(job).result,
        final(job).score == old(job).score,
        final(job).cases@[i as int].info == info,
        forall|j: int|
            0 <= j < final(job).cases@.len() ==> (#[trigger] final(job).cases@[j]).id == old(job).cases@[j].id,
{
    job.cases[i].info = info;
    assert(results(*job) =~= results(*old(job)));
}

impl Problem {
    /// Whether the problem can be judged: every packed index names one of its cases,
    /// no case is listed twice, and it has at most `MAX_SLOTS` cases and case slots.
    pub fn fits(&self) -> (r: bool)
        ensures
            r == problem_fits(*self),
    {
        let n = self.cases.len();
        if n > MAX_SLOTS {
            return false;
        }
        match &self.misc {
            MiscType::Packed { packing } => {
                let ghost plan = plan_of(*self);
                let mut total: usize = 0;
                let mut seen: Vec<bool> = vec![false; n + 1];
                let ghost mut place: Seq<(int, int)> = Seq::new((n + 1) as nat, |x: int| (0int, 0int));
                let mut g: usize = 0;
                while g < packing.len()
                    invariant
                        plan == plan_of(*self),
                        self.misc == (MiscType::Packed { packing: *packing }),
                        n == self.cases@.len(),
                        n <= MAX_SLOTS,
                        g <= packing@.len(),
                        total == slots(plan, g as int),
                        total <= MAX_SLOTS,
                        seen@.len() == n + 1,
                        place.len() == n + 1,
                        forall|h: int, k: int|
                            0 <= h < g && 0 <= k < plan[h].len() ==> 1 <= #[trigger] plan[h][k] <= n,
                        forall|h: int, k: int|
                            0 <= h < g && 0 <= k < plan[h].len() ==> seen@[#[trigger] plan[h][k]],
                        forall|x: int|
                            0 <= x <= n && #[trigger] seen@[x] ==> {
                                let (h, k) = place[x];
                                &&& 0 <= h < g && 0 <= k < plan[h].len() && plan[h][k] == x
                            },
                        forall|h1: int, k1: int, h2: int, k2: int|
                            0 <= h1 < g && 0 <= k1 < plan[h1].len() && 0 <= h2 < g && 0 <= k2
                                < plan[h2].len() && (h1 != h2 || k1 != k2) ==> #[trigger] plan[h1][k1]
                                != #[trigger] plan[h2][k2],
                    decreases packing@.len() - g,
                {
                    let grp = &packing[g];
                    assert(plan[g as int].len() == grp@.len());
                    if grp.len() > MAX_SLOTS - total {
                        proof {
                            lemma_slots_mono(plan, g + 1, plan.len() as int);
                        }
                        return false;
                    }
                    total = total + grp.len();
                    let mut k: usize = 0;
                    while k < grp.len()
                        invariant
                            plan == plan_of(*self),
                            self.misc == (MiscType::Packed { packing: *packing }),
                            g < packing@.len(),
                            *grp == packing@[g as int],
                            plan[g as int].len() == grp@.len(),
                            n == self.cases@.len(),
                            k <= grp@.len(),
                            seen@.len() == n + 1,
                            place.len() == n + 1,
                            forall|h: int, j: int|
                                (0 <= h < g && 0 <= j < plan[h].len()) || (h == g && 0 <= j < k) ==> 1
                                    <= #[trigger] plan[h][j] <= n,
                            forall|h: int, j: int|
                                (0 <= h < g && 0 <= j < plan[h].len()) || (h == g && 0 <= j < k) ==> seen@[
                                    #[trigger] plan[h][j]],
                            forall|x: int|
                                0 <= x <= n && #[trigger] seen@[x] ==> {
                                    let (h, j) = place[x];
                                    &&& ((0 <= h < g && 0 <= j < plan[h].len()) || (h == g && 0 <= j < k))
                                    &&& plan[h][j] == x
                                },
                            forall|h1: int, k1: int, h2: int, k2: int|
                                ((0 <= h1 < g && 0 <= k1 < plan[h1].len()) || (h1 == g && 0 <= k1 < k)) && ((0
                                    <= h2 < g && 0 <= k2 < plan[h2].len()) || (h2 == g && 0 <= k2 < k)) && (h1
                                    != h2 || k1 != k2) ==> #[trigger] plan[h1][k1] != #[trigger] plan[h2][k2],
                        decreases grp@.len() - k,
                    {
                        assert(plan[g as int][k as int] == grp@[k as int] as int);
                        if grp[k] < 1 || grp[k] as usize > n {
                            return false;
                        }
                        let x = grp[k] as usize;
                        if seen[x] {
                            proof {
                                let (h, j) = place[x as int];
                                assert(plan[h][j] == plan[g as int][k as int]);
                            }
                            return false;
                        }
                        seen.set(x, true);
                        proof {
                            place = place.update(x as int, (g as int, k as int));
                        }
                        k = k + 1;
                    }
                    g = g + 1;
                }
                true
            },
            _ => {
                proof {
                    let plan = plan_of(*self);
                    assert(plan == flat_plan(n as nat));
                    lemma_flat_slots(n as int);
                    lemma_flat_distinct(n as nat);
                }
                true
            },
        }
    }
}

/// Sum of the scores of the first `n` cases.
pub open spec fn score_sum(cases: Seq<crate::models::Case>, n: int) -> int
    decreases n,
{
    if n <= 0 {
        0
    } else {
        score_sum(cases, n - 1) + cases[n - 1].score
    }
}

impl Problem {
    /// The most a job on this problem can score: the sum of its cases' scores.
    pub fn total_score(&self) -> (r: u64)
        requires
            self.cases@.len() <= MAX_SLOTS,
        ensures
            r == score_sum(self.cases@, self.cases@.len() as int),
    {
        let mut sum: u64 = 0;
        let mut i: usize = 0;
        while i < self.cases.len()
            invariant
                i <= self.cases@.len() <= MAX_SLOTS,
                sum == score_sum(self.cases@, i as int),
                sum <= i * case_cap(),
            decreases self.cases@.len() - i,
        {
            proof {
                let k = i as int;
                assert(k * case_cap() + case_cap() == (k + 1) * case_cap()) by (nonlinear_arith);
                assert((k + 1) * case_cap() <= MAX_SLOTS * case_cap()) by (nonlinear_arith)
                    requires k + 1 <= MAX_SLOTS, k >= 0;
            }
            sum = sum + self.cases[i].score as u64;
            i = i + 1;
        }
        sum
    }
}

proof fn lemma_flat_distinct(n: nat)
    ensures
        plan_distinct(flat_plan(n)),
{
    let plan = flat_plan(n);
    assert forall|g1: int, k1: int, g2: int, k2: int|
        0 <= g1 < plan.len() && 0 <= k1 < plan[g1].len() && 0 <= g2 < plan.len() && 0 <= k2
            < plan[g2].len() && (g1 != g2 || k1 != k2) implies #[trigger] plan[g1][k1]
        != #[trigger] plan[g2][k2] by {
        assert(plan[g1] == seq![g1 + 1]);
        assert(plan[g2] == seq![g2 + 1]);
    }
}

proof fn lemma_flat_slots(n: int)
    requires
        n >= 0,
    ensures
        slots(flat_plan(n as nat), n) == n,
{
    lemma_flat_slots_prefix(n as nat, n);
}

proof fn lemma_flat_slots_prefix(n: nat, m: int)
    requires
        0 <= m <= n,
    ensures
        slots(flat_plan(n), m) == m,
    decreases m,
{
    if m > 0 {
        lemma_flat_slots_prefix(n, m - 1);
        assert(flat_plan(n)[m - 1] == seq![m]);
    }
}

/// The groups of case indices that a problem is judged by, as `plan_of` gives them.
fn build_plan(problem: &Problem) -> (r: Vec<Vec<usize>>)
    requires
        problem_fits(*problem),
    ensures
        r@.len() == plan_of(*problem).len(),
        forall|g: int| 0 <= g < r@.len() ==> (#[trigger] r@[g])@.len() == plan_of(*problem)[g].len(),
        forall|g: int, k: int|
            0 <= g < r@.len() && 0 <= k < plan_of(*problem)[g].len() ==> #[trigger] r@[g]@[k] as int
                == plan_of(*problem)[g][k],
{
    let ghost plan = plan_of(*problem);
    let mut r: Vec<Vec<usize>> = Vec::new();
    match &problem.misc {
        MiscType::Packed { packing } => {
            let mut g: usize = 0;
            while g < packing.len()
                invariant
                    plan == plan_of(*problem),
                    problem_fits(*problem),
                    problem.misc == (MiscType::Packed { packing: *packing }),
                    g <= packing@.len(),
                    r@.len() == g,
                    forall|h: int| 0 <= h < g ==> (#[trigger] r@[h])@.len() == plan[h].len(),
                    forall|h: int, k: int|
                        0 <= h < g && 0 <= k < plan[h].len() ==> #[trigger] r@[h]@[k] as int == plan[h][k],
                decreases packing@.len() - g,
            {
                let src = &packing[g];
                let mut grp: Vec<usize> = Vec::new();
                let mut k: usize = 0;
                while k < src.len()
                    invariant
                        plan == plan_of(*problem),
                        problem_fits(*problem),
                        problem.misc == (MiscType::Packed { packing: *packing }),
                        g < packing@.len(),
                        *src == packing@[g as int],
                        k <= src@.len(),
                        grp@.len() == k,
                        forall|j: int| 0 <= j < k ==> #[trigger] grp@[j] as int == plan[g as int][j],
                    decreases src@.len() - k,
                {
                    assert(plan[g as int][k as int] == src@[k as int] as int);
                    assert(1 <= plan[g as int][k as int]);
                    grp.push(src[k] as usize);
                    k = k + 1;
                }
                r.push(grp);
                g = g + 1;
            }
        },
        _ => {
            let n = problem.cases.len();
            let mut i: usize = 0;
            while i < n
                invariant
                    plan == plan_of(*problem),
                    plan == flat_plan(problem.cases@.len()),
                    problem_fits(*problem),
                    n == problem.cases@.len(),
                    i <= n,
                    r@.len() == i,
                    forall|h: int| 0 <= h < i ==> (#[trigger] r@[h])@.len() == plan[h].len(),
                    forall|h: int, k: int|
                        0 <= h < i && 0 <= k < plan[h].len() ==> #[trigger] r@[h]@[k] as int == plan[h][k],
                decreases n - i,
            {
                let mut grp: Vec<usize> = Vec::new();
                grp.push(i + 1);
                r.push(grp);
                i = i + 1;
            }
        },
    }
    r
}

impl Judging {
    /// Starts judging `job` against `problem`: the job becomes running, with a score
    /// of 0 and every step waiting. The compile step's outcome comes next.
    pub fn new(job: Job, problem: &Problem) -> (r: Judging)
        requires
            problem_fits(*problem),
            job.cases@.len() == problem.cases@.len() + 1,
        ensures
            r.wf(),
            r.phase() == Phase::Compiling,
            !r.is_awaiting(),
            r.plan() == plan_of(*problem),
            r.scores() == case_scores(*problem),
            r.case_count() == problem.cases@.len(),
            r.job().id == job.id,
            r.job().created_time == job.created_time,
            r.job().submission == job.submission,
            r.job().state == JobStatus::Running,
            r.job().result == Status::Running,
            r.job().score == 0,
            r.job().cases@.len() == job.cases@.len(),
            forall|i: int|
                0 <= i < r.job().cases@.len() ==> (#[trigger] r.job().cases@[i]).result == Status::Waiting
                    && r.job().cases@[i].id == job.cases@[i].id,
    {
        let ghost j0 = job;
        let mut job = job;
        let ghost ids = job.cases@.map_values(|c: JobCase| c.id);
        let mut i: usize = 0;
        while i < job.cases.len()
            invariant
                i <= job.cases@.len(),
                ids.len() == job.cases@.len(),
                job.id == j0.id,
                job.created_time == j0.created_time,
                job.submission == j0.submission,
                forall|j: int| 0 <= j < job.cases@.len() ==> (#[trigger] job.cases@[j]).id == ids[j],
                forall|j: int| 0 <= j < i ==> (#[trigger] job.cases@[j]).result == Status::Waiting,
            decreases job.cases@.len() - i,
        {
            set_result(&mut job, i, Status::Waiting);
            assert forall|j: int| 0 <= j < i + 1 implies (#[trigger] job.cases@[j]).result == Status::Waiting by {
                assert(results(job)[j] == job.cases@[j].result);
            }
            i = i + 1;
        }
        job.score = 0;
        job.result = Status::Running;
        job.state = JobStatus::Running;
        job.updated_time = now_micros();
        let groups = build_plan(problem);
        let mut scores: Vec<u32> = Vec::new();
        let mut k: usize = 0;
        while k < problem.cases.len()
            invariant
                k <= problem.cases@.len(),
                scores@.len() == k,
                forall|j: int| 0 <= j < k ==> #[trigger] scores@[j] == problem.cases@[j].score,
            decreases problem.cases@.len() - k,
        {
            scores.push(problem.cases[k].score);
            k = k + 1;
        }
        let r = Judging {
            job,
            groups,
            scores,
            group: 0,
            pos: 0,
            group_valid: true,
            group_score: 0,
            phase: Phase::Compiling,
            awaiting: false,
            plan: Ghost(plan_of(*problem)),
            n: Ghost(problem.cases@.len()),
        };
        assert(r.scores() =~= case_scores(*problem));
        assert(slots(r.plan@, 0) == 0);
        r
    }

    /// The job as it stands.
    pub fn current(&self) -> (r: &Job)
        ensures
            *r == self.job(),
    {
        &self.job
    }

    /// The job, ending the session.
    pub fn into_job(self) -> (r: Job)
        ensures
            r == self.job(),
    {
        self.job
    }

    /// Whether the compile step's outcome is awaited.
    pub fn is_compiling(&self) -> (r: bool)
        ensures
            r == (self.phase() == Phase::Compiling),
    {
        self.phase == Phase::Compiling
    }

    /// Whether cases are being judged.
    pub fn is_judging(&self) -> (r: bool)
        ensures
            r == (self.phase() == Phase::Judging),
    {
        self.phase == Phase::Judging
    }

    /// Whether a case was handed out and its outcome is awaited.
    pub fn awaits_case(&self) -> (r: bool)
        ensures
            r == self.is_awaiting(),
    {
        self.awaiting
    }

    /// Whether the job is finished.
    pub fn is_finished(&self) -> (r: bool)
        requires
            self.wf(),
        ensures
            r == (self.phase() == Phase::Done || self.phase() == Phase::Stopped),
            r == (self.job().state == JobStatus::Finished),
    {
        self.phase == Phase::Done || self.phase == Phase::Stopped
    }

    /// The compile step failed: the job is finished with a compilation error and no
    /// case is judged.
    pub fn compile_failed(&mut self)
        requires
            old(self).wf(),
            old(self).phase() == Phase::Compiling,
        ensures
            final(self).wf(),
            final(self).phase() == Phase::Stopped,
            final(self).job().state == JobStatus::Finished,
            final(self).job().result == Status::CompilationError,
            final(self).job().score == 0,
            final(self).job().cases@.len() == old(self).job().cases@.len(),
            results(final(self).job()) == results(old(self).job()).update(0, Status::CompilationError),
            forall|i: int|
                1 <= i < final(self).job().cases@.len() ==> #[trigger] results(final(self).job())[i]
                    == Status::Waiting,
            final(self).job().id == old(self).job().id,
            final(self).job().submission == old(self).job().submission,
            final(self).job().created_time == old(self).job().created_time,
    {
        let ghost before = results(self.job);
        set_result(&mut self.job, 0, Status::CompilationError);
        assert forall|i: int| 1 <= i < self.job.cases@.len() implies #[trigger] results(self.job)[i]
            == Status::Waiting by {
            assert(before[i] == old(self).job.cases@[i].result);
        }
        self.job.result = Status::CompilationError;
        self.job.state = JobStatus::Finished;
        self.job.updated_time = now_micros();
        self.phase = Phase::Stopped;
    }

    /// The compile step succeeded: the cases are judged next.
    pub fn compile_succeeded(&mut self)
        requires
            old(self).wf(),
            old(self).phase() == Phase::Compiling,
        ensures
            final(self).wf(),
            final(self).phase() == Phase::Judging,
            !final(self).is_awaiting(),
            final(self).cursor() == (0int, 0int),
            final(self).job().state == JobStatus::Running,
            final(self).job().result == Status::Running,
            final(self).job().score == 0,
            results(final(self).job()) == results(old(self).job()).update(0, Status::CompilationSuccess),
            final(self).plan() == old(self).plan(),
            final(self).scores() == old(self).scores(),
            final(self).case_count() == old(self).case_count(),
            final(self).job().id == old(self).job().id,
            final(self).job().submission == old(self).job().submission,
            final(self).job().created_time == old(self).job().created_time,
    {
        set_result(&mut self.job, 0, Status::CompilationSuccess);
        self.job.updated_time = now_micros();
        self.phase = Phase::Judging;
        proof {
            let plan = self.plan@;
            if self.group < plan.len() {
                assert(all_accepted(plan[0], 0, results(self.job)));
            }
            assert(packed_total(plan, 0, results(self.job), self.scores()) == 0);
        }
    }

    /// A host-side failure (a file or process could not be handled): the job is
    /// finished with a system error.
    pub fn fail(&mut self)
        requires
            old(self).wf(),
        ensures
            final(self).wf(),
            final(self).phase() == Phase::Stopped,
            final(self).job().state == JobStatus::Finished,
            final(self).job().result == Status::SystemError,
            final(self).job().score == old(self).job().score,
            final(self).job().cases@ == old(self).job().cases@,
            final(self).job().id == old(self).job().id,
            final(self).job().submission == old(self).job().submission,
            final(self).job().created_time == old(self).job().created_time,
    {
        self.job.result = Status::SystemError;
        self.job.state = JobStatus::Finished;
        self.job.updated_time = now_micros();
        self.phase = Phase::Stopped;
        self.awaiting = false;
    }

    /// Adds the score of the group that is through to the job and moves to the next.
    fn close_group(&mut self)
        requires
            old(self).sound(),
            old(self).phase == Phase::Judging,
            !old(self).awaiting,
            old(self).group < old(self).plan@.len(),
            old(self).pos == old(self).plan@[old(self).group as int].len(),
        ensures
            final(self).wf(),
            final(self).phase == Phase::Judging,
            !final(self).awaiting,
            final(self).group == old(self).group + 1,
            final(self).pos == 0,
            final(self).plan@ == old(self).plan@,
            final(self).scores() == old(self).scores(),
            final(self).n@ == old(self).n@,
            final(self).job.result == old(self).job.result,
            final(self).job.id == old(self).job.id,
            final(self).job.submission == old(self).job.submission,
            final(self).job.created_time == old(self).job.created_time,
            final(self).job.cases@ == old(self).job.cases@,
    {
        let ghost plan = self.plan@;
        let ghost res = results(self.job);
        let ghost cur = plan[self.group as int];
        proof {
            let g = self.group as int;
            lemma_slots_mono(plan, g + 1, plan.len() as int);
            assert(slots(plan, g + 1) == slots(plan, g) + cur.len());
            let a = slots(plan, g);
            let b = cur.len() as int;
            assert(a * case_cap() + b * case_cap() == (a + b) * case_cap()) by (nonlinear_arith);
            assert((a + b) * case_cap() <= MAX_SLOTS * case_cap()) by (nonlinear_arith)
                requires a + b <= MAX_SLOTS, 0 <= a, 0 <= b;
        }
        let count = self.groups.len();
        assert(self.group < count);
        self.job.score = self.job.score + self.group_score;
        self.group = self.group + 1;
        self.pos = 0;
        self.group_valid = true;
        self.group_score = 0;
        self.job.updated_time = now_micros();
        proof {
            if self.group < plan.len() {
                assert(all_accepted(plan[self.group as int], 0, res));
            }
        }
    }

    /// Hands out the next case to run (its 1-based index) and marks it running. On the
    /// way, the cases left in a group that already failed are marked skipped, and each
    /// group's score is added once the group is through. `None` when every group is
    /// through: the job is then finished, accepted if nothing failed it.
    pub fn next_case(&mut self) -> (r: Option<usize>)
        requires
            old(self).wf(),
            old(self).phase() == Phase::Judging,
            !old(self).is_awaiting(),
        ensures
            final(self).wf(),
            final(self).plan() == old(self).plan(),
            final(self).scores() == old(self).scores(),
            final(self).case_count() == old(self).case_count(),
            final(self).job().id == old(self).job().id,
            final(self).job().submission == old(self).job().submission,
            final(self).job().created_time == old(self).job().created_time,
            final(self).job().cases@.len() == old(self).job().cases@.len(),
            !slot_before(final(self).cursor(), old(self).cursor()),
            forall|p: (int, int)|
                is_slot(final(self).plan(), p) && !slot_before(p, old(self).cursor()) && slot_before(
                    p,
                    final(self).cursor(),
                ) ==> results(final(self).job())[#[trigger] slot_case(final(self).plan(), p)]
                    == Status::Skipped && failed_before(final(self).plan(), results(final(self).job()), p),
            forall|x: int|
                0 <= x < results(old(self).job()).len() && results(final(self).job())[x] != results(
                    old(self).job(),
                )[x] ==> #[trigger] listed_between(final(self).plan(), old(self).cursor(), final(self).cursor(), x)
                    || r == Some(x as usize),
            match r {
                Some(i) => {
                    &&& final(self).phase() == Phase::Judging
                    &&& final(self).is_awaiting()
                    &&& is_slot(final(self).plan(), final(self).cursor())
                    &&& i == slot_case(final(self).plan(), final(self).cursor())
                    &&& final(self).awaited_case() == i
                    &&& 1 <= i <= final(self).case_count()
                    &&& final(self).job().result == old(self).job().result
                    &&& results(final(self).job())[i as int] == Status::Running
                },
                None => {
                    &&& final(self).phase() == Phase::Done
                    &&& final(self).cursor() == (final(self).plan().len() as int, 0int)
                    &&& final(self).job().state == JobStatus::Finished
                    &&& final(self).job().result == if old(self).job().result == Status::Running {
                        Status::Accepted
                    } else {
                        old(self).job().result
                    }
                },
            },
    {
        let ghost plan = self.plan@;
        let ghost result0 = self.job.result;
        let ghost c0 = (self.group as int, self.pos as int);
        let ghost res0 = results(self.job);
        loop
            invariant
                self.wf(),
                self.phase == Phase::Judging,
                !self.awaiting,
                self.plan@ == plan,
                plan == old(self).plan@,
                c0 == old(self).cursor(),
                res0 == results(old(self).job),
                self.job.cases@.len() == old(self).job.cases@.len(),
                !slot_before(self.cursor(), c0),
                forall|p: (int, int)|
                    is_slot(plan, p) && !slot_before(p, c0) && slot_before(p, self.cursor())
                        ==> results(self.job)[#[trigger] slot_case(plan, p)] == Status::Skipped
                        && failed_before(plan, results(self.job), p),
                forall|x: int|
                    0 <= x < res0.len() && results(self.job)[x] != res0[x] ==> #[trigger] listed_between(
                        plan,
                        c0,
                        self.cursor(),
                        x,
                    ),
                self.scores() == old(self).scores(),
                self.n@ == old(self).n@,
                self.job.result == result0,
                result0 == old(self).job.result,
                self.job.id == old(self).job.id,
                self.job.submission == old(self).job.submission,
                self.job.created_time == old(self).job.created_time,
            decreases plan.len() - self.group, if self.group < plan.len() {
                plan[self.group as int].len() - self.pos
            } else {
                0
            },
        {
            if self.group == self.groups.len() {
                if self.job.result == Status::Running {
                    self.job.result = Status::Accepted;
                }
                self.job.state = JobStatus::Finished;
                self.job.updated_time = now_micros();
                self.phase = Phase::Done;
                return None;
            }
            let ghost res = results(self.job);
            let ghost cur = plan[self.group as int];
            if self.pos == self.groups[self.group].len() {
                let ghost before = self.cursor();
                self.close_group();
                proof {
                    assert forall|x: int|
                        0 <= x < res0.len() && results(self.job)[x] != res0[x] implies #[trigger] listed_between(
                        plan,
                        c0,
                        self.cursor(),
                        x,
                    ) by {
                        lemma_listed_grow(plan, c0, before, self.cursor(), x);
                    }
                }
                continue;
            }
            let i = self.groups[self.group][self.pos];
            proof {
                assert(self.groups@[self.group as int]@[self.pos as int] as int == cur[self.pos as int]);
            }
            if !self.group_valid {
                let ghost before = self.cursor();
                set_result(&mut self.job, i, Status::Skipped);
                self.job.updated_time = now_micros();
                proof {
                    let res1 = results(self.job);
                    lemma_total_frame(plan, self.group as int, res1, res, self.scores());
                    lemma_prefix_frame(cur, self.pos as int, res1, res);
                }
                self.pos = self.pos + 1;
                proof {
                    let res1 = results(self.job);
                    assert(!all_accepted(cur, self.pos as int, res1)) by {
                        assert(!all_accepted(cur, self.pos - 1, res1));
                    }
                    assert(slot_case(plan, before) == i);
                    assert forall|x: int|
                        0 <= x < res0.len() && results(self.job)[x] != res0[x] implies #[trigger] listed_between(
                        plan,
                        c0,
                        self.cursor(),
                        x,
                    ) by {
                        if x == i {
                            assert(is_slot(plan, before) && !slot_before(before, c0) && slot_before(before, self.cursor()));
                        } else {
                            lemma_listed_grow(plan, c0, before, self.cursor(), x);
                        }
                    }
                    assert forall|p: (int, int)|
                        is_slot(plan, p) && !slot_before(p, c0) && slot_before(p, self.cursor())
                            implies results(self.job)[#[trigger] slot_case(plan, p)] == Status::Skipped
                            && failed_before(plan, results(self.job), p) by {
                        assert forall|j: int| 0 <= j < p.1 implies res[#[trigger] plan[p.0][j]] == res1[plan[p.0][j]] by {
                            assert(slot_case(plan, (p.0, j)) != slot_case(plan, before));
                        }
                        if p != before {
                            assert(slot_case(plan, p) != slot_case(plan, before));
                            lemma_failed_frame(plan, res, res1, p);
                        } else {
                            assert(!all_accepted(cur, before.1, res));
                            let j = choose|j: int| 0 <= j < before.1 && res[#[trigger] cur[j]] != Status::Accepted;
                            assert(res1[plan[p.0][j]] != Status::Accepted);
                        }
                    }
                }
                if self.pos == self.groups[self.group].len() {
                    let ghost mid = self.cursor();
                    self.close_group();
                    proof {
                        assert forall|x: int|
                            0 <= x < res0.len() && results(self.job)[x] != res0[x] implies #[trigger] listed_between(
                            plan,
                            c0,
                            self.cursor(),
                            x,
                        ) by {
                            lemma_listed_grow(plan, c0, mid, self.cursor(), x);
                        }
                    }
                }
                continue;
            }
            let ghost at = self.cursor();
            set_result(&mut self.job, i, Status::Running);
            self.job.updated_time = now_micros();
            self.awaiting = true;
            proof {
                assert(slot_case(plan, at) == i);
                let res1 = results(self.job);
                assert forall|p: (int, int)|
                    is_slot(plan, p) && !slot_before(p, c0) && slot_before(p, self.cursor())
                        implies results(self.job)[#[trigger] slot_case(plan, p)] == Status::Skipped
                        && failed_before(plan, results(self.job), p) by {
                    assert(slot_case(plan, p) != slot_case(plan, at));
                    assert forall|j: int| 0 <= j < p.1 implies res[#[trigger] plan[p.0][j]] == res1[plan[p.0][j]] by {
                        assert(slot_case(plan, (p.0, j)) != slot_case(plan, at));
                    }
                    lemma_failed_frame(plan, res, res1, p);
                }
                lemma_total_frame(plan, self.group as int, res1, res, self.scores());
                lemma_prefix_frame(cur, self.pos as int, res1, res);
            }
            return Some(i);
        }
    }

    /// Records the outcome of the case handed out last: its verdict, the special
    /// judge's message if there is one, and what the run used. An accepted case adds
    /// its score to its group; any other verdict voids the group and, if nothing has
    /// failed the job yet, becomes the job's result. A reported `Running` is recorded
    /// as a special-judge error (see `recorded_as`). Once a group's
    /// last case is in, the group's score goes to the job.
    pub fn record(&mut self, verdict: Status, info: Option<String>, usage: Resources)
        requires
            old(self).wf(),
            old(self).phase() == Phase::Judging,
            old(self).is_awaiting(),
        ensures
            final(self).wf(),
            final(self).phase() == Phase::Judging,
            !final(self).is_awaiting(),
            final(self).plan() == old(self).plan(),
            final(self).scores() == old(self).scores(),
            final(self).case_count() == old(self).case_count(),
            final(self).job().id == old(self).job().id,
            final(self).job().submission == old(self).job().submission,
            final(self).job().created_time == old(self).job().created_time,
            results(final(self).job()) == results(old(self).job()).update(
                old(self).awaited_case(),
                recorded_as(verdict),
            ),
            final(self).job().result == if recorded_as(verdict) != Status::Accepted && old(
                self,
            ).job().result == Status::Running {
                recorded_as(verdict)
            } else {
                old(self).job().result
            },
            1 <= old(self).awaited_case() <= old(self).case_count(),
            is_slot(old(self).plan(), old(self).cursor()),
            old(self).awaited_case() == slot_case(old(self).plan(), old(self).cursor()),
            final(self).cursor() == next_slot(old(self).plan(), old(self).cursor()),
            final(self).job().cases@.len() == old(self).job().cases@.len(),
            old(self).job().cases@.len() == old(self).case_count() + 1,
            final(self).job().cases@[old(self).awaited_case()].time == usage.time,
            final(self).job().cases@[old(self).awaited_case()].memory == usage.memory,
            info matches Some(m) ==> final(self).job().cases@[old(self).awaited_case()].info == m,
            info is None ==> final(self).job().cases@[old(self).awaited_case()].info == old(
                self,
            ).job().cases@[old(self).awaited_case()].info,
    {
        let ghost plan = self.plan@;
        let ghost res = results(self.job);
        let ghost cur = plan[self.group as int];
        let i = self.groups[self.group][self.pos];
        proof {
            assert(self.groups@[self.group as int]@[self.pos as int] as int == cur[self.pos as int]);
            let g = self.group as int;
            let a = slots(plan, g);
            let p = self.pos as int;
            lemma_slots_mono(plan, g + 1, plan.len() as int);
            assert(p * case_cap() + case_cap() == (p + 1) * case_cap()) by (nonlinear_arith);
            assert((p + 1) * case_cap() <= MAX_SLOTS * case_cap()) by (nonlinear_arith)
                requires p + 1 <= MAX_SLOTS, 0 <= p;
        }
        let verdict = recorded_verdict(verdict);
        match info {
            Some(message) => set_info(&mut self.job, i, message),
            None => {},
        }
        if verdict == Status::Accepted {
            set_result(&mut self.job, i, Status::Accepted);
            self.group_score = self.group_score + self.scores[i - 1] as u64;
        } else {
            self.group_valid = false;
            self.group_score = 0;
            set_result(&mut self.job, i, verdict);
            if self.job.result == Status::Running {
                self.job.result = verdict;
            }
        }
        set_usage(&mut self.job, i, usage);
        self.job.updated_time = now_micros();
        proof {
            let res1 = results(self.job);
            lemma_total_frame(plan, self.group as int, res1, res, self.scores());
            lemma_prefix_frame(cur, self.pos as int, res1, res);
            assert(group_sum(cur, self.pos + 1, self.scores()) == group_sum(cur, self.pos as int, self.scores())
                + self.scores()[cur[self.pos as int] - 1]);
        }
        self.pos = self.pos + 1;
        self.awaiting = false;
        if self.pos == self.groups[self.group].len() {
            self.close_group();
        }
    }
}

/// A session that has ended leaves its job finished, with one record for the
/// compile step and one for each case.
pub proof fn law_finished_job(s: &Judging)
    requires
        s.wf(),
        s.phase() == Phase::Done || s.phase() == Phase::Stopped,
    ensures
        s.job().state == JobStatus::Finished,
        s.job().cases@.len() == s.case_count() + 1,
{
}

/// Judged case by case, a finished job's score is the sum of the scores of its
/// accepted cases, whether every case was judged or the job was stopped early.
pub proof fn law_flat_score(s: &Judging)
    requires
        s.wf(),
        s.phase() == Phase::Done || s.phase() == Phase::Stopped,
        s.plan() == flat_plan(s.case_count()),
    ensures
        s.job().score == flat_total(results(s.job()), s.scores(), s.case_count() as int),
{
    let plan = s.plan();
    let n = s.case_count();
    let res = results(s.job());
    let g = s.group as int;
    lemma_flat_total(n, g, res, s.scores());
    assert forall|i: int| g < i <= n implies res[i] != Status::Accepted by {
        assert(plan[i - 1] == seq![i]);
        assert(!s.done(i - 1, 0));
        assert(res[plan[i - 1][0]] != Status::Accepted);
    }
    lemma_flat_tail(res, s.scores(), g, n as int);
}

proof fn lemma_flat_tail(res: Seq<Status>, scores: Seq<int>, g: int, m: int)
    requires
        0 <= g <= m,
        forall|i: int| g < i <= m ==> res[i] != Status::Accepted,
    ensures
        flat_total(res, scores, m) == flat_total(res, scores, g),
    decreases m - g,
{
    if m > g {
        lemma_flat_tail(res, scores, g, m - 1);
    }
}

/// A finished job's score is the sum, over the
/// groups whose cases were all accepted, of their cases' scores, whether every case
/// was judged or the job was stopped early. When every case was judged, within each
/// group every case after one that was not accepted is skipped.
pub proof fn law_packed_score(s: &Judging)
    requires
        s.wf(),
        s.phase() == Phase::Done || s.phase() == Phase::Stopped,
    ensures
        s.job().score == packed_total(
            s.plan(),
            s.plan().len() as int,
            results(s.job()),
            s.scores(),
        ),
        s.phase() == Phase::Done ==> forall|g: int|
            0 <= g < s.plan().len() ==> skips_after_failure(
                #[trigger] s.plan()[g],
                s.plan()[g].len() as int,
                results(s.job()),
            ),
{
    let plan = s.plan();
    let res = results(s.job());
    let g = s.group as int;
    assert forall|h: int| g <= h < plan.len() implies group_value(#[trigger] plan[h], res, s.scores()) == 0 by {
        if plan[h].len() > 0 {
            let k = if h == g { s.pos as int } else { 0 };
            assert(!s.done(h, k));
            assert(res[plan[h][k]] != Status::Accepted);
            assert(!all_accepted(plan[h], plan[h].len() as int, res));
        }
    }
    lemma_packed_tail(plan, g, plan.len() as int, res, s.scores());
}

proof fn lemma_packed_tail(plan: Seq<Seq<int>>, g: int, m: int, res: Seq<Status>, scores: Seq<int>)
    requires
        0 <= g <= m <= plan.len(),
        forall|h: int| g <= h < m ==> group_value(#[trigger] plan[h], res, scores) == 0,
    ensures
        packed_total(plan, m, res, scores) == packed_total(plan, g, res, scores),
    decreases m - g,
{
    if m > g {
        lemma_packed_tail(plan, g, m - 1, res, scores);
    }
}

/// A finished job is accepted only if every case was accepted, where the groups
/// list every case.
pub proof fn law_accepted_means_all_cases(s: &Judging)
    requires
        s.wf(),
        s.phase() == Phase::Done || s.phase() == Phase::Stopped,
        plan_covers(s.plan(), s.case_count() as int),
    ensures
        s.job().result == Status::Accepted ==> forall|i: int|
            1 <= i <= s.case_count() ==> #[trigger] results(s.job())[i] == Status::Accepted,
{
    if s.job().result == Status::Accepted {
        let plan = s.plan();
        let res = results(s.job());
        assert forall|i: int| 1 <= i <= s.case_count() implies #[trigger] res[i] == Status::Accepted by {
            assert(listed(plan, i));
            let (g, k) = choose|g: int, k: int|
                0 <= g < plan.len() && 0 <= k < plan[g].len() && #[trigger] plan[g][k] == i;
            assert(s.done(g, k));
        }
    }
}

} // verus!
