//! The worker's in-memory state: the queue of jobs not yet stored, the job being
//! judged, the id counters, and the rules that admit, cancel and rerun jobs. The
//! store lives outside; what it holds is handed in as plain values.
use vstd::prelude::*;

use crate::clock::now_micros;
use crate::engine::{
    failed_before, is_slot, problem_fits, recorded_as, results, slot_before, slot_case, Judging, Phase,
};
use crate::models::{
    Config, Contest, Error, Job, JobCase, JobRequest, JobStatus, Language, Problem, Resources, Status, User,
    CODE_INVALID_ARGUMENT, CODE_INVALID_STATE, CODE_NOT_FOUND, CODE_RATE_LIMIT, CODE_INTERNAL,
};
use crate::ranking::{ranked, ranklist, same_jobs};
use crate::models::{Ranking, ScoringRule, TieBreaker};
use crate::text::same_text;

verus! {

/// A job as it is first queued: waiting, unscored, one waiting record for the
/// compile step and for each of `n` cases.
pub open spec fn is_fresh(job: Job, id: i32, submission: JobRequest, n: nat) -> bool {
    &&& job.id == id
    &&& job.submission == submission
    &&& job.state == JobStatus::Queueing
    &&& job.result == Status::Waiting
    &&& job.score == 0
    &&& job.cases@.len() == n + 1
    &&& forall|i: int|
        0 <= i <= n ==> {
            &&& (#[trigger] job.cases@[i]).id == i
            &&& job.cases@[i].result == Status::Waiting
            &&& job.cases@[i].time == 0
            &&& job.cases@[i].memory == 0
            &&& job.cases@[i].info@.len() == 0
        }
}

impl Job {
    /// A fresh job for a problem with `case_len` cases, created now.
    pub fn new(id: i32, submission: &JobRequest, case_len: usize) -> (r: Job)
        requires
            case_len < i32::MAX,
        ensures
            is_fresh(r, id, *submission, case_len as nat),
            r.created_time == r.updated_time,
    {
        let mut cases: Vec<JobCase> = Vec::new();
        let mut i: usize = 0;
        while i <= case_len
            invariant
                case_len < i32::MAX,
                i <= case_len + 1,
                cases@.len() == i,
                forall|j: int|
                    0 <= j < i ==> {
                        &&& (#[trigger] cases@[j]).id == j
                        &&& cases@[j].result == Status::Waiting
                        &&& cases@[j].time == 0
                        &&& cases@[j].memory == 0
                        &&& cases@[j].info@.len() == 0
                    },
            decreases case_len + 1 - i,
        {
            cases.push(JobCase { id: i as i32, result: Status::Waiting, time: 0, memory: 0, info: String::new() });
            i = i + 1;
        }
        let now = now_micros();
        Job {
            id,
            created_time: now,
            updated_time: now,
            submission: submission.duplicate(),
            state: JobStatus::Queueing,
            result: Status::Waiting,
            score: 0,
            cases,
        }
    }
}

/// The job counts toward the cap of `req`'s contest, problem and user.
pub open spec fn same_slot(job: Job, req: JobRequest) -> bool {
    &&& job.submission.contest_id == req.contest_id
    &&& job.submission.problem_id == req.problem_id
    &&& job.submission.user_id == req.user_id
}

/// How many of `jobs` count toward the cap of `req`.
pub open spec fn slot_count(jobs: Seq<Job>, req: JobRequest) -> int
    decreases jobs.len(),
{
    if jobs.len() == 0 {
        0
    } else {
        slot_count(jobs.drop_last(), req) + if same_slot(jobs.last(), req) {
            1int
        } else {
            0
        }
    }
}

/// The first problem with this id, if any.
pub open spec fn find_problem(problems: Seq<Problem>, id: i32) -> Option<int> {
    if exists|i: int| 0 <= i < problems.len() && #[trigger] problems[i].id == id {
        Some(choose|i: int| 0 <= i < problems.len() && #[trigger] problems[i].id == id
            && forall|j: int| 0 <= j < i ==> (#[trigger] problems[j]).id != id)
    } else {
        None
    }
}

/// Some language has this name.
pub open spec fn has_language(languages: Seq<Language>, name: Seq<char>) -> bool {
    exists|i: int| 0 <= i < languages.len() && (#[trigger] languages[i]).name@ == name
}

/// The submission gate: the error code a request gets, checked in order, or `None`
/// when it is admitted. `existing` is every job known (queued or stored).
pub open spec fn gate(
    req: JobRequest,
    user_exists: bool,
    problems: Seq<Problem>,
    contest: Option<Contest>,
    existing: Seq<Job>,
    languages: Seq<Language>,
) -> Option<i32> {
    if !user_exists {
        Some(CODE_NOT_FOUND)
    } else if !(exists|i: int| 0 <= i < problems.len() && #[trigger] problems[i].id == req.problem_id) {
        Some(CODE_NOT_FOUND)
    } else if req.contest_id != 0 && contest is None {
        Some(CODE_NOT_FOUND)
    } else if req.contest_id != 0 && (!contest->0.problem_ids@.contains(req.problem_id)
        || !contest->0.user_ids@.contains(req.user_id)) {
        Some(CODE_INVALID_ARGUMENT)
    } else if req.contest_id != 0 && slot_count(existing, req) >= contest->0.submission_limit {
        Some(CODE_RATE_LIMIT)
    } else if !has_language(languages, req.language@) {
        Some(CODE_NOT_FOUND)
    } else {
        None
    }
}

/// Counts the jobs of `jobs` that count toward the cap of `req`.
fn count_slot(jobs: &Vec<Job>, req: &JobRequest) -> (r: u64)
    ensures
        r == slot_count(jobs@, *req),
{
    let mut c: u64 = 0;
    let mut i: usize = 0;
    while i < jobs.len()
        invariant
            i <= jobs@.len(),
            c == slot_count(jobs@.take(i as int), *req),
            c <= i,
        decreases jobs@.len() - i,
    {
        assert(jobs@.take(i + 1).drop_last() =~= jobs@.take(i as int));
        let j = &jobs[i];
        if j.submission.contest_id == req.contest_id && j.submission.problem_id == req.problem_id
            && j.submission.user_id == req.user_id {
            c = c + 1;
        }
        i = i + 1;
    }
    assert(jobs@.take(i as int) =~= jobs@);
    c
}

proof fn lemma_slot_count_append(a: Seq<Job>, b: Seq<Job>, req: JobRequest)
    ensures
        slot_count(a + b, req) == slot_count(a, req) + slot_count(b, req),
    decreases b.len(),
{
    if b.len() > 0 {
        lemma_slot_count_append(a, b.drop_last(), req);
        assert((a + b).drop_last() =~= a + b.drop_last());
    } else {
        assert(a + b =~= a);
    }
}

proof fn lemma_slot_count_bounds(a: Seq<Job>, req: JobRequest)
    ensures
        0 <= slot_count(a, req) <= a.len(),
    decreases a.len(),
{
    if a.len() > 0 {
        lemma_slot_count_bounds(a.drop_last(), req);
    }
}

fn contains_i32(v: &Vec<i32>, x: i32) -> (r: bool)
    ensures
        r == v@.contains(x),
{
    let mut i: usize = 0;
    while i < v.len()
        invariant
            i <= v@.len(),
            forall|j: int| 0 <= j < i ==> v@[j] != x,
        decreases v@.len() - i,
    {
        if v[i] == x {
            return true;
        }
        i = i + 1;
    }
    false
}

/// Index of the first problem with this id.
fn problem_index(problems: &Vec<Problem>, id: i32) -> (r: Option<usize>)
    ensures
        match r {
            Some(i) => i < problems@.len() && problems@[i as int].id == id && forall|j: int|
                0 <= j < i ==> (#[trigger] problems@[j]).id != id,
            None => forall|j: int| 0 <= j < problems@.len() ==> (#[trigger] problems@[j]).id != id,
        },
        r matches Some(i) ==> find_problem(problems@, id) == Some(i as int),
        r is None ==> find_problem(problems@, id) is None,
{
    let mut i: usize = 0;
    while i < problems.len()
        invariant
            i <= problems@.len(),
            forall|j: int| 0 <= j < i ==> (#[trigger] problems@[j]).id != id,
        decreases problems@.len() - i,
    {
        if problems[i].id == id {
            proof {
                let k = choose|k: int| 0 <= k < problems@.len() && #[trigger] problems@[k].id == id
                    && forall|j: int| 0 <= j < k ==> (#[trigger] problems@[j]).id != id;
                if k < i {
                } else if k > i {
                    assert(problems@[i as int].id != id);
                }
            }
            return Some(i);
        }
        i = i + 1;
    }
    None
}

/// Index of the first language with this name.
fn language_index(languages: &Vec<Language>, name: &str) -> (r: Option<usize>)
    ensures
        match r {
            Some(i) => i < languages@.len() && languages@[i as int].name@ == name@,
            None => !has_language(languages@, name@),
        },
{
    let mut i: usize = 0;
    while i < languages.len()
        invariant
            i <= languages@.len(),
            forall|j: int| 0 <= j < i ==> (#[trigger] languages@[j]).name@ != name@,
        decreases languages@.len() - i,
    {
        if same_text(languages[i].name.as_str(), name) {
            return Some(i);
        }
        i = i + 1;
    }
    None
}

/// The worker's state.
pub struct Worker {
    config: Config,
    queue: Vec<Job>,
    active: Option<Judging>,
    running: bool,
    job_id: i32,
    user_id: i32,
    contest_id: i32,
}

impl Worker {
    /// The configuration the worker was made with.
    pub closed spec fn settings(&self) -> Config {
        self.config
    }

    /// The configuration the worker was made with.
    pub fn config(&self) -> (r: &Config)
        ensures
            *r == self.settings(),
    {
        &self.config
    }

    /// The job being judged, as a sequence of none or one.
    pub closed spec fn judged_part(&self) -> Seq<Job> {
        match self.active {
            Some(s) => seq![s.job()],
            None => Seq::empty(),
        }
    }

    /// Jobs in memory: the one being judged, then the queue in order.
    pub closed spec fn in_memory(&self) -> Seq<Job> {
        self.judged_part() + self.queue@
    }

    /// Jobs waiting to be judged, front first.
    pub closed spec fn queued(&self) -> Seq<Job> {
        self.queue@
    }

    /// The job being judged, if any.
    pub closed spec fn judging(&self) -> Option<Judging> {
        self.active
    }

    /// Whether the worker loop should go on.
    pub closed spec fn is_running(&self) -> bool {
        self.running
    }

    /// The last job id handed out.
    pub closed spec fn last_job_id(&self) -> i32 {
        self.job_id
    }

    /// The last user id handed out.
    pub closed spec fn last_user_id(&self) -> i32 {
        self.user_id
    }

    /// The last contest id handed out.
    pub closed spec fn last_contest_id(&self) -> i32 {
        self.contest_id
    }

    /// The worker's invariant: every configured problem can be judged, and the job
    /// being judged is a sound session.
    pub closed spec fn wf(&self) -> bool {
        &&& forall|i: int| 0 <= i < self.config.problems@.len() ==> problem_fits(#[trigger] self.config.problems@[i])
        &&& self.active matches Some(s) ==> s.wf()
    }

    /// A worker over `config`, with counters starting after the largest ids in the
    /// store (user and contest ids after 0 at least). Fails when a problem's packing
    /// names a case it does not have or lists a case twice, or the problem is too
    /// large. A case listed twice is refused on purpose: its second run could undo the
    /// outcome that the first group was scored on, so a job's score would no longer
    /// follow from its recorded results.
    pub fn new(config: Config, largest_job_id: i32, largest_user_id: i32, largest_contest_id: i32) -> (r: Result<Worker, Error>)
        ensures
            (forall|i: int| 0 <= i < config.problems@.len() ==> problem_fits(#[trigger] config.problems@[i]))
                <==> r is Ok,
            r matches Ok(w) ==> {
                &&& w.wf()
                &&& w.settings() == config
                &&& w.in_memory().len() == 0
                &&& !w.is_running()
                &&& w.last_job_id() == largest_job_id
                &&& w.last_user_id() == if largest_user_id > 0 { largest_user_id } else { 0 }
                &&& w.last_contest_id() == if largest_contest_id > 0 { largest_contest_id } else { 0 }
            },
            r matches Err(e) ==> e.code == CODE_INVALID_ARGUMENT,
    {
        let mut i: usize = 0;
        while i < config.problems.len()
            invariant
                i <= config.problems@.len(),
                forall|j: int| 0 <= j < i ==> problem_fits(#[trigger] config.problems@[j]),
            decreases config.problems@.len() - i,
        {
            if !config.problems[i].fits() {
                return Err(Error::invalid_argument());
            }
            i = i + 1;
        }
        Ok(Worker {
            config,
            queue: Vec::new(),
            active: None,
            running: false,
            job_id: largest_job_id,
            user_id: if largest_user_id > 0 { largest_user_id } else { 0 },
            contest_id: if largest_contest_id > 0 { largest_contest_id } else { 0 },
        })
    }

    fn count_in_memory(&self, req: &JobRequest) -> (r: u128)
        ensures
            r == slot_count(self.in_memory(), *req),
    {
        let q = count_slot(&self.queue, req);
        proof {
            lemma_slot_count_bounds(self.queue@, *req);
        }
        match &self.active {
            Some(s) => {
                let j = s.current();
                proof {
                    lemma_slot_count_append(seq![s.job()], self.queue@, *req);
                    assert(seq![s.job()].drop_last() =~= Seq::<Job>::empty());
                    assert(seq![s.job()].last() == s.job());
                    assert(slot_count(Seq::<Job>::empty(), *req) == 0);
                    assert(seq![s.job()] + self.queue@ == self.in_memory());
                }
                if j.submission.contest_id == req.contest_id && j.submission.problem_id == req.problem_id
                    && j.submission.user_id == req.user_id {
                    q as u128 + 1
                } else {
                    q as u128
                }
            },
            None => q as u128,
        }
    }

    /// The submission gate. Checks, in order, that the user exists, that the problem
    /// is configured, and for a contest submission that the contest exists, lists the
    /// problem and the user, and that fewer than its cap of jobs by this user on this
    /// problem are known (in memory or among `stored`); then that the language is
    /// configured. On success the next job id is taken and a fresh job returned, for
    /// the caller to queue. `contest` is the store's record of the request's contest.
    pub fn create_job(
        &mut self,
        request: &JobRequest,
        user_exists: bool,
        contest: &Option<Contest>,
        stored: &Vec<Job>,
    ) -> (r: Result<Job, Error>)
        requires
            old(self).wf(),
            contest matches Some(c) ==> c.id == request.contest_id,
        ensures
            final(self).wf(),
            final(self).in_memory() == old(self).in_memory(),
            final(self).settings() == old(self).settings(),
            match gate(
                *request,
                user_exists,
                old(self).settings().problems@,
                *contest,
                old(self).in_memory() + stored@,
                old(self).settings().languages@,
            ) {
                Some(code) => r matches Err(e) && e.code == code && final(self).last_job_id()
                    == old(self).last_job_id(),
                None => if old(self).last_job_id() == i32::MAX {
                    r matches Err(e) && e.code == CODE_INTERNAL
                } else {
                    &&& r is Ok
                    &&& final(self).last_job_id() == old(self).last_job_id() + 1
                    &&& is_fresh(
                        r->Ok_0,
                        final(self).last_job_id(),
                        *request,
                        old(self).settings().problems@[find_problem(
                            old(self).settings().problems@,
                            request.problem_id,
                        )->0].cases@.len(),
                    )
                },
            },
            r is Err ==> final(self).last_job_id() == old(self).last_job_id(),
    {
        if !user_exists {
            return Err(Error::not_found());
        }
        let pi = problem_index(&self.config.problems, request.problem_id);
        let pi = match pi {
            Some(i) => i,
            None => {
                return Err(Error::not_found());
            },
        };
        if request.contest_id != 0 {
            match contest {
                None => {
                    return Err(Error::not_found());
                },
                Some(c) => {
                    if !contains_i32(&c.problem_ids, request.problem_id) || !contains_i32(
                        &c.user_ids,
                        request.user_id,
                    ) {
                        return Err(Error::invalid_argument());
                    }
                    let in_memory = self.count_in_memory(request);
                    let in_store = count_slot(stored, request);
                    proof {
                        lemma_slot_count_append(self.in_memory(), stored@, *request);
                        lemma_slot_count_bounds(self.in_memory(), *request);
                        lemma_slot_count_bounds(stored@, *request);
                    }
                    let limit = c.submission_limit;
                    if limit <= 0 || in_memory >= limit as u128 || in_store as u128 >= limit as u128 - in_memory {
                        return Err(Error::rate_limit());
                    }
                },
            }
        }
        let li = language_index(&self.config.languages, request.language.as_str());
        if li.is_none() {
            return Err(Error::not_found());
        }
        if self.job_id == i32::MAX {
            return Err(Error::internal());
        }
        self.job_id = self.job_id + 1;
        proof {
            assert(problem_fits(self.config.problems@[pi as int]));
        }
        Ok(Job::new(self.job_id, request, self.config.problems[pi].cases.len()))
    }

    /// Queues a job behind the others.
    pub fn push_job(&mut self, job: Job)
        ensures
            final(self).queued() == old(self).queued().push(job),
            final(self).judging() == old(self).judging(),
            final(self).settings() == old(self).settings(),
            final(self).last_job_id() == old(self).last_job_id(),
            old(self).wf() ==> final(self).wf(),
    {
        self.queue.push(job);
    }

    /// Lets the worker loop run.
    pub fn start(&mut self)
        ensures
            final(self).is_running(),
            final(self).in_memory() == old(self).in_memory(),
            final(self).judging() == old(self).judging(),
            final(self).settings() == old(self).settings(),
            old(self).wf() ==> final(self).wf(),
    {
        self.running = true;
    }

    /// Asks the worker loop to stop.
    pub fn stop(&mut self)
        ensures
            !final(self).is_running(),
            final(self).in_memory() == old(self).in_memory(),
            final(self).judging() == old(self).judging(),
            final(self).settings() == old(self).settings(),
            old(self).wf() ==> final(self).wf(),
    {
        self.running = false;
    }

    /// Whether the worker loop should go on.
    pub fn running(&self) -> (r: bool)
        ensures
            r == self.is_running(),
    {
        self.running
    }

    /// The configured problem with this id (the first, if several).
    pub fn problem(&self, id: i32) -> (r: Option<&Problem>)
        ensures
            match find_problem(self.settings().problems@, id) {
                Some(i) => r == Some(&self.settings().problems@[i]),
                None => r is None,
            },
    {
        match problem_index(&self.config.problems, id) {
            Some(i) => Some(&self.config.problems[i]),
            None => None,
        }
    }

    /// A configured language with this name.
    pub fn language(&self, name: &str) -> (r: Option<&Language>)
        ensures
            r matches Some(l) ==> l.name@ == name@ && self.settings().languages@.contains(*l),
            r is None ==> !has_language(self.settings().languages@, name@),
    {
        match language_index(&self.config.languages, name) {
            Some(i) => Some(&self.config.languages[i]),
            None => None,
        }
    }

    /// The job being judged, if any.
    pub fn active_job(&self) -> (r: Option<&Job>)
        ensures
            match self.judging() {
                Some(s) => r == Some(&s.job()),
                None => r is None,
            },
    {
        match &self.active {
            Some(s) => Some(s.current()),
            None => None,
        }
    }
}

/// What the worker loop found to do.
pub enum Pickup {
    /// Nothing is queued, or a job is still being judged.
    Idle,
    /// The front job is now being judged.
    Started,
    /// The front job's problem is not configured, or the job does not fit it: the job
    /// is returned finished with a system error, to be stored.
    Unjudgeable(Job),
}

/// Whether `job` can be judged against `p`.
pub open spec fn judgeable(job: Job, p: Problem) -> bool {
    job.cases@.len() == p.cases@.len() + 1
}

impl Worker {
    /// Takes the front job of the queue, when no job is being judged, and starts
    /// judging it against its problem.
    pub fn pick_up(&mut self) -> (r: Pickup)
        requires
            old(self).wf(),
        ensures
            final(self).wf(),
            final(self).settings() == old(self).settings(),
            final(self).last_job_id() == old(self).last_job_id(),
            final(self).last_user_id() == old(self).last_user_id(),
            final(self).last_contest_id() == old(self).last_contest_id(),
            final(self).is_running() == old(self).is_running(),
            old(self).judging() is Some || old(self).queued().len() == 0 ==> {
                &&& r is Idle
                &&& final(self).in_memory() == old(self).in_memory()
            },
            old(self).judging() is None && old(self).queued().len() > 0 ==> {
                let job = old(self).queued()[0];
                &&& final(self).queued() == old(self).queued().drop_first()
                &&& match find_problem(old(self).settings().problems@, job.submission.problem_id) {
                    Some(i) if judgeable(job, old(self).settings().problems@[i]) => {
                        &&& r is Started
                        &&& (final(self).judging() matches Some(s) && s.phase() == Phase::Compiling
                            && s.job().id == job.id && s.job().submission == job.submission
                            && s.case_count() == old(self).settings().problems@[i].cases@.len()
                            && s.plan() == crate::engine::plan_of(old(self).settings().problems@[i])
                            && s.scores() == crate::engine::case_scores(old(self).settings().problems@[i]))
                    },
                    _ => {
                        &&& (r matches Pickup::Unjudgeable(j) && j.id == job.id && j.state == JobStatus::Finished
                            && j.result == Status::SystemError)
                        &&& final(self).judging() is None
                    },
                }
            },
    {
        if self.active.is_some() || self.queue.len() == 0 {
            return Pickup::Idle;
        }
        let mut job = self.queue.remove(0);
        match problem_index(&self.config.problems, job.submission.problem_id) {
            Some(i) => {
                if job.cases.len() == self.config.problems[i].cases.len() + 1 {
                    proof {
                        assert(problem_fits(self.config.problems@[i as int]));
                    }
                    let session = Judging::new(job, &self.config.problems[i]);
                    self.active = Some(session);
                    return Pickup::Started;
                }
            },
            None => {},
        }
        job.state = JobStatus::Finished;
        job.result = Status::SystemError;
        job.updated_time = now_micros();
        Pickup::Unjudgeable(job)
    }

    /// Reports the compile step's outcome to the session (which must be compiling).
    pub fn compile_done(&mut self, success: bool) -> (r: bool)
        requires
            old(self).wf(),
        ensures
            final(self).wf(),
            final(self).queued() == old(self).queued(),
            final(self).settings() == old(self).settings(),
            r == (old(self).judging() matches Some(s) && s.phase() == Phase::Compiling),
            r ==> (final(self).judging() matches Some(t) && t.phase() == if success {
                Phase::Judging
            } else {
                Phase::Stopped
            }),
            !r ==> final(self).judging() == old(self).judging(),
    {
        match &mut self.active {
            Some(s) => {
                if s.is_finished() {
                    return false;
                }
                if s.is_compiling() {
                    if success {
                        s.compile_succeeded();
                    } else {
                        s.compile_failed();
                    }
                    true
                } else {
                    false
                }
            },
            None => false,
        }
    }

    /// Asks the session for the next case to run (see `Judging::next_case`); `None`
    /// also when no session is judging cases, or one awaits an outcome.
    pub fn next_case(&mut self) -> (r: Option<usize>)
        requires
            old(self).wf(),
        ensures
            final(self).wf(),
            final(self).queued() == old(self).queued(),
            final(self).settings() == old(self).settings(),
            r matches Some(i) ==> (final(self).judging() matches Some(t) && t.is_awaiting()
                && t.awaited_case() == i && 1 <= i <= t.case_count()),
            old(self).judging() matches Some(s) && s.phase() == Phase::Judging && !s.is_awaiting() ==> (
            final(self).judging() matches Some(t) && (r is None <==> t.phase() == Phase::Done) && (r is None
                ==> t.job().state == JobStatus::Finished && t.job().result == (if old(self).judging()->0.job().result
                == Status::Running {
                Status::Accepted
            } else {
                old(self).judging()->0.job().result
            }))),
            old(self).judging() matches Some(s) && s.phase() == Phase::Judging && !s.is_awaiting() ==> (
            final(self).judging() matches Some(t) && t.plan() == old(self).judging()->0.plan()
                && !slot_before(t.cursor(), old(self).judging()->0.cursor()) && (forall|p: (int, int)|
                is_slot(t.plan(), p) && !slot_before(p, old(self).judging()->0.cursor()) && slot_before(
                    p,
                    t.cursor(),
                ) ==> results(t.job())[#[trigger] slot_case(t.plan(), p)] == Status::Skipped
                    && failed_before(t.plan(), results(t.job()), p)) && (r matches Some(i) ==> i
                == slot_case(t.plan(), t.cursor()))),
            !(old(self).judging() matches Some(s) && s.phase() == Phase::Judging && !s.is_awaiting()) ==> (
            r is None && final(self).judging() == old(self).judging()),
    {
        match &mut self.active {
            Some(s) => {
                if !s.is_judging() || s.awaits_case() {
                    return None;
                }
                s.next_case()
            },
            None => None,
        }
    }

    /// Records the outcome of the case the session awaits (see `Judging::record`);
    /// false when no case's outcome is awaited.
    pub fn record_case(&mut self, verdict: Status, info: Option<String>, usage: Resources) -> (r: bool)
        requires
            old(self).wf(),
        ensures
            final(self).wf(),
            final(self).queued() == old(self).queued(),
            final(self).settings() == old(self).settings(),
            r == (old(self).judging() matches Some(s) && s.is_awaiting() && s.phase() == Phase::Judging),
            r ==> (old(self).judging() matches Some(s) && final(self).judging() matches Some(t)
                && results(t.job()) == results(s.job()).update(s.awaited_case(), recorded_as(verdict))),
            !r ==> final(self).judging() == old(self).judging(),
    {
        match &mut self.active {
            Some(s) => {
                if !s.awaits_case() || !s.is_judging() {
                    return false;
                }
                s.record(verdict, info, usage);
                true
            },
            None => false,
        }
    }

    /// A host-side failure while judging: the job is finished with a system error.
    pub fn fail_active(&mut self)
        requires
            old(self).wf(),
        ensures
            final(self).wf(),
            final(self).queued() == old(self).queued(),
            final(self).settings() == old(self).settings(),
            old(self).judging() is None ==> final(self).judging() is None,
            old(self).judging() is Some ==> (final(self).judging() matches Some(t) && t.job().state
                == JobStatus::Finished && t.job().result == Status::SystemError),
    {
        match &mut self.active {
            Some(s) => s.fail(),
            None => {},
        }
    }

    /// Ends the session once its job is finished and returns the job, to be stored.
    pub fn take_finished(&mut self) -> (r: Option<Job>)
        requires
            old(self).wf(),
        ensures
            final(self).wf(),
            final(self).queued() == old(self).queued(),
            final(self).settings() == old(self).settings(),
            match old(self).judging() {
                Some(s) => if s.job().state == JobStatus::Finished {
                    r == Some(s.job()) && final(self).judging() is None
                } else {
                    r is None && final(self).judging() == old(self).judging()
                },
                None => r is None && final(self).judging() is None,
            },
    {
        let finished = match &self.active {
            Some(s) => s.is_finished(),
            None => false,
        };
        if !finished {
            return None;
        }
        match self.active.take() {
            Some(s) => Some(s.into_job()),
            None => None,
        }
    }
}

/// Index of the first job with this id.
pub open spec fn first_with_id(jobs: Seq<Job>, id: i32) -> Option<int> {
    if exists|i: int| 0 <= i < jobs.len() && #[trigger] jobs[i].id == id {
        Some(choose|i: int| 0 <= i < jobs.len() && #[trigger] jobs[i].id == id
            && forall|j: int| 0 <= j < i ==> (#[trigger] jobs[j]).id != id)
    } else {
        None
    }
}

fn index_of_id(jobs: &Vec<Job>, id: i32) -> (r: Option<usize>)
    ensures
        match r {
            Some(i) => first_with_id(jobs@, id) == Some(i as int) && i < jobs@.len(),
            None => first_with_id(jobs@, id) is None,
        },
{
    let mut i: usize = 0;
    while i < jobs.len()
        invariant
            i <= jobs@.len(),
            forall|j: int| 0 <= j < i ==> (#[trigger] jobs@[j]).id != id,
        decreases jobs@.len() - i,
    {
        if jobs[i].id == id {
            proof {
                let k = choose|k: int| 0 <= k < jobs@.len() && #[trigger] jobs@[k].id == id
                    && forall|j: int| 0 <= j < k ==> (#[trigger] jobs@[j]).id != id;
                if k > i {
                    assert(jobs@[i as int].id != id);
                }
            }
            return Some(i);
        }
        i = i + 1;
    }
    None
}

/// `job` is `old` made ready to be judged again: queued, waiting, unscored, every
/// record waiting with nothing measured.
pub open spec fn is_reset(job: Job, old: Job) -> bool {
    &&& job.id == old.id
    &&& job.created_time == old.created_time
    &&& job.submission == old.submission
    &&& job.state == JobStatus::Queueing
    &&& job.result == Status::Waiting
    &&& job.score == 0
    &&& job.cases@.len() == old.cases@.len()
    &&& forall|i: int|
        0 <= i < job.cases@.len() ==> {
            &&& (#[trigger] job.cases@[i]).id == old.cases@[i].id
            &&& job.cases@[i].result == Status::Waiting
            &&& job.cases@[i].time == 0
            &&& job.cases@[i].memory == 0
            &&& job.cases@[i].info@.len() == 0
        }
}

/// A query over jobs; each field given narrows it.
#[derive(Clone, Debug)]
pub struct JobFilter {
    pub user_id: Option<i32>,
    /// The id of the user named in the query: `Some(None)` when no user has that name.
    pub user: Option<Option<i32>>,
    pub contest_id: Option<i32>,
    pub problem_id: Option<i32>,
    pub language: Option<String>,
    /// Created at or after, in microseconds since the Unix epoch.
    pub from: Option<i64>,
    /// Created at or before, in microseconds since the Unix epoch.
    pub to: Option<i64>,
    pub state: Option<JobStatus>,
    pub result: Option<Status>,
}

pub open spec fn job_matches(j: Job, f: JobFilter) -> bool {
    &&& f.user_id matches Some(u) ==> j.submission.user_id == u
    &&& f.user matches Some(named) ==> (named matches Some(u) && j.submission.user_id == u)
    &&& f.contest_id matches Some(c) ==> j.submission.contest_id == c
    &&& f.problem_id matches Some(p) ==> j.submission.problem_id == p
    &&& f.language matches Some(l) ==> j.submission.language@ == l@
    &&& f.from matches Some(t) ==> j.created_time >= t
    &&& f.to matches Some(t) ==> j.created_time <= t
    &&& f.state matches Some(s) ==> j.state == s
    &&& f.result matches Some(s) ==> j.result == s
}

/// The jobs of `jobs` that the filter admits, in order.
pub open spec fn filtered(jobs: Seq<Job>, f: JobFilter) -> Seq<Job>
    decreases jobs.len(),
{
    if jobs.len() == 0 {
        Seq::empty()
    } else {
        let r = filtered(jobs.drop_last(), f);
        if job_matches(jobs.last(), f) {
            r.push(jobs.last())
        } else {
            r
        }
    }
}

impl JobFilter {
    pub fn admits(&self, j: &Job) -> (r: bool)
        ensures
            r == job_matches(*j, *self),
    {
        let ok_user = match self.user_id {
            Some(u) => j.submission.user_id == u,
            None => true,
        };
        let ok_named = match self.user {
            Some(named) => match named {
                Some(u) => j.submission.user_id == u,
                None => false,
            },
            None => true,
        };
        let ok_contest = match self.contest_id {
            Some(c) => j.submission.contest_id == c,
            None => true,
        };
        let ok_problem = match self.problem_id {
            Some(p) => j.submission.problem_id == p,
            None => true,
        };
        let ok_language = match &self.language {
            Some(l) => same_text(j.submission.language.as_str(), l.as_str()),
            None => true,
        };
        let ok_from = match self.from {
            Some(t) => j.created_time >= t,
            None => true,
        };
        let ok_to = match self.to {
            Some(t) => j.created_time <= t,
            None => true,
        };
        let ok_state = match self.state {
            Some(s) => j.state == s,
            None => true,
        };
        let ok_result = match self.result {
            Some(s) => j.result == s,
            None => true,
        };
        ok_user && ok_named && ok_contest && ok_problem && ok_language && ok_from && ok_to && ok_state
            && ok_result
    }
}

/// Appends copies of the jobs of `jobs` that `f` admits to `out`.
fn collect_matching(jobs: &Vec<Job>, f: &JobFilter, out: &mut Vec<Job>)
    ensures
        final(out)@.len() == old(out)@.len() + filtered(jobs@, *f).len(),
        forall|i: int| 0 <= i < old(out)@.len() ==> #[trigger] final(out)@[i] == old(out)@[i],
        forall|i: int|
            0 <= i < filtered(jobs@, *f).len() ==> (#[trigger] final(out)@[old(out)@.len() + i]).same_as(
                &filtered(jobs@, *f)[i],
            ),
{
    let ghost base = out@.len();
    let mut i: usize = 0;
    while i < jobs.len()
        invariant
            i <= jobs@.len(),
            base == old(out)@.len(),
            out@.len() == base + filtered(jobs@.take(i as int), *f).len(),
            forall|k: int| 0 <= k < base ==> #[trigger] out@[k] == old(out)@[k],
            forall|k: int|
                0 <= k < filtered(jobs@.take(i as int), *f).len() ==> (#[trigger] out@[base + k]).same_as(
                    &filtered(jobs@.take(i as int), *f)[k],
                ),
        decreases jobs@.len() - i,
    {
        assert(jobs@.take(i + 1).drop_last() =~= jobs@.take(i as int));
        if f.admits(&jobs[i]) {
            out.push(jobs[i].duplicate());
        }
        i = i + 1;
    }
    assert(jobs@.take(i as int) =~= jobs@);
}

impl Worker {
    /// Cancels a queued job: it leaves the queue. The job being judged cannot be
    /// canceled, nor a queued job that is not in the `Queueing` state, nor a stored
    /// one (`stored` is the store's record with this id) that is not. Unknown ids are
    /// not found.
    pub fn cancel_job(&mut self, id: i32, stored: &Option<Job>) -> (r: Result<(), Error>)
        requires
            old(self).wf(),
            stored matches Some(j) ==> j.id == id,
        ensures
            final(self).wf(),
            final(self).settings() == old(self).settings(),
            final(self).judging() == old(self).judging(),
            final(self).last_job_id() == old(self).last_job_id(),
            r is Err ==> final(self).queued() == old(self).queued(),
            if old(self).judging() matches Some(s) && s.job().id == id {
                r matches Err(e) && e.code == CODE_INVALID_STATE
            } else {
                match first_with_id(old(self).queued(), id) {
                    Some(k) => if old(self).queued()[k].state != JobStatus::Queueing {
                        r matches Err(e) && e.code == CODE_INVALID_STATE
                    } else {
                        r is Ok && final(self).queued() == old(self).queued().remove(k)
                    },
                    None => match *stored {
                        Some(j) => if j.state != JobStatus::Queueing {
                            r matches Err(e) && e.code == CODE_INVALID_STATE
                        } else {
                            r is Ok && final(self).queued() == old(self).queued()
                        },
                        None => r matches Err(e) && e.code == CODE_NOT_FOUND,
                    },
                }
            },
    {
        match &self.active {
            Some(s) => {
                if s.current().id == id {
                    return Err(Error::invalid_state());
                }
            },
            None => {},
        }
        match index_of_id(&self.queue, id) {
            Some(k) => {
                if self.queue[k].state != JobStatus::Queueing {
                    return Err(Error::invalid_state());
                }
                self.queue.remove(k);
                Ok(())
            },
            None => match stored {
                Some(j) => {
                    if j.state != JobStatus::Queueing {
                        Err(Error::invalid_state())
                    } else {
                        Ok(())
                    }
                },
                None => Err(Error::not_found()),
            },
        }
    }

    /// Queues a finished, stored job to be judged again, reset; returns the reset job.
    /// `stored` is the store's record with this id.
    pub fn rerun_job(&mut self, id: i32, stored: &Option<Job>) -> (r: Result<Job, Error>)
        requires
            old(self).wf(),
            stored matches Some(j) ==> j.id == id,
        ensures
            final(self).wf(),
            final(self).settings() == old(self).settings(),
            final(self).judging() == old(self).judging(),
            final(self).last_job_id() == old(self).last_job_id(),
            match *stored {
                None => r matches Err(e) && e.code == CODE_NOT_FOUND && final(self).queued() == old(self).queued(),
                Some(j) => if j.state != JobStatus::Finished {
                    r matches Err(e) && e.code == CODE_INVALID_STATE && final(self).queued() == old(self).queued()
                } else {
                    &&& r matches Ok(n) && is_reset(n, j)
                    &&& final(self).queued().len() == old(self).queued().len() + 1
                    &&& final(self).queued().drop_last() == old(self).queued()
                    &&& final(self).queued().last().same_as(&r->Ok_0)
                },
            },
    {
        let job = match stored {
            Some(j) => j,
            None => {
                return Err(Error::not_found());
            },
        };
        if job.state != JobStatus::Finished {
            return Err(Error::invalid_state());
        }
        let mut cases: Vec<JobCase> = Vec::new();
        let mut i: usize = 0;
        while i < job.cases.len()
            invariant
                i <= job.cases@.len(),
                cases@.len() == i,
                forall|k: int|
                    0 <= k < i ==> {
                        &&& (#[trigger] cases@[k]).id == job.cases@[k].id
                        &&& cases@[k].result == Status::Waiting
                        &&& cases@[k].time == 0
                        &&& cases@[k].memory == 0
                        &&& cases@[k].info@.len() == 0
                    },
            decreases job.cases@.len() - i,
        {
            cases.push(JobCase { id: job.cases[i].id, result: Status::Waiting, time: 0, memory: 0, info: String::new() });
            i = i + 1;
        }
        let reset = Job {
            id: job.id,
            created_time: job.created_time,
            updated_time: now_micros(),
            submission: job.submission.duplicate(),
            state: JobStatus::Queueing,
            result: Status::Waiting,
            score: 0,
            cases,
        };
        let queued = reset.duplicate();
        self.queue.push(queued);
        proof {
            assert(self.queue@.drop_last() =~= old(self).queue@);
        }
        Ok(reset)
    }

    /// A copy of the job with this id: the one being judged, else the first queued,
    /// else `stored` (the store's record with this id).
    pub fn find_job(&self, id: i32, stored: &Option<Job>) -> (r: Option<Job>)
        requires
            stored matches Some(j) ==> j.id == id,
        ensures
            if self.judging() matches Some(s) && s.job().id == id {
                r matches Some(j) && j.same_as(&self.judging()->0.job())
            } else {
                match first_with_id(self.queued(), id) {
                    Some(k) => r matches Some(j) && j.same_as(&self.queued()[k]),
                    None => match *stored {
                        Some(s) => r matches Some(j) && j.same_as(&s),
                        None => r is None,
                    },
                }
            },
    {
        match &self.active {
            Some(s) => {
                if s.current().id == id {
                    return Some(s.current().duplicate());
                }
            },
            None => {},
        }
        match index_of_id(&self.queue, id) {
            Some(k) => Some(self.queue[k].duplicate()),
            None => match stored {
                Some(j) => Some(j.duplicate()),
                None => None,
            },
        }
    }

    /// Copies of the jobs that `filter` admits: the one being judged, then the queued
    /// ones, then those of `stored`, each in order.
    pub fn find_jobs(&self, filter: &JobFilter, stored: &Vec<Job>) -> (r: Vec<Job>)
        ensures
            ({
                let fa = filtered(self.judged_part(), *filter);
                let fq = filtered(self.queued(), *filter);
                let fs = filtered(stored@, *filter);
                &&& r@.len() == fa.len() + fq.len() + fs.len()
                &&& forall|i: int| 0 <= i < fa.len() ==> (#[trigger] r@[i]).same_as(&fa[i])
                &&& forall|i: int| 0 <= i < fq.len() ==> (#[trigger] r@[fa.len() + i]).same_as(&fq[i])
                &&& forall|i: int|
                    0 <= i < fs.len() ==> (#[trigger] r@[fa.len() + fq.len() + i]).same_as(&fs[i])
            }),
    {
        let mut out: Vec<Job> = Vec::new();
        match &self.active {
            Some(s) => {
                proof {
                    assert(seq![s.job()].drop_last() =~= Seq::<Job>::empty());
                    assert(filtered(Seq::<Job>::empty(), *filter) == Seq::<Job>::empty());
                }
                if filter.admits(s.current()) {
                    out.push(s.current().duplicate());
                }
            },
            None => {},
        }
        collect_matching(&self.queue, filter, &mut out);
        collect_matching(stored, filter, &mut out);
        out
    }
}

impl Worker {
    /// A new user with the next user id, unless `name_taken` (the store holds a
    /// user of that name).
    pub fn create_user(&mut self, name: &str, name_taken: bool) -> (r: Result<User, Error>)
        requires
            old(self).wf(),
        ensures
            final(self).wf(),
            final(self).in_memory() == old(self).in_memory(),
            final(self).settings() == old(self).settings(),
            final(self).last_job_id() == old(self).last_job_id(),
            name_taken ==> (r matches Err(e) && e.code == CODE_INVALID_ARGUMENT),
            !name_taken && old(self).last_user_id() == i32::MAX ==> (r matches Err(e) && e.code == CODE_INTERNAL),
            !name_taken && old(self).last_user_id() < i32::MAX ==> {
                &&& r matches Ok(u) && u.id == old(self).last_user_id() + 1 && u.name@ == name@
                &&& final(self).last_user_id() == old(self).last_user_id() + 1
            },
            r is Err ==> final(self).last_user_id() == old(self).last_user_id(),
    {
        if name_taken {
            return Err(Error::invalid_argument());
        }
        if self.user_id == i32::MAX {
            return Err(Error::internal());
        }
        self.user_id = self.user_id + 1;
        Ok(User { id: self.user_id, name: name.to_owned() })
    }

    /// Checks a renaming: the name must not belong to another user (`same_name` is the
    /// stored user of that name, if any), and the user must exist.
    pub fn update_user(&self, user: &User, same_name: &Option<User>, exists: bool) -> (r: Result<(), Error>)
        ensures
            (same_name matches Some(o) && o.id != user.id) ==> (r matches Err(e) && e.code == CODE_INVALID_ARGUMENT),
            !(same_name matches Some(o) && o.id != user.id) && !exists ==> (r matches Err(e) && e.code == CODE_NOT_FOUND),
            !(same_name matches Some(o) && o.id != user.id) && exists ==> r is Ok,
    {
        match same_name {
            Some(o) => {
                if o.id != user.id {
                    return Err(Error::invalid_argument());
                }
            },
            None => {},
        }
        if !exists {
            return Err(Error::not_found());
        }
        Ok(())
    }

    /// Takes the next contest id.
    pub fn next_contest_id(&mut self) -> (r: Result<i32, Error>)
        requires
            old(self).wf(),
        ensures
            final(self).wf(),
            final(self).in_memory() == old(self).in_memory(),
            final(self).settings() == old(self).settings(),
            final(self).last_job_id() == old(self).last_job_id(),
            old(self).last_contest_id() < i32::MAX ==> (r matches Ok(id) && id == old(self).last_contest_id() + 1
                && final(self).last_contest_id() == old(self).last_contest_id() + 1),
            old(self).last_contest_id() == i32::MAX ==> (r matches Err(e) && e.code == CODE_INTERNAL),
    {
        if self.contest_id == i32::MAX {
            return Err(Error::internal());
        }
        self.contest_id = self.contest_id + 1;
        Ok(self.contest_id)
    }

    /// The id under which a posted contest is stored: the given one, or the next
    /// contest id when none is given. Id 0 stands for all problems and cannot be posted.
    pub fn contest_id_for(&mut self, id: Option<i32>) -> (r: Result<i32, Error>)
        requires
            old(self).wf(),
        ensures
            final(self).wf(),
            final(self).in_memory() == old(self).in_memory(),
            final(self).settings() == old(self).settings(),
            id == Some(0i32) ==> (r matches Err(e) && e.code == CODE_INVALID_ARGUMENT),
            id is Some && id != Some(0i32) ==> (r matches Ok(y) && Some(y) == id && final(self).last_contest_id() == old(self).last_contest_id()),
            id is None && old(self).last_contest_id() < i32::MAX ==> (r matches Ok(y) && y == old(self).last_contest_id() + 1
                && final(self).last_contest_id() == y),
            id is None && old(self).last_contest_id() == i32::MAX ==> (r matches Err(e) && e.code == CODE_INTERNAL),
    {
        match id {
            Some(x) => {
                if x == 0 {
                    Err(Error::invalid_argument())
                } else {
                    Ok(x)
                }
            },
            None => self.next_contest_id(),
        }
    }

    /// The configured problems that a contest lists, in configuration order, each
    /// configured problem at most once; `contest` is the store's record of the contest.
    pub fn get_contest_problems(&self, contest: &Option<Contest>) -> (r: Result<Vec<&Problem>, Error>)
        ensures
            contest is None ==> (r matches Err(e) && e.code == CODE_NOT_FOUND),
            contest matches Some(c) ==> (r matches Ok(ps) && ps@.len() == listed_problems(
                self.settings().problems@,
                c.problem_ids@,
            ).len() && forall|i: int|
                0 <= i < ps@.len() ==> *#[trigger] ps@[i] == listed_problems(
                    self.settings().problems@,
                    c.problem_ids@,
                )[i]),
    {
        match contest {
            None => Err(Error::not_found()),
            Some(c) => {
                let mut ps: Vec<&Problem> = Vec::new();
                let mut i: usize = 0;
                while i < self.config.problems.len()
                    invariant
                        i <= self.config.problems@.len(),
                        ps@.len() == listed_problems(self.config.problems@.take(i as int), c.problem_ids@).len(),
                        forall|k: int|
                            0 <= k < ps@.len() ==> *#[trigger] ps@[k] == listed_problems(
                                self.config.problems@.take(i as int),
                                c.problem_ids@,
                            )[k],
                    decreases self.config.problems@.len() - i,
                {
                    assert(self.config.problems@.take(i + 1).drop_last() =~= self.config.problems@.take(i as int));
                    if contains_i32(&c.problem_ids, self.config.problems[i].id) {
                        ps.push(&self.config.problems[i]);
                    }
                    i = i + 1;
                }
                assert(self.config.problems@.take(i as int) =~= self.config.problems@);
                Ok(ps)
            },
        }
    }
}

/// The rate limit: once the user, the problem, the contest's listing of both and
/// the language check out, a contest submission is refused for its rate exactly when
/// the known jobs of its user on its problem reach the cap, and admitted otherwise.
pub proof fn law_rate_limit(
    req: JobRequest,
    problems: Seq<Problem>,
    contest: Contest,
    existing: Seq<Job>,
    languages: Seq<Language>,
)
    requires
        req.contest_id != 0,
        exists|i: int| 0 <= i < problems.len() && #[trigger] problems[i].id == req.problem_id,
        contest.problem_ids@.contains(req.problem_id),
        contest.user_ids@.contains(req.user_id),
        has_language(languages, req.language@),
    ensures
        gate(req, true, problems, Some(contest), existing, languages) == Some(CODE_RATE_LIMIT)
            <==> slot_count(existing, req) >= contest.submission_limit,
        gate(req, true, problems, Some(contest), existing, languages) is None
            <==> slot_count(existing, req) < contest.submission_limit,
{
}

/// The submission cap holds across admissions: when a contest submission passes the
/// gate, the known jobs of its user on its problem, with the new job, are at most the
/// contest's cap.
pub proof fn law_submission_cap(
    req: JobRequest,
    user_exists: bool,
    problems: Seq<Problem>,
    contest: Option<Contest>,
    existing: Seq<Job>,
    languages: Seq<Language>,
    job: Job,
)
    requires
        req.contest_id != 0,
        gate(req, user_exists, problems, contest, existing, languages) is None,
        job.submission == req,
    ensures
        slot_count(existing.push(job), req) <= contest->0.submission_limit,
{
    assert(existing.push(job).drop_last() =~= existing);
}

/// The problems of `ps` whose id `ids` lists, in order.
pub open spec fn listed_problems(ps: Seq<Problem>, ids: Seq<i32>) -> Seq<Problem>
    decreases ps.len(),
{
    if ps.len() == 0 {
        Seq::empty()
    } else {
        let r = listed_problems(ps.drop_last(), ids);
        if ids.contains(ps.last().id) {
            r.push(ps.last())
        } else {
            r
        }
    }
}

/// The ids of the problems, in order.
pub open spec fn ids_of(problems: Seq<Problem>) -> Seq<i32> {
    problems.map_values(|p: Problem| p.id)
}

/// The users whose ids `ids` lists, in order.
pub open spec fn members(users: Seq<User>, ids: Seq<i32>) -> Seq<User>
    decreases users.len(),
{
    if users.len() == 0 {
        Seq::empty()
    } else {
        let r = members(users.drop_last(), ids);
        if ids.contains(users.last().id) {
            r.push(users.last())
        } else {
            r
        }
    }
}

fn copy_jobs(jobs: &Vec<Job>, out: &mut Vec<Job>)
    ensures
        same_jobs(final(out)@, old(out)@ + jobs@),
        forall|i: int| 0 <= i < old(out)@.len() ==> #[trigger] final(out)@[i] == old(out)@[i],
{
    let ghost base = out@;
    let mut i: usize = 0;
    while i < jobs.len()
        invariant
            i <= jobs@.len(),
            base == old(out)@,
            out@.len() == base.len() + i,
            forall|k: int| 0 <= k < base.len() ==> #[trigger] out@[k] == base[k],
            forall|k: int| 0 <= k < i ==> (#[trigger] out@[base.len() + k]).same_as(&jobs@[k]),
        decreases jobs@.len() - i,
    {
        out.push(jobs[i].duplicate());
        i = i + 1;
    }
    assert forall|k: int| 0 <= k < out@.len() implies (#[trigger] out@[k]).same_as(&(base + jobs@)[k]) by {
        if k >= base.len() {
            assert(out@[base.len() + (k - base.len())].same_as(&jobs@[k - base.len()]));
        }
    }
}

impl Worker {
    /// Copies of every job known: those in memory, then `stored`.
    fn all_jobs(&self, stored: &Vec<Job>) -> (r: Vec<Job>)
        ensures
            same_jobs(r@, self.in_memory() + stored@),
    {
        let mut r: Vec<Job> = Vec::new();
        match &self.active {
            Some(s) => r.push(s.current().duplicate()),
            None => {},
        }
        proof {
            assert forall|k: int| 0 <= k < r@.len() implies (#[trigger] r@[k]).same_as(&self.judged_part()[k]) by {}
        }
        copy_jobs(&self.queue, &mut r);
        let ghost mid = r@;
        copy_jobs(stored, &mut r);
        proof {
            assert(self.in_memory() + stored@ =~= self.judged_part() + self.queue@ + stored@);
            assert forall|k: int| 0 <= k < r@.len() implies (#[trigger] r@[k]).same_as(&(self.in_memory() + stored@)[k]) by {
                assert(r@[k].same_as(&(mid + stored@)[k]));
            }
        }
        r
    }

    /// The ranklist over every configured problem and the given users (the store's
    /// users, in id order), from the jobs in memory and `stored`.
    pub fn global_ranklist(
        &self,
        users: &Vec<User>,
        stored: &Vec<Job>,
        rule: ScoringRule,
        tie_breaker: Option<TieBreaker>,
    ) -> (r: Result<Vec<Ranking>, Error>)
        ensures
            users@.len() < i32::MAX <==> r is Ok,
            r matches Ok(out) ==> exists|all: Seq<Job>|
                same_jobs(all, self.in_memory() + stored@) && #[trigger] ranked(
                    users@,
                    ids_of(self.settings().problems@),
                    all,
                    rule,
                    tie_breaker,
                    out@,
                ),
            r matches Err(e) ==> e.code == CODE_INTERNAL,
    {
        let mut pids: Vec<i32> = Vec::new();
        let mut i: usize = 0;
        while i < self.config.problems.len()
            invariant
                i <= self.config.problems@.len(),
                pids@ == ids_of(self.config.problems@).take(i as int),
            decreases self.config.problems@.len() - i,
        {
            pids.push(self.config.problems[i].id);
            i = i + 1;
            assert(pids@ =~= ids_of(self.config.problems@).take(i as int));
        }
        assert(pids@ =~= ids_of(self.config.problems@));
        let all = self.all_jobs(stored);
        let r = ranklist(users, &pids, &all, rule, tie_breaker);
        proof {
            if let Ok(out) = &r {
                assert(ranked(users@, ids_of(self.config.problems@), all@, rule, tie_breaker, out@));
                assert(self.settings().problems@ == self.config.problems@);
                assert(same_jobs(all@, self.in_memory() + stored@));
                assert(ranked(users@, ids_of(self.settings().problems@), all@, rule, tie_breaker, out@));
            }
        }
        r
    }

    /// The ranklist of a contest (`contest` is the store's record of it): its users
    /// among `users`, over its problems, from the jobs in memory and `stored`.
    pub fn contest_ranklist(
        &self,
        contest: &Option<Contest>,
        users: &Vec<User>,
        stored: &Vec<Job>,
        rule: ScoringRule,
        tie_breaker: Option<TieBreaker>,
    ) -> (r: Result<Vec<Ranking>, Error>)
        ensures
            contest is None ==> (r matches Err(e) && e.code == CODE_NOT_FOUND),
            contest matches Some(c) ==> (members(users@, c.user_ids@).len() < i32::MAX <==> r is Ok),
            contest matches Some(c) ==> (r matches Ok(out) ==> exists|all: Seq<Job>|
                same_jobs(all, self.in_memory() + stored@) && #[trigger] ranked(
                    members(users@, c.user_ids@),
                    c.problem_ids@,
                    all,
                    rule,
                    tie_breaker,
                    out@,
                )),
            r matches Err(e) ==> e.code == CODE_NOT_FOUND || e.code == CODE_INTERNAL,
    {
        let c = match contest {
            Some(c) => c,
            None => {
                return Err(Error::not_found());
            },
        };
        let mut chosen: Vec<User> = Vec::new();
        let mut i: usize = 0;
        while i < users.len()
            invariant
                i <= users@.len(),
                chosen@ == members(users@.take(i as int), c.user_ids@),
            decreases users@.len() - i,
        {
            assert(users@.take(i + 1).drop_last() =~= users@.take(i as int));
            if contains_i32(&c.user_ids, users[i].id) {
                chosen.push(users[i].duplicate());
            }
            i = i + 1;
        }
        assert(users@.take(i as int) =~= users@);
        let all = self.all_jobs(stored);
        ranklist(&chosen, &c.problem_ids, &all, rule, tie_breaker)
    }
}

} // verus!
