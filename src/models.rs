//! The judge's data model: problems, languages, jobs, users, contests and errors.
//!
//! Scores are counted in thousandths of a point and instants in microseconds
//! since the Unix epoch (UTC).
use vstd::prelude::*;

use crate::text::{chars_of, same_text};

verus! {

/// How the output of a case is compared with its answer.
#[derive(Clone, Copy, Debug, PartialEq, Eq, Structural)]
pub enum ProblemType {
    Standard,
    Strict,
    SpecialJudge,
    DynamicRanking,
}

/// Extra per-problem settings.
#[derive(Clone, Debug)]
pub enum MiscType {
    Empty {},
    /// Groups of 1-based case indices, each scored all or nothing.
    Packed { packing: Vec<Vec<i32>> },
    /// Argument template of the special judge (`%OUTPUT%`, `%ANSWER%`).
    SpecialJudge { special_judge: Vec<String> },
    DynamicRanking { dynamic_ranking_ratio: i32 },
}

/// One test case of a problem. A limit of 0 means "no limit".
#[derive(Clone, Debug)]
pub struct Case {
    /// Thousandths of a point.
    pub score: u32,
    pub input_file: String,
    pub answer_file: String,
    /// Microseconds of wall-clock time.
    pub time_limit: u64,
    /// Bytes.
    pub memory_limit: u64,
}

#[derive(Clone, Debug)]
pub struct Problem {
    pub id: i32,
    pub name: String,
    pub problem_type: ProblemType,
    pub description: String,
    pub misc: MiscType,
    pub cases: Vec<Case>,
}

#[derive(Clone, Debug)]
pub struct Language {
    pub name: String,
    pub file_name: String,
    /// Argument template with `%INPUT%` and `%OUTPUT%` placeholders.
    pub command: Vec<String>,
}

pub open spec fn input_placeholder() -> Seq<char> {
    seq!['%', 'I', 'N', 'P', 'U', 'T', '%']
}

pub open spec fn output_placeholder() -> Seq<char> {
    seq!['%', 'O', 'U', 'T', 'P', 'U', 'T', '%']
}

pub open spec fn answer_placeholder() -> Seq<char> {
    seq!['%', 'A', 'N', 'S', 'W', 'E', 'R', '%']
}

/// One argument of a command template after substitution.
pub open spec fn expand_segment(
    segment: Seq<char>,
    input: Seq<char>,
    output: Seq<char>,
) -> Seq<char> {
    if segment == input_placeholder() {
        input
    } else if segment == output_placeholder() {
        output
    } else {
        segment
    }
}

impl Language {
    /// The command line with `%INPUT%` and `%OUTPUT%` replaced by the given paths.
    pub fn expand_command(&self, input: &str, output: &str) -> (r: Vec<String>)
        ensures
            r@.len() == self.command@.len(),
            forall|i: int|
                0 <= i < r@.len() ==> #[trigger] r@[i]@ == expand_segment(
                    self.command@[i]@,
                    input@,
                    output@,
                ),
    {
        let mut r: Vec<String> = Vec::new();
        let mut i: usize = 0;
        while i < self.command.len()
            invariant
                i <= self.command@.len(),
                r@.len() == i,
                forall|j: int|
                    0 <= j < i ==> #[trigger] r@[j]@ == expand_segment(
                        self.command@[j]@,
                        input@,
                        output@,
                    ),
            decreases self.command@.len() - i,
        {
            let segment = self.command[i].as_str();
            proof {
                reveal_strlit("%INPUT%");
                reveal_strlit("%OUTPUT%");
                assert("%INPUT%"@ =~= input_placeholder());
                assert("%OUTPUT%"@ =~= output_placeholder());
            }
            if same_text(segment, "%INPUT%") {
                r.push(input.to_owned());
            } else if same_text(segment, "%OUTPUT%") {
                r.push(output.to_owned());
            } else {
                r.push(segment.to_owned());
            }
            i = i + 1;
        }
        r
    }
}

#[derive(Clone, Debug)]
pub struct ServerConfig {
    pub bind_address: String,
    pub bind_port: u16,
}

#[derive(Clone, Debug)]
pub struct Config {
    pub server: ServerConfig,
    pub problems: Vec<Problem>,
    pub languages: Vec<Language>,
}

/// Where a job is in its life.
#[derive(Clone, Copy, Debug, PartialEq, Eq, Structural)]
pub enum JobStatus {
    Queueing,
    Running,
    Finished,
    Canceled,
}

/// The outcome of a job, of its compile step or of one case.
#[derive(Clone, Copy, Debug, PartialEq, Eq, Structural)]
pub enum Status {
    Waiting,
    Running,
    Accepted,
    CompilationError,
    CompilationSuccess,
    WrongAnswer,
    RuntimeError,
    TimeLimitExceeded,
    MemoryLimitExceeded,
    SystemError,
    SpecialJudgeError,
    Skipped,
}

#[derive(Clone, Debug)]
pub struct JobRequest {
    pub source_code: String,
    pub language: String,
    pub user_id: i32,
    /// 0 for a submission outside any contest.
    pub contest_id: i32,
    pub problem_id: i32,
}

impl JobRequest {
    /// A field-by-field copy.
    pub fn duplicate(&self) -> (r: JobRequest)
        ensures
            r == *self,
    {
        JobRequest {
            source_code: self.source_code.clone(),
            language: self.language.clone(),
            user_id: self.user_id,
            contest_id: self.contest_id,
            problem_id: self.problem_id,
        }
    }
}

/// The record of one step of a job: index 0 is the compile step.
#[derive(Clone, Debug)]
pub struct JobCase {
    pub id: i32,
    pub result: Status,
    /// Microseconds.
    pub time: u64,
    /// Bytes.
    pub memory: u64,
    pub info: String,
}

impl JobCase {
    /// A field-by-field copy.
    pub fn duplicate(&self) -> (r: JobCase)
        ensures
            r == *self,
    {
        JobCase {
            id: self.id,
            result: self.result,
            time: self.time,
            memory: self.memory,
            info: self.info.clone(),
        }
    }
}

#[derive(Clone, Debug)]
pub struct Job {
    pub id: i32,
    /// Microseconds since the Unix epoch.
    pub created_time: i64,
    /// Microseconds since the Unix epoch.
    pub updated_time: i64,
    pub submission: JobRequest,
    pub state: JobStatus,
    pub result: Status,
    /// Thousandths of a point.
    pub score: u64,
    pub cases: Vec<JobCase>,
}

impl Job {
    /// Equal field by field, the case records by their sequence.
    pub open spec fn same_as(&self, o: &Job) -> bool {
        &&& self.id == o.id
        &&& self.created_time == o.created_time
        &&& self.updated_time == o.updated_time
        &&& self.submission == o.submission
        &&& self.state == o.state
        &&& self.result == o.result
        &&& self.score == o.score
        &&& self.cases@ == o.cases@
    }

    /// A field-by-field copy.
    pub fn duplicate(&self) -> (r: Job)
        ensures
            r.same_as(self),
    {
        let mut cases: Vec<JobCase> = Vec::new();
        let mut i: usize = 0;
        while i < self.cases.len()
            invariant
                i <= self.cases@.len(),
                cases@ == self.cases@.take(i as int),
            decreases self.cases@.len() - i,
        {
            cases.push(self.cases[i].duplicate());
            i = i + 1;
        }
        assert(cases@ =~= self.cases@);
        Job {
            id: self.id,
            created_time: self.created_time,
            updated_time: self.updated_time,
            submission: self.submission.duplicate(),
            state: self.state,
            result: self.result,
            score: self.score,
            cases,
        }
    }
}

#[derive(Clone, Debug)]
pub struct User {
    pub id: i32,
    pub name: String,
}

impl User {
    /// A field-by-field copy.
    pub fn duplicate(&self) -> (r: User)
        ensures
            r == *self,
    {
        User { id: self.id, name: self.name.clone() }
    }
}

#[derive(Clone, Debug)]
pub struct Contest {
    pub id: i32,
    pub name: String,
    /// Microseconds since the Unix epoch.
    pub from: i64,
    /// Microseconds since the Unix epoch.
    pub to: i64,
    pub problem_ids: Vec<i32>,
    pub user_ids: Vec<i32>,
    pub submission_limit: i32,
}

/// Which job of a user on a problem represents them in a ranklist.
#[derive(Clone, Copy, Debug, PartialEq, Eq, Structural)]
pub enum ScoringRule {
    Latest,
    Highest,
}

impl Default for ScoringRule {
    /// The latest job represents a user unless asked otherwise.
    fn default() -> (r: ScoringRule)
        ensures
            r == ScoringRule::Latest,
    {
        ScoringRule::Latest
    }
}

/// Secondary order among users with equal totals.
#[derive(Clone, Copy, Debug, PartialEq, Eq, Structural)]
pub enum TieBreaker {
    SubmissionTime,
    SubmissionCount,
    UserId,
}

/// One row of a ranklist.
#[derive(Clone, Debug)]
pub struct Ranking {
    pub user: User,
    pub rank: i32,
    /// Score of the representative job on each problem, in thousandths of a point.
    pub scores: Vec<u64>,
}

/// What a login token asserts: who, from where, until when.
#[derive(Clone, Debug)]
pub struct TokenPayload {
    pub address: String,
    /// Microseconds since the Unix epoch.
    pub expires: i64,
    pub subject: User,
}

/// An error as reported to clients: a code, its name, a message and an HTTP status.
#[derive(Clone, Debug)]
pub struct Error {
    pub code: i32,
    pub reason: &'static str,
    pub message: String,
    pub http_status: u16,
}

pub const CODE_INVALID_ARGUMENT: i32 = 1;
pub const CODE_INVALID_STATE: i32 = 2;
pub const CODE_NOT_FOUND: i32 = 3;
pub const CODE_RATE_LIMIT: i32 = 4;
pub const CODE_EXTERNAL: i32 = 5;
pub const CODE_INTERNAL: i32 = 6;

impl Error {
    /// Bad input (HTTP 400).
    pub fn invalid_argument() -> (e: Error)
        ensures
            e.code == CODE_INVALID_ARGUMENT,
            e.http_status == 400,
            e.message@.len() == 0,
    {
        Error { code: CODE_INVALID_ARGUMENT, reason: "ERR_INVALID_ARGUMENT", message: String::new(), http_status: 400 }
    }

    /// An operation that the object's state forbids (HTTP 400).
    pub fn invalid_state() -> (e: Error)
        ensures
            e.code == CODE_INVALID_STATE,
            e.http_status == 400,
            e.message@.len() == 0,
    {
        Error { code: CODE_INVALID_STATE, reason: "ERR_INVALID_STATE", message: String::new(), http_status: 400 }
    }

    /// A missing user, problem, contest, job or language (HTTP 404).
    pub fn not_found() -> (e: Error)
        ensures
            e.code == CODE_NOT_FOUND,
            e.http_status == 404,
            e.message@.len() == 0,
    {
        Error { code: CODE_NOT_FOUND, reason: "ERR_NOT_FOUND", message: String::new(), http_status: 404 }
    }

    /// The contest's submission cap is reached (HTTP 400).
    pub fn rate_limit() -> (e: Error)
        ensures
            e.code == CODE_RATE_LIMIT,
            e.http_status == 400,
            e.message@.len() == 0,
    {
        Error { code: CODE_RATE_LIMIT, reason: "ERR_RATE_LIMIT", message: String::new(), http_status: 400 }
    }

    /// A failure of the store (HTTP 500).
    pub fn external() -> (e: Error)
        ensures
            e.code == CODE_EXTERNAL,
            e.http_status == 500,
            e.message@.len() == 0,
    {
        Error { code: CODE_EXTERNAL, reason: "ERR_EXTERNAL", message: String::new(), http_status: 500 }
    }

    /// A failure of serialization or of the host (HTTP 500).
    pub fn internal() -> (e: Error)
        ensures
            e.code == CODE_INTERNAL,
            e.http_status == 500,
            e.message@.len() == 0,
    {
        Error { code: CODE_INTERNAL, reason: "ERR_INTERNAL", message: String::new(), http_status: 500 }
    }

    /// The same error with another message.
    pub fn with_message(self, msg: String) -> (r: Error)
        ensures
            r.code == self.code,
            r.reason == self.reason,
            r.http_status == self.http_status,
            r.message == msg,
    {
        let mut e = self;
        e.message = msg;
        e
    }
}

/// What one run of a case used.
#[derive(Clone, Copy, Debug)]
pub struct Resources {
    /// Wall-clock microseconds.
    pub time: u64,
    /// Peak resident set, in bytes.
    pub memory: u64,
}

} // verus!
