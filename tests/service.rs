use rustoj::models::{
    Case, Config, Contest, Job, JobRequest, JobStatus, Language, MiscType, Problem, ProblemType, Ranking,
    ScoringRule, ServerConfig, Status, TieBreaker, TokenPayload, User, CODE_INTERNAL, CODE_INVALID_ARGUMENT,
    CODE_INVALID_STATE, CODE_NOT_FOUND, CODE_RATE_LIMIT,
};
use rustoj::ranking::{rank_users, ranklist, RankHelper};
use rustoj::tokens::{check_expiry, Token, TokenFactory};
use rustoj::worker::{JobFilter, Pickup, Worker};

fn problem(id: i32, scores: &[u32]) -> Problem {
    Problem {
        id,
        name: format!("p{}", id),
        problem_type: ProblemType::Standard,
        description: String::new(),
        misc: MiscType::Empty {},
        cases: scores
            .iter()
            .map(|s| Case {
                score: *s,
                input_file: "in".to_string(),
                answer_file: "ans".to_string(),
                time_limit: 0,
                memory_limit: 0,
            })
            .collect(),
    }
}

fn config() -> Config {
    Config {
        server: ServerConfig { bind_address: "127.0.0.1".to_string(), bind_port: 12345 },
        problems: vec![problem(1, &[100_000]), problem(2, &[50_000, 50_000])],
        languages: vec![Language {
            name: "Rust".to_string(),
            file_name: "main.rs".to_string(),
            command: vec!["rustc".to_string(), "-o".to_string(), "%OUTPUT%".to_string(), "%INPUT%".to_string()],
        }],
    }
}

fn req(user_id: i32, contest_id: i32, problem_id: i32) -> JobRequest {
    JobRequest {
        source_code: "fn main() {}".to_string(),
        language: "Rust".to_string(),
        user_id,
        contest_id,
        problem_id,
    }
}

fn contest(limit: i32) -> Contest {
    Contest {
        id: 1,
        name: "c".to_string(),
        from: 0,
        to: 1_000_000,
        problem_ids: vec![1],
        user_ids: vec![1, 2],
        submission_limit: limit,
    }
}

fn user(id: i32, name: &str) -> User {
    User { id, name: name.to_string() }
}

fn job_with(id: i32, user_id: i32, problem_id: i32, score: u64, created: i64) -> Job {
    let mut j = Job::new(id, &req(user_id, 0, problem_id), 1);
    j.score = score;
    j.created_time = created;
    j.state = JobStatus::Finished;
    j.result = Status::Accepted;
    j
}

#[test]
fn gate_admits_and_numbers_jobs() {
    let mut w = Worker::new(config(), -1, 0, 0).ok().unwrap();
    let j = w.create_job(&req(1, 0, 2), true, &None, &vec![]).ok().unwrap();
    assert_eq!(j.id, 0);
    assert_eq!(j.state, JobStatus::Queueing);
    assert_eq!(j.result, Status::Waiting);
    assert_eq!(j.cases.len(), 3);
    assert!(j.cases.iter().enumerate().all(|(i, c)| c.id == i as i32 && c.result == Status::Waiting));
    let k = w.create_job(&req(1, 0, 1), true, &None, &vec![]).ok().unwrap();
    assert_eq!(k.id, 1);
}

#[test]
fn gate_errors_in_order() {
    let mut w = Worker::new(config(), 4, 0, 0).ok().unwrap();
    assert_eq!(w.create_job(&req(9, 0, 1), false, &None, &vec![]).err().unwrap().code, CODE_NOT_FOUND);
    assert_eq!(w.create_job(&req(1, 0, 3), true, &None, &vec![]).err().unwrap().code, CODE_NOT_FOUND);
    assert_eq!(w.create_job(&req(1, 1, 1), true, &None, &vec![]).err().unwrap().code, CODE_NOT_FOUND);
    assert_eq!(w.create_job(&req(3, 1, 1), true, &Some(contest(5)), &vec![]).err().unwrap().code, CODE_INVALID_ARGUMENT);
    assert_eq!(w.create_job(&req(1, 1, 2), true, &Some(contest(5)), &vec![]).err().unwrap().code, CODE_INVALID_ARGUMENT);
    let mut bad_language = req(1, 0, 1);
    bad_language.language = "Cobol".to_string();
    assert_eq!(w.create_job(&bad_language, true, &None, &vec![]).err().unwrap().code, CODE_NOT_FOUND);
    assert_eq!(w.create_job(&req(1, 1, 1), true, &Some(contest(5)), &vec![]).ok().unwrap().id, 5);
}

#[test]
fn gate_enforces_submission_cap() {
    let mut w = Worker::new(config(), 0, 0, 0).ok().unwrap();
    let c = Some(contest(2));
    let first = w.create_job(&req(1, 1, 1), true, &c, &vec![]).ok().unwrap();
    w.push_job(first);
    let mut stored = Job::new(40, &req(1, 1, 1), 1);
    stored.state = JobStatus::Finished;
    let e = w.create_job(&req(1, 1, 1), true, &c, &vec![stored]).err().unwrap();
    assert_eq!(e.code, CODE_RATE_LIMIT);
    assert!(w.create_job(&req(2, 1, 1), true, &c, &vec![]).is_ok());
    let zero = Some(contest(0));
    assert_eq!(w.create_job(&req(2, 1, 1), true, &zero, &vec![]).err().unwrap().code, CODE_RATE_LIMIT);
}

#[test]
fn worker_rejects_bad_packing() {
    let mut c = config();
    c.problems[0].misc = MiscType::Packed { packing: vec![vec![1, 2]] };
    assert_eq!(Worker::new(c, 0, 0, 0).err().unwrap().code, CODE_INVALID_ARGUMENT);
}

#[test]
fn worker_runs_a_queued_job() {
    let mut w = Worker::new(config(), 0, 0, 0).ok().unwrap();
    let j = w.create_job(&req(1, 0, 1), true, &None, &vec![]).ok().unwrap();
    w.push_job(j);
    assert!(matches!(w.pick_up(), Pickup::Started));
    assert!(matches!(w.pick_up(), Pickup::Idle));
    assert!(w.compile_done(true));
    assert_eq!(w.next_case(), Some(1));
    assert!(w.record_case(Status::Accepted, None, rustoj::models::Resources { time: 3, memory: 4 }));
    assert_eq!(w.next_case(), None);
    let done = w.take_finished().unwrap();
    assert_eq!(done.state, JobStatus::Finished);
    assert_eq!(done.result, Status::Accepted);
    assert_eq!(done.score, 100_000);
    assert!(w.take_finished().is_none());
}

#[test]
fn unknown_problem_job_is_system_error() {
    let mut w = Worker::new(config(), 0, 0, 0).ok().unwrap();
    let j = Job::new(3, &req(1, 0, 77), 1);
    w.push_job(j);
    match w.pick_up() {
        Pickup::Unjudgeable(j) => {
            assert_eq!(j.result, Status::SystemError);
            assert_eq!(j.state, JobStatus::Finished);
        },
        _ => panic!("expected an unjudgeable job"),
    }
}

#[test]
fn cancel_queued_job() {
    let mut w = Worker::new(config(), 0, 0, 0).ok().unwrap();
    let j = w.create_job(&req(1, 0, 1), true, &None, &vec![]).ok().unwrap();
    let id = j.id;
    w.push_job(j);
    assert!(w.cancel_job(id, &None).is_ok());
    assert!(w.find_job(id, &None).is_none());
    assert_eq!(w.cancel_job(id, &None).err().unwrap().code, CODE_NOT_FOUND);
    let finished = job_with(9, 1, 1, 0, 5);
    assert_eq!(w.cancel_job(9, &Some(finished)).err().unwrap().code, CODE_INVALID_STATE);
}

#[test]
fn cancel_running_job_fails() {
    let mut w = Worker::new(config(), 0, 0, 0).ok().unwrap();
    let j = w.create_job(&req(1, 0, 1), true, &None, &vec![]).ok().unwrap();
    let id = j.id;
    w.push_job(j);
    assert!(matches!(w.pick_up(), Pickup::Started));
    assert_eq!(w.cancel_job(id, &None).err().unwrap().code, CODE_INVALID_STATE);
}

#[test]
fn rerun_resets_finished_job() {
    let mut w = Worker::new(config(), 0, 0, 0).ok().unwrap();
    let mut old = job_with(4, 1, 1, 100_000, 77);
    old.result = Status::WrongAnswer;
    old.cases[1].result = Status::WrongAnswer;
    old.cases[1].time = 10;
    old.cases[1].info = "x".to_string();
    let fresh = w.rerun_job(4, &Some(old.clone())).ok().unwrap();
    assert_eq!(fresh.id, 4);
    assert_eq!(fresh.state, JobStatus::Queueing);
    assert_eq!(fresh.result, Status::Waiting);
    assert_eq!(fresh.score, 0);
    assert_eq!(fresh.created_time, 77);
    assert_eq!(fresh.submission.source_code, old.submission.source_code);
    assert!(fresh.cases.iter().all(|c| c.result == Status::Waiting && c.time == 0 && c.info.is_empty()));
    assert_eq!(w.find_job(4, &None).unwrap().state, JobStatus::Queueing);
    assert_eq!(w.rerun_job(5, &None).err().unwrap().code, CODE_NOT_FOUND);
    let mut queued = old.clone();
    queued.state = JobStatus::Queueing;
    assert_eq!(w.rerun_job(4, &Some(queued)).err().unwrap().code, CODE_INVALID_STATE);
}

#[test]
fn find_jobs_filters() {
    let w = Worker::new(config(), 0, 0, 0).ok().unwrap();
    let stored = vec![job_with(1, 1, 1, 0, 10), job_with(2, 2, 1, 0, 20), job_with(3, 1, 2, 0, 30)];
    let mut f = JobFilter {
        user_id: Some(1),
        user: None,
        contest_id: None,
        problem_id: None,
        language: None,
        from: None,
        to: None,
        state: None,
        result: None,
    };
    let ids: Vec<i32> = w.find_jobs(&f, &stored).iter().map(|j| j.id).collect();
    assert_eq!(ids, vec![1, 3]);
    f.from = Some(15);
    let ids: Vec<i32> = w.find_jobs(&f, &stored).iter().map(|j| j.id).collect();
    assert_eq!(ids, vec![3]);
    f.user_id = None;
    f.user = Some(None);
    assert!(w.find_jobs(&f, &stored).is_empty());
    f.user = Some(Some(2));
    f.language = Some("Rust".to_string());
    let ids: Vec<i32> = w.find_jobs(&f, &stored).iter().map(|j| j.id).collect();
    assert_eq!(ids, vec![2]);
}

#[test]
fn users_and_contest_ids() {
    let mut w = Worker::new(config(), 0, -1, 0).ok().unwrap();
    let u = w.create_user("alice", false).ok().unwrap();
    assert_eq!(u.id, 1);
    assert_eq!(u.name, "alice");
    assert_eq!(w.create_user("alice", true).err().unwrap().code, CODE_INVALID_ARGUMENT);
    assert_eq!(w.update_user(&user(1, "bob"), &Some(user(2, "bob")), true).err().unwrap().code, CODE_INVALID_ARGUMENT);
    assert_eq!(w.update_user(&user(5, "bob"), &None, false).err().unwrap().code, CODE_NOT_FOUND);
    assert!(w.update_user(&user(1, "bob"), &Some(user(1, "bob")), true).is_ok());
    assert_eq!(w.next_contest_id().ok().unwrap(), 1);
    assert_eq!(w.contest_id_for(None).ok().unwrap(), 2);
    assert_eq!(w.contest_id_for(Some(9)).ok().unwrap(), 9);
    assert_eq!(w.contest_id_for(Some(0)).err().unwrap().code, CODE_INVALID_ARGUMENT);
    let mut full = Worker::new(config(), 0, i32::MAX, 0).ok().unwrap();
    assert_eq!(full.create_user("z", false).err().unwrap().code, CODE_INTERNAL);
}

#[test]
fn contest_problems_in_config_order() {
    let w = Worker::new(config(), 0, 0, 0).ok().unwrap();
    let mut c = contest(3);
    c.problem_ids = vec![2, 1, 9];
    let ps = w.get_contest_problems(&Some(c)).ok().unwrap();
    let ids: Vec<i32> = ps.iter().map(|p| p.id).collect();
    assert_eq!(ids, vec![1, 2]);
    assert_eq!(w.get_contest_problems(&None).err().unwrap().code, CODE_NOT_FOUND);
}

#[test]
fn select_latest_and_highest() {
    let jobs = vec![job_with(1, 1, 1, 50, 10), job_with(2, 1, 1, 90, 20), job_with(3, 1, 1, 90, 5), job_with(4, 1, 1, 10, 30)];
    assert_eq!(ScoringRule::Latest.select(&jobs).unwrap().id, 4);
    assert_eq!(ScoringRule::Highest.select(&jobs).unwrap().id, 3);
    assert!(ScoringRule::Highest.select(&[]).is_none());
}

fn ranks(r: &[Ranking]) -> Vec<(i32, i32)> {
    r.iter().map(|x| (x.user.id, x.rank)).collect()
}

#[test]
fn ranklist_highest_with_user_id_tie_breaker() {
    let users = vec![user(1, "u1"), user(2, "u2"), user(3, "u3")];
    let jobs = vec![job_with(10, 2, 1, 100_000, 50), job_with(11, 1, 1, 100_000, 20), job_with(12, 3, 1, 40_000, 10)];
    let users_rev = vec![users[1].clone(), users[0].clone(), users[2].clone()];
    let out = ranklist(&users_rev, &vec![1], &jobs, ScoringRule::Highest, Some(TieBreaker::UserId)).ok().unwrap();
    assert_eq!(ranks(&out), vec![(1, 1), (2, 2), (3, 3)]);
    let out = ranklist(&users, &vec![1], &jobs, ScoringRule::Highest, Some(TieBreaker::SubmissionTime)).ok().unwrap();
    assert_eq!(ranks(&out), vec![(1, 1), (2, 2), (3, 3)]);
    let out = ranklist(&users, &vec![1], &jobs, ScoringRule::Highest, None).ok().unwrap();
    assert_eq!(ranks(&out), vec![(1, 1), (2, 1), (3, 3)]);
    assert_eq!(out[0].scores, vec![100_000]);
    assert_eq!(out[2].scores, vec![40_000]);
}

#[test]
fn ranklist_user_id_breaks_ties_toward_lower_id() {
    let u1 = user(5, "u1");
    let u2 = user(2, "u2");
    let jobs = vec![job_with(1, 5, 1, 100_000, 10), job_with(2, 2, 1, 100_000, 20), job_with(3, 7, 1, 0, 30)];
    let users = vec![u1, u2, user(7, "u3")];
    let out = ranklist(&users, &vec![1], &jobs, ScoringRule::Highest, Some(TieBreaker::UserId)).ok().unwrap();
    assert_eq!(ranks(&out), vec![(2, 1), (5, 2), (7, 3)]);
    let out = ranklist(&users, &vec![1], &jobs, ScoringRule::Highest, None).ok().unwrap();
    assert_eq!(ranks(&out), vec![(5, 1), (2, 1), (7, 3)]);
}

#[test]
fn ranklist_counts_and_missing_jobs() {
    let users = vec![user(1, "a"), user(2, "b")];
    let jobs = vec![job_with(1, 1, 1, 0, 10), job_with(2, 1, 1, 0, 11), job_with(3, 2, 1, 0, 12)];
    let out = ranklist(&users, &vec![1, 2], &jobs, ScoringRule::Latest, Some(TieBreaker::SubmissionCount)).ok().unwrap();
    assert_eq!(ranks(&out), vec![(2, 1), (1, 2)]);
    assert_eq!(out[0].scores, vec![0, 0]);
}

#[test]
fn rank_users_direct() {
    let h = |id: i32, score: u64| RankHelper {
        user: user(id, "x"),
        jobs: vec![Some(job_with(id, id, 1, score, 1)), None],
        job_counts: vec![1, 0],
    };
    let helpers = vec![h(1, 10), h(2, 30), h(3, 30), h(4, 20)];
    let out = rank_users(&helpers, None);
    assert_eq!(ranks(&out), vec![(2, 1), (3, 1), (4, 3), (1, 4)]);
    assert_eq!(helpers[1].score(), 30);
    assert_eq!(TieBreaker::UserId.compare(&helpers[0], &helpers[1]), std::cmp::Ordering::Less);
}

#[test]
fn global_and_contest_ranklists() {
    let w = Worker::new(config(), 0, 0, 0).ok().unwrap();
    let users = vec![user(0, "root"), user(1, "a"), user(2, "b")];
    let stored = vec![job_with(1, 1, 1, 100_000, 10), job_with(2, 2, 2, 30_000, 11)];
    let out = w.global_ranklist(&users, &stored, ScoringRule::Latest, None).ok().unwrap();
    assert_eq!(ranks(&out), vec![(1, 1), (2, 2), (0, 3)]);
    assert_eq!(out[1].scores, vec![0, 30_000]);
    let out = w.contest_ranklist(&Some(contest(3)), &users, &stored, ScoringRule::Latest, None).ok().unwrap();
    assert_eq!(ranks(&out), vec![(1, 1), (2, 2)]);
    assert_eq!(w.contest_ranklist(&None, &users, &stored, ScoringRule::Latest, None).err().unwrap().code, CODE_NOT_FOUND);
}

#[test]
fn token_text_and_parse() {
    let t = Token { signature: vec![1, 2, 3], payload: b"hi".to_vec() };
    let text = t.to_string();
    assert_eq!(text, "aGk.AQID");
    let back = Token::parse(&text).ok().unwrap();
    assert_eq!(back.payload, b"hi".to_vec());
    assert_eq!(back.signature, vec![1, 2, 3]);
    assert_eq!(Token::parse("nodot").err().unwrap().code, CODE_INVALID_ARGUMENT);
    assert_eq!(Token::parse("a.b.c").err().unwrap().code, CODE_INVALID_ARGUMENT);
    assert_eq!(Token::parse("a*.AQID").err().unwrap().code, CODE_INVALID_ARGUMENT);
}

#[test]
fn token_signatures() {
    let f = TokenFactory::new();
    let payload = TokenPayload { address: "1.2.3.4".to_string(), expires: i64::MAX, subject: user(1, "a") };
    let t = f.create(&b"payload".to_vec());
    assert_eq!(t.signature.len(), 32);
    assert_ne!(t.signature, b"payload".to_vec());
    assert_eq!(f.create(&b"payload".to_vec()).signature, t.signature);
    assert!(f.parse(&t, Some(payload.clone())).is_ok());
    assert_eq!(f.parse(&t, None).err().unwrap().code, CODE_INTERNAL);
    let mut forged = t.clone();
    forged.signature[0] ^= 1;
    assert_eq!(f.parse(&forged, Some(payload.clone())).err().unwrap().code, CODE_INVALID_ARGUMENT);
    let other = TokenFactory::new();
    assert_eq!(other.parse(&t, Some(payload.clone())).err().unwrap().code, CODE_INVALID_ARGUMENT);
    let mut old = payload.clone();
    old.expires = 0;
    assert_eq!(f.parse(&t, Some(old)).err().unwrap().code, CODE_INVALID_ARGUMENT);
    assert!(payload.authorizes("1.2.3.4", 1));
    assert!(!payload.authorizes("1.2.3.5", 1));
    assert!(!payload.authorizes("1.2.3.4", 2));
}

#[test]
fn expiry_check() {
    let p = TokenPayload { address: "a".to_string(), expires: 100, subject: user(1, "a") };
    assert!(check_expiry(p.clone(), 100).is_ok());
    assert!(check_expiry(p.clone(), 99).is_ok());
    assert_eq!(check_expiry(p, 101).err().unwrap().code, CODE_INVALID_ARGUMENT);
}

#[test]
fn error_constructors() {
    let e = rustoj::models::Error::rate_limit().with_message("slow down".to_string());
    assert_eq!(e.code, CODE_RATE_LIMIT);
    assert_eq!(e.http_status, 400);
    assert_eq!(e.reason, "ERR_RATE_LIMIT");
    assert_eq!(e.message, "slow down");
    assert_eq!(rustoj::models::Error::not_found().http_status, 404);
    assert_eq!(rustoj::models::Error::external().http_status, 500);
}

#[test]
fn store_helpers() {
    assert_eq!(rustoj::store::largest_id(&vec![], -1), -1);
    assert_eq!(rustoj::store::largest_id(&vec![3, 9, 2], 0), 9);
    assert_eq!(rustoj::store::largest_id(&vec![-5], 0), 0);
    let users = vec![user(0, "root"), user(4, "ann"), user(5, "ann")];
    assert_eq!(rustoj::store::user_named(&users, "ann").unwrap().id, 4);
    assert!(rustoj::store::user_named(&users, "bob").is_none());
}

#[test]
fn default_scoring_rule_is_latest() {
    assert_eq!(ScoringRule::default(), ScoringRule::Latest);
}
