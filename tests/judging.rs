use rustoj::engine::Judging;
use rustoj::judge::{judge_output, special_judge_command, special_judge_report, standard_judge, strict_judge};
use rustoj::models::{Case, Job, JobRequest, JobStatus, Language, MiscType, Problem, ProblemType, Resources, Status};
use rustoj::sandbox::{after_syscall, after_wait, run_outcome, syscall_banned, ChildEvent, RunDecision, Signal};

fn case(score: u32) -> Case {
    Case {
        score,
        input_file: "in.txt".to_string(),
        answer_file: "ans.txt".to_string(),
        time_limit: 0,
        memory_limit: 0,
    }
}

fn problem(misc: MiscType, scores: &[u32]) -> Problem {
    Problem {
        id: 1,
        name: "p".to_string(),
        problem_type: ProblemType::Standard,
        description: String::new(),
        misc,
        cases: scores.iter().map(|s| case(*s)).collect(),
    }
}

fn request() -> JobRequest {
    JobRequest {
        source_code: "fn main() {}".to_string(),
        language: "Rust".to_string(),
        user_id: 0,
        contest_id: 0,
        problem_id: 1,
    }
}

fn usage(time: u64) -> Resources {
    Resources { time, memory: 1024 }
}

#[test]
fn standard_ignores_trailing_white_space() {
    assert_eq!(standard_judge("Hello  \n", "Hello\n"), Status::Accepted);
    assert_eq!(standard_judge("a\nb\n\n\n", "a \nb"), Status::Accepted);
    assert_eq!(standard_judge("a\r\nb\r\n", "a\nb\n"), Status::Accepted);
}

#[test]
fn standard_rejects_different_lines() {
    assert_eq!(standard_judge("Hello\n", "Hallo\n"), Status::WrongAnswer);
    assert_eq!(standard_judge(" a\n", "a\n"), Status::WrongAnswer);
}

#[test]
fn standard_rejects_other_line_count() {
    assert_eq!(standard_judge("a\nb\n", "a\n"), Status::WrongAnswer);
    assert_eq!(standard_judge("a\n\nb", "a\nb"), Status::WrongAnswer);
}

#[test]
fn standard_accepts_a_text_against_itself() {
    for x in ["", "x", "1 2\n3 4\n", "  lead\n\ntrail \t\n", "\u{3000}wide\u{3000}"] {
        assert_eq!(standard_judge(x, x), Status::Accepted);
    }
}

#[test]
fn standard_empty_outputs() {
    assert_eq!(standard_judge("", ""), Status::Accepted);
    assert_eq!(standard_judge(" \n\t", ""), Status::Accepted);
    assert_eq!(standard_judge("", "x"), Status::WrongAnswer);
}

#[test]
fn strict_is_byte_equality() {
    assert_eq!(strict_judge("a\n", "a\n"), Status::Accepted);
    assert_eq!(strict_judge("a\n", "a"), Status::WrongAnswer);
    assert_eq!(strict_judge("", ""), Status::Accepted);
}

#[test]
fn judge_output_by_problem_type() {
    assert_eq!(judge_output(ProblemType::Strict, "a \n", "a\n"), Status::WrongAnswer);
    assert_eq!(judge_output(ProblemType::Standard, "a \n", "a\n"), Status::Accepted);
    assert_eq!(judge_output(ProblemType::DynamicRanking, "a \n", "a\n"), Status::Accepted);
}

#[test]
fn special_judge_report_two_lines() {
    let r = special_judge_report("Accepted\nwell done\n").unwrap();
    assert_eq!(r.0, "Accepted");
    assert_eq!(r.1, "well done");
    let r = special_judge_report("Wrong Answer\nline 3").unwrap();
    assert_eq!(r.0, "Wrong Answer");
    assert_eq!(r.1, "line 3");
}

#[test]
fn special_judge_report_malformed() {
    assert!(special_judge_report("").is_none());
    assert!(special_judge_report("Accepted\n").is_none());
    assert!(special_judge_report("a\nb\nc\n").is_none());
    assert!(special_judge_report("Accepted\n\n").is_none());
    assert!(special_judge_report("\nmessage\n").is_none());
}

#[test]
fn special_judge_command_substitutes() {
    let t = vec!["spj".to_string(), "%OUTPUT%".to_string(), "%ANSWER%".to_string(), "%INPUT%".to_string()];
    let r = special_judge_command(&t, "/tmp/out", "/data/ans");
    assert_eq!(r, vec!["spj", "/tmp/out", "/data/ans", "%INPUT%"]);
}

#[test]
fn language_command_substitutes() {
    let l = Language {
        name: "Rust".to_string(),
        file_name: "main.rs".to_string(),
        command: vec!["rustc".to_string(), "-o".to_string(), "%OUTPUT%".to_string(), "%INPUT%".to_string()],
    };
    assert_eq!(l.expand_command("/t/main.rs", "/t/exe"), vec!["rustc", "-o", "/t/exe", "/t/main.rs"]);
}

#[test]
fn wait_classification() {
    assert_eq!(after_wait(ChildEvent::Exited(0), 0, 0), RunDecision::Finish(Status::Accepted));
    assert_eq!(after_wait(ChildEvent::Exited(3), 0, 0), RunDecision::Finish(Status::RuntimeError));
    assert_eq!(after_wait(ChildEvent::Killed(Signal::CpuLimit), 0, 0), RunDecision::Kill(Status::TimeLimitExceeded));
    assert_eq!(after_wait(ChildEvent::Killed(Signal::Segfault), 200, 100), RunDecision::Kill(Status::MemoryLimitExceeded));
    assert_eq!(after_wait(ChildEvent::Killed(Signal::Segfault), 200, 0), RunDecision::Kill(Status::RuntimeError));
    assert_eq!(after_wait(ChildEvent::Stopped(Signal::Other), 0, 0), RunDecision::Kill(Status::RuntimeError));
    assert_eq!(after_wait(ChildEvent::Stopped(Signal::Trap), 200, 100), RunDecision::Kill(Status::MemoryLimitExceeded));
    assert_eq!(after_wait(ChildEvent::Stopped(Signal::Trap), 50, 100), RunDecision::CheckSyscall);
    assert_eq!(after_wait(ChildEvent::Stopped(Signal::Child), 50, 0), RunDecision::CheckSyscall);
}

#[test]
fn banned_syscalls() {
    assert!(syscall_banned(435));
    assert!(!syscall_banned(1));
}

#[test]
fn run_outcome_time_limit_wins() {
    assert_eq!(run_outcome(Status::Accepted, false, 100_000, 150_000), Err(Status::TimeLimitExceeded));
    assert_eq!(run_outcome(Status::RuntimeError, true, 0, 0), Err(Status::TimeLimitExceeded));
    assert_eq!(run_outcome(Status::Accepted, false, 100_000, 90_000), Ok(()));
    assert_eq!(run_outcome(Status::Accepted, false, 0, 9_000_000), Ok(()));
    assert_eq!(run_outcome(Status::RuntimeError, false, 0, 10), Err(Status::RuntimeError));
}

fn start(p: &Problem) -> Judging {
    let job = Job::new(7, &request(), p.cases.len());
    Judging::new(job, p)
}

#[test]
fn hello_world_accepted() {
    let p = problem(MiscType::Empty {}, &[100_000]);
    let mut s = start(&p);
    s.compile_succeeded();
    assert_eq!(s.next_case(), Some(1));
    assert_eq!(s.current().cases[1].result, Status::Running);
    s.record(Status::Accepted, None, usage(1200));
    assert_eq!(s.next_case(), None);
    let job = s.into_job();
    assert_eq!(job.state, JobStatus::Finished);
    assert_eq!(job.result, Status::Accepted);
    assert_eq!(job.score, 100_000);
    assert_eq!(job.cases.len(), 2);
    assert_eq!(job.cases[0].result, Status::CompilationSuccess);
    assert_eq!(job.cases[1].result, Status::Accepted);
    assert_eq!(job.cases[1].time, 1200);
    assert_eq!(job.cases[1].memory, 1024);
}

#[test]
fn compile_error_judges_nothing() {
    let p = problem(MiscType::Empty {}, &[10_000, 20_000]);
    let mut s = start(&p);
    s.compile_failed();
    assert!(s.is_finished());
    let job = s.into_job();
    assert_eq!(job.state, JobStatus::Finished);
    assert_eq!(job.result, Status::CompilationError);
    assert_eq!(job.cases[0].result, Status::CompilationError);
    assert!(job.cases[1..].iter().all(|c| c.result == Status::Waiting));
    assert_eq!(job.score, 0);
}

#[test]
fn time_limit_exceeded_case() {
    let mut p = problem(MiscType::Empty {}, &[100_000]);
    p.cases[0].time_limit = 100_000;
    let mut s = start(&p);
    s.compile_succeeded();
    assert_eq!(s.next_case(), Some(1));
    let verdict = run_outcome(Status::RuntimeError, true, 100_000, 100_350).unwrap_err();
    s.record(verdict, None, usage(100_350));
    assert_eq!(s.next_case(), None);
    let job = s.into_job();
    assert_eq!(job.cases[1].result, Status::TimeLimitExceeded);
    assert_eq!(job.result, Status::TimeLimitExceeded);
    assert!(job.cases[1].time >= 100_000);
    assert_eq!(job.score, 0);
}

#[test]
fn flat_first_failure_is_the_result() {
    let p = problem(MiscType::Empty {}, &[10_000, 20_000, 30_000]);
    let mut s = start(&p);
    s.compile_succeeded();
    let verdicts = [Status::Accepted, Status::WrongAnswer, Status::RuntimeError];
    for (i, v) in verdicts.iter().enumerate() {
        assert_eq!(s.next_case(), Some(i + 1));
        s.record(*v, None, usage(5));
        if *v == Status::Accepted {
            assert_eq!(s.current().score, 10_000);
        }
    }
    assert_eq!(s.next_case(), None);
    let job = s.into_job();
    assert_eq!(job.result, Status::WrongAnswer);
    assert_eq!(job.score, 10_000);
    assert_eq!(job.cases[3].result, Status::RuntimeError);
}

#[test]
fn packed_groups_score_all_or_nothing() {
    let p = problem(MiscType::Packed { packing: vec![vec![1, 2], vec![3]] }, &[10_000, 10_000, 10_000]);
    let mut s = start(&p);
    s.compile_succeeded();
    assert_eq!(s.next_case(), Some(1));
    s.record(Status::Accepted, None, usage(1));
    assert_eq!(s.next_case(), Some(2));
    s.record(Status::WrongAnswer, None, usage(1));
    assert_eq!(s.next_case(), Some(3));
    s.record(Status::Accepted, None, usage(1));
    assert_eq!(s.next_case(), None);
    let job = s.into_job();
    assert_eq!(job.cases[1].result, Status::Accepted);
    assert_eq!(job.cases[2].result, Status::WrongAnswer);
    assert_eq!(job.cases[3].result, Status::Accepted);
    assert_eq!(job.score, 10_000);
    assert_eq!(job.result, Status::WrongAnswer);
}

#[test]
fn packed_failure_skips_rest_of_group() {
    let p = problem(MiscType::Packed { packing: vec![vec![3, 1, 2]] }, &[5_000, 5_000, 5_000]);
    let mut s = start(&p);
    s.compile_succeeded();
    assert_eq!(s.next_case(), Some(3));
    s.record(Status::MemoryLimitExceeded, None, usage(1));
    assert_eq!(s.next_case(), None);
    let job = s.into_job();
    assert_eq!(job.cases[3].result, Status::MemoryLimitExceeded);
    assert_eq!(job.cases[1].result, Status::Skipped);
    assert_eq!(job.cases[2].result, Status::Skipped);
    assert_eq!(job.score, 0);
    assert_eq!(job.result, Status::MemoryLimitExceeded);
}

#[test]
fn special_judge_message_is_kept() {
    let p = problem(MiscType::Empty {}, &[1_000]);
    let mut s = start(&p);
    s.compile_succeeded();
    assert_eq!(s.next_case(), Some(1));
    s.record(Status::Accepted, Some("ok".to_string()), usage(1));
    assert_eq!(s.current().cases[1].info, "ok");
}

#[test]
fn system_error_finishes_job() {
    let p = problem(MiscType::Empty {}, &[1_000, 1_000]);
    let mut s = start(&p);
    s.compile_succeeded();
    assert_eq!(s.next_case(), Some(1));
    s.fail();
    let job = s.into_job();
    assert_eq!(job.state, JobStatus::Finished);
    assert_eq!(job.result, Status::SystemError);
}

#[test]
fn problem_fits_checks_packing() {
    assert!(problem(MiscType::Packed { packing: vec![vec![1, 2]] }, &[1, 1]).fits());
    assert!(!problem(MiscType::Packed { packing: vec![vec![1, 3]] }, &[1, 1]).fits());
    assert!(!problem(MiscType::Packed { packing: vec![vec![0]] }, &[1]).fits());
    assert!(problem(MiscType::Empty {}, &[1, 1, 1]).fits());
    assert_eq!(problem(MiscType::Empty {}, &[1_500, 2_500]).total_score(), 4_000);
}

#[test]
fn system_error_keeps_accepted_scores() {
    let p = problem(MiscType::Empty {}, &[1_000, 2_000, 4_000]);
    let mut s = start(&p);
    s.compile_succeeded();
    assert_eq!(s.next_case(), Some(1));
    s.record(Status::Accepted, None, usage(1));
    assert_eq!(s.next_case(), Some(2));
    s.fail();
    let job = s.into_job();
    assert_eq!(job.score, 1_000);
    assert_eq!(job.cases[1].result, Status::Accepted);
    assert_eq!(job.cases[2].result, Status::Running);
    assert_eq!(job.cases[3].result, Status::Waiting);
}

#[test]
fn packed_group_with_skips_then_next_group() {
    let p = problem(MiscType::Packed { packing: vec![vec![1, 2], vec![], vec![3]] }, &[1_000, 2_000, 4_000]);
    let mut s = start(&p);
    s.compile_succeeded();
    assert_eq!(s.next_case(), Some(1));
    s.record(Status::RuntimeError, None, usage(1));
    assert_eq!(s.next_case(), Some(3));
    assert_eq!(s.current().cases[2].result, Status::Skipped);
    s.record(Status::Accepted, None, usage(1));
    assert_eq!(s.current().score, 4_000);
    assert_eq!(s.next_case(), None);
    let job = s.into_job();
    assert_eq!(job.result, Status::RuntimeError);
    assert_eq!(job.score, 4_000);
}

#[test]
fn banned_syscall_kills_with_runtime_error() {
    assert_eq!(after_syscall(435), RunDecision::Kill(Status::RuntimeError));
    assert_eq!(after_syscall(0), RunDecision::Resume);
}

#[test]
fn packing_may_not_repeat_a_case() {
    assert!(!problem(MiscType::Packed { packing: vec![vec![1], vec![1]] }, &[1, 1]).fits());
    assert!(!problem(MiscType::Packed { packing: vec![vec![2, 2]] }, &[1, 1]).fits());
    assert!(problem(MiscType::Packed { packing: vec![vec![2], vec![1]] }, &[1, 1]).fits());
}

#[test]
fn reported_running_is_special_judge_error() {
    let p = problem(MiscType::Empty {}, &[1_000]);
    let mut s = start(&p);
    s.compile_succeeded();
    assert_eq!(s.next_case(), Some(1));
    s.record(Status::Running, Some("odd".to_string()), usage(1));
    assert_eq!(s.next_case(), None);
    let job = s.into_job();
    assert_eq!(job.cases[1].result, Status::SpecialJudgeError);
    assert_eq!(job.cases[1].info, "odd");
    assert_eq!(job.result, Status::SpecialJudgeError);
    assert_eq!(job.cases[0].result, Status::CompilationSuccess);
}

#[test]
fn reported_skipped_or_waiting_is_kept() {
    let p = problem(MiscType::Empty {}, &[1_000, 2_000]);
    for v in [Status::Skipped, Status::Waiting] {
        let mut s = start(&p);
        s.compile_succeeded();
        assert_eq!(s.next_case(), Some(1));
        s.record(v, None, usage(1));
        assert_eq!(s.next_case(), Some(2));
        s.record(Status::Accepted, None, usage(1));
        assert_eq!(s.next_case(), None);
        let job = s.into_job();
        assert_eq!(job.cases[1].result, v);
        assert_eq!(job.cases[2].result, Status::Accepted);
        assert_eq!(job.result, v);
        assert_eq!(job.score, 2_000);
    }
}
