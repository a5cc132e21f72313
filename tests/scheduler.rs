use rbt::coordinator::{Coordinator, RunError, RunnableJob, Runner};
use rbt::job::{dependency_identities, identity, Command, Job, Tool};
use rbt::runner::FakeRunner;
use std::cell::RefCell;

fn command(tool: &str, args: &[&str]) -> Command {
    Command {
        tool: Tool::SystemTool { name: tool.to_string() },
        args: args.iter().map(|a| a.to_string()).collect(),
    }
}

fn job(tool: &str, args: &[&str], inputs: Vec<(&str, Job)>) -> Job {
    Job {
        command: command(tool, args),
        inputs: inputs.into_iter().map(|(n, j)| (n.to_string(), j)).collect(),
        input_files: vec![],
        outputs: vec!["out".to_string()],
    }
}

/// Records each job's first argument, and fails on one named argument.
struct Recorder {
    seen: RefCell<Vec<String>>,
    fail_on: Option<String>,
}

impl Recorder {
    fn new(fail_on: Option<&str>) -> Recorder {
        Recorder { seen: RefCell::new(vec![]), fail_on: fail_on.map(|s| s.to_string()) }
    }
}

impl Runner for Recorder {
    fn run(&self, job: &RunnableJob) -> Result<(), String> {
        let name = job.command.args[0].clone();
        self.seen.borrow_mut().push(name.clone());
        if self.fail_on.as_deref() == Some(name.as_str()) {
            Err(format!("{} failed", name))
        } else {
            Ok(())
        }
    }
}

#[test]
fn identity_is_deterministic_and_content_based() {
    let a = job("echo", &["a"], vec![]);
    let b = job("echo", &["a"], vec![]);
    let c = job("echo", &["c"], vec![]);
    assert_eq!(identity(&a), identity(&b));
    assert_ne!(identity(&a), identity(&c));
    let p = job("cat", &["p"], vec![("x", a)]);
    assert_eq!(dependency_identities(&p), vec![identity(&b)]);
}

#[test]
fn identity_depends_on_every_part() {
    let base = job("echo", &["a"], vec![]);
    let mut other_tool = job("printf", &["a"], vec![]);
    assert_ne!(identity(&base), identity(&other_tool));
    other_tool = job("echo", &["a"], vec![]);
    other_tool.outputs = vec!["elsewhere".to_string()];
    assert_ne!(identity(&base), identity(&other_tool));
    let mut with_file = job("echo", &["a"], vec![]);
    with_file.input_files = vec!["src".to_string()];
    assert_ne!(identity(&base), identity(&with_file));
}

#[test]
fn tree_without_sharing_has_one_node_per_job() {
    let leaf1 = job("echo", &["l1"], vec![]);
    let leaf2 = job("echo", &["l2"], vec![]);
    let mid = job("cat", &["mid"], vec![("a", leaf1)]);
    let target = job("cat", &["target"], vec![("m", mid), ("b", leaf2)]);
    let mut c = Coordinator::new();
    c.add_target(&target);
    assert_eq!(c.job_count(), 4);
    assert!(c.contains_job(identity(&target)));
}

#[test]
fn identical_subjobs_collapse_to_one_node() {
    let shared = || job("echo", &["shared"], vec![]);
    let p1 = job("cat", &["p1"], vec![("s", shared())]);
    let p2 = job("cat", &["p2"], vec![("s", shared())]);
    let target = job("cat", &["target"], vec![("a", p1), ("b", p2)]);
    let mut c = Coordinator::new();
    c.add_target(&target);
    assert_eq!(c.job_count(), 4);
    let sid = identity(&shared());
    let d1 = c.dependencies_of(identity(&target.inputs[0].1)).unwrap();
    let d2 = c.dependencies_of(identity(&target.inputs[1].1)).unwrap();
    assert_eq!(d1, vec![sid]);
    assert_eq!(d2, vec![sid]);
    assert_eq!(c.ready_list(), &vec![sid]);
}

#[test]
fn shared_subjob_runs_once() {
    let shared = || job("echo", &["shared"], vec![]);
    let p1 = job("cat", &["p1"], vec![("s", shared())]);
    let p2 = job("cat", &["p2"], vec![("s", shared())]);
    let target = job("cat", &["target"], vec![("a", p1), ("b", p2)]);
    let mut c = Coordinator::new();
    c.add_target(&target);
    let r = Recorder::new(None);
    assert!(c.run_to_completion(&r).is_ok());
    let seen = r.seen.borrow().clone();
    assert_eq!(seen.len(), 4);
    assert_eq!(seen.iter().filter(|s| *s == "shared").count(), 1);
    assert_eq!(seen.last().unwrap(), "target");
}

#[test]
fn scenario_target_without_dependencies() {
    let target = job("echo", &["t"], vec![]);
    let mut c = Coordinator::default();
    c.add_target(&target);
    assert_eq!(c.ready_list(), &vec![identity(&target)]);
    assert!(c.has_outstanding_work());
    assert!(c.run_next(&FakeRunner::new()).is_ok());
    assert!(!c.has_outstanding_work());
}

#[test]
fn scenario_two_independent_dependencies() {
    let a = job("echo", &["a"], vec![]);
    let b = job("echo", &["b"], vec![]);
    let (ia, ib) = (identity(&a), identity(&b));
    let target = job("cat", &["target"], vec![("a", a), ("b", b)]);
    let it = identity(&target);
    let mut c = Coordinator::new();
    c.add_target(&target);
    let ready = c.ready_list().clone();
    assert_eq!(ready.len(), 2);
    assert!(ready.contains(&ia) && ready.contains(&ib));
    assert!(!ready.contains(&it));
    let r = Recorder::new(None);
    assert!(c.run_next(&r).is_ok());
    assert!(!c.ready_list().contains(&it));
    assert!(c.run_next(&r).is_ok());
    assert_eq!(c.ready_list(), &vec![it]);
    assert!(c.run_next(&r).is_ok());
    assert!(!c.has_outstanding_work());
    assert_eq!(r.seen.borrow().last().unwrap(), "target");
}

#[test]
fn scenario_failure_in_chain_stops_downstream() {
    let a = job("echo", &["a"], vec![]);
    let b = job("cat", &["b"], vec![("a", a)]);
    let ib = identity(&b);
    let target = job("cat", &["target"], vec![("b", b)]);
    let mut c = Coordinator::new();
    c.add_target(&target);
    let r = Recorder::new(Some("b"));
    match c.run_to_completion(&r) {
        Err(RunError::JobFailed { id, command: cmd, reason }) => {
            assert_eq!(id, ib);
            assert_eq!(cmd, command("cat", &["b"]));
            assert_eq!(reason, "b failed");
        }
        _ => panic!("expected the run to fail on b"),
    }
    assert_eq!(*r.seen.borrow(), vec!["a".to_string(), "b".to_string()]);
    assert!(c.has_outstanding_work());
    assert!(matches!(c.run_next(&r), Err(RunError::Deadlock { blocked: 1 })));
}

#[test]
fn run_next_on_empty_coordinator_reports_no_work() {
    let mut c = Coordinator::new();
    assert!(!c.has_outstanding_work());
    assert!(matches!(c.run_next(&FakeRunner::new()), Err(RunError::NoReadyWork)));
    assert!(c.run_to_completion(&FakeRunner::new()).is_ok());
}

#[test]
fn real_runner_reports_failure() {
    let target = job("echo", &["t"], vec![]);
    let mut c = Coordinator::new();
    c.add_target(&target);
    let runner = rbt::runner::Runner::new();
    match c.run_to_completion(&runner) {
        Err(RunError::JobFailed { reason, .. }) => assert_eq!(reason, "real runner is unimplemented"),
        _ => panic!("expected a failure"),
    }
}

#[test]
fn adding_the_same_target_twice_changes_nothing() {
    let target = job("cat", &["t"], vec![("a", job("echo", &["a"], vec![]))]);
    let mut c = Coordinator::new();
    c.add_target(&target);
    c.add_target(&target);
    assert_eq!(c.job_count(), 2);
    assert_eq!(c.ready_list().len(), 1);
    let r = Recorder::new(None);
    assert!(c.run_to_completion(&r).is_ok());
    assert_eq!(r.seen.borrow().len(), 2);
}

#[test]
fn cli_runs_default_job_with_selected_runner() {
    let rbt = rbt::job::Rbt { default: job("echo", &["t"], vec![]) };
    let fake = rbt::cli::Cli { load_from_json: None, dump_to_json: false, use_fake_runner: true };
    assert!(fake.run(&rbt).is_ok());
    let real = rbt::cli::Cli { load_from_json: None, dump_to_json: false, use_fake_runner: false };
    assert!(matches!(real.run(&rbt), Err(RunError::JobFailed { .. })));
}

#[test]
fn identity_separates_adjacent_strings() {
    assert_ne!(identity(&job("echo", &["ab", "c"], vec![])), identity(&job("echo", &["a", "bc"], vec![])));
    let mut x = job("echo", &[], vec![]);
    let mut y = job("echo", &[], vec![]);
    x.outputs = vec!["a".to_string(), "b".to_string()];
    y.outputs = vec!["ab".to_string(), "".to_string()];
    assert_ne!(identity(&x), identity(&y));
    x.input_files = vec!["a".to_string(), "b".to_string()];
    y.input_files = vec!["ab".to_string(), "".to_string()];
    y.outputs = x.outputs.clone();
    assert_ne!(identity(&x), identity(&y));
}

#[test]
fn start_next_job_and_complete_step_by_step() {
    let a = job("echo", &["a"], vec![]);
    let ia = identity(&a);
    let target = job("cat", &["target"], vec![("a", a)]);
    let it = identity(&target);
    let mut c = Coordinator::new();
    c.add_target(&target);
    let id = match c.start_next() {
        Ok(id) => id,
        Err(_) => panic!("a job is ready"),
    };
    assert_eq!(id, ia);
    assert_eq!(c.job(id).unwrap().command, command("echo", &["a"]));
    assert!(c.job(12345).is_none() || c.contains_job(12345));
    match c.complete(id, Err("boom".to_string())) {
        Err(RunError::JobFailed { id: fid, command: cmd, reason }) => {
            assert_eq!(fid, ia);
            assert_eq!(cmd, command("echo", &["a"]));
            assert_eq!(reason, "boom");
        }
        _ => panic!("expected the failure to be reported"),
    }
    assert!(c.ready_list().is_empty());
    assert!(c.complete(id, Ok(())).is_ok());
    assert_eq!(c.ready_list(), &vec![it]);
}

#[test]
fn table_entry_carries_job_content_and_named_inputs() {
    let a = job("echo", &["a"], vec![]);
    let b = job("echo", &["b"], vec![]);
    let (ia, ib) = (identity(&a), identity(&b));
    let mut target = job("cat", &["t", "u"], vec![("second", b), ("first", a)]);
    target.input_files = vec!["in.txt".to_string()];
    let mut c = Coordinator::new();
    c.add_target(&target);
    let e = c.job(identity(&target)).unwrap();
    assert_eq!(e.command, command("cat", &["t", "u"]));
    assert_eq!(e.input_files, vec!["in.txt".to_string()]);
    assert_eq!(e.outputs, vec!["out".to_string()]);
    assert_eq!(e.inputs, vec![("second".to_string(), ib), ("first".to_string(), ia)]);
    assert_eq!(c.dependencies_of(identity(&target)).unwrap(), vec![ib, ia]);
}

#[test]
fn runners_report_their_fixed_outcomes() {
    let target = job("echo", &["t"], vec![]);
    let mut c = Coordinator::new();
    c.add_target(&target);
    let id = c.start_next().ok().unwrap();
    let entry = c.job(id).unwrap();
    assert!(FakeRunner::new().run(entry).is_ok());
    assert!(rbt::runner::Runner::new().run(entry).is_err());
}
