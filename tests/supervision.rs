use task_supervisor::permission::{PermissionPrompt, PermissionsResponse};
use task_supervisor::supervisor::{
    clear_completed_tasks, get_task_state, respond_to_permission_prompt, Outcome, StartError,
    Supervisor,
};
use task_supervisor::task::{Task, TaskState};

fn prompt(message: &str) -> PermissionPrompt {
    PermissionPrompt::new(
        message.to_string(),
        "net".to_string(),
        Some("Deno.connect".to_string()),
        true,
    )
}

fn state_of(s: &Supervisor, id: &str) -> TaskState {
    get_task_state(s, id).expect("record present").state()
}

#[test]
fn response_names() {
    assert_eq!(PermissionsResponse::Allow.as_str(), "Allow");
    assert_eq!(PermissionsResponse::Deny.as_str(), "Deny");
    assert_eq!(PermissionsResponse::AllowAll.as_str(), "AllowAll");
    assert_eq!(PermissionsResponse::from_str("Allow"), PermissionsResponse::Allow);
    assert_eq!(PermissionsResponse::from_str("Deny"), PermissionsResponse::Deny);
    assert_eq!(PermissionsResponse::from_str("AllowAll"), PermissionsResponse::AllowAll);
    assert_eq!(PermissionsResponse::parse("allow"), None);
    assert_eq!(PermissionsResponse::parse(""), None);
    assert_eq!(PermissionsResponse::parse("AllowAll"), Some(PermissionsResponse::AllowAll));
}

#[test]
fn state_names() {
    assert_eq!(TaskState::Running.as_str(), "running");
    assert_eq!(TaskState::WaitingForPermission.as_str(), "waiting_for_permission");
    assert_eq!(TaskState::Completed.as_str(), "completed");
    assert_eq!(TaskState::Error.as_str(), "error");
    assert_eq!(TaskState::Stopped.as_str(), "stopped");
    assert!(TaskState::Stopped.is_terminal());
    assert!(!TaskState::WaitingForPermission.is_terminal());
}

#[test]
fn new_task_is_empty() {
    let t = Task::new("a".to_string(), TaskState::Running);
    assert_eq!(t.id(), "a");
    assert_eq!(t.state(), TaskState::Running);
    assert_eq!(t.error(), "");
    assert_eq!(t.return_value(), "");
    assert!(t.permission_prompt().is_none());
    assert!(t.permission_history().is_empty());
}

#[test]
fn prompt_allowed_then_completed() {
    let mut s = Supervisor::new();
    let started = s.start("t1", Ok(())).expect("start");
    assert_eq!(started.state(), TaskState::Running);
    s.report_value("t1", "first".to_string());

    let waiting = s.request_permission("t1", prompt("promptA")).expect("waits");
    assert_eq!(waiting.state(), TaskState::WaitingForPermission);
    let active = waiting.permission_prompt().expect("active prompt");
    assert_eq!(active.message(), "promptA");
    assert_eq!(active.name(), "net");
    assert_eq!(active.api_name().as_deref(), Some("Deno.connect"));
    assert!(active.is_unary());
    assert_eq!(active.response(), None);

    assert!(respond_to_permission_prompt(&mut s, "t1", PermissionsResponse::Allow));
    let (answer, resumed) = s.resume("t1", Some(PermissionsResponse::Allow));
    assert_eq!(answer, PermissionsResponse::Allow);
    let resumed = resumed.expect("resumed");
    assert_eq!(resumed.state(), TaskState::Running);
    assert!(resumed.permission_prompt().is_none());

    s.report_value("t1", "42".to_string());
    let done = s.finish("t1", Outcome::Succeeded).expect("reconciled");
    assert_eq!(done.state(), TaskState::Completed);
    assert_eq!(done.return_value(), "42");
    assert_eq!(done.error(), "");
    assert_eq!(done.permission_history().len(), 1);
    assert_eq!(done.permission_history()[0].response(), Some(PermissionsResponse::Allow));
}

#[test]
fn stop_of_endless_script() {
    let mut s = Supervisor::new();
    s.start("t2", Ok(())).expect("start");
    assert!(s.stop("t2"));
    // the worker observes the cancellation and reconciles
    let end = s.finish("t2", Outcome::Cancelled).expect("reconciled");
    assert_eq!(end.state(), TaskState::Stopped);
    assert_eq!(end.error(), "");
}

#[test]
fn throwing_script_reports_error() {
    let mut s = Supervisor::new();
    s.start("t3", Ok(())).expect("start");
    let end = s
        .finish("t3", Outcome::Failed("Uncaught Error: boom".to_string()))
        .expect("reconciled");
    assert_eq!(end.state(), TaskState::Error);
    assert_eq!(end.error(), "Uncaught Error: boom");
    assert_eq!(state_of(&s, "t3"), TaskState::Error);
}

#[test]
fn staging_failure_is_error_at_once() {
    let mut s = Supervisor::new();
    match s.start("t4", Err("disk full".to_string())) {
        Err(StartError::Staging(e)) => assert_eq!(e, "disk full"),
        other => panic!("unexpected {:?}", other),
    }
    let t = get_task_state(&s, "t4").expect("record");
    assert_eq!(t.state(), TaskState::Error);
    assert_eq!(t.error(), "disk full");
    // no worker runs: a stop and a prompt are both refused
    assert!(!s.stop("t4"));
    assert!(s.request_permission("t4", prompt("p")).is_none());
}

#[test]
fn duplicate_start_refused() {
    let mut s = Supervisor::new();
    s.start("d", Ok(())).expect("start");
    assert!(matches!(s.start("d", Ok(())), Err(StartError::Duplicate)));
    s.finish("d", Outcome::Succeeded).expect("reconciled");
    // still present after the end: refused until swept
    assert!(matches!(s.start("d", Err("x".to_string())), Err(StartError::Duplicate)));
    assert_eq!(state_of(&s, "d"), TaskState::Completed);
    clear_completed_tasks(&mut s);
    assert!(s.start("d", Ok(())).is_ok());
}

#[test]
fn stop_after_end_is_noop() {
    let mut s = Supervisor::new();
    s.start("e", Ok(())).expect("start");
    s.report_value("e", "v".to_string());
    s.finish("e", Outcome::Failed("bad".to_string())).expect("reconciled");
    assert!(!s.stop("e"));
    let t = get_task_state(&s, "e").expect("record");
    assert_eq!(t.state(), TaskState::Error);
    assert_eq!(t.error(), "bad");
    assert_eq!(t.return_value(), "v");
}

#[test]
fn report_after_end_is_kept() {
    let mut s = Supervisor::new();
    s.start("late", Ok(())).expect("start");
    s.finish("late", Outcome::Succeeded).expect("reconciled");
    s.report_value("late", "after".to_string());
    let t = get_task_state(&s, "late").expect("record");
    assert_eq!(t.return_value(), "after");
    assert_eq!(t.state(), TaskState::Completed);
    // an unknown id is ignored
    s.report_value("none", "x".to_string());
    assert!(get_task_state(&s, "none").is_none());
}

#[test]
fn prompt_after_stop_recorded_denied() {
    let mut s = Supervisor::new();
    s.start("ps", Ok(())).expect("start");
    assert!(s.stop("ps"));
    assert!(s.request_permission("ps", prompt("late prompt")).is_none());
    let t = get_task_state(&s, "ps").expect("record");
    assert_eq!(t.state(), TaskState::Running);
    assert!(t.permission_prompt().is_none());
    assert_eq!(t.permission_history().len(), 1);
    assert_eq!(t.permission_history()[0].message(), "late prompt");
    assert_eq!(t.permission_history()[0].response(), Some(PermissionsResponse::Deny));
    let end = s.finish("ps", Outcome::Cancelled).expect("reconciled");
    assert_eq!(end.state(), TaskState::Stopped);
    assert_eq!(end.permission_history().len(), 1);
}

#[test]
fn stop_unknown_is_noop() {
    let mut s = Supervisor::new();
    assert!(!s.stop("nobody"));
    assert!(get_task_state(&s, "nobody").is_none());
    assert!(!respond_to_permission_prompt(&mut s, "nobody", PermissionsResponse::Allow));
    assert!(s.finish("nobody", Outcome::Succeeded).is_none());
}

#[test]
fn race_stop_first_then_completion() {
    let mut s = Supervisor::new();
    s.start("r", Ok(())).expect("start");
    assert!(s.stop("r"));
    assert!(!s.stop("r"));
    let end = s.finish("r", Outcome::Succeeded).expect("first wins");
    assert_eq!(end.state(), TaskState::Stopped);
    assert!(s.finish("r", Outcome::Cancelled).is_none());
    assert_eq!(state_of(&s, "r"), TaskState::Stopped);
}

#[test]
fn race_completion_first_then_stop() {
    let mut s = Supervisor::new();
    s.start("r", Ok(())).expect("start");
    let end = s.finish("r", Outcome::Succeeded).expect("first wins");
    assert_eq!(end.state(), TaskState::Completed);
    assert!(!s.stop("r"));
    assert!(s.finish("r", Outcome::Cancelled).is_none());
    assert_eq!(state_of(&s, "r"), TaskState::Completed);
}

#[test]
fn sweep_keeps_live_records() {
    let mut s = Supervisor::new();
    for id in ["run", "wait", "done", "err", "stop"] {
        s.start(id, Ok(())).expect("start");
    }
    s.request_permission("wait", prompt("p")).expect("waits");
    s.finish("done", Outcome::Succeeded).expect("done");
    s.finish("err", Outcome::Failed("e".to_string())).expect("err");
    s.stop("stop");
    s.finish("stop", Outcome::Cancelled).expect("stopped");
    s.start("staged", Err("io".to_string())).unwrap_err();
    clear_completed_tasks(&mut s);
    assert_eq!(state_of(&s, "run"), TaskState::Running);
    assert_eq!(state_of(&s, "wait"), TaskState::WaitingForPermission);
    for id in ["done", "err", "stop", "staged"] {
        assert!(get_task_state(&s, id).is_none(), "{id} kept");
    }
}

#[test]
fn stop_while_waiting_denies() {
    let mut s = Supervisor::new();
    s.start("w", Ok(())).expect("start");
    s.request_permission("w", prompt("p")).expect("waits");
    assert!(s.stop("w"));
    // the channel is closed: a late decision is not recorded
    assert!(!respond_to_permission_prompt(&mut s, "w", PermissionsResponse::Allow));
    let (answer, resumed) = s.resume("w", None);
    assert_eq!(answer, PermissionsResponse::Deny);
    let resumed = resumed.expect("released");
    assert_eq!(resumed.permission_history()[0].response(), Some(PermissionsResponse::Deny));
    // a later prompt is refused at once, and recorded as denied
    assert!(s.request_permission("w", prompt("q")).is_none());
    let t = get_task_state(&s, "w").expect("record");
    assert_eq!(t.state(), TaskState::Running);
    assert_eq!(t.permission_history().len(), 2);
    assert_eq!(t.permission_history()[1].response(), Some(PermissionsResponse::Deny));
    let end = s.finish("w", Outcome::Succeeded).expect("reconciled");
    assert_eq!(end.state(), TaskState::Stopped);
    assert_eq!(end.error(), "");
}

#[test]
fn end_while_waiting_denies_prompt() {
    let mut s = Supervisor::new();
    s.start("x", Ok(())).expect("start");
    s.request_permission("x", prompt("p")).expect("waits");
    let end = s.finish("x", Outcome::Cancelled).expect("reconciled");
    assert_eq!(end.state(), TaskState::Stopped);
    assert!(end.permission_prompt().is_none());
    assert_eq!(end.permission_history()[0].response(), Some(PermissionsResponse::Deny));
}

#[test]
fn second_decision_is_noop() {
    let mut s = Supervisor::new();
    s.start("y", Ok(())).expect("start");
    s.request_permission("y", prompt("p")).expect("waits");
    assert!(respond_to_permission_prompt(&mut s, "y", PermissionsResponse::AllowAll));
    assert!(!respond_to_permission_prompt(&mut s, "y", PermissionsResponse::Deny));
    let t = get_task_state(&s, "y").unwrap();
    assert_eq!(t.state(), TaskState::WaitingForPermission);
    assert_eq!(t.permission_prompt().unwrap().response(), Some(PermissionsResponse::AllowAll));
    let (answer, _) = s.resume("y", Some(PermissionsResponse::AllowAll));
    assert_eq!(answer, PermissionsResponse::AllowAll);
}

#[test]
fn waiting_iff_active_prompt() {
    let mut s = Supervisor::new();
    s.start("z", Ok(())).expect("start");
    for (i, msg) in ["a", "b", "c"].iter().enumerate() {
        let t = s.request_permission("z", prompt(msg)).expect("waits");
        let active = t.permission_prompt().expect("active");
        assert_eq!(active.message(), *msg);
        assert_eq!(t.permission_history().len(), i + 1);
        assert_eq!(t.permission_history()[i].message(), *msg);
        respond_to_permission_prompt(&mut s, "z", PermissionsResponse::Deny);
        let (_, t) = s.resume("z", Some(PermissionsResponse::Deny));
        let t = t.expect("running");
        assert_eq!(t.state(), TaskState::Running);
        assert!(t.permission_prompt().is_none());
    }
}
