use cardamon_core::pid::PidErrorKind;
use cardamon_core::processes::{add_external_processes, ExecutionPlan, ProcessToObserve};

fn strings(v: &[&str]) -> Vec<String> {
    v.iter().map(|s| s.to_string()).collect()
}

fn pid_of(p: &ProcessToObserve) -> Option<u32> {
    match p {
        ProcessToObserve::ExternalPid(pid) => Some(*pid),
        ProcessToObserve::ExternalContainers(_) => None,
    }
}

#[test]
fn pids_then_containers_in_order() {
    let mut plan = ExecutionPlan::new();
    let r = add_external_processes(
        Some(strings(&["12", "7", "300"])),
        Some(strings(&["db", "web"])),
        &mut plan,
    );
    assert!(r.is_ok());
    let list = &plan.external_processes_to_observe;
    assert_eq!(list.len(), 4);
    assert_eq!(pid_of(&list[0]), Some(12));
    assert_eq!(pid_of(&list[1]), Some(7));
    assert_eq!(pid_of(&list[2]), Some(300));
    match &list[3] {
        ProcessToObserve::ExternalContainers(names) => assert_eq!(names, &strings(&["db", "web"])),
        other => panic!("unexpected {:?}", other),
    }
}

#[test]
fn nothing_given_adds_nothing() {
    let mut plan = ExecutionPlan::new();
    assert!(add_external_processes(None, None, &mut plan).is_ok());
    assert!(plan.external_processes_to_observe.is_empty());
}

#[test]
fn empty_container_list_is_still_added() {
    let mut plan = ExecutionPlan::new();
    assert!(add_external_processes(None, Some(vec![]), &mut plan).is_ok());
    assert_eq!(plan.external_processes_to_observe.len(), 1);
}

#[test]
fn keeps_what_was_planned_before() {
    let mut plan = ExecutionPlan::new();
    plan.observe_external_process(ProcessToObserve::ExternalPid(1));
    assert!(add_external_processes(Some(strings(&["2"])), None, &mut plan).is_ok());
    let pids: Vec<Option<u32>> = plan.external_processes_to_observe.iter().map(pid_of).collect();
    assert_eq!(pids, vec![Some(1), Some(2)]);
}

#[test]
fn stops_at_first_bad_pid() {
    let mut plan = ExecutionPlan::new();
    let r = add_external_processes(
        Some(strings(&["5", "abc", "6", ""])),
        Some(strings(&["db"])),
        &mut plan,
    );
    let e = r.unwrap_err();
    assert_eq!(e.pid, "abc");
    assert_eq!(e.kind, PidErrorKind::InvalidDigit);
    assert_eq!(e.message(), "invalid digit found in string");
    let pids: Vec<Option<u32>> = plan.external_processes_to_observe.iter().map(pid_of).collect();
    assert_eq!(pids, vec![Some(5)]);
}

#[test]
fn error_messages_match_std() {
    let mut plan = ExecutionPlan::new();
    let e = add_external_processes(Some(strings(&[""])), None, &mut plan).unwrap_err();
    assert_eq!(e.message(), "".parse::<u32>().unwrap_err().to_string());
    let e = add_external_processes(Some(strings(&["4294967296"])), None, &mut plan).unwrap_err();
    assert_eq!(e.kind, PidErrorKind::PosOverflow);
    assert_eq!(e.message(), "4294967296".parse::<u32>().unwrap_err().to_string());
    assert!(plan.external_processes_to_observe.is_empty());
}
