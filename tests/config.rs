use scheduler::sim::OrderKind;
use scheduler::{order_for_kind, parse_processes, Configuration, ProgramError, ScheduleKind};

fn args(v: &[&str]) -> Vec<String> {
    v.iter().map(|s| s.to_string()).collect()
}

#[test]
fn build_reads_file_and_scheduler() {
    let c = Configuration::build(&args(&["prog", "list.txt", "3"])).unwrap();
    assert_eq!(c.filename, "list.txt");
    assert_eq!(c.scheduler, ScheduleKind::RR);
    let c = Configuration::build(&args(&["prog", "list.txt", "4"])).unwrap();
    assert_eq!(c.scheduler, ScheduleKind::PriorityRR);
}

#[test]
fn build_defaults_to_fcfs() {
    let c = Configuration::build(&args(&["prog", "list.txt"])).unwrap();
    assert_eq!(c.scheduler, ScheduleKind::FCFS);
}

#[test]
fn build_rejects_bad_input() {
    assert!(matches!(
        Configuration::build(&args(&["prog"])),
        Err(ProgramError::InvalidCommandInput)
    ));
    assert!(matches!(
        Configuration::build(&args(&["prog", "f", "5"])),
        Err(ProgramError::InvalidCommandInput)
    ));
    assert!(matches!(
        Configuration::build(&args(&["prog", "f", "x"])),
        Err(ProgramError::InvalidCommandInput)
    ));
}

#[test]
fn parse_processes_tags_each_line() {
    let lines = args(&["T1, 4, 20", "T2, 2, 25"]);
    let v = parse_processes(&lines, OrderKind::Priority).unwrap();
    assert_eq!(v.len(), 2);
    assert_eq!(v[1].name, "T2");
    assert_eq!(v[1].order, OrderKind::Priority);
    assert_eq!(v[0].remaining_burst, 20);
}

#[test]
fn parse_processes_reports_first_bad_line() {
    let lines = args(&["T1, 4, 20", "T2, x, 25", "T3"]);
    match parse_processes(&lines, OrderKind::Burst) {
        Err(ProgramError::InvalidProcessParseError(line)) => assert_eq!(line, "T2, x, 25,0"),
        other => panic!("unexpected: {:?}", other.map(|v| v.len())),
    }
}

#[test]
fn order_key_follows_the_scheduler() {
    assert_eq!(order_for_kind(ScheduleKind::Priority), OrderKind::Priority);
    assert_eq!(order_for_kind(ScheduleKind::PriorityRR), OrderKind::Priority);
    assert_eq!(order_for_kind(ScheduleKind::SJF), OrderKind::Burst);
}
