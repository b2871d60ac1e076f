use scheduler::sim::{OrderKind, SimProcess};
use scheduler::ProgramError;

fn build_reference_process() -> SimProcess {
    SimProcess::new(String::from("T1"), 5, 25, OrderKind::Burst)
}

#[test]
fn parse_valid_process_string() -> Result<(), ProgramError> {
    let line = "T1,5,25,1".to_string();
    let process = SimProcess::try_from(line);

    assert_eq!(build_reference_process(), process?);

    Ok(())
}

#[test]
fn parse_error_for_invalid_process_string() {
    let line = String::from("T1, 23, ");
    assert!(SimProcess::try_from(line).is_err());

    let line = String::from("T1, 5, abc");
    assert!(SimProcess::try_from(line).is_err());

    let line = String::from("T1, 5, 25, 8");
    assert!(SimProcess::try_from(line).is_err());
}

#[test]
fn valid_display() {
    let reference_display_string =
        "Process: T1 | Priority: 5 | Running Time: 0 | Remaining Burst: 25 | Wait Time: 0 | Order: Burst";
    assert_eq!(
        build_reference_process().to_string(),
        reference_display_string
    );
}

#[test]
fn parse_trims_fields_and_reads_every_value() {
    let p = SimProcess::try_from(String::from("  P7 ,\t10 , 4294967295 , 1 ")).unwrap();
    assert_eq!(p.name, "P7");
    assert_eq!(p.priority, 10);
    assert_eq!(p.remaining_burst, u32::MAX);
    assert_eq!(p.order, OrderKind::Priority);
    assert_eq!(p.running_time, 0);
    assert_eq!(p.wait, 0);
}

#[test]
fn parse_accepts_a_plus_sign() {
    let p = SimProcess::try_from(String::from("A,+3,+12,0")).unwrap();
    assert_eq!(p.priority, 3);
    assert_eq!(p.remaining_burst, 12);
    assert_eq!(p.order, OrderKind::Burst);
}

#[test]
fn parse_missing_field_keeps_the_line() {
    match SimProcess::try_from(String::from("T1, 23")) {
        Err(ProgramError::InvalidProcessSpecification(line)) => assert_eq!(line, "T1, 23"),
        other => panic!("unexpected: {:?}", other),
    }
}

#[test]
fn parse_bad_number_keeps_the_line() {
    match SimProcess::try_from(String::from("T1, 5, abc, 0")) {
        Err(ProgramError::InvalidProcessParseError(line)) => assert_eq!(line, "T1, 5, abc, 0"),
        other => panic!("unexpected: {:?}", other),
    }
}

#[test]
fn parse_out_of_range_numbers() {
    assert!(matches!(
        SimProcess::try_from(String::from("T1,256,5,0")),
        Err(ProgramError::InvalidProcessParseError(_))
    ));
    assert!(matches!(
        SimProcess::try_from(String::from("T1,5,4294967296,0")),
        Err(ProgramError::InvalidProcessParseError(_))
    ));
    assert!(matches!(
        SimProcess::try_from(String::from("T1,-5,5,0")),
        Err(ProgramError::InvalidProcessParseError(_))
    ));
}

#[test]
fn parse_bad_order_key_and_extra_field() {
    assert!(matches!(
        SimProcess::try_from(String::from("T1,5,25,2")),
        Err(ProgramError::InvalidProcessSpecification(_))
    ));
    assert!(matches!(
        SimProcess::try_from(String::from("T1,5,25,1,9")),
        Err(ProgramError::InvalidProcessSpecification(_))
    ));
}

#[test]
fn display_after_a_run() {
    let mut p = SimProcess::new(String::from("P1"), 3, 25, OrderKind::Priority);
    p.run_burst(40, 10);
    assert_eq!(
        p.to_string(),
        "Process: P1 | Priority: 3 | Running Time: 10 | Remaining Burst: 15 | Wait Time: 40 | Order: Priority"
    );
    assert_eq!(OrderKind::Burst.to_string(), "Burst");
    assert_eq!(OrderKind::Priority.to_string(), "Priority");
}

#[test]
fn run_burst_whole_remaining_finishes() {
    let mut p = SimProcess::new(String::from("P"), 1, 17, OrderKind::Burst);
    p.run_burst(3, 5);
    assert_eq!(p.wait, 3);
    assert_eq!(p.running_time, 5);
    assert_eq!(p.remaining_burst, 12);
    let rest = p.remaining_burst;
    p.run_burst(20, rest);
    assert_eq!(p.remaining_burst, 0);
    assert_eq!(p.wait, 15);
    assert_eq!(p.running_time, 17);
}

#[test]
fn comparisons_follow_the_left_order_key() {
    let a = SimProcess::new(String::from("A"), 2, 10, OrderKind::Burst);
    let b = SimProcess::new(String::from("B"), 9, 10, OrderKind::Burst);
    let c = SimProcess::new(String::from("C"), 2, 30, OrderKind::Priority);
    assert!(a == b);
    assert!(c == a);
    assert!(a < SimProcess::new(String::from("D"), 1, 11, OrderKind::Burst));
    assert!(c < b);
    assert!(b < c);
}
