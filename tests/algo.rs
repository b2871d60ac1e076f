use scheduler::algo::{fcfs, mergesort, priority_rr, round_robin, sort_before_fcfs, SortRule};
use scheduler::sim::{OrderKind, SimProcess};

fn process(name: &str, priority: u8, burst: u32, order: OrderKind) -> SimProcess {
    SimProcess::new(String::from(name), priority, burst, order)
}

fn names(v: &[SimProcess]) -> Vec<String> {
    v.iter().map(|p| p.name.clone()).collect()
}

fn completion(p: &SimProcess) -> u32 {
    p.wait + p.running_time
}

#[test]
fn fcfs_total_time() {
    let incoming = vec![
        process("P0", 1, 5, OrderKind::Burst),
        process("P1", 1, 3, OrderKind::Burst),
        process("P2", 1, 7, OrderKind::Burst),
    ];
    let finished = fcfs(incoming);
    assert_eq!(names(&finished), vec!["P0", "P1", "P2"]);
    assert_eq!(finished.iter().map(|p| p.wait).collect::<Vec<_>>(), vec![0, 5, 8]);
    assert_eq!(finished.iter().map(completion).collect::<Vec<_>>(), vec![5, 8, 15]);
    assert!(finished.iter().all(|p| p.remaining_burst == 0));
}

#[test]
fn fcfs_empty() {
    assert!(fcfs(Vec::new()).is_empty());
}

#[test]
fn round_robin_alternates() {
    let incoming = vec![
        process("P0", 1, 25, OrderKind::Burst),
        process("P1", 1, 10, OrderKind::Burst),
    ];
    let finished = round_robin(incoming, 10);
    assert_eq!(names(&finished), vec!["P1", "P0"]);
    assert_eq!(completion(&finished[0]), 20);
    assert_eq!(completion(&finished[1]), 35);
    assert_eq!(finished[1].running_time, 25);
    assert_eq!(finished[1].wait, 10);
}

#[test]
fn round_robin_zero_burst_finishes_at_once() {
    let incoming = vec![
        process("A", 1, 0, OrderKind::Burst),
        process("B", 1, 4, OrderKind::Burst),
    ];
    let finished = round_robin(incoming, 10);
    assert_eq!(names(&finished), vec!["A", "B"]);
    assert_eq!(completion(&finished[1]), 4);
}

#[test]
fn sort_is_stable_on_equal_bursts() {
    let incoming = vec![
        process("X", 1, 9, OrderKind::Burst),
        process("A", 4, 5, OrderKind::Burst),
        process("B", 2, 5, OrderKind::Burst),
        process("C", 7, 5, OrderKind::Burst),
        process("Y", 1, 1, OrderKind::Burst),
    ];
    let sorted = mergesort(incoming, SortRule::ByKey);
    assert_eq!(names(&sorted), vec!["Y", "A", "B", "C", "X"]);
}

#[test]
fn sort_small_inputs() {
    assert!(mergesort(Vec::new(), SortRule::ByKey).is_empty());
    let one = mergesort(vec![process("Only", 3, 2, OrderKind::Priority)], SortRule::ByKey);
    assert_eq!(names(&one), vec!["Only"]);
}

#[test]
fn sort_by_priority_keys_and_highest_first() {
    let make = || {
        vec![
            process("A", 3, 1, OrderKind::Priority),
            process("B", 9, 2, OrderKind::Priority),
            process("C", 3, 3, OrderKind::Priority),
            process("D", 1, 4, OrderKind::Priority),
        ]
    };
    assert_eq!(names(&mergesort(make(), SortRule::ByKey)), vec!["D", "A", "C", "B"]);
    assert_eq!(
        names(&mergesort(make(), SortRule::HighestPriorityFirst)),
        vec!["B", "A", "C", "D"]
    );
}

#[test]
fn shortest_job_first() {
    let incoming = vec![
        process("P0", 1, 5, OrderKind::Burst),
        process("P1", 1, 3, OrderKind::Burst),
        process("P2", 1, 7, OrderKind::Burst),
        process("P3", 1, 3, OrderKind::Burst),
    ];
    let finished = sort_before_fcfs(incoming);
    assert_eq!(names(&finished), vec!["P1", "P3", "P0", "P2"]);
    assert_eq!(finished.iter().map(|p| p.wait).collect::<Vec<_>>(), vec![0, 3, 6, 11]);
}

#[test]
fn priority_scheduling_runs_lowest_value_first() {
    let incoming = vec![
        process("P0", 5, 2, OrderKind::Priority),
        process("P1", 2, 4, OrderKind::Priority),
        process("P2", 5, 1, OrderKind::Priority),
    ];
    let finished = sort_before_fcfs(incoming);
    assert_eq!(names(&finished), vec!["P1", "P0", "P2"]);
    assert_eq!(finished.iter().map(completion).collect::<Vec<_>>(), vec![4, 6, 7]);
}

#[test]
fn priority_round_robin_requeues_by_priority() {
    let incoming = vec![
        process("L", 1, 5, OrderKind::Priority),
        process("H1", 8, 25, OrderKind::Priority),
        process("M", 4, 10, OrderKind::Priority),
        process("H2", 8, 15, OrderKind::Priority),
    ];
    // Order after the sort: H1, H2, M, L.  H1 runs 10 and goes back after H2 (equal
    // priority) but before M; H2 runs 10 and goes back after H1; and so on.
    let finished = priority_rr(incoming, 10);
    assert_eq!(names(&finished), vec!["H2", "H1", "M", "L"]);
    assert_eq!(
        finished.iter().map(completion).collect::<Vec<_>>(),
        vec![35, 40, 50, 55]
    );
}

#[test]
fn priority_round_robin_finishes_exactly() {
    let incoming = vec![
        process("A", 2, 7, OrderKind::Priority),
        process("B", 2, 12, OrderKind::Priority),
    ];
    let finished = priority_rr(incoming, 10);
    assert_eq!(names(&finished), vec!["A", "B"]);
    assert!(finished.iter().all(|p| p.remaining_burst == 0));
    assert_eq!(completion(&finished[0]), 7);
    assert_eq!(completion(&finished[1]), 19);
}
