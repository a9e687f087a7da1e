use saveowl::process::process_tree;
use saveowl::watch::{pick_candidate, CandidateCounts, GpuReading, IgnoreList, Session, UiEvent};

fn reading(pid: u32, busy: bool, warm: bool, rank: u64, name: Option<&str>) -> GpuReading {
    GpuReading { pid, busy, warm, rank, name: name.map(|n| n.to_string()) }
}

fn sorted(mut v: Vec<u32>) -> Vec<u32> {
    v.sort();
    v
}

#[test]
fn tree_holds_root_and_descendants() {
    // listed in an order where a child comes before its parent
    let procs = vec![(4, Some(3)), (3, Some(1)), (2, Some(1)), (9, Some(8)), (1, Some(0)), (5, None)];
    assert_eq!(sorted(process_tree(&procs, 1)), vec![1, 2, 3, 4]);
    assert_eq!(sorted(process_tree(&procs, 8)), vec![8, 9]);
    assert_eq!(sorted(process_tree(&procs, 42)), vec![42]);
    assert_eq!(sorted(process_tree(&[], 7)), vec![7]);
}

#[test]
fn tree_with_a_cycle_ends() {
    let procs = vec![(1, Some(2)), (2, Some(1)), (3, Some(2))];
    assert_eq!(sorted(process_tree(&procs, 1)), vec![1, 2, 3]);
}

#[test]
fn ignore_list_is_case_insensitive() {
    let l = IgnoreList::new(&vec!["DWM.exe".to_string(), "chrome.exe".to_string()]);
    assert!(l.contains("dwm.exe"));
    assert!(l.contains("Chrome.EXE"));
    assert!(!l.contains("owl.exe"));
}

#[test]
fn a_process_must_stay_busy_for_the_activation_count() {
    let ignored = IgnoreList::new(&vec![]);
    let mut counts = CandidateCounts::new();
    let sample = vec![reading(10, true, true, 50, Some("owl.exe"))];
    assert_eq!(pick_candidate(&mut counts, &sample, &ignored, 3, false), None);
    assert_eq!(counts.get(10), Some(1));
    assert_eq!(pick_candidate(&mut counts, &sample, &ignored, 3, false), None);
    assert_eq!(pick_candidate(&mut counts, &sample, &ignored, 3, false), Some(10));
    assert_eq!(counts.get(10), Some(3));
}

#[test]
fn the_busiest_eligible_process_wins_and_ties_go_to_the_first() {
    let ignored = IgnoreList::new(&vec![]);
    let mut counts = CandidateCounts::new();
    let sample = vec![
        reading(1, true, true, 30, Some("a.exe")),
        reading(2, true, true, 70, Some("b.exe")),
        reading(3, true, true, 70, Some("c.exe")),
    ];
    assert_eq!(pick_candidate(&mut counts, &sample, &ignored, 1, false), Some(2));
}

#[test]
fn ignored_gone_and_idle_processes_do_not_count() {
    let ignored = IgnoreList::new(&vec!["dwm.exe".to_string()]);
    let mut counts = CandidateCounts::new();
    let sample = vec![
        reading(1, true, true, 90, Some("DWM.EXE")),
        reading(2, true, true, 90, None),
        reading(3, false, true, 90, Some("owl.exe")),
    ];
    assert_eq!(pick_candidate(&mut counts, &sample, &ignored, 1, false), None);
    assert_eq!(counts.get(1), None);
    assert_eq!(counts.get(2), None);
    assert_eq!(counts.get(3), None);
}

#[test]
fn candidates_below_half_the_threshold_are_dropped() {
    let ignored = IgnoreList::new(&vec![]);
    let mut counts = CandidateCounts::new();
    pick_candidate(&mut counts, &vec![reading(1, true, true, 5, Some("a")), reading(2, true, true, 5, Some("b"))], &ignored, 9, false);
    assert_eq!(counts.get(1), Some(1));
    // 1 is still warm; 2 fell under half the threshold; 3 is gone from the sample
    pick_candidate(&mut counts, &vec![reading(1, false, true, 1, Some("a")), reading(2, false, false, 1, Some("b"))], &ignored, 9, false);
    assert_eq!(counts.get(1), Some(1));
    assert_eq!(counts.get(2), None);
    // a process missing from the sample stays only when zero counts as warm
    pick_candidate(&mut counts, &vec![], &ignored, 9, true);
    assert_eq!(counts.get(1), Some(1));
    pick_candidate(&mut counts, &vec![], &ignored, 9, false);
    assert_eq!(counts.get(1), None);
}

#[test]
fn counts_clear() {
    let mut counts = CandidateCounts::new();
    counts.set(4, 2);
    counts.set(4, 3);
    assert_eq!(counts.get(4), Some(3));
    counts.clear();
    assert_eq!(counts.get(4), None);
}

#[test]
fn sessions_end_after_quiet_samples() {
    let mut s = Session::new(7, "owl.exe".into(), "Owl".into());
    assert_eq!(s.cool, 0);
    assert!(!s.observe(true, false, true, 3));
    assert!(!s.observe(true, false, true, 3));
    assert!(!s.observe(false, false, true, 3));
    assert_eq!(s.cool, 0);
    assert!(!s.observe(true, false, true, 3));
    assert!(!s.observe(true, false, true, 3));
    assert!(s.observe(true, false, true, 3));
    assert_eq!(s.cool, 3);
}

#[test]
fn sessions_end_on_request_or_exit() {
    let mut s = Session::new(7, "owl.exe".into(), "Owl".into());
    assert!(s.observe(false, true, true, 5));
    let mut s = Session::new(7, "owl.exe".into(), "Owl".into());
    assert!(s.observe(false, false, false, 5));
    let mut s = Session::new(7, "owl.exe".into(), "Owl".into());
    assert!(s.observe(false, false, true, 0));
}

#[test]
fn status_events_carry_text() {
    let e = UiEvent::Status("Paused".into());
    match e {
        UiEvent::Status(t) => assert_eq!(t, "Paused"),
    }
}
