use usbloom::monitor::ScanGate;

#[test]
fn burst_during_a_scan_requests_exactly_one_followup() {
    let mut gate = ScanGate::default();
    let initial = gate.request().unwrap();
    for _ in 0..20 {
        assert_eq!(gate.request(), None);
    }
    assert_eq!(gate.complete(initial), Some(true));
    let followup = gate.request().unwrap();
    assert_eq!(gate.complete(followup), Some(false));
    assert!(!gate.is_scanning());
}

#[test]
fn snapshot_rejects_old_results_and_discards_pending_changes() {
    let mut gate = ScanGate::default();
    let old = gate.request().unwrap();
    gate.request();
    gate.invalidate();
    assert_eq!(gate.complete(old), None);
    let live = gate.request().unwrap();
    assert_eq!(gate.complete(old), None);
    assert!(gate.is_scanning());
    assert_eq!(gate.complete(live), Some(false));
}

#[test]
fn a_finished_scan_does_not_schedule_periodic_work() {
    let mut gate = ScanGate::default();
    let initial = gate.request().unwrap();
    assert_eq!(gate.complete(initial), Some(false));
    assert_eq!(gate.complete(initial), None);
    assert!(!gate.is_scanning());
}

#[test]
fn generations_increase_across_invalidation() {
    let mut gate = ScanGate::default();
    let first = gate.request().unwrap();
    assert_eq!(first, 1);
    gate.invalidate();
    let second = gate.request().unwrap();
    assert!(second > first);
    assert_eq!(second, 3);
    assert_eq!(gate.generation(), 3);
    assert_eq!(gate.complete(first), None);
    assert_eq!(gate.complete(second), Some(false));
}

#[test]
fn refused_request_while_idle_is_not_possible() {
    let mut gate = ScanGate::default();
    assert!(!gate.is_scanning());
    assert!(gate.request().is_some());
    assert!(gate.is_scanning());
    assert_eq!(gate.request(), None);
    assert!(gate.is_scanning());
}

#[test]
fn a_scan_without_changes_needs_no_followup_and_stale_reports_stay_rejected() {
    let mut gate = ScanGate::default();
    let first = gate.request().unwrap();
    assert_eq!(gate.complete(first), Some(false));
    let second = gate.request().unwrap();
    assert!(second > first);
    assert_eq!(gate.complete(first), None);
    gate.invalidate();
    assert_eq!(gate.request(), Some(second + 2));
    assert_eq!(gate.complete(second), None);
    assert!(gate.is_scanning());
}
