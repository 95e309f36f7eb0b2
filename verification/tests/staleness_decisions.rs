use integ::staleness::{decide, StalenessDecision};

#[test]
fn no_recorded_artifact_forces_rebuild() {
    assert_eq!(decide(None, &vec![]), StalenessDecision::Rebuild);
    assert_eq!(decide(None, &vec![Some(1)]), StalenessDecision::Rebuild);
}

#[test]
fn no_dependencies_and_a_recorded_artifact_skips() {
    assert_eq!(decide(Some(7), &vec![]), StalenessDecision::Skip);
}

#[test]
fn older_dependencies_skip() {
    assert_eq!(decide(Some(7), &vec![Some(3), Some(6)]), StalenessDecision::Skip);
}

#[test]
fn equally_old_dependency_is_not_newer() {
    assert_eq!(decide(Some(7), &vec![Some(7)]), StalenessDecision::Skip);
}

#[test]
fn newer_dependency_forces_rebuild() {
    assert_eq!(decide(Some(7), &vec![Some(3), Some(8)]), StalenessDecision::Rebuild);
}

#[test]
fn missing_dependency_artifact_forces_rebuild() {
    assert_eq!(decide(Some(7), &vec![Some(3), None]), StalenessDecision::Rebuild);
}

#[test]
fn unchanged_inputs_decide_the_same_way_again() {
    let recorded = Some(9);
    let deps = vec![Some(2), Some(5)];
    let first = decide(recorded, &deps);
    assert_eq!(first, StalenessDecision::Skip);
    assert_eq!(decide(recorded, &deps), first);
}
