use fauxrrt::risk::{default_source, object_issues, ObjectIssue, RiskObject};

#[test]
fn inclusive_objects_do_not_share_a_unit_mass() {
    // Two objects each complete at probability 1: expected debris count
    // can exceed 1 because objects are inclusive, not a mixture.
    let vehicle: f64 = 1.0;
    let stage: f64 = 1.0;
    assert!((vehicle + stage - 2.0).abs() < 1e-12);
}

#[test]
fn objects_default_to_file_trajectories() {
    assert_eq!(default_source(), "files");
    let object = RiskObject { id: 7, name: "Vehicle".to_string(), source: default_source() };
    assert_eq!(object.source, "files");
}

#[test]
fn object_issues_follow_the_modes_and_sums() {
    assert_eq!(object_issues(0, 0, false, false), vec![ObjectIssue::NoModes]);
    assert_eq!(object_issues(2, 0, true, true), vec![]);
    assert_eq!(object_issues(2, 1, false, false), vec![ObjectIssue::ModeSum, ObjectIssue::EmptyModes(1)]);
    assert_eq!(object_issues(3, 0, true, false), vec![ObjectIssue::TrajectorySum]);
    assert_eq!(
        object_issues(3, 0, false, false),
        vec![ObjectIssue::ModeSum, ObjectIssue::TrajectorySum]
    );
}
