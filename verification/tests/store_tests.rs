use fauxrrt::store::{display_budget, next_track_name};

#[test]
fn display_budget_shares_and_clamps() {
    assert_eq!(display_budget(0), 720);
    assert_eq!(display_budget(1), 720);
    assert_eq!(display_budget(500), 720);
    assert_eq!(display_budget(1000), 360);
    assert_eq!(display_budget(3000), 120);
    assert_eq!(display_budget(10_000), 36);
    assert_eq!(display_budget(20_000), 24);
    assert!(display_budget(700) >= display_budget(701));
}

#[test]
fn generated_names_skip_taken_ones() {
    let used = vec!["Nominal-01".to_string(), "nominal-02".to_string()];
    assert_eq!(next_track_name(&used, "Nominal", 77), "Nominal-03");
    assert_eq!(next_track_name(&[], "  Failure ", 77), "Failure-01");
    assert_eq!(next_track_name(&[], "   ", 77), "Generated-01");
    let many: Vec<String> = (1..=120).map(|i| format!("S-{i:02}")).collect();
    assert_eq!(next_track_name(&many, "S", 5), "S-121");
}

use fauxrrt::store::{resolve_load_mode, LoadMode};

#[test]
fn display_points_fit_the_global_total() {
    for n in [1usize, 2, 499, 500, 501, 7000, 15_000] {
        assert!(display_budget(n) * n <= 360_000, "{n}");
    }
}

#[test]
fn load_mode_choice() {
    assert!(matches!(resolve_load_mode(Some(1), Some(9), None), Ok(LoadMode::Mode(9))));
    assert!(matches!(resolve_load_mode(None, None, Some("x")), Ok(LoadMode::Unassigned)));
    match resolve_load_mode(Some(4), None, Some("  Nav + FTS ")) {
        Ok(LoadMode::Named(o, n)) => {
            assert_eq!(o, 4);
            assert_eq!(n, "Nav + FTS");
        }
        other => panic!("{other:?}"),
    }
    assert_eq!(
        resolve_load_mode(Some(4), None, Some("   ")).err().as_deref(),
        Some("enter a mode name, then load files")
    );
    assert_eq!(
        resolve_load_mode(Some(4), None, None).err().as_deref(),
        Some("enter a mode name, then load files")
    );
}
