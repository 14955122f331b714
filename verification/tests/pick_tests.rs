use fauxrrt::pick::{
    collect_trajectory_files, expand_paths, has_trajectory_extension, pick_kml_sources,
    pick_trajectory_folder, pick_trajectory_sources, PickedPath,
};
use std::path::Path;

/// The files below the repository's `samples` folder, in walk order.
fn sample_walk(root: &str) -> Vec<String> {
    [
        "aircraft_lla.csv",
        "ecef_track.txt",
        "no_header.csv",
        "survey.tsv",
        "boats/gom_fishing.kml",
        "boats/gom_recreational.kml",
        "boats/gom_shipping.kml",
    ]
    .iter()
    .map(|f| format!("{root}/{f}"))
    .collect()
}

#[test]
fn expanding_a_folder_collects_sample_trajectories() {
    let samples = "../samples";
    let files = expand_paths(vec![PickedPath::Dir(sample_walk(samples))]);
    assert!(
        files
            .iter()
            .any(|p| Path::new(p).file_name().and_then(|n| n.to_str()) == Some("aircraft_lla.csv")),
        "{files:?}"
    );
}

#[test]
fn expanding_a_file_keeps_just_that_file() {
    let file = "../samples/aircraft_lla.csv".to_string();
    let files = expand_paths(vec![PickedPath::File(file.clone())]);
    assert_eq!(files, vec![file]);
}

#[test]
fn folder_keeps_only_trajectory_extensions_in_order() {
    let files = collect_trajectory_files(&sample_walk("s"));
    assert_eq!(
        files,
        vec!["s/aircraft_lla.csv", "s/ecef_track.txt", "s/no_header.csv", "s/survey.tsv"]
    );
}

#[test]
fn trajectory_extensions_ignore_case() {
    assert!(has_trajectory_extension("a/B.CSV"));
    assert!(has_trajectory_extension("track.Traj"));
    assert!(has_trajectory_extension("x.eph"));
    assert!(!has_trajectory_extension("x.kml"));
    assert!(!has_trajectory_extension("README"));
    assert!(!has_trajectory_extension("dir.csv/file"));
}

#[test]
fn folder_is_capped_at_four_thousand_files() {
    let walked: Vec<String> = (0..4100).map(|i| format!("d/{i}.dat")).collect();
    let files = collect_trajectory_files(&walked);
    assert_eq!(files.len(), 4000);
    assert_eq!(files[3999], "d/3999.dat");
}

#[test]
fn files_and_folders_expand_in_order() {
    let picked = vec![
        PickedPath::File("one.kml".to_string()),
        PickedPath::Dir(vec!["d/a.txt".to_string(), "d/b.png".to_string(), "d/c.asc".to_string()]),
        PickedPath::File("two".to_string()),
    ];
    assert_eq!(expand_paths(picked), vec!["one.kml", "d/a.txt", "d/c.asc", "two"]);
}

#[test]
fn cancelled_empty_and_found_picks() {
    assert_eq!(pick_trajectory_sources(None), Ok(Vec::new()));
    assert_eq!(
        pick_trajectory_sources(Some(vec![PickedPath::Dir(vec!["d/x.png".to_string()])])),
        Err("no columnar trajectory files in that selection".to_string())
    );
    assert_eq!(
        pick_trajectory_folder(Some(vec![PickedPath::Dir(Vec::new())])),
        Err("no columnar trajectory files in that folder".to_string())
    );
    assert_eq!(
        pick_trajectory_folder(Some(vec![PickedPath::Dir(vec!["d/t.tsv".to_string()])])),
        Ok(vec!["d/t.tsv".to_string()])
    );
}

#[test]
fn kml_pick_keeps_kml_and_extensionless_files() {
    assert_eq!(pick_kml_sources(None), Ok(Vec::new()));
    let picked = vec![
        "a.kml".to_string(),
        "b.KML".to_string(),
        "c.csv".to_string(),
        "report".to_string(),
    ];
    assert_eq!(pick_kml_sources(Some(picked)), Ok(vec!["a.kml".to_string(), "b.KML".to_string(), "report".to_string()]));
}
