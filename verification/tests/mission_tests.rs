use fauxrrt::mission::{
    default_imagery, default_true, mission_version, normalize_mission_name, push_recent,
    resolve_track_path, sanitize_filename, store_path, track_path_candidates, RecentMission,
    SessionFile, MISSION_VERSION, RECENT_LIMIT,
};

fn names(session: &SessionFile) -> Vec<String> {
    session.recent.iter().map(|r| r.name.clone()).collect()
}

#[test]
fn recent_missions_put_newest_first_without_duplicates() {
    let mut session = SessionFile::default();
    assert!(session.last.is_none() && session.recent.is_empty());
    push_recent(&mut session, "A", "/m/a.fauxrrt");
    push_recent(&mut session, "B", "/m/b.fauxrrt");
    push_recent(&mut session, "A2", "/m/a.fauxrrt");
    assert_eq!(names(&session), vec!["A2", "B"]);
    assert_eq!(session.last.as_deref(), Some("/m/a.fauxrrt"));
    assert_eq!(session.recent[1].path, "/m/b.fauxrrt");
}

#[test]
fn recent_missions_keep_twelve() {
    let mut session = SessionFile::default();
    for i in 0..20 {
        push_recent(&mut session, &format!("M{i}"), &format!("/m/{i}"));
    }
    assert_eq!(session.recent.len(), RECENT_LIMIT);
    assert_eq!(session.recent[0].name, "M19");
    assert_eq!(session.recent[11].name, "M8");
    assert_eq!(session.last.as_deref(), Some("/m/19"));
}

#[test]
fn recording_twice_is_recording_once() {
    let mut once = SessionFile::default();
    once.recent.push(RecentMission { name: "X".into(), path: "/x".into() });
    push_recent(&mut once, "Y", "/y");
    let mut twice = once.clone();
    push_recent(&mut twice, "Y", "/y");
    let a: Vec<(String, String)> = once.recent.iter().map(|r| (r.name.clone(), r.path.clone())).collect();
    let b: Vec<(String, String)> = twice.recent.iter().map(|r| (r.name.clone(), r.path.clone())).collect();
    assert_eq!(a, b);
}

#[test]
fn mission_names_and_file_names() {
    assert_eq!(normalize_mission_name("  Flight test "), "Flight test");
    assert_eq!(normalize_mission_name(" \t "), "Untitled mission");
    assert_eq!(sanitize_filename("  a<b>:c|d?e*f\"g/h\\i "), "a_b__c_d_e_f_g_h_i");
    assert_eq!(sanitize_filename(" ..trip.. "), "trip");
    assert_eq!(sanitize_filename(" ... "), "mission");
    assert_eq!(sanitize_filename(""), "mission");
}

#[test]
fn mission_defaults() {
    assert_eq!(mission_version(), MISSION_VERSION);
    assert_eq!(MISSION_VERSION, 1);
    assert!(default_true());
    assert_eq!(default_imagery(), "satellite");
}

#[test]
fn stored_paths_are_relative_below_the_mission() {
    assert_eq!(store_path("/m/tracks/a.csv", Some("/m")), "tracks/a.csv");
    assert_eq!(store_path("/other/a.csv", Some("/m")), "/other/a.csv");
    assert_eq!(store_path("/other/a.csv", None), "/other/a.csv");
}

#[test]
fn track_candidates_in_order() {
    let c = track_path_candidates(Some("old/dir/a.csv"), "a", Some("/m"));
    assert_eq!(c, vec!["old/dir/a.csv", "/m/old/dir/a.csv", "/m/a.csv", "/m/a"]);
    assert_eq!(track_path_candidates(Some(""), "a", None), Vec::<String>::new());
    assert_eq!(track_path_candidates(None, "a", Some("/m")), vec!["/m/a"]);
}

#[test]
fn resolving_picks_the_first_existing_file() {
    let c = vec!["x".to_string(), "y".to_string(), "z".to_string()];
    assert_eq!(resolve_track_path(&c, &[false, true, true], Some("x"), "T"), Ok("y".to_string()));
    assert_eq!(
        resolve_track_path(&c, &[false, false, false], Some("x"), "T"),
        Err("missing trajectory T (x)".to_string())
    );
    assert_eq!(
        resolve_track_path(&[], &[], None, "T"),
        Err("cannot restore T: no file path stored".to_string())
    );
}

use fauxrrt::mission::{name_for_loaded_file, name_for_saved_file, with_mission_extension, MissionSession};

#[test]
fn a_new_mission_is_untitled_and_clean() {
    let s = MissionSession::default();
    assert_eq!(s.name, "Untitled mission");
    assert!(s.path.is_none() && !s.dirty);
    assert_eq!(s.title(), "FauxRRT \u{2014} Untitled mission");
    assert!(!s.autosaves());
    assert_eq!(s.save_destination(false), None);
    assert_eq!(s.suggested_file_name(), "Untitled mission.fauxrrt");
}

#[test]
fn renaming_marks_changes_only_when_the_name_changes() {
    let mut s = MissionSession::default();
    s.rename("   ");
    assert!(!s.dirty);
    s.rename("  Flight test ");
    assert_eq!(s.name, "Flight test");
    assert!(s.dirty);
    assert_eq!(s.title(), "FauxRRT \u{2014} Flight test \u{2022}");
    s.settle("Flight test".to_string(), "/m/flight.fauxrrt".to_string());
    assert!(!s.dirty);
    s.rename("Flight test");
    assert!(!s.dirty);
    assert_eq!(s.save_destination(false).as_deref(), Some("/m/flight.fauxrrt"));
    assert_eq!(s.save_destination(true), None);
}

#[test]
fn display_changes_mark_only_saved_missions() {
    let mut s = MissionSession::default();
    s.mark_ui_changed();
    assert!(!s.dirty);
    s.settle("M".to_string(), "/m/m.fauxrrt".to_string());
    assert!(s.autosaves());
    s.mark_ui_changed();
    assert!(s.dirty);
    let mut t = MissionSession::default();
    t.mark_store_changed();
    assert!(t.dirty);
}

#[test]
fn saved_and_loaded_names() {
    assert_eq!(with_mission_extension("/m/trip"), "/m/trip.fauxrrt");
    assert_eq!(with_mission_extension("/m/trip.json"), "/m/trip.json");
    assert_eq!(name_for_saved_file("Untitled mission", "/m/trip.fauxrrt"), "trip");
    assert_eq!(name_for_saved_file("Named", "/m/trip.fauxrrt"), "Named");
    assert_eq!(name_for_loaded_file("  ", "/m/trip.fauxrrt"), "trip");
    assert_eq!(name_for_loaded_file(" Doc ", "/m/trip.fauxrrt"), " Doc ");
}
