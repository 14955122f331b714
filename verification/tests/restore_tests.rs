use fauxrrt::registry::Registry;
use fauxrrt::restore::{restore_plan, MissionPlan, PlanMode, PlanObject, PlanTrack};

fn ok(name: &str) -> PlanTrack {
    PlanTrack { name: name.to_string(), loaded: Ok(()) }
}

fn failed(name: &str, why: &str) -> PlanTrack {
    PlanTrack { name: name.to_string(), loaded: Err(why.to_string()) }
}

fn mode(name: &str, tracks: Vec<PlanTrack>) -> PlanMode {
    PlanMode { name: name.to_string(), tracks }
}

fn sample_plan() -> MissionPlan {
    MissionPlan {
        objects: vec![
            PlanObject {
                name: "Vehicle".to_string(),
                source: Some("rocketpy".to_string()),
                modes: vec![
                    mode("Nominal", vec![ok("n1"), failed("n2", "read n2.csv: missing"), ok("n3")]),
                    mode("Failure", vec![ok("f1")]),
                ],
            },
            PlanObject { name: "Stage".to_string(), source: None, modes: vec![mode("Nominal", vec![])] },
        ],
        unassigned: vec![failed("loose", "parse loose.csv: no columns"), ok("spare")],
    }
}

#[test]
fn restoring_a_plan_rebuilds_objects_modes_and_tracks() {
    let mut r = Registry::new();
    let old = r.create_object_empty("Old".to_string());
    r.insert_tracks(vec!["stale".to_string()], None, None).unwrap();
    let errors = restore_plan(&mut r, &sample_plan());
    assert_eq!(
        errors,
        vec!["read n2.csv: missing".to_string(), "parse loose.csv: no columns".to_string()]
    );
    // the old contents are gone, ids keep counting
    assert!(!r.contains_object(old));
    assert!(r.track(1).is_none());
    assert!(r.contains_object(2) && r.contains_object(3));
    assert_eq!(r.mode_ids(2), vec![1, 2]);
    assert_eq!(r.mode_ids(3), vec![3]);
    // loaded tracks get consecutive ids, in plan order
    let n1 = r.track(2).unwrap();
    assert_eq!((n1.name.as_str(), n1.object_id, n1.failure_mode_id), ("n1", Some(2), Some(1)));
    let n3 = r.track(3).unwrap();
    assert_eq!((n3.name.as_str(), n3.failure_mode_id), ("n3", Some(1)));
    let f1 = r.track(4).unwrap();
    assert_eq!((f1.name.as_str(), f1.failure_mode_id), ("f1", Some(2)));
    let spare = r.track(5).unwrap();
    assert_eq!((spare.name.as_str(), spare.object_id, spare.failure_mode_id), ("spare", None, None));
    assert_eq!(r.track_names_of(2), vec!["n1".to_string(), "n3".to_string(), "f1".to_string()]);
    assert_eq!(r.assigned_tracks_for(None), vec![2, 3, 4]);
    assert_eq!(r.next_id_values(), (4, 4, 6));
}

#[test]
fn a_plan_whose_files_all_load_gives_no_message() {
    let mut r = Registry::new();
    let plan = MissionPlan {
        objects: vec![PlanObject {
            name: "Vehicle".to_string(),
            source: Some("generated".to_string()),
            modes: vec![mode("Nominal", vec![ok("a"), ok("b")])],
        }],
        unassigned: vec![ok("c")],
    };
    assert!(restore_plan(&mut r, &plan).is_empty());
    assert_eq!(r.assigned_tracks_for(Some(1)), vec![1, 2]);
    let c = r.track(3).unwrap();
    assert_eq!((c.name.as_str(), c.object_id, c.failure_mode_id), ("c", None, None));
}

#[test]
fn restoring_an_empty_plan_empties_the_registry() {
    let mut r = Registry::new();
    let a = r.create_object_empty("Vehicle".to_string());
    let m = r.add_mode(a, "Nominal".to_string()).unwrap();
    r.insert_tracks(vec!["t".to_string()], Some(a), Some(m)).unwrap();
    let errors = restore_plan(&mut r, &MissionPlan { objects: vec![], unassigned: vec![] });
    assert!(errors.is_empty());
    assert!(!r.contains_object(a));
    assert!(r.track(1).is_none());
    assert_eq!(r.next_id_values(), (2, 2, 2));
}

#[test]
fn a_registry_records_its_objects_modes_and_tracks() {
    let mut r = Registry::new();
    let a = r.create_object_empty("Vehicle".to_string());
    let b = r.create_object_empty("Stage".to_string());
    assert_eq!(r.set_object_source(b, "generated".to_string()), Ok(()));
    let nom = r.add_mode(a, "Nominal".to_string()).unwrap();
    let fail = r.add_mode(a, "Failure".to_string()).unwrap();
    r.insert_tracks(vec!["f1".to_string()], Some(a), Some(fail)).unwrap();
    r.insert_tracks(vec!["n1".to_string(), "n2".to_string()], Some(a), Some(nom)).unwrap();
    r.insert_tracks(vec!["loose".to_string()], None, None).unwrap();
    let plan = r.mission_plan();
    assert_eq!(plan.objects.len(), 2);
    assert_eq!(plan.objects[0].name, "Vehicle");
    assert_eq!(plan.objects[0].source, Some("files".to_string()));
    assert_eq!(plan.objects[1].source, Some("generated".to_string()));
    assert!(plan.objects[1].modes.is_empty());
    let modes: Vec<&str> = plan.objects[0].modes.iter().map(|m| m.name.as_str()).collect();
    assert_eq!(modes, vec!["Nominal", "Failure"]);
    let nominal: Vec<&str> = plan.objects[0].modes[0].tracks.iter().map(|t| t.name.as_str()).collect();
    assert_eq!(nominal, vec!["n1", "n2"]);
    assert_eq!(plan.objects[0].modes[1].tracks[0].name, "f1");
    assert_eq!(plan.unassigned.len(), 1);
    assert_eq!(plan.unassigned[0].name, "loose");
    assert!(plan.unassigned[0].loaded.is_ok());

    // Reopening the recorded plan elsewhere gives back the same objects.
    let mut other = Registry::new();
    assert!(restore_plan(&mut other, &plan).is_empty());
    assert!(other.contains_object(1) && other.contains_object(2));
    assert_eq!(other.mode_ids(1), vec![1, 2]);
    assert_eq!(
        other.track_names_of(1),
        vec!["n1".to_string(), "n2".to_string(), "f1".to_string()]
    );
    assert_eq!(other.track(4).unwrap().name, "loose");
}

#[test]
fn a_requested_source_reads_as_a_source_kind() {
    let mut r = Registry::new();
    let a = r.create_object_empty("Vehicle".to_string());
    assert_eq!(r.set_object_source(a, "rocketpy".to_string()), Ok(()));
    assert_eq!(r.mission_plan().objects[0].source, Some("rocketpy".to_string()));
    assert_eq!(r.set_object_source(a, "generate".to_string()), Ok(()));
    assert_eq!(r.mission_plan().objects[0].source, Some("files".to_string()));
    assert_eq!(r.set_object_source(7, "files".to_string()), Err("unknown object".to_string()));
}
