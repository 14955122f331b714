use fauxrrt::registry::{NamedMode, Registry};

fn names(v: &[&str]) -> Vec<String> {
    v.iter().map(|s| s.to_string()).collect()
}

#[test]
fn objects_modes_and_tracks_get_growing_ids() {
    let mut r = Registry::new();
    assert_eq!(r.next_id_values(), (1, 1, 1));
    let a = r.create_object_empty("Vehicle".to_string());
    let b = r.create_object_empty("Stage".to_string());
    assert_eq!((a, b), (1, 2));
    assert!(r.contains_object(a) && !r.contains_object(3));
    assert_eq!(r.add_mode(a, "Nominal".to_string()), Ok(1));
    assert_eq!(r.add_mode(9, "X".to_string()), Err("unknown object".to_string()));
    assert_eq!(r.next_id_values(), (3, 2, 1));
}

#[test]
fn first_named_mode_is_made_then_found() {
    let mut r = Registry::new();
    let obj = r.create_object_empty("Vehicle".to_string());
    assert_eq!(r.ensure_named_mode(obj, "Nominal"), Ok(NamedMode::Made { id: 1, first: true }));
    assert_eq!(r.ensure_named_mode(obj, "NOMINAL"), Ok(NamedMode::Found(1)));
    assert_eq!(r.ensure_named_mode(obj, "Failure"), Ok(NamedMode::Made { id: 2, first: false }));
    assert_eq!(r.ensure_named_mode(7, "Failure"), Err("unknown object".to_string()));
    assert_eq!(r.nominal_mode_id(obj), Some(1));
    assert_eq!(r.named_mode(obj, "failure"), Some(2));
    assert_eq!(r.mode_ids(obj), vec![1, 2]);
    assert_eq!(r.mode_object(2), Some(obj));
}

#[test]
fn assignment_is_checked() {
    let mut r = Registry::new();
    let a = r.create_object_empty("A".to_string());
    let b = r.create_object_empty("B".to_string());
    let ma = r.add_mode(a, "Nominal".to_string()).unwrap();
    assert_eq!(r.validate_assignment(a, ma), Ok(()));
    assert_eq!(r.validate_assignment(b, ma), Err("mode does not belong to that object".to_string()));
    assert_eq!(r.validate_assignment(a, 99), Err("unknown mode".to_string()));
    assert_eq!(
        r.insert_tracks(names(&["t"]), Some(a), None),
        Err("object and mode are both required".to_string())
    );
    assert_eq!(r.insert_tracks(names(&["t"]), Some(b), Some(ma)), Err("mode does not belong to that object".to_string()));
    assert_eq!(r.next_id_values().2, 1);
}

#[test]
fn registry_removing_object_deletes_its_tracks() {
    let mut r = Registry::new();
    let obj = r.create_object_empty("Vehicle".to_string());
    let nom = match r.ensure_named_mode(obj, "Nominal").unwrap() {
        NamedMode::Made { id, .. } | NamedMode::Found(id) => id,
    };
    let ids = r.insert_tracks(names(&["t"]), Some(obj), Some(nom)).unwrap();
    assert_eq!(ids, vec![1]);
    assert_eq!(r.assigned_tracks_for(Some(obj)), vec![1]);
    let loose = r.insert_tracks(names(&["u"]), None, None).unwrap();
    assert_eq!(loose, vec![2]);
    assert_eq!(r.remove_object(obj), Ok(vec![1]));
    assert!(r.track(1).is_none());
    assert!(r.track(2).is_some());
    assert_eq!(r.mode_object(nom), None);
    assert!(!r.contains_object(obj));
    assert_eq!(r.remove_object(obj), Err("unknown object".to_string()));
    assert_eq!(r.assigned_tracks_for(None), Vec::<u64>::new());
}

#[test]
fn generated_track_names_per_object() {
    let mut r = Registry::new();
    let obj = r.create_object_empty("Vehicle".to_string());
    let nom = r.add_mode(obj, "Nominal".to_string()).unwrap();
    r.insert_tracks(names(&["Nominal-01"]), Some(obj), Some(nom)).unwrap();
    let used = r.track_names_of(obj);
    assert_eq!(fauxrrt::store::next_track_name(&used, "Nominal", 0), "Nominal-02");
    let fail = r.add_mode(obj, "Failure".to_string()).unwrap();
    let next = fauxrrt::store::next_track_name(&r.track_names_of(obj), "Failure", 0);
    r.insert_tracks(vec![next], Some(obj), Some(fail)).unwrap();
    assert_eq!(r.track_names_of(obj), names(&["Nominal-01", "Failure-01"]));
}

#[test]
fn removing_a_mode_drops_its_tracks_and_assignments_can_change() {
    let mut r = Registry::new();
    let obj = r.create_object_empty("Vehicle".to_string());
    let nom = r.add_mode(obj, "Nominal".to_string()).unwrap();
    let fail = r.add_mode(obj, "Failure".to_string()).unwrap();
    r.insert_tracks(names(&["a", "b"]), Some(obj), Some(fail)).unwrap();
    r.insert_tracks(names(&["c"]), Some(obj), Some(nom)).unwrap();
    assert_eq!(r.assign_tracks(&[2], obj, nom), Ok(()));
    assert_eq!(r.remove_failure_mode(fail), Ok(obj));
    assert!(r.track(1).is_none());
    assert_eq!(r.track(2).unwrap().failure_mode_id, Some(nom));
    r.unassign_tracks(&[3]);
    assert_eq!(r.track(3).unwrap().object_id, None);
    assert_eq!(r.assigned_tracks_for(Some(obj)), vec![2]);
    r.remove_tracks(&[2, 3]);
    assert!(r.track(2).is_none() && r.track(3).is_none());
    assert_eq!(r.remove_failure_mode(fail), Err("unknown mode".to_string()));
}

#[test]
fn renaming_and_clearing() {
    let mut r = Registry::new();
    let obj = r.create_object_empty("Vehicle".to_string());
    assert_eq!(r.rename_object(obj, "Rocket".to_string()), Ok(()));
    assert_eq!(r.set_object_source(obj, "generate".to_string()), Ok(()));
    assert_eq!(r.rename_object(5, "x".to_string()), Err("unknown object".to_string()));
    r.clear();
    assert!(!r.contains_object(obj));
    assert_eq!(r.create_object_empty("Next".to_string()), 2);
}

#[test]
fn removing_an_objects_tracks_keeps_the_object() {
    let mut r = Registry::new();
    let obj = r.create_object_empty("Vehicle".to_string());
    let nom = r.add_mode(obj, "Nominal".to_string()).unwrap();
    r.insert_tracks(names(&["a", "b"]), Some(obj), Some(nom)).unwrap();
    r.insert_tracks(names(&["c"]), None, None).unwrap();
    assert_eq!(r.remove_object_tracks(obj), vec![1, 2]);
    assert!(r.contains_object(obj));
    assert_eq!(r.mode_ids(obj), vec![nom]);
    assert!(r.track(3).is_some());
}

#[test]
fn an_object_outline_groups_modes_and_tracks_by_id() {
    let mut r = Registry::new();
    let a = r.create_object_empty("Vehicle".to_string());
    let b = r.create_object_empty("Stage".to_string());
    let nom = r.add_mode(a, "Nominal".to_string()).unwrap();
    let other = r.add_mode(b, "Nominal".to_string()).unwrap();
    let fail = r.add_mode(a, "Failure".to_string()).unwrap();
    let empty = r.add_mode(a, "Empty".to_string()).unwrap();
    r.insert_tracks(names(&["n1", "n2"]), Some(a), Some(nom)).unwrap();
    r.insert_tracks(names(&["o1"]), Some(b), Some(other)).unwrap();
    r.insert_tracks(names(&["f1"]), Some(a), Some(fail)).unwrap();
    let v = r.object_outline(a).unwrap();
    assert_eq!((v.id, v.name.as_str(), v.source.as_str()), (a, "Vehicle", "files"));
    let ids: Vec<u64> = v.modes.iter().map(|m| m.id).collect();
    assert_eq!(ids, vec![nom, fail, empty]);
    assert_eq!(v.modes[0].track_ids, vec![1, 2]);
    assert_eq!(v.modes[1].track_ids, vec![4]);
    assert!(v.modes[2].track_ids.is_empty());
    assert_eq!(v.modes[1].name, "Failure");
    assert_eq!(v.empty_modes, 1);
    assert!(r.object_outline(9).is_none());
}
