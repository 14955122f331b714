use fauxrrt::boats::{collect_kml_files, sample_boat_dirs, sample_boats_dir, sort_texts};

fn strings(v: &[&str]) -> Vec<String> {
    v.iter().map(|s| s.to_string()).collect()
}

#[test]
fn texts_sort_by_character_code() {
    let sorted = sort_texts(strings(&["b", "a.kml", "a b.kml", "B", "", "ab"]));
    assert_eq!(sorted, strings(&["", "B", "a b.kml", "a.kml", "ab", "b"]));
    assert_eq!(sort_texts(Vec::new()), Vec::<String>::new());
}

#[test]
fn folder_boat_reports_are_kml_files_in_path_order() {
    let entries = strings(&["d/z.kml", "d/notes.txt", "d/A.KML", "d/m.kml", "d/kml", "d/x.kmz"]);
    assert_eq!(collect_kml_files(entries), strings(&["d/A.KML", "d/m.kml", "d/z.kml"]));
}

#[test]
fn sample_boat_folder_candidates() {
    let c = sample_boat_dirs("/src/app", Some("/work"), None);
    assert_eq!(
        c,
        strings(&["/work/samples/boats", "/work/../samples/boats", "/src/app/../samples/boats"])
    );
    assert_eq!(sample_boats_dir(&c, &[false, true, true]).as_deref(), Some("/work/../samples/boats"));
    assert_eq!(sample_boats_dir(&c, &[false, false, false]), None);
}
