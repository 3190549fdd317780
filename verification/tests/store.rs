use preset_manager::lsi_parser::encode_lsi_image;
use preset_manager::manifest::encode_preset_list;
use preset_manager::presets::{
    load_presets, preset_filename, preset_image_filename, preset_list_filename, save_presets,
    DirSnapshot,
};
use preset_manager::types::{Point, PresetEntry, PresetError, PresetType, Side};

fn pt(x: f32, y: f32) -> Point {
    Point::new(x.to_bits(), y.to_bits())
}

/// A directory snapshot holding a collection of the given kind with the
/// given slots, named and laid out as the store itself would write it.
fn snapshot_for(kind: PresetType, slots: &[(i32, Vec<Vec<Point>>, &str)]) -> DirSnapshot {
    let mut files: DirSnapshot = Vec::new();
    let mut entries: Vec<PresetEntry> = Vec::new();
    for (index, image, payload) in slots {
        let image_filename = preset_image_filename(*index, kind);
        let preset_filename = preset_filename(*index, kind);
        files.push((image_filename.clone(), encode_lsi_image(image)));
        files.push((preset_filename.clone(), payload.as_bytes().to_vec()));
        entries.push(PresetEntry {
            index: *index,
            image_filename,
            preset_filename,
        });
    }
    let manifest = encode_preset_list(&entries);
    files.push((
        preset_list_filename(kind).to_string(),
        manifest.into_bytes(),
    ));
    files
}

#[test]
fn loads_a_two_slot_collection() {
    let image0 = vec![vec![pt(0.0, 0.0), pt(1.0, 1.0)]];
    let image7 = vec![vec![pt(0.5, 0.5)], vec![]];
    let files = snapshot_for(
        PresetType::Timbre,
        &[(0, image0.clone(), "payload zero"), (7, image7.clone(), "payload seven")],
    );
    let pd = load_presets(&files, "/tmp/Bank", PresetType::Timbre, Side::Left).unwrap();
    assert_eq!(pd.preset_type, PresetType::Timbre);
    assert_eq!(pd.path, "/tmp/Bank");
    assert_eq!(pd.name, "Bank");
    assert_eq!(pd.presets.len(), 2);
    let e0 = pd.presets.get(0).unwrap();
    assert_eq!(e0.image, image0);
    assert_eq!(e0.preset_data, "payload zero");
    assert_eq!(e0.original_index, 0);
    assert_eq!(e0.original_side, Side::Left);
    let e7 = pd.presets.get(7).unwrap();
    assert_eq!(e7.image, image7);
    assert_eq!(e7.preset_data, "payload seven");
    assert!(pd.presets.get(1).is_none());
}

#[test]
fn missing_manifest_is_io_error() {
    let files: DirSnapshot = Vec::new();
    assert_eq!(
        load_presets(&files, "p", PresetType::Timbre, Side::Left).err(),
        Some(PresetError::IoError)
    );
}

#[test]
fn malformed_manifest_fails_the_load() {
    let files: DirSnapshot = vec![(
        "preset_list.json".to_string(),
        b"not a manifest".to_vec(),
    )];
    assert_eq!(
        load_presets(&files, "p", PresetType::Timbre, Side::Left).err(),
        Some(PresetError::MalformedManifest)
    );
}

#[test]
fn missing_image_file_fails_the_load() {
    let mut files = snapshot_for(PresetType::Timbre, &[(0, vec![vec![pt(1.0, 2.0)]], "x")]);
    files.retain(|(name, _)| !name.ends_with(".lsi"));
    assert_eq!(
        load_presets(&files, "p", PresetType::Timbre, Side::Left).err(),
        Some(PresetError::IoError)
    );
}

#[test]
fn malformed_image_fails_the_load() {
    let mut files = snapshot_for(PresetType::Timbre, &[(0, vec![vec![pt(1.0, 2.0)]], "x")]);
    for (name, bytes) in files.iter_mut() {
        if name.ends_with(".lsi") {
            bytes.push(0);
        }
    }
    assert_eq!(
        load_presets(&files, "p", PresetType::Timbre, Side::Left).err(),
        Some(PresetError::MalformedImage)
    );
}

#[test]
fn missing_payload_file_fails_the_load() {
    let mut files = snapshot_for(PresetType::Timbre, &[(0, vec![vec![pt(1.0, 2.0)]], "x")]);
    files.retain(|(name, _)| !name.starts_with("settings_"));
    assert_eq!(
        load_presets(&files, "p", PresetType::Timbre, Side::Left).err(),
        Some(PresetError::IoError)
    );
}

#[test]
fn wrong_kind_manifest_name_is_io_error() {
    let files = snapshot_for(PresetType::Timbre, &[(0, vec![], "x")]);
    assert_eq!(
        load_presets(&files, "p", PresetType::System, Side::Left).err(),
        Some(PresetError::IoError)
    );
}

#[test]
fn save_then_load_reproduces_the_collection() {
    let image0 = vec![vec![pt(0.25, -0.75), pt(2.0, 8.5)]];
    let image9 = vec![vec![], vec![pt(1.0, 1.0)]];
    let files = snapshot_for(
        PresetType::System,
        &[(0, image0.clone(), "alpha"), (9, image9.clone(), "beta")],
    );
    let pd = load_presets(&files, "/d/Voices", PresetType::System, Side::Right).unwrap();
    let plan = save_presets("/d/Voices", &pd.presets, pd.preset_type);
    assert_eq!(plan.root, "/d/Voices");
    let again = load_presets(&plan.writes, "/d/Voices", PresetType::System, Side::Right).unwrap();
    assert_eq!(again.presets.len(), 2);
    let e0 = again.presets.get(0).unwrap();
    assert_eq!(e0.image, image0);
    assert_eq!(e0.preset_data, "alpha");
    let e9 = again.presets.get(9).unwrap();
    assert_eq!(e9.image, image9);
    assert_eq!(e9.preset_data, "beta");
}

#[test]
fn save_recomputes_filenames_from_current_slots() {
    let files = snapshot_for(PresetType::Timbre, &[(0, vec![vec![pt(1.0, 2.0)]], "x")]);
    let pd = load_presets(&files, "p", PresetType::Timbre, Side::Left).unwrap();
    // Relocate the entry to slot 7 in memory, then plan a save: the plan
    // must name the files after slot 7, not after where it was loaded from.
    let mut slots = pd.presets;
    let entry = slots.remove(0).unwrap();
    slots.insert(7, entry);
    let plan = save_presets("p", &slots, PresetType::Timbre);
    let names: Vec<&str> = plan.writes.iter().map(|(n, _)| n.as_str()).collect();
    assert!(names.contains(&"image_timbre1_1.lsi"));
    assert!(names.contains(&"settings_timbre1_1.json"));
    assert!(names.contains(&"preset_list.json"));
    assert!(!names.contains(&"image_timbre0_0.lsi"));
}

#[test]
fn save_of_empty_collection_writes_only_the_manifest() {
    let files = snapshot_for(PresetType::Timbre, &[]);
    let pd = load_presets(&files, "p", PresetType::Timbre, Side::Left).unwrap();
    let plan = save_presets("p", &pd.presets, PresetType::Timbre);
    assert_eq!(plan.writes.len(), 1);
    assert_eq!(plan.writes[0].0, "preset_list.json");
    assert_eq!(plan.writes[0].1, b"[]");
}
