use preset_manager::lsi_parser::encode_lsi_image;
use preset_manager::manifest::encode_preset_list;
use preset_manager::presets::{
    preset_filename, preset_image_filename, preset_list_filename, DirSnapshot,
};
use preset_manager::session::Session;
use preset_manager::types::{Point, PresetEntry, PresetError, PresetType, Side};

fn pt(x: f32, y: f32) -> Point {
    Point::new(x.to_bits(), y.to_bits())
}

fn snapshot_for(kind: PresetType, slots: &[(i32, Vec<Vec<Point>>, &str)]) -> DirSnapshot {
    let mut files: DirSnapshot = Vec::new();
    let mut entries: Vec<PresetEntry> = Vec::new();
    for (index, image, payload) in slots {
        let image_filename = preset_image_filename(*index, kind);
        let preset_filename = preset_filename(*index, kind);
        files.push((image_filename.clone(), encode_lsi_image(image)));
        files.push((preset_filename.clone(), payload.as_bytes().to_vec()));
        entries.push(PresetEntry {
            index: *index,
            image_filename,
            preset_filename,
        });
    }
    let manifest = encode_preset_list(&entries);
    files.push((
        preset_list_filename(kind).to_string(),
        manifest.into_bytes(),
    ));
    files
}

/// A session with the left side holding two timbre slots (0 and 1) and the
/// right side holding one (slot 2).
fn two_sided_session() -> Session {
    let mut s = Session::new();
    let left = snapshot_for(
        PresetType::Timbre,
        &[
            (0, vec![vec![pt(0.0, 0.0)]], "left zero"),
            (1, vec![vec![pt(1.0, 1.0)]], "left one"),
        ],
    );
    let right = snapshot_for(PresetType::Timbre, &[(2, vec![vec![pt(2.0, 2.0)]], "right two")]);
    s.load_side(Side::Left, &left, "/banks/L", PresetType::Timbre).unwrap();
    s.load_side(Side::Right, &right, "/banks/R", PresetType::Timbre).unwrap();
    s
}

#[test]
fn move_into_empty_slot_relocates_the_entry() {
    let mut s = two_sided_session();
    s.move_preset(0, Side::Left, 5, Side::Right).unwrap();
    let left = s.collection(Side::Left).unwrap();
    let right = s.collection(Side::Right).unwrap();
    assert!(left.presets.get(0).is_none());
    let moved = right.presets.get(5).unwrap();
    assert_eq!(moved.preset_data, "left zero");
    assert_eq!(moved.original_index, 0);
    assert_eq!(moved.original_side, Side::Left);
    // The untouched slots stay put.
    assert!(left.presets.get(1).is_some());
    assert!(right.presets.get(2).is_some());
}

#[test]
fn move_into_occupied_slot_swaps_both_entries() {
    let mut s = two_sided_session();
    s.move_preset(1, Side::Left, 2, Side::Right).unwrap();
    let left = s.collection(Side::Left).unwrap();
    let right = s.collection(Side::Right).unwrap();
    let to_right = right.presets.get(2).unwrap();
    assert_eq!(to_right.preset_data, "left one");
    assert_eq!(to_right.original_index, 1);
    assert_eq!(to_right.original_side, Side::Left);
    let to_left = left.presets.get(1).unwrap();
    assert_eq!(to_left.preset_data, "right two");
    assert_eq!(to_left.original_index, 2);
    assert_eq!(to_left.original_side, Side::Right);
}

#[test]
fn move_within_one_side_swaps_slots() {
    let mut s = two_sided_session();
    s.move_preset(0, Side::Left, 1, Side::Left).unwrap();
    let left = s.collection(Side::Left).unwrap();
    assert_eq!(left.presets.get(0).unwrap().preset_data, "left one");
    assert_eq!(left.presets.get(1).unwrap().preset_data, "left zero");
}

#[test]
fn move_with_unloaded_side_fails_and_mutates_nothing() {
    let mut s = Session::new();
    let left = snapshot_for(PresetType::Timbre, &[(0, vec![vec![pt(0.0, 0.0)]], "only")]);
    s.load_side(Side::Left, &left, "/banks/L", PresetType::Timbre).unwrap();
    let r = s.move_preset(0, Side::Left, 1, Side::Right);
    assert_eq!(r, Err(PresetError::SideNotLoaded));
    let left = s.collection(Side::Left).unwrap();
    assert_eq!(left.presets.get(0).unwrap().preset_data, "only");
    assert_eq!(left.presets.len(), 1);
    assert!(s.collection(Side::Right).is_none());
}

#[test]
fn move_from_empty_slot_fails_with_slot_empty() {
    let mut s = two_sided_session();
    let r = s.move_preset(4, Side::Left, 2, Side::Right);
    assert_eq!(r, Err(PresetError::SlotEmpty));
    // Nothing moved.
    assert_eq!(
        s.collection(Side::Right).unwrap().presets.get(2).unwrap().preset_data,
        "right two"
    );
}

#[test]
fn kind_conflict_is_refused_before_loading() {
    let mut s = Session::new();
    let left = snapshot_for(PresetType::Timbre, &[(0, vec![vec![pt(0.0, 0.0)]], "t")]);
    s.load_side(Side::Left, &left, "/banks/L", PresetType::Timbre).unwrap();
    let right = snapshot_for(PresetType::System, &[(0, vec![vec![pt(0.0, 0.0)]], "s")]);
    let r = s.load_side(Side::Right, &right, "/banks/R", PresetType::System);
    assert_eq!(r, Err(PresetError::KindConflict));
    assert!(s.collection(Side::Right).is_none());
    assert!(s.collection(Side::Left).is_some());
}

#[test]
fn selecting_then_clicking_moves_and_clears_the_cursor() {
    let mut s = two_sided_session();
    s.select_slot(0, Side::Left).unwrap();
    assert_eq!(s.selected, Some((0, Side::Left)));
    s.select_slot(3, Side::Left).unwrap();
    assert_eq!(s.selected, None);
    let left = s.collection(Side::Left).unwrap();
    assert!(left.presets.get(0).is_none());
    assert_eq!(left.presets.get(3).unwrap().preset_data, "left zero");
}

#[test]
fn failed_move_still_clears_the_cursor() {
    let mut s = Session::new();
    let left = snapshot_for(PresetType::Timbre, &[(0, vec![vec![pt(0.0, 0.0)]], "only")]);
    s.load_side(Side::Left, &left, "/banks/L", PresetType::Timbre).unwrap();
    s.select_slot(0, Side::Left).unwrap();
    assert_eq!(s.selected, Some((0, Side::Left)));
    let r = s.select_slot(4, Side::Right);
    assert_eq!(r, Err(PresetError::SideNotLoaded));
    assert_eq!(s.selected, None);
    assert_eq!(s.collection(Side::Left).unwrap().presets.len(), 1);
}

#[test]
fn selecting_an_empty_slot_does_nothing() {
    let mut s = two_sided_session();
    s.select_slot(4, Side::Left).unwrap();
    assert_eq!(s.selected, None);
}

#[test]
fn selecting_on_an_unloaded_side_is_refused() {
    let mut s = Session::new();
    let r = s.select_slot(0, Side::Left);
    assert_eq!(r, Err(PresetError::SideNotLoaded));
}

#[test]
fn close_discards_the_side_and_its_cursor() {
    let mut s = two_sided_session();
    s.select_slot(0, Side::Left).unwrap();
    s.close_side(Side::Left);
    assert!(s.collection(Side::Left).is_none());
    assert!(s.collection(Side::Right).is_some());
    assert_eq!(s.selected, None);
}

#[test]
fn close_keeps_a_cursor_on_the_other_side() {
    let mut s = two_sided_session();
    s.select_slot(2, Side::Right).unwrap();
    s.close_side(Side::Left);
    assert_eq!(s.selected, Some((2, Side::Right)));
}

#[test]
fn reloading_a_side_replaces_its_collection() {
    let mut s = two_sided_session();
    let newer = snapshot_for(PresetType::Timbre, &[(9, vec![vec![pt(9.0, 9.0)]], "newer")]);
    s.load_side(Side::Left, &newer, "/banks/N", PresetType::Timbre).unwrap();
    let left = s.collection(Side::Left).unwrap();
    assert_eq!(left.presets.len(), 1);
    assert_eq!(left.presets.get(9).unwrap().preset_data, "newer");
    assert_eq!(left.name, "N");
}

#[test]
fn save_side_requires_a_loaded_side() {
    let s = Session::new();
    assert!(matches!(
        s.save_side(Side::Left),
        Err(PresetError::SideNotLoaded)
    ));
}

#[test]
fn save_side_plans_a_full_resync() {
    let s = two_sided_session();
    let plan = s.save_side(Side::Right).unwrap();
    assert_eq!(plan.root, "/banks/R");
    let names: Vec<&str> = plan.writes.iter().map(|(n, _)| n.as_str()).collect();
    assert_eq!(
        names,
        vec!["image_timbre0_2.lsi", "settings_timbre0_2.json", "preset_list.json"]
    );
}

#[test]
fn side_other_is_an_involution() {
    assert_eq!(Side::Left.other(), Side::Right);
    assert_eq!(Side::Right.other(), Side::Left);
    assert_eq!(Side::Left.other().other(), Side::Left);
}

#[test]
fn error_messages_are_stable() {
    assert_eq!(
        PresetError::SlotEmpty.message(),
        "Selected item does not exist, cannot move"
    );
    assert!(!PresetError::IoError.message().is_empty());
    assert!(!PresetError::MalformedImage.message().is_empty());
    assert!(!PresetError::MalformedManifest.message().is_empty());
    assert!(!PresetError::SideNotLoaded.message().is_empty());
    assert!(!PresetError::KindConflict.message().is_empty());
}
