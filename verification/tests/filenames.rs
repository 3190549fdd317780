use preset_manager::presets::{
    derive_display_name, preset_filename, preset_filename_location, preset_image_filename,
    preset_list_filename, should_remove_file,
};
use preset_manager::styles::{GeneralButtonStyle, PresetButtonStyle};
use preset_manager::types::PresetType;

#[test]
fn location_of_slot_zero() {
    assert_eq!(preset_filename_location(0), "0_0");
}

#[test]
fn location_of_slot_six() {
    assert_eq!(preset_filename_location(6), "1_0");
}

#[test]
fn location_of_slot_seven() {
    assert_eq!(preset_filename_location(7), "1_1");
}

#[test]
fn location_of_large_slot() {
    assert_eq!(preset_filename_location(65), "10_5");
}

#[test]
fn image_filenames_by_kind() {
    assert_eq!(
        preset_image_filename(0, PresetType::Timbre),
        "image_timbre0_0.lsi"
    );
    assert_eq!(
        preset_image_filename(7, PresetType::System),
        "image_system1_1.lsi"
    );
}

#[test]
fn preset_filenames_by_kind() {
    assert_eq!(
        preset_filename(0, PresetType::Timbre),
        "settings_timbre0_0.json"
    );
    assert_eq!(
        preset_filename(13, PresetType::System),
        "settings_system2_1.json"
    );
}

#[test]
fn manifest_filenames_by_kind() {
    assert_eq!(preset_list_filename(PresetType::Timbre), "preset_list.json");
    assert_eq!(
        preset_list_filename(PresetType::System),
        "system_preset_list.json"
    );
}

#[test]
fn cleanup_spares_the_autosave_file() {
    assert!(!should_remove_file(
        "settings_system_auto.json",
        PresetType::System
    ));
    assert!(!should_remove_file(
        "settings_system_auto.json",
        PresetType::Timbre
    ));
}

#[test]
fn cleanup_takes_matching_artifacts() {
    assert!(should_remove_file("settings_system0_0.json", PresetType::System));
    assert!(should_remove_file("image_system1_4.lsi", PresetType::System));
    assert!(should_remove_file("system_preset_list.json", PresetType::System));
    assert!(should_remove_file("settings_timbre0_0.json", PresetType::Timbre));
    assert!(should_remove_file("image_timbre3_2.lsi", PresetType::Timbre));
    assert!(should_remove_file("preset_list.json", PresetType::Timbre));
}

#[test]
fn cleanup_spares_the_other_kinds_files_and_strangers() {
    assert!(!should_remove_file("settings_timbre0_0.json", PresetType::System));
    assert!(!should_remove_file("image_timbre0_0.lsi", PresetType::System));
    assert!(!should_remove_file("preset_list.json", PresetType::System));
    assert!(!should_remove_file("notes.txt", PresetType::System));
    assert!(!should_remove_file("", PresetType::Timbre));
}

#[test]
fn display_name_is_the_last_path_component() {
    assert_eq!(derive_display_name("/home/user/MyPresets"), "MyPresets");
    assert_eq!(derive_display_name("relative/dir"), "dir");
    assert_eq!(derive_display_name("plain"), "plain");
}

#[test]
fn display_name_ignores_trailing_separators() {
    assert_eq!(derive_display_name("/home/user/MyPresets/"), "MyPresets");
    assert_eq!(derive_display_name("a/b///"), "b");
}

#[test]
fn display_name_falls_back_when_undecidable() {
    assert_eq!(derive_display_name(""), "Untitled");
    assert_eq!(derive_display_name("/"), "Untitled");
    assert_eq!(derive_display_name("///"), "Untitled");
    assert_eq!(derive_display_name(".."), "Untitled");
    assert_eq!(derive_display_name("a/b/.."), "Untitled");
    assert_eq!(derive_display_name("a/..b"), "..b");
}

#[test]
fn button_styles_carry_the_selection_flag() {
    let _ = GeneralButtonStyle::new();
    assert!(!PresetButtonStyle::new().selected);
    assert!(PresetButtonStyle::selected().selected);
}
