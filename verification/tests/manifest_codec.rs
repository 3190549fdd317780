use preset_manager::manifest::{encode_preset_list, parse_preset_list};
use preset_manager::types::{PresetEntry, PresetError};

fn entry(index: i32, image: &str, preset: &str) -> PresetEntry {
    PresetEntry {
        index,
        image_filename: image.to_string(),
        preset_filename: preset.to_string(),
    }
}

#[test]
fn encodes_empty_list() {
    let text = encode_preset_list(&vec![]);
    assert_eq!(text, "[]");
}

#[test]
fn encodes_one_entry_canonically() {
    let entries = vec![entry(0, "image_timbre0_0.lsi", "settings_timbre0_0.json")];
    let text = encode_preset_list(&entries);
    assert_eq!(
        text,
        "[{\"index\":0,\"image_filename\":\"image_timbre0_0.lsi\",\"preset_filename\":\"settings_timbre0_0.json\"}]"
    );
}

#[test]
fn decodes_what_it_encodes() {
    let entries = vec![
        entry(0, "image_timbre0_0.lsi", "settings_timbre0_0.json"),
        entry(7, "image_timbre1_1.lsi", "settings_timbre1_1.json"),
        entry(2147483647, "a.lsi", "b.json"),
    ];
    let text = encode_preset_list(&entries);
    let back = parse_preset_list(&text).unwrap();
    assert_eq!(back.len(), 3);
    for (a, b) in entries.iter().zip(back.iter()) {
        assert_eq!(a.index, b.index);
        assert_eq!(a.image_filename, b.image_filename);
        assert_eq!(a.preset_filename, b.preset_filename);
    }
}

#[test]
fn roundtrips_escaped_characters() {
    let entries = vec![entry(3, "quo\"te.lsi", "back\\slash.json")];
    let text = encode_preset_list(&entries);
    assert!(text.contains("quo\\\"te.lsi"));
    assert!(text.contains("back\\\\slash.json"));
    let back = parse_preset_list(&text).unwrap();
    assert_eq!(back[0].image_filename, "quo\"te.lsi");
    assert_eq!(back[0].preset_filename, "back\\slash.json");
}

#[test]
fn decodes_empty_array() {
    let back = parse_preset_list("[]").unwrap();
    assert!(back.is_empty());
}

#[test]
fn rejects_empty_input() {
    assert_eq!(parse_preset_list(""), Err(PresetError::MalformedManifest));
}

#[test]
fn rejects_unclosed_array() {
    assert_eq!(parse_preset_list("["), Err(PresetError::MalformedManifest));
    assert_eq!(
        parse_preset_list("[{\"index\":1,\"image_filename\":\"a\",\"preset_filename\":\"b\"}"),
        Err(PresetError::MalformedManifest)
    );
}

#[test]
fn rejects_trailing_garbage() {
    assert_eq!(parse_preset_list("[]x"), Err(PresetError::MalformedManifest));
    assert_eq!(
        parse_preset_list("[{\"index\":1,\"image_filename\":\"a\",\"preset_filename\":\"b\"}]x"),
        Err(PresetError::MalformedManifest)
    );
}

#[test]
fn rejects_missing_field() {
    assert_eq!(
        parse_preset_list("[{\"index\":1,\"image_filename\":\"a\"}]"),
        Err(PresetError::MalformedManifest)
    );
}

#[test]
fn rejects_negative_index() {
    assert_eq!(
        parse_preset_list("[{\"index\":-1,\"image_filename\":\"a\",\"preset_filename\":\"b\"}]"),
        Err(PresetError::MalformedManifest)
    );
}

#[test]
fn rejects_index_beyond_range() {
    assert_eq!(
        parse_preset_list(
            "[{\"index\":2147483648,\"image_filename\":\"a\",\"preset_filename\":\"b\"}]"
        ),
        Err(PresetError::MalformedManifest)
    );
}

#[test]
fn rejects_control_character_in_string() {
    assert_eq!(
        parse_preset_list("[{\"index\":1,\"image_filename\":\"a\u{0001}\",\"preset_filename\":\"b\"}]"),
        Err(PresetError::MalformedManifest)
    );
}

#[test]
fn rejects_unknown_escape() {
    assert_eq!(
        parse_preset_list("[{\"index\":1,\"image_filename\":\"a\\q\",\"preset_filename\":\"b\"}]"),
        Err(PresetError::MalformedManifest)
    );
}

#[test]
fn accepts_whitespace_between_tokens() {
    let text = " [ {\t\"index\" :\n1 , \"image_filename\" : \"a\" ,\r\n\"preset_filename\" : \"b\" } ] \n";
    let back = parse_preset_list(text).unwrap();
    assert_eq!(back.len(), 1);
    assert_eq!(back[0].index, 1);
    assert_eq!(back[0].image_filename, "a");
    assert_eq!(back[0].preset_filename, "b");
}

#[test]
fn accepts_whitespace_in_empty_array() {
    assert!(parse_preset_list("[ ]").unwrap().is_empty());
    assert!(parse_preset_list("  [\n]\t").unwrap().is_empty());
}

#[test]
fn accepts_any_member_order() {
    let text = "[{\"preset_filename\":\"b\",\"index\":7,\"image_filename\":\"a\"}]";
    let back = parse_preset_list(text).unwrap();
    assert_eq!(back[0].index, 7);
    assert_eq!(back[0].image_filename, "a");
    assert_eq!(back[0].preset_filename, "b");
}

#[test]
fn rejects_duplicate_member() {
    assert_eq!(
        parse_preset_list(
            "[{\"index\":1,\"index\":2,\"image_filename\":\"a\",\"preset_filename\":\"b\"}]"
        ),
        Err(PresetError::MalformedManifest)
    );
}

#[test]
fn accepts_standard_escapes() {
    let text = "[{\"index\":0,\"image_filename\":\"a\\n\\t\\/\\u0041\",\"preset_filename\":\"b\\uD83D\\uDE00\"}]";
    let back = parse_preset_list(text).unwrap();
    assert_eq!(back[0].image_filename, "a\n\t/A");
    assert_eq!(back[0].preset_filename, "b\u{1F600}");
}

#[test]
fn rejects_lone_surrogate_escape() {
    assert_eq!(
        parse_preset_list(
            "[{\"index\":0,\"image_filename\":\"\\uD83D\",\"preset_filename\":\"b\"}]"
        ),
        Err(PresetError::MalformedManifest)
    );
}

#[test]
fn rejects_trailing_comma() {
    assert_eq!(
        parse_preset_list("[{\"index\":1,\"image_filename\":\"a\",\"preset_filename\":\"b\"},]"),
        Err(PresetError::MalformedManifest)
    );
}

#[test]
fn rejects_leading_zero_index() {
    assert_eq!(
        parse_preset_list("[{\"index\":01,\"image_filename\":\"a\",\"preset_filename\":\"b\"}]"),
        Err(PresetError::MalformedManifest)
    );
}
