//! The preset collection store.
//!
//! A collection lives in one directory: a manifest file, one LSI image file
//! and one payload file per occupied slot.  Loading turns a snapshot of the
//! directory's files into an in-memory collection; saving is a full resync
//! plan — recompute every filename from the entry's current slot, rewrite
//! every artifact, and delete the stale files the previous save left behind,
//! sparing only the reserved autosave file.

use vstd::prelude::*;
use crate::manifest::{
    spec_dec_nat, spec_manifest_text, spec_parse_manifest, spec_wf_entries, spec_wf_entry,
    spec_wf_manifest_string, entries_view, append_decimal, expect_lit, str_eq, encode_preset_list,
    parse_preset_list, MAX_SLOT_INDEX,
};
use crate::types::{
    LoadedPresetEntry, LoadedPresetEntryV, PresetEntry, PresetEntryV, PresetError, PresetType,
    Side, image_view,
};
use crate::slot_map::SlotMap;

verus! {

/// The fixed layout width: slot indices map to a row and a column of this
/// many columns, and the pair names the slot's files.
pub const SYNTH_IMAGE_COLUMNS: u32 = 6;

/// The manifest filename of a collection of the given kind.
pub open spec fn spec_manifest_filename(kind: PresetType) -> Seq<char> {
    match kind {
        PresetType::Timbre => "preset_list.json"@,
        PresetType::System => "system_preset_list.json"@,
    }
}

/// The image-file prefix of the given kind.
pub open spec fn spec_image_prefix(kind: PresetType) -> Seq<char> {
    match kind {
        PresetType::Timbre => "image_timbre"@,
        PresetType::System => "image_system"@,
    }
}

/// The payload-file prefix of the given kind.
pub open spec fn spec_preset_prefix(kind: PresetType) -> Seq<char> {
    match kind {
        PresetType::Timbre => "settings_timbre"@,
        PresetType::System => "settings_system"@,
    }
}

/// The reserved autosave filename that a save must never delete.
pub open spec fn spec_autosave_filename() -> Seq<char> {
    "settings_system_auto.json"@
}

/// The row-and-column part of a slot's filenames: `<row>_<column>` with
/// `row = index div 6` and `column = index mod 6`.
pub open spec fn spec_location(index: int) -> Seq<char> {
    spec_dec_nat(index / 6) + seq!['_'] + spec_dec_nat(index % 6)
}

/// The image filename of a slot: `<image-prefix><row>_<column>.lsi`.
pub open spec fn spec_image_filename(index: int, kind: PresetType) -> Seq<char> {
    spec_image_prefix(kind) + spec_location(index) + ".lsi"@
}

/// The payload filename of a slot: `<preset-prefix><row>_<column>.json`.
pub open spec fn spec_preset_filename(index: int, kind: PresetType) -> Seq<char> {
    spec_preset_prefix(kind) + spec_location(index) + ".json"@
}

/// The row-and-column part of a slot's filenames.
pub fn preset_filename_location(index: i32) -> (r: String)
    requires
        0 <= index,
    ensures
        r@ == spec_location(index as int),
{
    let idx = index as u32;
    let mut out = String::new();
    append_decimal(&mut out, idx / SYNTH_IMAGE_COLUMNS);
    proof {
        reveal_strlit("_");
    }
    out.append("_");
    append_decimal(&mut out, idx % SYNTH_IMAGE_COLUMNS);
    proof {
        assert("_"@ =~= seq!['_']);
        assert(out@ =~= spec_location(index as int));
    }
    out
}

/// The image filename a slot's current position dictates.
pub fn preset_image_filename(index: i32, preset_type: PresetType) -> (r: String)
    requires
        0 <= index,
    ensures
        r@ == spec_image_filename(index as int, preset_type),
{
    let prefix = match preset_type {
        PresetType::Timbre => "image_timbre",
        PresetType::System => "image_system",
    };
    let mut out = String::from_str(prefix);
    let loc = preset_filename_location(index);
    out.append(loc.as_str());
    out.append(".lsi");
    proof {
        assert(out@ =~= spec_image_filename(index as int, preset_type));
    }
    out
}

/// The payload filename a slot's current position dictates.
pub fn preset_filename(index: i32, preset_type: PresetType) -> (r: String)
    requires
        0 <= index,
    ensures
        r@ == spec_preset_filename(index as int, preset_type),
{
    let prefix = match preset_type {
        PresetType::Timbre => "settings_timbre",
        PresetType::System => "settings_system",
    };
    let mut out = String::from_str(prefix);
    let loc = preset_filename_location(index);
    out.append(loc.as_str());
    out.append(".json");
    proof {
        assert(out@ =~= spec_preset_filename(index as int, preset_type));
    }
    out
}

/// The manifest filename of the given kind.
pub fn preset_list_filename(preset_type: PresetType) -> (r: &'static str)
    ensures
        r@ == spec_manifest_filename(preset_type),
{
    match preset_type {
        PresetType::Timbre => "preset_list.json",
        PresetType::System => "system_preset_list.json",
    }
}

/// Whether a save's cleanup deletes the directory entry `name`: everything
/// that matches the kind's prefixes or manifest name goes, except the
/// reserved autosave file, which survives even when its name matches.
pub open spec fn spec_should_remove(name: Seq<char>, kind: PresetType) -> bool {
    &&& {
        ||| spec_image_prefix(kind).is_prefix_of(name)
        ||| spec_preset_prefix(kind).is_prefix_of(name)
        ||| name == spec_manifest_filename(kind)
    }
    &&& name != spec_autosave_filename()
}

/// Whether `p` is a prefix of `s`.
fn str_starts_with(s: &str, p: &str) -> (b: bool)
    ensures
        b == p@.is_prefix_of(s@),
{
    let r = expect_lit(s, 0, p);
    proof {
        if 0 + p@.len() <= s@.len() {
            assert(s@.subrange(0, p@.len() as int) == p@ <==> p@.is_prefix_of(s@));
        }
    }
    r
}

/// Decide the cleanup step's fate for one directory entry.
pub fn should_remove_file(file_name: &str, preset_type: PresetType) -> (r: bool)
    ensures
        r == spec_should_remove(file_name@, preset_type),
{
    let image_prefix = match preset_type {
        PresetType::Timbre => "image_timbre",
        PresetType::System => "image_system",
    };
    let preset_prefix = match preset_type {
        PresetType::Timbre => "settings_timbre",
        PresetType::System => "settings_system",
    };
    let manifest = preset_list_filename(preset_type);
    let matches_pattern = str_starts_with(file_name, image_prefix)
        || str_starts_with(file_name, preset_prefix) || str_eq(file_name, manifest);
    matches_pattern && !str_eq(file_name, "settings_system_auto.json")
}

/// The autosave file is never deleted, whatever the kind.
pub proof fn lemma_autosave_survives(kind: PresetType)
    ensures
        !spec_should_remove(spec_autosave_filename(), kind),
{
}

/// The characters of a path's final component, after trailing separators
/// are dropped.
pub open spec fn spec_trim_slashes(s: Seq<char>) -> Seq<char>
    decreases s.len(),
{
    if s.len() > 0 && s.last() == '/' {
        spec_trim_slashes(s.drop_last())
    } else {
        s
    }
}

/// The characters after the last separator.
pub open spec fn spec_after_last_slash(s: Seq<char>) -> Seq<char>
    decreases s.len(),
{
    if s.len() == 0 {
        s
    } else if s.last() == '/' {
        Seq::empty()
    } else {
        spec_after_last_slash(s.drop_last()) + seq![s.last()]
    }
}

/// A collection's display name: the final component of its root path, or a
/// fallback when the path has none — it is empty, or it is the parent
/// reference `..`, which names no component of its own.
pub open spec fn spec_display_name(path: Seq<char>) -> Seq<char> {
    let t = spec_after_last_slash(spec_trim_slashes(path));
    if t.len() == 0 || t == seq!['.', '.'] {
        "Untitled"@
    } else {
        t
    }
}

/// What remains after the last separator, read off a scan position.
proof fn lemma_after_last_slash_at(s: Seq<char>, start: int)
    requires
        0 <= start <= s.len(),
        forall|i: int| start <= i < s.len() ==> s[i] != '/',
        start == 0 || s[start - 1] == '/',
    ensures
        spec_after_last_slash(s) == s.subrange(start, s.len() as int),
    decreases s.len(),
{
    if start == s.len() {
        if s.len() == 0 {
            assert(s.subrange(0, 0) =~= s);
        } else {
            assert(s.last() == '/');
            assert(s.subrange(start, s.len() as int) =~= Seq::<char>::empty());
        }
    } else {
        assert(s.last() != '/');
        let d = s.drop_last();
        assert(forall|i: int| start <= i < d.len() ==> #[trigger] d[i] == s[i]);
        if start > 0 {
            assert(d[start - 1] == s[start - 1]);
        }
        lemma_after_last_slash_at(d, start);
        assert(d.subrange(start, d.len() as int) + seq![s.last()] =~= s.subrange(
            start,
            s.len() as int,
        ));
    }
}

/// Derive the display name of a collection rooted at `path`.
pub fn derive_display_name(path: &str) -> (r: String)
    ensures
        r@ == spec_display_name(path@),
{
    let n = path.unicode_len();
    let mut end: usize = n;
    proof {
        assert(path@.take(n as int) =~= path@);
    }
    while end > 0 && path.get_char(end - 1) == '/'
        invariant
            0 <= end <= n,
            n == path@.len(),
            spec_trim_slashes(path@) == spec_trim_slashes(path@.take(end as int)),
        decreases end,
    {
        proof {
            assert(path@.take(end as int).last() == path@[end - 1]);
            assert(path@.take(end as int).drop_last() =~= path@.take(end - 1));
        }
        end = end - 1;
    }
    let ghost t = path@.take(end as int);
    proof {
        assert(path@.take(n as int) =~= path@);
        if end > 0 {
            assert(t.last() == path@[end - 1]);
        }
        assert(spec_trim_slashes(t) == t);
    }
    let mut start: usize = end;
    while start > 0 && path.get_char(start - 1) != '/'
        invariant
            0 <= start <= end <= n,
            n == path@.len(),
            forall|i: int| start <= i < end ==> path@[i] != '/',
        decreases start,
    {
        start = start - 1;
    }
    proof {
        assert(forall|i: int| start <= i < end ==> #[trigger] t[i] == path@[i]);
        if start > 0 {
            assert(t[start - 1] == path@[start - 1]);
        }
        lemma_after_last_slash_at(t, start as int);
    }
    let dotdot = end - start == 2 && path.get_char(start) == '.' && path.get_char(start + 1)
        == '.';
    if start == end || dotdot {
        proof {
            reveal_strlit("Untitled");
            if start == end {
                assert(t.subrange(start as int, end as int).len() == 0);
            } else {
                assert(t.subrange(start as int, end as int) =~= seq!['.', '.']) by {
                    assert(t[start as int] == path@[start as int]);
                    assert(t[start + 1] == path@[start + 1]);
                }
            }
        }
        String::from_str("Untitled")
    } else {
        let piece = path.substring_char(start, end);
        proof {
            assert(t.subrange(start as int, end as int) =~= path@.subrange(
                start as int,
                end as int,
            ));
            assert(t.subrange(start as int, end as int) != seq!['.', '.']) by {
                if end - start == 2 {
                    assert(path@.subrange(start as int, end as int)[0] == path@[start as int]);
                    assert(path@.subrange(start as int, end as int)[1] == path@[start + 1]);
                }
            }
        }
        piece.to_owned()
    }
}

// ---------------------------------------------------------------------
// Collections and directory snapshots
// ---------------------------------------------------------------------

/// One side's fully loaded state.  `path`, `preset_type` and `name` are
/// fixed at load time; only the slots change afterwards.
#[derive(Debug, Clone)]
pub struct PresetData {
    pub path: String,
    pub preset_type: PresetType,
    pub presets: SlotMap,
    pub name: String,
}

/// The mathematical value of a loaded collection.
pub ghost struct PresetDataV {
    pub path: Seq<char>,
    pub preset_type: PresetType,
    pub presets: Map<int, LoadedPresetEntryV>,
    pub name: Seq<char>,
}

/// The values of a slot mapping's entries.
pub open spec fn entry_views(m: Map<int, LoadedPresetEntry>) -> Map<int, LoadedPresetEntryV> {
    Map::new(|k: int| m.contains_key(k), |k: int| m[k]@)
}

impl View for PresetData {
    type V = PresetDataV;

    open spec fn view(&self) -> PresetDataV {
        PresetDataV {
            path: self.path@,
            preset_type: self.preset_type,
            presets: entry_views(self.presets@),
            name: self.name@,
        }
    }
}

/// What every slot of a savable collection satisfies: a non-negative index
/// and an image whose polylines fit the record format.
pub open spec fn slots_wf(m: Map<int, LoadedPresetEntry>) -> bool {
    forall|k: int| #[trigger] m.contains_key(k) ==> {
        &&& 0 <= k <= MAX_SLOT_INDEX
        &&& crate::lsi_parser::encodable(m[k]@.image)
    }
}

impl PresetData {
    /// Well-formed: unique slots, each savable.
    pub open spec fn wf(self) -> bool {
        &&& self.presets.wf()
        &&& slots_wf(self.presets@)
    }
}

/// A snapshot of a directory's regular files: each name with its bytes.
pub type DirSnapshot = Vec<(String, Vec<u8>)>;

/// The mathematical value of a snapshot.
pub open spec fn snapshot_view(files: Seq<(String, Vec<u8>)>) -> Seq<(Seq<char>, Seq<u8>)> {
    files.map_values(|p: (String, Vec<u8>)| (p.0@, p.1@))
}

/// The bytes of the first file named `name`, if any.
pub open spec fn spec_lookup(files: Seq<(Seq<char>, Seq<u8>)>, name: Seq<char>) -> Option<Seq<u8>>
    decreases files.len(),
{
    if files.len() == 0 {
        None
    } else if files[0].0 == name {
        Some(files[0].1)
    } else {
        spec_lookup(files.skip(1), name)
    }
}

/// Find a file in a snapshot by name.
fn lookup<'a>(files: &'a DirSnapshot, name: &str) -> (r: Option<&'a Vec<u8>>)
    ensures
        match r {
            Some(v) => spec_lookup(snapshot_view(files@), name@) == Some(v@),
            None => spec_lookup(snapshot_view(files@), name@) is None,
        },
{
    let ghost sv = snapshot_view(files@);
    let mut i: usize = 0;
    proof {
        assert(sv.skip(0) =~= sv);
    }
    while i < files.len()
        invariant
            i <= files@.len(),
            sv == snapshot_view(files@),
            sv.len() == files@.len(),
            forall|q: int| 0 <= q < sv.len() ==> #[trigger] sv[q] == (files@[q].0@, files@[q].1@),
            spec_lookup(sv, name@) == spec_lookup(sv.skip(i as int), name@),
        decreases files@.len() - i,
    {
        if str_eq(files[i].0.as_str(), name) {
            proof {
                assert(sv.skip(i as int)[0] == sv[i as int]);
            }
            return Some(&files[i].1);
        }
        proof {
            assert(sv.skip(i as int)[0] == sv[i as int]);
            assert(sv.skip(i as int).skip(1) =~= sv.skip(i + 1));
        }
        i = i + 1;
    }
    proof {
        assert(sv.skip(i as int).len() == 0);
    }
    None
}

/// Relies on `String::from_utf8`: it succeeds exactly on valid UTF-8 and
/// decodes the bytes to their characters.
#[verifier::external_body]
fn bytes_to_string(v: &Vec<u8>) -> (r: Option<String>)
    ensures
        match r {
            Some(s) => vstd::utf8::valid_utf8(v@) && s@ == vstd::utf8::decode_utf8(v@),
            None => !vstd::utf8::valid_utf8(v@),
        },
{
    String::from_utf8(v.clone()).ok()
}

// ---------------------------------------------------------------------
// Loading
// ---------------------------------------------------------------------

/// What loading one manifest record from a snapshot yields: the slot's
/// image decoded from its image file, its payload read as text, and the
/// record's own index and the loading side as provenance.
pub open spec fn spec_load_one(
    files: Seq<(Seq<char>, Seq<u8>)>,
    e: PresetEntryV,
    side: Side,
) -> Result<LoadedPresetEntryV, PresetError> {
    match spec_lookup(files, e.image_filename) {
        None => Err(PresetError::IoError),
        Some(ib) => match crate::lsi_parser::spec_lsi_decode(ib) {
            None => Err(PresetError::MalformedImage),
            Some(img) => match spec_lookup(files, e.preset_filename) {
                None => Err(PresetError::IoError),
                Some(pb) => if !vstd::utf8::valid_utf8(pb) {
                    Err(PresetError::IoError)
                } else {
                    Ok(
                        LoadedPresetEntryV {
                            original_index: e.index,
                            original_side: side,
                            image_filename: e.image_filename,
                            preset_filename: e.preset_filename,
                            image: img,
                            preset_data: vstd::utf8::decode_utf8(pb),
                        },
                    )
                },
            },
        },
    }
}

/// Load every manifest record, fail-fast and in order; a later record for
/// the same slot index displaces an earlier one.
pub open spec fn spec_load_slots(
    files: Seq<(Seq<char>, Seq<u8>)>,
    es: Seq<PresetEntryV>,
    side: Side,
) -> Result<Map<int, LoadedPresetEntryV>, PresetError>
    decreases es.len(),
{
    if es.len() == 0 {
        Ok(Map::empty())
    } else {
        match spec_load_slots(files, es.drop_last(), side) {
            Err(e) => Err(e),
            Ok(m) => match spec_load_one(files, es.last(), side) {
                Err(e) => Err(e),
                Ok(v) => Ok(m.insert(es.last().index, v)),
            },
        }
    }
}

/// What loading a whole collection from a snapshot yields: the manifest is
/// found and decoded, then every record's files, then the display name is
/// derived from the path.
pub open spec fn spec_load(
    files: Seq<(Seq<char>, Seq<u8>)>,
    path: Seq<char>,
    kind: PresetType,
    side: Side,
) -> Result<PresetDataV, PresetError> {
    match spec_lookup(files, spec_manifest_filename(kind)) {
        None => Err(PresetError::IoError),
        Some(mb) => if !vstd::utf8::valid_utf8(mb) {
            Err(PresetError::IoError)
        } else {
            match spec_parse_manifest(vstd::utf8::decode_utf8(mb)) {
                None => Err(PresetError::MalformedManifest),
                Some(es) => match spec_load_slots(files, es, side) {
                    Err(e) => Err(e),
                    Ok(m) => Ok(
                        PresetDataV {
                            path: path,
                            preset_type: kind,
                            presets: m,
                            name: spec_display_name(path),
                        },
                    ),
                },
            }
        },
    }
}

/// A failure among the first records decides the whole load.
proof fn lemma_load_slots_err(
    files: Seq<(Seq<char>, Seq<u8>)>,
    es: Seq<PresetEntryV>,
    j: int,
    side: Side,
)
    requires
        0 <= j <= es.len(),
        spec_load_slots(files, es.take(j), side) is Err,
    ensures
        spec_load_slots(files, es, side) == spec_load_slots(files, es.take(j), side),
    decreases es.len() - j,
{
    if j == es.len() {
        assert(es.take(j) =~= es);
    } else {
        assert(es.take(j + 1).drop_last() =~= es.take(j));
        lemma_load_slots_err(files, es, j + 1, side);
    }
}

/// Load a collection of the given kind from a directory snapshot.
///
/// The result is exactly what `spec_load` says of the snapshot: the
/// assembled collection, or the first failure — a missing or unreadable
/// file is `IoError`, an undecodable image `MalformedImage`, an
/// undecodable manifest `MalformedManifest`.  No partial collection is
/// ever returned.
#[verifier::loop_isolation(false)]
pub fn load_presets(files: &DirSnapshot, path: &str, preset_type: PresetType, side: Side) -> (r:
    Result<PresetData, PresetError>)
    ensures
        match r {
            Ok(pd) => {
                &&& spec_load(snapshot_view(files@), path@, preset_type, side) == Ok::<
                    PresetDataV,
                    PresetError,
                >(pd@)
                &&& pd.wf()
                &&& pd.path@ == path@
                &&& pd.preset_type == preset_type
            },
            Err(e) => spec_load(snapshot_view(files@), path@, preset_type, side) == Err::<
                PresetDataV,
                PresetError,
            >(e),
        },
{
    let ghost sv = snapshot_view(files@);
    let mb = match lookup(files, preset_list_filename(preset_type)) {
        Some(v) => v,
        None => {
            return Err(PresetError::IoError);
        }
    };
    let mtext = match bytes_to_string(mb) {
        Some(s) => s,
        None => {
            return Err(PresetError::IoError);
        }
    };
    let entries = match parse_preset_list(mtext.as_str()) {
        Ok(v) => v,
        Err(_) => {
            return Err(PresetError::MalformedManifest);
        }
    };
    let ghost es = entries_view(entries@);
    let mut slots = SlotMap::new();
    let mut k: usize = 0;
    proof {
        assert(es.take(0) =~= Seq::<PresetEntryV>::empty());
        assert(entry_views(slots@) =~= Map::<int, LoadedPresetEntryV>::empty());
    }
    while k < entries.len()
        invariant
            k <= entries@.len(),
            sv == snapshot_view(files@),
            es == entries_view(entries@),
            es.len() == entries@.len(),
            forall|j: int| 0 <= j < es.len() ==> #[trigger] es[j] == entries@[j]@,
            spec_load_slots(sv, es.take(k as int), side) == Ok::<
                Map<int, LoadedPresetEntryV>,
                PresetError,
            >(entry_views(slots@)),
            slots.wf(),
            slots_wf(slots@),
        decreases entries@.len() - k,
    {
        let e = &entries[k];
        let ghost ev = es[k as int];
        let ib = match lookup(files, e.image_filename.as_str()) {
            Some(v) => v,
            None => {
                proof {
                    assert(es.take(k + 1).drop_last() =~= es.take(k as int));
                    assert(es.take(k + 1).last() == ev);
                    lemma_load_slots_err(sv, es, k + 1, side);
                }
                return Err(PresetError::IoError);
            }
        };
        let img = match crate::lsi_parser::parse_lsi_image(ib.as_slice()) {
            Ok(v) => v,
            Err(_) => {
                proof {
                    assert(es.take(k + 1).drop_last() =~= es.take(k as int));
                    assert(es.take(k + 1).last() == ev);
                    lemma_load_slots_err(sv, es, k + 1, side);
                }
                return Err(PresetError::MalformedImage);
            }
        };
        let pb = match lookup(files, e.preset_filename.as_str()) {
            Some(v) => v,
            None => {
                proof {
                    assert(es.take(k + 1).drop_last() =~= es.take(k as int));
                    assert(es.take(k + 1).last() == ev);
                    lemma_load_slots_err(sv, es, k + 1, side);
                }
                return Err(PresetError::IoError);
            }
        };
        let ptext = match bytes_to_string(pb) {
            Some(s) => s,
            None => {
                proof {
                    assert(es.take(k + 1).drop_last() =~= es.take(k as int));
                    assert(es.take(k + 1).last() == ev);
                    lemma_load_slots_err(sv, es, k + 1, side);
                }
                return Err(PresetError::IoError);
            }
        };
        let ghost slots0 = slots@;
        let loaded = LoadedPresetEntry::new(
            e.index,
            side,
            e.image_filename.clone(),
            e.preset_filename.clone(),
            img,
            ptext,
        );
        slots.insert(e.index, loaded);
        proof {
            crate::manifest::lemma_parse_manifest_indices(mtext@);
            assert(0 <= ev.index <= MAX_SLOT_INDEX);
            crate::lsi_parser::lemma_lsi_decode_sound(ib@);
            assert(es.take(k + 1).drop_last() =~= es.take(k as int));
            assert(es.take(k + 1).last() == ev);
            assert(entry_views(slots@) =~= entry_views(slots0).insert(ev.index, loaded@));
        }
        k = k + 1;
    }
    proof {
        assert(es.take(es.len() as int) =~= es);
    }
    let name = derive_display_name(path);
    let pd = PresetData { path: path.to_owned(), preset_type, presets: slots, name };
    Ok(pd)
}

// ---------------------------------------------------------------------
// Saving
// ---------------------------------------------------------------------

/// The plan a save produces: every file to write into the collection's
/// root directory, in order.  The caller deletes the stale files first —
/// every directory entry `should_remove_file` approves — then performs the
/// writes.
pub struct SavePlan {
    pub root: String,
    pub writes: Vec<(String, Vec<u8>)>,
}

/// The per-slot files a save writes, in slot-list order: each slot's image
/// encoding and payload bytes under filenames recomputed from the slot's
/// current index.
pub open spec fn spec_slot_writes(s: Seq<(i32, LoadedPresetEntry)>, kind: PresetType) -> Seq<
    (Seq<char>, Seq<u8>),
>
    decreases s.len(),
{
    if s.len() == 0 {
        Seq::empty()
    } else {
        seq![
            (
                spec_image_filename(s[0].0 as int, kind),
                crate::lsi_parser::spec_lsi_encode(s[0].1@.image),
            ),
            (
                spec_preset_filename(s[0].0 as int, kind),
                vstd::utf8::encode_utf8(s[0].1.preset_data@),
            ),
        ] + spec_slot_writes(s.skip(1), kind)
    }
}

/// Appending one slot appends its two writes.
proof fn lemma_slot_writes_snoc(s: Seq<(i32, LoadedPresetEntry)>, x: (i32, LoadedPresetEntry), kind: PresetType)
    ensures
        spec_slot_writes(s.push(x), kind) == spec_slot_writes(s, kind) + seq![
            (spec_image_filename(x.0 as int, kind), crate::lsi_parser::spec_lsi_encode(x.1@.image)),
            (spec_preset_filename(x.0 as int, kind), vstd::utf8::encode_utf8(x.1.preset_data@)),
        ],
    decreases s.len(),
{
    let pair = seq![
        (spec_image_filename(x.0 as int, kind), crate::lsi_parser::spec_lsi_encode(x.1@.image)),
        (spec_preset_filename(x.0 as int, kind), vstd::utf8::encode_utf8(x.1.preset_data@)),
    ];
    if s.len() == 0 {
        assert(s.push(x)[0] == x);
        assert(s.push(x).skip(1) =~= Seq::<(i32, LoadedPresetEntry)>::empty());
        assert(spec_slot_writes(Seq::<(i32, LoadedPresetEntry)>::empty(), kind) == Seq::<
            (Seq<char>, Seq<u8>),
        >::empty());
        assert(spec_slot_writes(s.push(x), kind) == pair + Seq::<(Seq<char>, Seq<u8>)>::empty());
        assert(pair + Seq::<(Seq<char>, Seq<u8>)>::empty() =~= Seq::<(Seq<char>, Seq<u8>)>::empty()
            + pair);
    } else {
        assert(s.push(x)[0] == s[0]);
        assert(s.push(x).skip(1) =~= s.skip(1).push(x));
        lemma_slot_writes_snoc(s.skip(1), x, kind);
        let head = seq![
            (
                spec_image_filename(s[0].0 as int, kind),
                crate::lsi_parser::spec_lsi_encode(s[0].1@.image),
            ),
            (
                spec_preset_filename(s[0].0 as int, kind),
                vstd::utf8::encode_utf8(s[0].1.preset_data@),
            ),
        ];
        assert(spec_slot_writes(s.push(x), kind) == head + (spec_slot_writes(s.skip(1), kind)
            + pair));
        assert(head + (spec_slot_writes(s.skip(1), kind) + pair) =~= (head + spec_slot_writes(
            s.skip(1),
            kind,
        )) + pair);
    }
}

/// The manifest records a save writes: each slot's current index with its
/// recomputed filenames; the filenames stored on the entries are ignored.
pub open spec fn spec_recomputed_entries(s: Seq<(i32, LoadedPresetEntry)>, kind: PresetType) -> Seq<
    PresetEntryV,
> {
    s.map_values(
        |p: (i32, LoadedPresetEntry)|
            PresetEntryV {
                index: p.0 as int,
                image_filename: spec_image_filename(p.0 as int, kind),
                preset_filename: spec_preset_filename(p.0 as int, kind),
            },
    )
}

/// Everything a save writes: the slot files, then the manifest.
pub open spec fn spec_save_writes(s: Seq<(i32, LoadedPresetEntry)>, kind: PresetType) -> Seq<
    (Seq<char>, Seq<u8>),
> {
    spec_slot_writes(s, kind) + seq![
        (
            spec_manifest_filename(kind),
            vstd::utf8::encode_utf8(spec_manifest_text(spec_recomputed_entries(s, kind))),
        ),
    ]
}

/// Strings free of control characters stay so under concatenation.
proof fn lemma_wf_concat(a: Seq<char>, b: Seq<char>)
    requires
        spec_wf_manifest_string(a),
        spec_wf_manifest_string(b),
    ensures
        spec_wf_manifest_string(a + b),
{
    assert forall|i: int| 0 <= i < (a + b).len() implies ((a + b)[i] as u32) >= 0x20 by {
        if i < a.len() {
            assert((a + b)[i] == a[i]);
        } else {
            assert((a + b)[i] == b[i - a.len()]);
        }
    }
}

/// The fixed filename fragments carry no control characters.
proof fn lemma_fragments_wf(kind: PresetType)
    ensures
        spec_wf_manifest_string(spec_image_prefix(kind)),
        spec_wf_manifest_string(spec_preset_prefix(kind)),
        spec_wf_manifest_string(".lsi"@),
        spec_wf_manifest_string(".json"@),
{
    reveal_strlit("image_timbre");
    reveal_strlit("image_system");
    reveal_strlit("settings_timbre");
    reveal_strlit("settings_system");
    reveal_strlit(".lsi");
    reveal_strlit(".json");
}

/// A canonical numeral carries no control characters.
proof fn lemma_dec_wf(n: int)
    requires
        0 <= n,
    ensures
        spec_wf_manifest_string(spec_dec_nat(n)),
{
    crate::manifest::lemma_dec_nat_digits(n);
    assert forall|i: int| 0 <= i < spec_dec_nat(n).len() implies (
    (spec_dec_nat(n)[i]) as u32) >= 0x20 by {
        assert(crate::manifest::spec_is_digit(spec_dec_nat(n)[i]));
    }
}

/// A slot's recomputed filenames make a well-formed manifest record.
proof fn lemma_recomputed_entry_wf(index: int, kind: PresetType)
    requires
        0 <= index <= MAX_SLOT_INDEX,
    ensures
        spec_wf_entry(
            PresetEntryV {
                index,
                image_filename: spec_image_filename(index, kind),
                preset_filename: spec_preset_filename(index, kind),
            },
        ),
        spec_wf_manifest_string(spec_image_filename(index, kind)),
        spec_wf_manifest_string(spec_preset_filename(index, kind)),
{
    lemma_fragments_wf(kind);
    lemma_dec_wf(index / 6);
    lemma_dec_wf(index % 6);
    assert(spec_wf_manifest_string(seq!['_'])) by {
        assert('_' as u32 == 95);
    }
    lemma_wf_concat(spec_dec_nat(index / 6), seq!['_']);
    lemma_wf_concat(spec_dec_nat(index / 6) + seq!['_'], spec_dec_nat(index % 6));
    lemma_wf_concat(spec_image_prefix(kind), spec_location(index));
    lemma_wf_concat(spec_image_prefix(kind) + spec_location(index), ".lsi"@);
    lemma_wf_concat(spec_preset_prefix(kind), spec_location(index));
    lemma_wf_concat(spec_preset_prefix(kind) + spec_location(index), ".json"@);
}

/// Plan a full resync of a collection's directory: recompute every slot's
/// filenames from its current index, emit every slot's image and payload,
/// and the manifest listing exactly the current slots.
#[verifier::loop_isolation(false)]
pub fn save_presets(path: &str, presets: &SlotMap, preset_type: PresetType) -> (r: SavePlan)
    requires
        presets.wf(),
        slots_wf(presets@),
    ensures
        r.root@ == path@,
        snapshot_view(r.writes@) == spec_save_writes(presets.seq(), preset_type),
{
    let ghost sq = presets.seq();
    let mut writes: Vec<(String, Vec<u8>)> = Vec::new();
    let mut man_entries: Vec<PresetEntry> = Vec::new();
    let n = presets.len();
    let mut p: usize = 0;
    proof {
        presets.lemma_seq_view();
        assert(sq.take(0) =~= Seq::<(i32, LoadedPresetEntry)>::empty());
        assert(snapshot_view(writes@) =~= Seq::<(Seq<char>, Seq<u8>)>::empty());
        assert(entries_view(man_entries@) =~= Seq::<PresetEntryV>::empty());
        assert(spec_recomputed_entries(sq.take(0), preset_type) =~= Seq::<PresetEntryV>::empty());
    }
    while p < n
        invariant
            p <= n,
            snapshot_view(writes@) == spec_slot_writes(sq.take(p as int), preset_type),
            entries_view(man_entries@) == spec_recomputed_entries(sq.take(p as int), preset_type),
            spec_wf_entries(entries_view(man_entries@)),
        decreases n - p,
    {
        let idx = presets.key_at(p);
        let entry = presets.entry_at(p);
        proof {
            assert(presets@.contains_key(sq[p as int].0 as int));
            assert(presets@[sq[p as int].0 as int] == sq[p as int].1);
            assert(0 <= idx);
            assert(crate::lsi_parser::encodable(image_view(entry.image)));
        }
        let imgf = preset_image_filename(idx, preset_type);
        let pref = preset_filename(idx, preset_type);
        let imgb = crate::lsi_parser::encode_lsi_image(&entry.image);
        let preb = entry.preset_data.as_str().as_bytes_vec();
        let ghost writes0 = writes@;
        let ghost mans0 = man_entries@;
        writes.push((imgf.clone(), imgb));
        writes.push((pref.clone(), preb));
        man_entries.push(PresetEntry { index: idx, image_filename: imgf, preset_filename: pref });
        proof {
            lemma_recomputed_entry_wf(idx as int, preset_type);
            assert(sq.take(p + 1) =~= sq.take(p as int).push(sq[p as int]));
            lemma_slot_writes_snoc(sq.take(p as int), sq[p as int], preset_type);
            assert(snapshot_view(writes@) =~= spec_slot_writes(sq.take(p + 1), preset_type));
            let ghost re = spec_recomputed_entries(sq.take(p + 1), preset_type);
            assert forall|j: int| 0 <= j < p + 1 implies entries_view(man_entries@)[j] == re[j] by {
                assert(re[j] == spec_recomputed_entries(sq.take(p + 1), preset_type)[j]);
                assert(sq.take(p + 1)[j] == sq[j]);
                if j < p {
                    assert(man_entries@[j] == mans0[j]);
                    assert(entries_view(mans0)[j] == mans0[j]@);
                    assert(sq.take(p as int)[j] == sq[j]);
                    assert(entries_view(mans0)[j] == spec_recomputed_entries(
                        sq.take(p as int),
                        preset_type,
                    )[j]);
                } else {
                    assert(man_entries@[j] == man_entries@.last());
                }
            }
            assert(entries_view(man_entries@) =~= spec_recomputed_entries(
                sq.take(p + 1),
                preset_type,
            ));
            assert forall|j: int| 0 <= j < entries_view(man_entries@).len() implies spec_wf_entry(
                #[trigger] entries_view(man_entries@)[j],
            ) by {
                if j < mans0.len() {
                    assert(entries_view(man_entries@)[j] == entries_view(mans0)[j]);
                }
            }
        }
        p = p + 1;
    }
    proof {
        assert(sq.take(n as int) =~= sq);
    }
    let mtext = encode_preset_list(&man_entries);
    let manifest_bytes = mtext.as_str().as_bytes_vec();
    writes.push((String::from_str(preset_list_filename(preset_type)), manifest_bytes));
    proof {
        assert(snapshot_view(writes@) =~= spec_save_writes(sq, preset_type));
    }
    SavePlan { root: path.to_owned(), writes }
}

// ---------------------------------------------------------------------
// Save-then-load round trip
// ---------------------------------------------------------------------

/// Canonical numerals of distinct numbers differ.
proof fn lemma_dec_inj(a: int, b: int)
    requires
        0 <= a,
        0 <= b,
        spec_dec_nat(a) == spec_dec_nat(b),
    ensures
        a == b,
{
    crate::manifest::lemma_digits_val_dec(a);
    crate::manifest::lemma_digits_val_dec(b);
}

/// Locations of distinct slot indices differ.
proof fn lemma_loc_inj(a: int, b: int)
    requires
        0 <= a,
        0 <= b,
        spec_location(a) == spec_location(b),
    ensures
        a == b,
{
    let da = spec_dec_nat(a / 6);
    let ca = spec_dec_nat(a % 6);
    let db = spec_dec_nat(b / 6);
    let cb = spec_dec_nat(b % 6);
    crate::manifest::lemma_dec_nat_digits(a / 6);
    crate::manifest::lemma_dec_nat_digits(a % 6);
    crate::manifest::lemma_dec_nat_digits(b / 6);
    crate::manifest::lemma_dec_nat_digits(b % 6);
    let la = spec_location(a);
    let lb = spec_location(b);
    assert(!crate::manifest::spec_is_digit('_')) by {
        assert('_' as u32 == 95);
    }
    assert(la[da.len() as int] == '_');
    assert(lb[db.len() as int] == '_');
    assert(da.len() == db.len()) by {
        if da.len() < db.len() {
            assert(lb[da.len() as int] == db[da.len() as int]);
            assert(crate::manifest::spec_is_digit(lb[da.len() as int]));
        }
        if db.len() < da.len() {
            assert(la[db.len() as int] == da[db.len() as int]);
            assert(crate::manifest::spec_is_digit(la[db.len() as int]));
        }
    }
    assert(da =~= db) by {
        assert(forall|i: int| 0 <= i < da.len() ==> #[trigger] da[i] == la[i] && db[i] == lb[i]);
    }
    assert(ca =~= cb) by {
        assert(la.len() == lb.len());
        assert(ca.len() == cb.len());
        assert(forall|i: int|
            0 <= i < ca.len() ==> #[trigger] ca[i] == la[da.len() + 1 + i] && cb[i] == lb[db.len()
                + 1 + i]);
    }
    lemma_dec_inj(a / 6, b / 6);
    lemma_dec_inj(a % 6, b % 6);
}

/// A filename of the shape `prefix + location + extension` determines the
/// location when prefix and extension lengths are fixed.
proof fn lemma_fixed_shape_inj(
    prefix: Seq<char>,
    ext: Seq<char>,
    a: int,
    b: int,
)
    requires
        0 <= a,
        0 <= b,
        prefix + spec_location(a) + ext == prefix + spec_location(b) + ext,
    ensures
        a == b,
{
    let la = spec_location(a);
    let lb = spec_location(b);
    let na = prefix + la + ext;
    let nb = prefix + lb + ext;
    assert(na.len() == prefix.len() + la.len() + ext.len());
    assert(la.len() == lb.len());
    assert(la =~= lb) by {
        assert(forall|i: int|
            0 <= i < la.len() ==> #[trigger] la[i] == na[prefix.len() + i] && lb[i] == nb[
                prefix.len() + i]);
    }
    lemma_loc_inj(a, b);
}

/// Image filenames of distinct slots differ; likewise payload filenames.
proof fn lemma_filename_inj(a: int, b: int, kind: PresetType)
    requires
        0 <= a,
        0 <= b,
        a != b,
    ensures
        spec_image_filename(a, kind) != spec_image_filename(b, kind),
        spec_preset_filename(a, kind) != spec_preset_filename(b, kind),
{
    if spec_image_filename(a, kind) == spec_image_filename(b, kind) {
        lemma_fixed_shape_inj(spec_image_prefix(kind), ".lsi"@, a, b);
    }
    if spec_preset_filename(a, kind) == spec_preset_filename(b, kind) {
        lemma_fixed_shape_inj(spec_preset_prefix(kind), ".json"@, a, b);
    }
}

/// The three name families never collide: an image filename is no payload
/// filename and neither is the manifest's name.
proof fn lemma_name_families(a: int, b: int, kind: PresetType)
    requires
        0 <= a,
        0 <= b,
    ensures
        spec_image_filename(a, kind) != spec_preset_filename(b, kind),
        spec_image_filename(a, kind) != spec_manifest_filename(kind),
        spec_preset_filename(a, kind) != spec_manifest_filename(kind),
{
    reveal_strlit("image_timbre");
    reveal_strlit("image_system");
    reveal_strlit("settings_timbre");
    reveal_strlit("settings_system");
    reveal_strlit("preset_list.json");
    reveal_strlit("system_preset_list.json");
    let ia = spec_image_filename(a, kind);
    let pb = spec_preset_filename(b, kind);
    let mf = spec_manifest_filename(kind);
    assert(ia[0] == 'i');
    assert(pb[0] == 's');
    assert(ia[1] == 'm');
    assert(pb[1] == 'e');
    if kind == PresetType::Timbre {
        assert(mf[0] == 'p');
    } else {
        assert(mf[0] == 's');
        assert(mf[1] == 'y');
    }
}

/// A name that no listed file carries is looked up past the list.
proof fn lemma_lookup_concat(
    a: Seq<(Seq<char>, Seq<u8>)>,
    b: Seq<(Seq<char>, Seq<u8>)>,
    name: Seq<char>,
)
    requires
        forall|j: int| 0 <= j < a.len() ==> (#[trigger] a[j]).0 != name,
    ensures
        spec_lookup(a + b, name) == spec_lookup(b, name),
    decreases a.len(),
{
    if a.len() == 0 {
        assert(a + b =~= b);
    } else {
        assert((a + b)[0] == a[0]);
        assert((a + b).skip(1) =~= a.skip(1) + b);
        assert(forall|j: int| 0 <= j < a.len() - 1 ==> (#[trigger] a.skip(1)[j]) == a[j + 1]);
        lemma_lookup_concat(a.skip(1), b, name);
    }
}

/// No slot write carries the manifest's name.
proof fn lemma_slot_writes_no_manifest(s: Seq<(i32, LoadedPresetEntry)>, kind: PresetType)
    requires
        forall|p: int| 0 <= p < s.len() ==> 0 <= (#[trigger] s[p]).0,
    ensures
        forall|j: int| 0 <= j < spec_slot_writes(s, kind).len() ==> (#[trigger] spec_slot_writes(
            s,
            kind,
        )[j]).0 != spec_manifest_filename(kind),
    decreases s.len(),
{
    if s.len() > 0 {
        lemma_name_families(s[0].0 as int, s[0].0 as int, kind);
        assert(forall|p: int| 0 <= p < s.len() - 1 ==> (#[trigger] s.skip(1)[p]) == s[p + 1]);
        lemma_slot_writes_no_manifest(s.skip(1), kind);
        let w = spec_slot_writes(s, kind);
        let wt = spec_slot_writes(s.skip(1), kind);
        assert forall|j: int| 0 <= j < w.len() implies (#[trigger] w[j]).0
            != spec_manifest_filename(kind) by {
            if j >= 2 {
                assert(w[j] == wt[j - 2]);
            }
        }
    }
}

/// Looking a slot's recomputed filename up among the save's writes finds
/// exactly that slot's artifact.
proof fn lemma_lookup_slot(
    s: Seq<(i32, LoadedPresetEntry)>,
    kind: PresetType,
    p: int,
    rest: Seq<(Seq<char>, Seq<u8>)>,
)
    requires
        crate::slot_map::assoc_unique(s),
        forall|q: int| 0 <= q < s.len() ==> 0 <= (#[trigger] s[q]).0,
        0 <= p < s.len(),
    ensures
        spec_lookup(spec_slot_writes(s, kind) + rest, spec_image_filename(s[p].0 as int, kind))
            == Some(crate::lsi_parser::spec_lsi_encode(s[p].1@.image)),
        spec_lookup(spec_slot_writes(s, kind) + rest, spec_preset_filename(s[p].0 as int, kind))
            == Some(vstd::utf8::encode_utf8(s[p].1.preset_data@)),
    decreases p,
{
    let w = spec_slot_writes(s, kind);
    let wt = spec_slot_writes(s.skip(1), kind);
    let imgn = spec_image_filename(s[p].0 as int, kind);
    let pren = spec_preset_filename(s[p].0 as int, kind);
    let t1 = (w + rest).skip(1);
    assert((w + rest)[0] == w[0]);
    assert(t1[0] == w[1]);
    assert(w[0] == (
        spec_image_filename(s[0].0 as int, kind),
        crate::lsi_parser::spec_lsi_encode(s[0].1@.image),
    ));
    assert(w[1] == (
        spec_preset_filename(s[0].0 as int, kind),
        vstd::utf8::encode_utf8(s[0].1.preset_data@),
    ));
    lemma_name_families(s[0].0 as int, s[p].0 as int, kind);
    lemma_name_families(s[p].0 as int, s[0].0 as int, kind);
    if p == 0 {
        assert(spec_lookup(w + rest, imgn) == Some(
            crate::lsi_parser::spec_lsi_encode(s[0].1@.image),
        ));
        assert(spec_lookup(w + rest, pren) == spec_lookup(t1, pren));
        assert(spec_lookup(t1, pren) == Some(vstd::utf8::encode_utf8(s[0].1.preset_data@)));
    } else {
        lemma_filename_inj(s[0].0 as int, s[p].0 as int, kind);
        assert(spec_lookup(w + rest, imgn) == spec_lookup(t1, imgn));
        assert(spec_lookup(w + rest, pren) == spec_lookup(t1, pren));
        assert(t1.skip(1) =~= wt + rest);
        assert(spec_lookup(t1, imgn) == spec_lookup(wt + rest, imgn));
        assert(spec_lookup(t1, pren) == spec_lookup(wt + rest, pren));
        assert(forall|q: int| 0 <= q < s.len() - 1 ==> (#[trigger] s.skip(1)[q]) == s[q + 1]);
        assert(crate::slot_map::assoc_unique(s.skip(1)));
        lemma_lookup_slot(s.skip(1), kind, p - 1, rest);
        assert(s.skip(1)[p - 1] == s[p]);
    }
}

/// The value of one loaded-back slot.
pub open spec fn spec_saved_entry(
    x: (i32, LoadedPresetEntry),
    kind: PresetType,
    side: Side,
) -> LoadedPresetEntryV {
    LoadedPresetEntryV {
        original_index: x.0 as int,
        original_side: side,
        image_filename: spec_image_filename(x.0 as int, kind),
        preset_filename: spec_preset_filename(x.0 as int, kind),
        image: x.1@.image,
        preset_data: x.1.preset_data@,
    }
}

/// The slots a saved collection loads back to.
pub open spec fn spec_saved_map(
    s: Seq<(i32, LoadedPresetEntry)>,
    kind: PresetType,
    side: Side,
) -> Map<int, LoadedPresetEntryV>
    decreases s.len(),
{
    if s.len() == 0 {
        Map::empty()
    } else {
        spec_saved_map(s.drop_last(), kind, side).insert(
            s.last().0 as int,
            spec_saved_entry(s.last(), kind, side),
        )
    }
}

/// Loading the first `k` recomputed manifest records back from the save's
/// writes succeeds and yields exactly the first `k` slots.
proof fn lemma_load_saved_slots(
    s: Seq<(i32, LoadedPresetEntry)>,
    kind: PresetType,
    side: Side,
    k: int,
)
    requires
        crate::slot_map::assoc_unique(s),
        forall|q: int| 0 <= q < s.len() ==> 0 <= (#[trigger] s[q]).0
            && crate::lsi_parser::encodable(s[q].1@.image),
        0 <= k <= s.len(),
    ensures
        spec_load_slots(
            spec_save_writes(s, kind),
            spec_recomputed_entries(s, kind).take(k),
            side,
        ) == Ok::<Map<int, LoadedPresetEntryV>, PresetError>(
            spec_saved_map(s.take(k), kind, side),
        ),
    decreases k,
{
    let files = spec_save_writes(s, kind);
    let re = spec_recomputed_entries(s, kind);
    if k == 0 {
        assert(re.take(0) =~= Seq::<PresetEntryV>::empty());
        assert(s.take(0) =~= Seq::<(i32, LoadedPresetEntry)>::empty());
    } else {
        lemma_load_saved_slots(s, kind, side, k - 1);
        assert(re.take(k).drop_last() =~= re.take(k - 1));
        assert(re.take(k).last() == re[k - 1]);
        let e = re[k - 1];
        assert(e.image_filename == spec_image_filename(s[k - 1].0 as int, kind));
        assert(e.preset_filename == spec_preset_filename(s[k - 1].0 as int, kind));
        assert(e.index == s[k - 1].0 as int);
        lemma_lookup_slot(s, kind, k - 1, spec_save_writes_tail(s, kind));
        assert(spec_slot_writes(s, kind) + spec_save_writes_tail(s, kind) == files);
        crate::lsi_parser::lemma_lsi_roundtrip(s[k - 1].1@.image);
        vstd::utf8::encode_utf8_valid_utf8(s[k - 1].1.preset_data@);
        vstd::utf8::encode_utf8_decode_utf8(s[k - 1].1.preset_data@);
        assert(spec_load_one(files, e, side) == Ok::<LoadedPresetEntryV, PresetError>(
            spec_saved_entry(s[k - 1], kind, side),
        ));
        assert(s.take(k).drop_last() =~= s.take(k - 1));
        assert(s.take(k).last() == s[k - 1]);
    }
}

/// The manifest write a save appends after the slot writes.
pub open spec fn spec_save_writes_tail(s: Seq<(i32, LoadedPresetEntry)>, kind: PresetType) -> Seq<
    (Seq<char>, Seq<u8>),
> {
    seq![
        (
            spec_manifest_filename(kind),
            vstd::utf8::encode_utf8(spec_manifest_text(spec_recomputed_entries(s, kind))),
        ),
    ]
}

/// Every listed slot is in the loaded-back map, with its artifacts.
proof fn lemma_saved_map_index(
    s: Seq<(i32, LoadedPresetEntry)>,
    kind: PresetType,
    side: Side,
    p: int,
)
    requires
        crate::slot_map::assoc_unique(s),
        0 <= p < s.len(),
    ensures
        spec_saved_map(s, kind, side).contains_key(s[p].0 as int),
        spec_saved_map(s, kind, side)[s[p].0 as int] == spec_saved_entry(s[p], kind, side),
    decreases s.len(),
{
    if p == s.len() - 1 {
    } else {
        assert(s.drop_last()[p] == s[p]);
        assert(crate::slot_map::assoc_unique(s.drop_last())) by {
            assert(forall|q: int|
                0 <= q < s.len() - 1 ==> (#[trigger] s.drop_last()[q]) == s[q]);
        }
        lemma_saved_map_index(s.drop_last(), kind, side, p);
        assert(s[p].0 != s.last().0);
    }
}

/// Only listed slots are in the loaded-back map.
proof fn lemma_saved_map_dom(s: Seq<(i32, LoadedPresetEntry)>, kind: PresetType, side: Side, k: int)
    requires
        spec_saved_map(s, kind, side).contains_key(k),
    ensures
        crate::slot_map::assoc_has_key(s, k),
    decreases s.len(),
{
    if s.len() > 0 {
        if k == s.last().0 as int {
            assert(s[s.len() - 1].0 == s.last().0);
        } else {
            lemma_saved_map_dom(s.drop_last(), kind, side, k);
            let q = choose|q: int|
                0 <= q < s.drop_last().len() && (#[trigger] s.drop_last()[q]).0 == k;
            assert(s[q] == s.drop_last()[q]);
        }
    }
}

/// Round-trip law of the store: loading a saved collection's writes back,
/// from an otherwise empty directory, succeeds and reproduces exactly the
/// saved slot indices, each with the identical image and payload; the
/// filenames and provenance are the recomputed ones.
pub proof fn lemma_save_then_load(
    s: Seq<(i32, LoadedPresetEntry)>,
    path: Seq<char>,
    kind: PresetType,
    side: Side,
)
    requires
        crate::slot_map::assoc_unique(s),
        forall|q: int| 0 <= q < s.len() ==> 0 <= (#[trigger] s[q]).0 <= MAX_SLOT_INDEX
            && crate::lsi_parser::encodable(s[q].1@.image),
    ensures
        spec_load(spec_save_writes(s, kind), path, kind, side) matches Ok(pd) && {
            &&& pd.preset_type == kind
            &&& pd.path == path
            &&& pd.presets == spec_saved_map(s, kind, side)
            &&& forall|p: int| 0 <= p < s.len() ==> {
                &&& pd.presets.contains_key((#[trigger] s[p]).0 as int)
                &&& pd.presets[s[p].0 as int].image == s[p].1@.image
                &&& pd.presets[s[p].0 as int].preset_data == s[p].1.preset_data@
            }
            &&& forall|k: int| pd.presets.contains_key(k) ==> crate::slot_map::assoc_has_key(s, k)
        },
{
    let files = spec_save_writes(s, kind);
    let re = spec_recomputed_entries(s, kind);
    let mtext = spec_manifest_text(re);
    // The manifest is found: no slot write shadows its name.
    lemma_slot_writes_no_manifest(s, kind);
    lemma_lookup_concat(spec_slot_writes(s, kind), spec_save_writes_tail(s, kind), spec_manifest_filename(kind));
    assert(spec_slot_writes(s, kind) + spec_save_writes_tail(s, kind) == files);
    assert(spec_lookup(spec_save_writes_tail(s, kind), spec_manifest_filename(kind)) == Some(
        vstd::utf8::encode_utf8(mtext),
    ));
    // Its bytes decode back to the canonical text, which parses back to
    // the recomputed records.
    vstd::utf8::encode_utf8_valid_utf8(mtext);
    vstd::utf8::encode_utf8_decode_utf8(mtext);
    assert(spec_wf_entries(re)) by {
        assert forall|j: int| 0 <= j < re.len() implies spec_wf_entry(#[trigger] re[j]) by {
            lemma_recomputed_entry_wf(s[j].0 as int, kind);
        }
    }
    crate::manifest::lemma_manifest_roundtrip(re);
    // Every record's files are found and decode back.
    lemma_load_saved_slots(s, kind, side, s.len() as int);
    assert(re.take(re.len() as int) =~= re);
    assert(s.take(s.len() as int) =~= s);
    // The corollaries, slot by slot.
    let pd = spec_load(files, path, kind, side)->Ok_0;
    assert forall|p: int| 0 <= p < s.len() implies {
        &&& pd.presets.contains_key((#[trigger] s[p]).0 as int)
        &&& pd.presets[s[p].0 as int].image == s[p].1@.image
        &&& pd.presets[s[p].0 as int].preset_data == s[p].1.preset_data@
    } by {
        lemma_saved_map_index(s, kind, side, p);
    }
    assert forall|k: int| pd.presets.contains_key(k) implies crate::slot_map::assoc_has_key(
        s,
        k,
    ) by {
        lemma_saved_map_dom(s, kind, side, k);
    }
}

} // verus!
