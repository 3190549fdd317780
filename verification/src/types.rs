//! The shared data model: sides, preset kinds, points, images, manifest
//! entries, loaded entries, and the error taxonomy.

use vstd::prelude::*;

verus! {

/// Which of the two independently loaded collections an entry or an action
/// refers to.  Exactly two sides exist.
#[derive(Debug, Clone, Copy, Eq, PartialEq, Hash, Structural)]
pub enum Side {
    Left,
    Right,
}

impl Side {
    /// The opposite side.
    pub open spec fn spec_other(self) -> Side {
        match self {
            Side::Left => Side::Right,
            Side::Right => Side::Left,
        }
    }

    /// The opposite side: `Left` and `Right` map to each other, so the
    /// mapping is an involution.
    pub fn other(&self) -> (r: Side)
        ensures
            r == self.spec_other(),
            r != *self,
            r.spec_other() == *self,
    {
        match self {
            Side::Left => Side::Right,
            Side::Right => Side::Left,
        }
    }
}

/// The category of a preset collection; it fixes the manifest filename and
/// the per-slot filename prefixes.
#[derive(Debug, Clone, Copy, Eq, PartialEq, Hash, Structural)]
pub enum PresetType {
    Timbre,
    System,
}

/// A 2-D point of a polyline.  Each coordinate is carried as the raw bit
/// pattern of the 32-bit IEEE-754 value stored on disk; the codec never
/// interprets the number, so round-trips are exact by construction.
#[derive(Debug, Clone, Copy, Eq, PartialEq, Structural)]
pub struct Point {
    pub x_bits: u32,
    pub y_bits: u32,
}

impl Point {
    pub fn new(x_bits: u32, y_bits: u32) -> (r: Point)
        ensures
            r.x_bits == x_bits,
            r.y_bits == y_bits,
    {
        Point { x_bits, y_bits }
    }
}

/// A vector image: an ordered sequence of polylines, each an ordered
/// sequence of points.  Both orders are significant and preserved exactly.
pub type ImageData = Vec<Vec<Point>>;

/// The mathematical value of an image: the points of its polylines.
pub open spec fn image_view(img: ImageData) -> Seq<Seq<Point>> {
    img@.map_values(|line: Vec<Point>| line@)
}

/// One record of the on-disk manifest: a slot index and the two artifact
/// filenames that belong to the slot.
#[derive(Debug, Clone, PartialEq)]
pub struct PresetEntry {
    pub index: i32,
    pub image_filename: String,
    pub preset_filename: String,
}

/// The mathematical value of a manifest record.
pub ghost struct PresetEntryV {
    pub index: int,
    pub image_filename: Seq<char>,
    pub preset_filename: Seq<char>,
}

impl View for PresetEntry {
    type V = PresetEntryV;

    open spec fn view(&self) -> PresetEntryV {
        PresetEntryV {
            index: self.index as int,
            image_filename: self.image_filename@,
            preset_filename: self.preset_filename@,
        }
    }
}

/// The in-memory, editable unit held in a slot.  `original_index` and
/// `original_side` record where the entry was loaded from — provenance, not
/// identity — and are never touched by the move protocol.  `preset_data` is
/// an opaque payload passed through unchanged on save.
#[derive(Debug, Clone)]
pub struct LoadedPresetEntry {
    pub original_index: i32,
    pub original_side: Side,
    pub image_filename: String,
    pub preset_filename: String,
    pub image: ImageData,
    pub preset_data: String,
}

/// The mathematical value of a loaded entry.
pub ghost struct LoadedPresetEntryV {
    pub original_index: int,
    pub original_side: Side,
    pub image_filename: Seq<char>,
    pub preset_filename: Seq<char>,
    pub image: Seq<Seq<Point>>,
    pub preset_data: Seq<char>,
}

impl View for LoadedPresetEntry {
    type V = LoadedPresetEntryV;

    open spec fn view(&self) -> LoadedPresetEntryV {
        LoadedPresetEntryV {
            original_index: self.original_index as int,
            original_side: self.original_side,
            image_filename: self.image_filename@,
            preset_filename: self.preset_filename@,
            image: image_view(self.image),
            preset_data: self.preset_data@,
        }
    }
}

impl LoadedPresetEntry {
    pub fn new(
        original_index: i32,
        original_side: Side,
        image_filename: String,
        preset_filename: String,
        image: ImageData,
        preset_data: String,
    ) -> (r: LoadedPresetEntry)
        ensures
            r@ == (LoadedPresetEntryV {
                original_index: original_index as int,
                original_side,
                image_filename: image_filename@,
                preset_filename: preset_filename@,
                image: image_view(image),
                preset_data: preset_data@,
            }),
    {
        LoadedPresetEntry {
            original_index,
            original_side,
            image_filename,
            preset_filename,
            image,
            preset_data,
        }
    }
}

/// The failure taxonomy of the core.  Every operation that can fail reports
/// exactly one of these; no error carries structured detail beyond its
/// classification.
#[derive(Debug, Clone, Copy, Eq, PartialEq, Structural)]
pub enum PresetError {
    /// A file or directory could not be read or written.
    IoError,
    /// An LSI image buffer is not an exact sequence of complete records.
    MalformedImage,
    /// A manifest is not a well-formed record array.
    MalformedManifest,
    /// The operation needs a side that currently holds no collection.
    SideNotLoaded,
    /// Loading would put collections of two different kinds side by side.
    KindConflict,
    /// The source slot of a move holds no entry.
    SlotEmpty,
}

impl PresetError {
    /// The text `message` reports for each failure.
    pub open spec fn spec_message(self) -> Seq<char> {
        match self {
            PresetError::IoError => "A file or directory could not be accessed"@,
            PresetError::MalformedImage => "Error occurred while parsing image"@,
            PresetError::MalformedManifest => "Error occurred while parsing the preset list"@,
            PresetError::SideNotLoaded => "Side not loaded, cannot proceed"@,
            PresetError::KindConflict => "Both sides must hold the same type of preset (timbre or system)"@,
            PresetError::SlotEmpty => "Selected item does not exist, cannot move"@,
        }
    }

    /// A user-facing description of the failure.
    pub fn message(&self) -> (r: &'static str)
        ensures
            r@ == self.spec_message(),
    {
        match self {
            PresetError::IoError => "A file or directory could not be accessed",
            PresetError::MalformedImage => "Error occurred while parsing image",
            PresetError::MalformedManifest => "Error occurred while parsing the preset list",
            PresetError::SideNotLoaded => "Side not loaded, cannot proceed",
            PresetError::KindConflict => "Both sides must hold the same type of preset (timbre or system)",
            PresetError::SlotEmpty => "Selected item does not exist, cannot move",
        }
    }
}

/// The messages the presentation layer sends into the core's session.
#[derive(Debug, Clone)]
pub enum AppMessage {
    FontsLoaded,
    ClickPreset(i32, Side),
    Save(Side),
    Close(Side),
    LoadPreset(Side, PresetType),
}

} // verus!
