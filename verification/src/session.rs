//! The two-sided session and its move/swap protocol.
//!
//! A session owns up to two loaded collections, one per side, and a
//! selection cursor.  Selecting an occupied slot arms the cursor; selecting
//! again attempts a move from the armed slot to the new one — a plain move
//! into an empty slot, a swap with an occupied one — and the cursor is
//! cleared whether or not the move succeeds.  Both loaded sides always hold
//! collections of one kind.

use vstd::prelude::*;
use crate::presets::{
    load_presets, save_presets, snapshot_view, spec_load, spec_save_writes, slots_wf, DirSnapshot,
    PresetData, PresetDataV, SavePlan,
};
use crate::slot_map::SlotMap;
use crate::types::{LoadedPresetEntry, PresetError, PresetType, Side};

verus! {

/// The session state: each side independently loaded or empty, and the
/// selection cursor of the move protocol.
pub struct Session {
    pub left: Option<PresetData>,
    pub right: Option<PresetData>,
    pub selected: Option<(i32, Side)>,
}

impl Session {
    /// The collection a side holds.
    pub open spec fn spec_side(self, side: Side) -> Option<PresetData> {
        match side {
            Side::Left => self.left,
            Side::Right => self.right,
        }
    }

    /// Whether a side holds a collection.
    pub open spec fn side_loaded(self, side: Side) -> bool {
        self.spec_side(side) is Some
    }

    /// The slots of a loaded side.
    pub open spec fn slots_of(self, side: Side) -> Map<int, LoadedPresetEntry>
        recommends
            self.side_loaded(side),
    {
        self.spec_side(side)->Some_0.presets@
    }

    /// The invariant of a session: every loaded collection is well-formed,
    /// two loaded sides share one kind, and the cursor only ever points at
    /// a loaded side.
    pub open spec fn wf(self) -> bool {
        &&& (self.left matches Some(l) ==> l.wf())
        &&& (self.right matches Some(r) ==> r.wf())
        &&& (self.left matches Some(l) ==> (self.right matches Some(r) ==> l.preset_type
            == r.preset_type))
        &&& (self.selected matches Some(sel) ==> self.side_loaded(sel.1))
    }

    /// A fresh session: nothing loaded, nothing selected.
    pub fn new() -> (r: Session)
        ensures
            r.left is None,
            r.right is None,
            r.selected is None,
            r.wf(),
    {
        Session { left: None, right: None, selected: None }
    }

    /// Read access to a side's collection.
    pub fn collection(&self, side: Side) -> (r: Option<&PresetData>)
        ensures
            match r {
                Some(p) => self.spec_side(side) == Some(*p),
                None => self.spec_side(side) is None,
            },
    {
        match side {
            Side::Left => self.left.as_ref(),
            Side::Right => self.right.as_ref(),
        }
    }
}

/// The slots of one side after an entry moved out of `from` and into `to`
/// on the same side: the entry lands on `to`; whatever `to` held lands on
/// `from`.  Moving a slot onto itself changes nothing.
pub open spec fn spec_moved_same(m: Map<int, LoadedPresetEntry>, from: int, to: int) -> Map<
    int,
    LoadedPresetEntry,
> {
    let e = m[from];
    let m1 = m.remove(from);
    let m2 = m1.remove(to).insert(to, e);
    if m1.contains_key(to) {
        m2.insert(from, m1[to])
    } else {
        m2
    }
}

/// The source side's slots after an entry moved to the other side: the
/// source slot empties, and an entry the destination slot held moves in.
pub open spec fn spec_moved_from(
    mf: Map<int, LoadedPresetEntry>,
    mt: Map<int, LoadedPresetEntry>,
    from: int,
    to: int,
) -> Map<int, LoadedPresetEntry> {
    let m1 = mf.remove(from);
    if mt.contains_key(to) {
        m1.insert(from, mt[to])
    } else {
        m1
    }
}

/// Whether two optional collections agree on everything but their slots.
pub open spec fn same_meta(a: Option<PresetData>, b: Option<PresetData>) -> bool {
    match (a, b) {
        (Some(x), Some(y)) => {
            &&& x.path@ == y.path@
            &&& x.preset_type == y.preset_type
            &&& x.name@ == y.name@
        },
        (None, None) => true,
        _ => false,
    }
}

/// Everything a move attempt guarantees, successful or not.
///
/// The cursor is cleared either way.  On success both sides were loaded,
/// the source slot was occupied, and the slots change exactly by the
/// move-or-swap; entries keep their contents and provenance, only their
/// positions change.  On failure nothing but the cursor changes:
/// `SideNotLoaded` exactly when either side holds no collection,
/// `SlotEmpty` exactly when both are loaded but the source slot is vacant.
pub open spec fn spec_move_outcome(
    pre: Session,
    post: Session,
    r: Result<(), PresetError>,
    from: int,
    from_side: Side,
    to: int,
    to_side: Side,
) -> bool {
    &&& post.selected is None
    &&& same_meta(pre.left, post.left)
    &&& same_meta(pre.right, post.right)
    &&& match r {
        Ok(()) => {
            &&& pre.side_loaded(from_side)
            &&& pre.side_loaded(to_side)
            &&& pre.slots_of(from_side).contains_key(from)
            &&& if from_side == to_side {
                &&& post.slots_of(from_side) == spec_moved_same(pre.slots_of(from_side), from, to)
                &&& post.spec_side(from_side.spec_other()) == pre.spec_side(
                    from_side.spec_other(),
                )
            } else {
                &&& post.slots_of(from_side) == spec_moved_from(
                    pre.slots_of(from_side),
                    pre.slots_of(to_side),
                    from,
                    to,
                )
                &&& post.slots_of(to_side) == pre.slots_of(to_side).insert(
                    to,
                    pre.slots_of(from_side)[from],
                )
            }
        },
        Err(e) => {
            &&& post.left == pre.left
            &&& post.right == pre.right
            &&& (e == PresetError::SideNotLoaded || e == PresetError::SlotEmpty)
            &&& (e == PresetError::SideNotLoaded <==> !(pre.side_loaded(from_side)
                && pre.side_loaded(to_side)))
            &&& (e == PresetError::SlotEmpty <==> pre.side_loaded(from_side) && pre.side_loaded(
                to_side,
            ) && !pre.slots_of(from_side).contains_key(from))
        },
    }
}

/// Move an entry between two slots of one collection.
fn move_within(m: &mut SlotMap, from: i32, to: i32) -> (r: Result<(), PresetError>)
    requires
        old(m).wf(),
        slots_wf(old(m)@),
        0 <= to,
    ensures
        final(m).wf(),
        slots_wf(final(m)@),
        match r {
            Ok(()) => old(m)@.contains_key(from as int) && final(m)@ == spec_moved_same(
                old(m)@,
                from as int,
                to as int,
            ),
            Err(e) => {
                &&& e == PresetError::SlotEmpty
                &&& !old(m)@.contains_key(from as int)
                &&& *final(m) == *old(m)
            },
        },
{
    let ghost pre = old(m)@;
    let e = match m.remove(from) {
        Some(e) => e,
        None => {
            proof {
                assert(pre.remove(from as int) =~= pre);
            }
            return Err(PresetError::SlotEmpty);
        }
    };
    let disp = m.remove(to);
    m.insert(to, e);
    match disp {
        Some(d) => {
            m.insert(from, d);
        }
        None => {
            proof {
                assert(pre.remove(from as int).remove(to as int) =~= pre.remove(from as int));
            }
        }
    }
    proof {
        assert forall|k: int| #[trigger] m@.contains_key(k) implies 0 <= k <= 0x7fff_ffff
            && crate::lsi_parser::encodable(m@[k]@.image) by {
            if k == to as int {
                assert(m@[k] == pre[from as int]);
                assert(pre.contains_key(from as int));
            } else if k == from as int {
                assert(m@[k] == pre[to as int]);
                assert(pre.contains_key(to as int));
            } else {
                assert(m@[k] == pre[k]);
                assert(pre.contains_key(k));
            }
        }
    }
    Ok(())
}

/// Move an entry from a slot of one collection into a slot of the other.
fn move_between(a: &mut SlotMap, b: &mut SlotMap, from: i32, to: i32) -> (r: Result<
    (),
    PresetError,
>)
    requires
        old(a).wf(),
        old(b).wf(),
        slots_wf(old(a)@),
        slots_wf(old(b)@),
        0 <= to,
    ensures
        final(a).wf(),
        final(b).wf(),
        slots_wf(final(a)@),
        slots_wf(final(b)@),
        match r {
            Ok(()) => {
                &&& old(a)@.contains_key(from as int)
                &&& final(a)@ == spec_moved_from(old(a)@, old(b)@, from as int, to as int)
                &&& final(b)@ == old(b)@.insert(to as int, old(a)@[from as int])
            },
            Err(e) => {
                &&& e == PresetError::SlotEmpty
                &&& !old(a)@.contains_key(from as int)
                &&& *final(a) == *old(a)
                &&& *final(b) == *old(b)
            },
        },
{
    let ghost pa = old(a)@;
    let ghost pb = old(b)@;
    let e = match a.remove(from) {
        Some(e) => e,
        None => {
            proof {
                assert(pa.remove(from as int) =~= pa);
            }
            return Err(PresetError::SlotEmpty);
        }
    };
    let disp = b.remove(to);
    b.insert(to, e);
    match disp {
        Some(d) => {
            a.insert(from, d);
        }
        None => {
            proof {
                assert(pb.remove(to as int) =~= pb);
            }
        }
    }
    proof {
        assert(pb.remove(to as int).insert(to as int, pa[from as int]) =~= pb.insert(
            to as int,
            pa[from as int],
        ));
        assert forall|k: int| #[trigger] a@.contains_key(k) implies 0 <= k <= 0x7fff_ffff
            && crate::lsi_parser::encodable(a@[k]@.image) by {
            if k == from as int {
                assert(a@[k] == pb[to as int]);
                assert(pb.contains_key(to as int));
            } else {
                assert(a@[k] == pa[k]);
                assert(pa.contains_key(k));
            }
        }
        assert forall|k: int| #[trigger] b@.contains_key(k) implies 0 <= k <= 0x7fff_ffff
            && crate::lsi_parser::encodable(b@[k]@.image) by {
            if k == to as int {
                assert(b@[k] == pa[from as int]);
                assert(pa.contains_key(from as int));
            } else {
                assert(b@[k] == pb[k]);
                assert(pb.contains_key(k));
            }
        }
    }
    Ok(())
}

impl Session {
    /// Attempt to move the entry at `(from_side, from)` into
    /// `(to_side, to)`: a plain move when the destination is empty, a swap
    /// when it is occupied.  The cursor is cleared whether or not the move
    /// succeeds; a failed move changes nothing else.
    pub fn move_preset(&mut self, from: i32, from_side: Side, to: i32, to_side: Side) -> (r:
        Result<(), PresetError>)
        requires
            old(self).wf(),
            0 <= to,
        ensures
            final(self).wf(),
            spec_move_outcome(
                *old(self),
                *final(self),
                r,
                from as int,
                from_side,
                to as int,
                to_side,
            ),
    {
        self.selected = None;
        let from_loaded = match from_side {
            Side::Left => self.left.is_some(),
            Side::Right => self.right.is_some(),
        };
        let to_loaded = match to_side {
            Side::Left => self.left.is_some(),
            Side::Right => self.right.is_some(),
        };
        if !from_loaded || !to_loaded {
            return Err(PresetError::SideNotLoaded);
        }
        if from_side == to_side {
            match from_side {
                Side::Left => {
                    let mut pd = self.left.take().unwrap();
                    let res = move_within(&mut pd.presets, from, to);
                    self.left = Some(pd);
                    res
                }
                Side::Right => {
                    let mut pd = self.right.take().unwrap();
                    let res = move_within(&mut pd.presets, from, to);
                    self.right = Some(pd);
                    res
                }
            }
        } else {
            let mut l = self.left.take().unwrap();
            let mut r2 = self.right.take().unwrap();
            let res = match from_side {
                Side::Left => move_between(&mut l.presets, &mut r2.presets, from, to),
                Side::Right => move_between(&mut r2.presets, &mut l.presets, from, to),
            };
            self.left = Some(l);
            self.right = Some(r2);
            res
        }
    }

    /// One click of the protocol.  With no cursor armed: selecting an
    /// occupied slot of a loaded side arms the cursor, selecting an empty
    /// slot does nothing, selecting on an unloaded side is refused.  With
    /// a cursor armed: the click is a move attempt to the clicked slot,
    /// and the cursor is cleared either way.
    pub fn select_slot(&mut self, index: i32, side: Side) -> (r: Result<(), PresetError>)
        requires
            old(self).wf(),
            0 <= index,
        ensures
            final(self).wf(),
            match old(self).selected {
                Some(sel) => spec_move_outcome(
                    *old(self),
                    *final(self),
                    r,
                    sel.0 as int,
                    sel.1,
                    index as int,
                    side,
                ),
                None => {
                    &&& final(self).left == old(self).left
                    &&& final(self).right == old(self).right
                    &&& match r {
                        Ok(()) => {
                            &&& old(self).side_loaded(side)
                            &&& if old(self).slots_of(side).contains_key(index as int) {
                                final(self).selected == Some((index, side))
                            } else {
                                final(self).selected is None
                            }
                        },
                        Err(e) => {
                            &&& e == PresetError::SideNotLoaded
                            &&& !old(self).side_loaded(side)
                            &&& final(self).selected is None
                        },
                    }
                },
            },
    {
        match self.selected {
            Some((from, from_side)) => self.move_preset(from, from_side, index, side),
            None => {
                let pd = match self.collection(side) {
                    Some(pd) => pd,
                    None => {
                        return Err(PresetError::SideNotLoaded);
                    }
                };
                if pd.presets.contains_key(index) {
                    self.selected = Some((index, side));
                }
                Ok(())
            }
        }
    }

    /// Load a collection into a side from a directory snapshot, replacing
    /// whatever the side held.  Refused with `KindConflict` when the other
    /// side holds a collection of a different kind; a refused or failed
    /// load changes nothing.  On success the cursor is cleared if it
    /// pointed at the replaced side.
    pub fn load_side(
        &mut self,
        side: Side,
        files: &DirSnapshot,
        path: &str,
        preset_type: PresetType,
    ) -> (r: Result<(), PresetError>)
        requires
            old(self).wf(),
        ensures
            final(self).wf(),
            match r {
                Ok(()) => {
                    &&& !(old(self).spec_side(side.spec_other()) matches Some(o)
                        && o.preset_type != preset_type)
                    &&& final(self).spec_side(side) matches Some(pd) && spec_load(
                        snapshot_view(files@),
                        path@,
                        preset_type,
                        side,
                    ) == Ok::<PresetDataV, PresetError>(pd@) && pd.preset_type == preset_type
                    &&& final(self).spec_side(side.spec_other()) == old(self).spec_side(
                        side.spec_other(),
                    )
                    &&& final(self).selected == (match old(self).selected {
                        Some(sel) => if sel.1 == side {
                            None
                        } else {
                            old(self).selected
                        },
                        None => None,
                    })
                },
                Err(e) => {
                    &&& *final(self) == *old(self)
                    &&& if old(self).spec_side(side.spec_other()) matches Some(o)
                        && o.preset_type != preset_type {
                        e == PresetError::KindConflict
                    } else {
                        spec_load(snapshot_view(files@), path@, preset_type, side) == Err::<
                            PresetDataV,
                            PresetError,
                        >(e)
                    }
                },
            },
    {
        let other = match side {
            Side::Left => self.right.as_ref(),
            Side::Right => self.left.as_ref(),
        };
        match other {
            Some(o) => {
                if !matches_kind(o.preset_type, preset_type) {
                    return Err(PresetError::KindConflict);
                }
            }
            None => {}
        }
        let pd = match load_presets(files, path, preset_type, side) {
            Ok(pd) => pd,
            Err(e) => {
                return Err(e);
            }
        };
        match side {
            Side::Left => {
                self.left = Some(pd);
            }
            Side::Right => {
                self.right = Some(pd);
            }
        }
        match self.selected {
            Some((_, s)) => {
                if s == side {
                    self.selected = None;
                }
            }
            None => {}
        }
        Ok(())
    }

    /// Plan a save of a side's collection: a full resync of its directory
    /// from the current in-memory slots.  The in-memory state is not
    /// altered.
    pub fn save_side(&self, side: Side) -> (r: Result<SavePlan, PresetError>)
        requires
            self.wf(),
        ensures
            match r {
                Ok(plan) => {
                    &&& self.spec_side(side) matches Some(pd)
                    &&& plan.root@ == self.spec_side(side)->Some_0.path@
                    &&& snapshot_view(plan.writes@) == spec_save_writes(
                        self.spec_side(side)->Some_0.presets.seq(),
                        self.spec_side(side)->Some_0.preset_type,
                    )
                },
                Err(e) => e == PresetError::SideNotLoaded && !self.side_loaded(side),
            },
    {
        let pd = match self.collection(side) {
            Some(pd) => pd,
            None => {
                return Err(PresetError::SideNotLoaded);
            }
        };
        Ok(save_presets(pd.path.as_str(), &pd.presets, pd.preset_type))
    }

    /// Discard a side's collection, touching no disk state.  The cursor is
    /// cleared if it pointed at the closed side.
    pub fn close_side(&mut self, side: Side)
        requires
            old(self).wf(),
        ensures
            final(self).wf(),
            final(self).spec_side(side) is None,
            final(self).spec_side(side.spec_other()) == old(self).spec_side(side.spec_other()),
            final(self).selected == (match old(self).selected {
                Some(sel) => if sel.1 == side {
                    None
                } else {
                    old(self).selected
                },
                None => None,
            }),
    {
        match side {
            Side::Left => {
                self.left = None;
            }
            Side::Right => {
                self.right = None;
            }
        }
        match self.selected {
            Some((_, s)) => {
                if s == side {
                    self.selected = None;
                }
            }
            None => {}
        }
    }
}

/// Whether two kinds agree.
fn matches_kind(a: PresetType, b: PresetType) -> (r: bool)
    ensures
        r == (a == b),
{
    match (a, b) {
        (PresetType::Timbre, PresetType::Timbre) => true,
        (PresetType::System, PresetType::System) => true,
        _ => false,
    }
}

} // verus!
