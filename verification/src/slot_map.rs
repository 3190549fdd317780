//! The slot mapping of a loaded collection: a finite map from slot index to
//! loaded entry, kept as an association list with unique keys.  Its
//! mathematical value is a `Map<int, LoadedPresetEntry>`; the list order is
//! exposed only so that a save can walk the slots deterministically.

use vstd::prelude::*;
use crate::types::LoadedPresetEntry;

verus! {

/// Whether some position of the list carries key `k`.
pub open spec fn assoc_has_key(s: Seq<(i32, LoadedPresetEntry)>, k: int) -> bool {
    exists|p: int| 0 <= p < s.len() && (#[trigger] s[p]).0 == k
}

/// No two positions of the list carry the same key.
pub open spec fn assoc_unique(s: Seq<(i32, LoadedPresetEntry)>) -> bool {
    forall|p: int, q: int|
        0 <= p < q < s.len() ==> (#[trigger] s[p]).0 != (#[trigger] s[q]).0
}

/// The map an association list denotes; a later binding wins.
pub open spec fn assoc_map(s: Seq<(i32, LoadedPresetEntry)>) -> Map<int, LoadedPresetEntry>
    decreases s.len(),
{
    if s.len() == 0 {
        Map::empty()
    } else {
        assoc_map(s.drop_last()).insert(s.last().0 as int, s.last().1)
    }
}

/// An indexed binding is in the denoted map (under unique keys).
proof fn lemma_assoc_map_index(s: Seq<(i32, LoadedPresetEntry)>, p: int)
    requires
        assoc_unique(s),
        0 <= p < s.len(),
    ensures
        assoc_map(s).contains_key(s[p].0 as int),
        assoc_map(s)[s[p].0 as int] == s[p].1,
    decreases s.len(),
{
    if p == s.len() - 1 {
    } else {
        assert(s.drop_last()[p] == s[p]);
        lemma_assoc_map_index(s.drop_last(), p);
        assert(s[p].0 != s.last().0);
    }
}

/// A key at no position of the list is not in the denoted map.
proof fn lemma_assoc_map_absent(s: Seq<(i32, LoadedPresetEntry)>, k: int)
    requires
        !assoc_has_key(s, k),
    ensures
        !assoc_map(s).contains_key(k),
    decreases s.len(),
{
    if s.len() > 0 {
        assert(!assoc_has_key(s.drop_last(), k)) by {
            assert(forall|p: int|
                0 <= p < s.len() - 1 ==> (#[trigger] s.drop_last()[p]) == s[p]);
        }
        lemma_assoc_map_absent(s.drop_last(), k);
        assert(s.last() == s[s.len() - 1]);
    }
}

/// The keys of the denoted map are exactly the keys on the list.
proof fn lemma_assoc_map_dom(s: Seq<(i32, LoadedPresetEntry)>)
    requires
        assoc_unique(s),
    ensures
        forall|k: int| #[trigger] assoc_map(s).contains_key(k) <==> assoc_has_key(s, k),
{
    assert forall|k: int| #[trigger] assoc_map(s).contains_key(k) implies assoc_has_key(s, k) by {
        if !assoc_has_key(s, k) {
            lemma_assoc_map_absent(s, k);
        }
    }
    assert forall|k: int| assoc_has_key(s, k) implies #[trigger] assoc_map(s).contains_key(k) by {
        let p = choose|p: int| 0 <= p < s.len() && (#[trigger] s[p]).0 == k;
        lemma_assoc_map_index(s, p);
    }
}

/// Removing the position that carries `k` removes `k` from the map.
proof fn lemma_assoc_map_remove(s: Seq<(i32, LoadedPresetEntry)>, p: int)
    requires
        assoc_unique(s),
        0 <= p < s.len(),
    ensures
        assoc_unique(s.remove(p)),
        assoc_map(s.remove(p)) == assoc_map(s).remove(s[p].0 as int),
    decreases s.len(),
{
    let k = s[p].0 as int;
    assert(assoc_unique(s.remove(p))) by {
        assert(forall|q: int|
            0 <= q < s.len() - 1 ==> (#[trigger] s.remove(p)[q]) == if q < p {
                s[q]
            } else {
                s[q + 1]
            });
    }
    if p == s.len() - 1 {
        assert(s.remove(p) =~= s.drop_last());
        assert(!assoc_has_key(s.drop_last(), k)) by {
            assert(forall|q: int|
                0 <= q < s.len() - 1 ==> (#[trigger] s.drop_last()[q]) == s[q]);
        }
        lemma_assoc_map_absent(s.drop_last(), k);
        assert(assoc_map(s.drop_last()) =~= assoc_map(s.drop_last()).insert(
            s.last().0 as int,
            s.last().1,
        ).remove(k));
    } else {
        assert(assoc_unique(s.drop_last())) by {
            assert(forall|q: int|
                0 <= q < s.len() - 1 ==> (#[trigger] s.drop_last()[q]) == s[q]);
        }
        lemma_assoc_map_remove(s.drop_last(), p);
        assert(s.remove(p).last() == s.last());
        assert(s.remove(p).drop_last() =~= s.drop_last().remove(p));
        assert(s.drop_last()[p] == s[p]);
        assert(s[p].0 != s.last().0);
        assert(assoc_map(s.remove(p)) == assoc_map(s.drop_last().remove(p)).insert(
            s.last().0 as int,
            s.last().1,
        ));
        assert(assoc_map(s.drop_last()).remove(k).insert(s.last().0 as int, s.last().1)
            =~= assoc_map(s.drop_last()).insert(s.last().0 as int, s.last().1).remove(k));
    }
}

/// Appending a binding for a fresh key inserts it into the map.
proof fn lemma_assoc_map_push(s: Seq<(i32, LoadedPresetEntry)>, k: i32, v: LoadedPresetEntry)
    requires
        assoc_unique(s),
        !assoc_has_key(s, k as int),
    ensures
        assoc_unique(s.push((k, v))),
        assoc_map(s.push((k, v))) == assoc_map(s).insert(k as int, v),
{
    assert(s.push((k, v)).drop_last() =~= s);
    assert(s.push((k, v)).last() == (k, v));
    assert(assoc_unique(s.push((k, v)))) by {
        assert(forall|q: int| 0 <= q < s.len() ==> (#[trigger] s.push((k, v))[q]) == s[q]);
        assert(s.push((k, v))[s.len() as int] == (k, v));
    }
}

/// A slot-indexed collection of loaded presets.  At most one entry per slot
/// index; indices are arbitrary `i32` keys with no density requirement.
#[derive(Debug, Clone)]
pub struct SlotMap {
    entries: Vec<(i32, LoadedPresetEntry)>,
}

impl View for SlotMap {
    type V = Map<int, LoadedPresetEntry>;

    open spec fn view(&self) -> Map<int, LoadedPresetEntry> {
        assoc_map(self.seq())
    }
}

impl SlotMap {
    /// The backing list, in the deterministic order a save will walk.
    pub closed spec fn seq(self) -> Seq<(i32, LoadedPresetEntry)> {
        self.entries@
    }

    /// Well-formed: no slot index occurs twice.
    pub open spec fn wf(self) -> bool {
        assoc_unique(self.seq())
    }

    /// Every listed binding is in the map, and every key of the map is
    /// listed: the list and the map agree.
    pub proof fn lemma_seq_view(self)
        requires
            self.wf(),
        ensures
            forall|p: int|
                0 <= p < self.seq().len() ==> {
                    &&& self@.contains_key((#[trigger] self.seq()[p]).0 as int)
                    &&& self@[self.seq()[p].0 as int] == self.seq()[p].1
                },
            forall|k: int| #[trigger] self@.contains_key(k) <==> assoc_has_key(self.seq(), k),
    {
        lemma_assoc_map_dom(self.seq());
        assert forall|p: int| 0 <= p < self.seq().len() implies {
            &&& self@.contains_key((#[trigger] self.seq()[p]).0 as int)
            &&& self@[self.seq()[p].0 as int] == self.seq()[p].1
        } by {
            lemma_assoc_map_index(self.seq(), p);
        }
    }

    /// An empty collection.
    pub fn new() -> (r: SlotMap)
        ensures
            r.wf(),
            r@ == Map::<int, LoadedPresetEntry>::empty(),
            r.seq() == Seq::<(i32, LoadedPresetEntry)>::empty(),
    {
        SlotMap { entries: Vec::new() }
    }

    /// How many slots are occupied.
    pub fn len(&self) -> (n: usize)
        ensures
            n == self.seq().len(),
    {
        self.entries.len()
    }

    /// The slot index stored at list position `pos`.
    pub fn key_at(&self, pos: usize) -> (k: i32)
        requires
            pos < self.seq().len(),
        ensures
            k == self.seq()[pos as int].0,
    {
        self.entries[pos].0
    }

    /// The entry stored at list position `pos`.
    pub fn entry_at(&self, pos: usize) -> (e: &LoadedPresetEntry)
        requires
            pos < self.seq().len(),
        ensures
            *e == self.seq()[pos as int].1,
    {
        &self.entries[pos].1
    }

    /// The list position of slot `i`, if the slot is occupied.
    fn find(&self, i: i32) -> (r: Option<usize>)
        ensures
            match r {
                Some(p) => p < self.seq().len() && self.seq()[p as int].0 == i,
                None => !assoc_has_key(self.seq(), i as int),
            },
    {
        let mut p: usize = 0;
        while p < self.entries.len()
            invariant
                p <= self.seq().len(),
                forall|q: int| 0 <= q < p ==> (#[trigger] self.seq()[q]).0 != i,
            decreases self.seq().len() - p,
        {
            if self.entries[p].0 == i {
                return Some(p);
            }
            p = p + 1;
        }
        None
    }

    /// Whether slot `i` is occupied.
    pub fn contains_key(&self, i: i32) -> (r: bool)
        requires
            self.wf(),
        ensures
            r == self@.contains_key(i as int),
    {
        proof {
            self.lemma_seq_view();
        }
        match self.find(i) {
            Some(_) => true,
            None => false,
        }
    }

    /// The entry in slot `i`, if the slot is occupied.
    pub fn get(&self, i: i32) -> (r: Option<&LoadedPresetEntry>)
        requires
            self.wf(),
        ensures
            match r {
                Some(e) => self@.contains_key(i as int) && self@[i as int] == *e,
                None => !self@.contains_key(i as int),
            },
    {
        proof {
            self.lemma_seq_view();
        }
        match self.find(i) {
            Some(p) => {
                proof {
                    lemma_assoc_map_index(self.seq(), p as int);
                }
                Some(&self.entries[p].1)
            }
            None => None,
        }
    }

    /// Put `e` into slot `i`, displacing whatever was there.
    pub fn insert(&mut self, i: i32, e: LoadedPresetEntry)
        requires
            old(self).wf(),
        ensures
            final(self).wf(),
            final(self)@ == old(self)@.insert(i as int, e),
    {
        proof {
            self.lemma_seq_view();
        }
        let ghost s0 = self.seq();
        match self.find(i) {
            Some(p) => {
                proof {
                    lemma_assoc_map_remove(s0, p as int);
                }
                let _ = self.entries.remove(p);
                proof {
                    assert(!assoc_has_key(self.seq(), i as int)) by {
                        if assoc_has_key(self.seq(), i as int) {
                            let q = choose|q: int|
                                0 <= q < self.seq().len() && (#[trigger] self.seq()[q]).0 == i;
                            assert(self.seq()[q] == if q < p { s0[q] } else { s0[q + 1] });
                        }
                    }
                    lemma_assoc_map_push(self.seq(), i, e);
                }
                self.entries.push((i, e));
                proof {
                    assert(old(self)@.remove(i as int).insert(i as int, e) =~= old(self)@.insert(
                        i as int,
                        e,
                    ));
                }
            }
            None => {
                proof {
                    lemma_assoc_map_push(s0, i, e);
                }
                self.entries.push((i, e));
            }
        }
    }

    /// Take the entry out of slot `i`, leaving the slot empty; `None` when
    /// the slot already was empty.
    pub fn remove(&mut self, i: i32) -> (r: Option<LoadedPresetEntry>)
        requires
            old(self).wf(),
        ensures
            final(self).wf(),
            final(self)@ == old(self)@.remove(i as int),
            match r {
                Some(e) => old(self)@.contains_key(i as int) && old(self)@[i as int] == e,
                None => !old(self)@.contains_key(i as int) && *final(self) == *old(self),
            },
    {
        proof {
            self.lemma_seq_view();
        }
        match self.find(i) {
            Some(p) => {
                proof {
                    lemma_assoc_map_index(self.seq(), p as int);
                    lemma_assoc_map_remove(self.seq(), p as int);
                }
                let (_, e) = self.entries.remove(p);
                Some(e)
            }
            None => {
                proof {
                    lemma_assoc_map_absent(self.seq(), i as int);
                    assert(old(self)@ =~= old(self)@.remove(i as int));
                }
                None
            }
        }
    }
}

} // verus!
