//! Output notes and the registry that stores them under stable keys.
//!
//! The registry is a generation-tagged slot allocator: each slot carries a
//! generation counter, and a key pairs the slot index with the generation
//! at issue time.  A removed slot's generation is bumped before the slot
//! can be reused, so a key issued earlier can never alias a later entry;
//! a slot whose counter cannot be bumped any further is retired instead
//! of reused.

use vstd::prelude::*;

verus! {

/// A key issued by the registry: slot index plus the slot's generation at
/// issue time.  Keys stay distinguishable across removals and reuse.
#[derive(Clone, Copy, PartialEq, Eq, Structural, Debug, Hash)]
pub struct OutputNoteKey {
    pub slot: usize,
    pub generation: u64,
}

/// A user-declared output note: one target pitch.
#[derive(Clone, Copy, PartialEq, Eq, Structural, Debug, Hash)]
pub struct OutputNote {
    pub note: u8,
}

impl OutputNote {
    /// A valid output note carries a 7-bit pitch.
    pub open spec fn wf(&self) -> bool {
        self.note < 0x80
    }

    pub fn new(note: u8) -> (r: OutputNote)
        ensures
            r.note == note,
    {
        OutputNote { note }
    }
}

/// An input note read from a loaded track: its pitch and, optionally, the
/// registry key of the output note it is bound to (`None` passes the note
/// through unchanged).
#[derive(Clone, Copy, PartialEq, Eq, Debug)]
pub struct InputNote {
    pub note: u8,
    pub maps_to: Option<OutputNoteKey>,
}

impl InputNote {
    pub fn new(note: u8) -> (r: InputNote)
        ensures
            r.note == note,
            r.maps_to is None,
    {
        InputNote { note, maps_to: None }
    }
}

/// The presentation pairing of one registry entry with a user alias.
#[derive(Debug)]
pub struct OutputNotePanel {
    pub alias: String,
    pub key: OutputNoteKey,
}

impl OutputNotePanel {
    /// A fresh panel for one registry entry, with an empty alias.
    pub fn new(key: OutputNoteKey) -> (r: OutputNotePanel)
        ensures
            r.key == key,
            r.alias@ == Seq::<char>::empty(),
    {
        OutputNotePanel { alias: String::new(), key }
    }
}

/// One registry slot: its current generation and its value, if live.
#[derive(Clone, Copy, Debug)]
pub struct Slot {
    pub generation: u64,
    pub value: Option<OutputNote>,
}

/// The stable-identity store of output notes.  `order` lists the live
/// keys in insertion order; `free` lists the slots available for reuse;
/// `issued` records every key ever handed out.
pub struct OutputRegistry {
    pub slots: Vec<Slot>,
    pub free: Vec<usize>,
    pub order: Vec<OutputNoteKey>,
    pub issued: Ghost<Set<OutputNoteKey>>,
}

impl OutputRegistry {
    /// What a key resolves to: its slot's value, provided the slot still
    /// carries the generation the key was issued under.
    pub open spec fn spec_get(&self, key: OutputNoteKey) -> Option<OutputNote> {
        if key.slot < self.slots@.len() && self.slots@[key.slot as int].generation
            == key.generation {
            self.slots@[key.slot as int].value
        } else {
            None
        }
    }

    /// The registry invariant.
    pub open spec fn wf(&self) -> bool {
        // Free slots lie in range, hold no value, and appear once each.
        &&& forall|j: int| 0 <= j < self.free@.len() ==> (#[trigger] self.free@[j]) < self.slots@.len()
        &&& forall|j: int|
            0 <= j < self.free@.len() ==> self.slots@[(#[trigger] self.free@[j]) as int].value is None
        &&& forall|j1: int, j2: int|
            0 <= j1 < j2 < self.free@.len() ==> (#[trigger] self.free@[j1]) != (#[trigger] self.free@[j2])
        // Every issued key points into the slots, never ahead of its
        // slot's current generation.
        &&& forall|k: OutputNoteKey|
            #[trigger] self.issued@.contains(k) ==> k.slot < self.slots@.len() && k.generation
                <= self.slots@[k.slot as int].generation
        // A slot offered for reuse has outlived every key issued on it.
        &&& forall|k: OutputNoteKey, j: int|
            #[trigger] self.issued@.contains(k) && 0 <= j < self.free@.len() && k.slot == (
            #[trigger] self.free@[j]) ==> k.generation < self.slots@[k.slot as int].generation
        // The insertion-order list holds exactly the live keys, once each.
        &&& forall|j: int| 0 <= j < self.order@.len() ==> self.spec_get(#[trigger] self.order@[j]) is Some
        &&& forall|j: int| 0 <= j < self.order@.len() ==> self.issued@.contains(#[trigger] self.order@[j])
        &&& forall|j1: int, j2: int|
            0 <= j1 < j2 < self.order@.len() ==> (#[trigger] self.order@[j1]).slot != (#[trigger] self.order@[j2]).slot
        &&& forall|i: int|
            0 <= i < self.slots@.len() && (#[trigger] self.slots@[i]).value is Some ==> exists|j: int|
                0 <= j < self.order@.len() && (#[trigger] self.order@[j]).slot == i
        // Every stored note is a valid pitch.
        &&& forall|i: int|
            0 <= i < self.slots@.len() && (#[trigger] self.slots@[i]).value is Some
                ==> self.slots@[i].value->Some_0.note < 0x80
    }

    /// An empty registry.
    pub fn new() -> (r: OutputRegistry)
        ensures
            r.wf(),
            r.order@ == Seq::<OutputNoteKey>::empty(),
            r.issued@ == Set::<OutputNoteKey>::empty(),
            forall|k: OutputNoteKey| r.spec_get(k) is None,
    {
        OutputRegistry {
            slots: Vec::new(),
            free: Vec::new(),
            order: Vec::new(),
            issued: Ghost(Set::empty()),
        }
    }

    /// Stores a note and issues a key for it.  The key is fresh: it has
    /// never been issued before, and every other key resolves as before.
    pub fn insert(&mut self, note: OutputNote) -> (key: OutputNoteKey)
        requires
            old(self).wf(),
            note.wf(),
        ensures
            final(self).wf(),
            !old(self).issued@.contains(key),
            final(self).issued@ == old(self).issued@.insert(key),
            final(self).spec_get(key) == Some(note),
            forall|k: OutputNoteKey| k != key ==> final(self).spec_get(k) == old(self).spec_get(k),
            final(self).order@ == old(self).order@.push(key),
    {
        let key = match self.free.pop() {
            Some(s) => {
                let generation = self.slots[s].generation;
                self.slots.set(s, Slot { generation, value: Some(note) });
                OutputNoteKey { slot: s, generation }
            },
            None => {
                let s = self.slots.len();
                self.slots.push(Slot { generation: 0, value: Some(note) });
                OutputNoteKey { slot: s, generation: 0 }
            },
        };
        self.order.push(key);
        proof {
            self.issued@ = self.issued@.insert(key);
        }
        assert(self.spec_get(key) == Some(note));
        assert forall|k: OutputNoteKey| k != key implies self.spec_get(k) == old(self).spec_get(
            k,
        ) by {
            if k.slot == key.slot {
                assert(k.generation != key.generation || self.slots@[k.slot as int].value
                    == old(self).slots@[k.slot as int].value || old(self).spec_get(k) is None);
            }
        }
        assert forall|i: int|
            0 <= i < self.slots@.len() && (#[trigger] self.slots@[i]).value is Some implies exists|j: int|
            0 <= j < self.order@.len() && (#[trigger] self.order@[j]).slot == i by {
            if i == key.slot {
                assert(self.order@[self.order@.len() - 1].slot == i);
            } else {
                let j = choose|j: int|
                    0 <= j < old(self).order@.len() && (#[trigger] old(self).order@[j]).slot == i;
                assert(self.order@[j].slot == i);
            }
        }
        key
    }

    /// What a key currently resolves to; `None` for a removed or foreign
    /// key.
    pub fn get(&self, key: OutputNoteKey) -> (r: Option<OutputNote>)
        ensures
            r == self.spec_get(key),
    {
        if key.slot < self.slots.len() {
            let slot = self.slots[key.slot];
            if slot.generation == key.generation {
                slot.value
            } else {
                None
            }
        } else {
            None
        }
    }

    /// The live entries in insertion order.
    pub fn entries(&self) -> (r: Vec<(OutputNoteKey, OutputNote)>)
        requires
            self.wf(),
        ensures
            r@.len() == self.order@.len(),
            forall|j: int|
                0 <= j < r@.len() ==> (#[trigger] r@[j]).0 == self.order@[j] && Some(r@[j].1)
                    == self.spec_get(self.order@[j]),
    {
        let mut r: Vec<(OutputNoteKey, OutputNote)> = Vec::new();
        let mut j: usize = 0;
        while j < self.order.len()
            invariant
                j <= self.order@.len(),
                r@.len() == j,
                self.wf(),
                forall|x: int|
                    0 <= x < j ==> (#[trigger] r@[x]).0 == self.order@[x] && Some(r@[x].1)
                        == self.spec_get(self.order@[x]),
            decreases self.order@.len() - j,
        {
            let key = self.order[j];
            let note = match self.get(key) {
                Some(v) => v,
                None => {
                    proof {
                        assert(self.spec_get(self.order@[j as int]) is Some);
                    }
                    unreached()
                },
            };
            r.push((key, note));
            j = j + 1;
        }
        r
    }

    /// Where a key stands in the insertion order, if it does.
    fn position_of(&self, key: OutputNoteKey) -> (r: Option<usize>)
        ensures
            match r {
                Some(j) => j < self.order@.len() && self.order@[j as int] == key,
                None => forall|x: int|
                    0 <= x < self.order@.len() ==> (#[trigger] self.order@[x]) != key,
            },
    {
        let mut j: usize = 0;
        while j < self.order.len()
            invariant
                j <= self.order@.len(),
                forall|x: int| 0 <= x < j ==> (#[trigger] self.order@[x]) != key,
            decreases self.order@.len() - j,
        {
            if self.order[j] == key {
                return Some(j);
            }
            j = j + 1;
        }
        None
    }

    /// Invalidates a key.  Yields the removed entry's position in the
    /// insertion order, or `None` if the key was not live; every other
    /// key resolves as before, and no key is ever forgotten: the removed
    /// key stays issued, so a later insert can never reuse it.
    pub fn remove(&mut self, key: OutputNoteKey) -> (r: Option<usize>)
        requires
            old(self).wf(),
        ensures
            final(self).wf(),
            final(self).issued@ == old(self).issued@,
            match r {
                Some(j) => old(self).spec_get(key) is Some && j < old(self).order@.len()
                    && old(self).order@[j as int] == key && final(self).order@ == old(
                    self,
                ).order@.remove(j as int) && final(self).spec_get(key) is None && (forall|
                    k: OutputNoteKey,
                |
                    k != key ==> final(self).spec_get(k) == old(self).spec_get(k)),
                None => old(self).spec_get(key) is None && *final(self) == *old(self),
            },
    {
        let j = match self.position_of(key) {
            None => {
                proof {
                    if self.spec_get(key) is Some {
                        let i = key.slot as int;
                        assert(self.slots@[i].value is Some);
                        let x = choose|x: int|
                            0 <= x < self.order@.len() && (#[trigger] self.order@[x]).slot == i;
                        assert(self.spec_get(self.order@[x]) is Some);
                        assert(self.order@[x].generation == self.slots@[i].generation);
                        assert(self.order@[x] == key);
                    }
                }
                return None;
            },
            Some(j) => j,
        };
        self.order.remove(j);
        let s = key.slot;
        let generation = self.slots[s].generation;
        if generation < u64::MAX {
            self.slots.set(s, Slot { generation: generation + 1, value: None });
            self.free.push(s);
        } else {
            self.slots.set(s, Slot { generation, value: None });
        }
        proof {
            let pre = *old(self);
            assert(pre.spec_get(key) is Some);
            assert(key.generation == pre.slots@[s as int].generation);
            // Every other order entry keeps a different slot, hence its
            // resolution.
            assert forall|x: int| 0 <= x < self.order@.len() implies self.spec_get(
                #[trigger] self.order@[x],
            ) is Some && self.issued@.contains(self.order@[x]) by {
                let y = if x < j { x } else { x + 1 };
                assert(self.order@[x] == pre.order@[y]);
                assert(pre.order@[y].slot != pre.order@[j as int].slot);
            }
            assert forall|i: int|
                0 <= i < self.slots@.len() && (#[trigger] self.slots@[i]).value is Some implies exists|x: int|
                0 <= x < self.order@.len() && (#[trigger] self.order@[x]).slot == i by {
                assert(i != s as int);
                let y = choose|y: int|
                    0 <= y < pre.order@.len() && (#[trigger] pre.order@[y]).slot == i;
                assert(y != j);
                let x = if y < j { y } else { y - 1 };
                assert(self.order@[x] == pre.order@[y]);
            }
            assert forall|k: OutputNoteKey| k != key implies self.spec_get(k) == pre.spec_get(
                k,
            ) by {
                if k.slot == s {
                    assert(pre.spec_get(k) is None);
                    assert(self.spec_get(k) is None || self.slots@[k.slot as int].value is None);
                }
            }
        }
        Some(j)
    }
}

impl Default for OutputRegistry {
    /// An empty registry.
    fn default() -> (r: OutputRegistry)
        ensures
            r.wf(),
            r.order@ == Seq::<OutputNoteKey>::empty(),
            r.issued@ == Set::<OutputNoteKey>::empty(),
    {
        OutputRegistry::new()
    }
}

} // verus!
