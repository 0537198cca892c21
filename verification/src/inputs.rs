//! The mapping table: per track, per input note, the optional binding to
//! an output-registry key and the presentation index into the candidate
//! list ("none" followed by the registry entries in insertion order).
//!
//! The table's one delicate duty is the removal repair: when a registry
//! entry is deleted, every binding to it is cleared and the presentation
//! indices behind the removed position close ranks — atomically, through
//! `remove_output`, so no entry ever dangles.

use vstd::prelude::*;

use crate::mapper::{InputNote, OutputNoteKey, OutputRegistry};
use crate::midi_file::{Mapping, MidiFile, pairs_map};

verus! {

/// One input note's state: the note with its optional binding, and the
/// presentation index (0 is the reserved "no selection" entry, 1 the
/// first real entry).
#[derive(Clone, Copy, PartialEq, Eq, Debug)]
pub struct InputState {
    pub input: InputNote,
    pub choice: usize,
}

impl InputState {
    /// A fresh, unbound entry for one pitch.
    pub fn new(note: u8) -> (r: InputState)
        ensures
            r.input.note == note,
            r.input.maps_to is None,
            r.choice == 0,
    {
        InputState { input: InputNote::new(note), choice: 0 }
    }
}

/// What the removal repair makes of one entry: a binding to the removed
/// key is cleared (selection back to "none"), and a remaining
/// presentation index strictly past the removed registry position — and
/// past the reserved indices 0 and 1 — moves down one step, so it keeps
/// naming the same logical entry after the candidate list shrinks.
pub open spec fn repaired(e: InputState, removed_key: OutputNoteKey, removed_at: int) -> InputState {
    let e1 = if e.input.maps_to == Some(removed_key) {
        InputState { input: InputNote { note: e.input.note, maps_to: None }, choice: 0 }
    } else {
        e
    };
    if e1.choice > removed_at && e1.choice > 1 {
        InputState { input: e1.input, choice: (e1.choice - 1) as usize }
    } else {
        e1
    }
}

/// The removal repair entry by entry, as the spec-level law reads: a
/// reference to the removed key becomes `None`; any other reference is
/// untouched; an untouched entry's presentation index drops by exactly
/// one where it exceeded the removed position (and the reserved indices),
/// and stays put otherwise.
pub proof fn lemma_repair_cases(e: InputState, removed_key: OutputNoteKey, removed_at: int)
    ensures
        repaired(e, removed_key, removed_at).input.note == e.input.note,
        e.input.maps_to == Some(removed_key) ==> repaired(
            e,
            removed_key,
            removed_at,
        ).input.maps_to is None,
        e.input.maps_to != Some(removed_key) ==> repaired(e, removed_key, removed_at).input.maps_to
            == e.input.maps_to,
        e.input.maps_to != Some(removed_key) ==> repaired(e, removed_key, removed_at).choice == (
        if e.choice > removed_at && e.choice > 1 {
            e.choice - 1
        } else {
            e.choice as int
        }),
{
}

/// The removal repair over a whole table.  However many entries across
/// however many tracks referenced the removed key, all of them lose their
/// reference; every other entry keeps its reference, its presentation
/// index dropping by exactly one where it exceeded the removed position
/// (and the reserved indices), and staying put otherwise.
pub proof fn lemma_removal_repair(
    before: MappingTable,
    after: MappingTable,
    removed_key: OutputNoteKey,
    removed_at: int,
)
    requires
        after.tracks@.len() == before.tracks@.len(),
        forall|t: int|
            0 <= t < before.tracks@.len() ==> (#[trigger] after.tracks@[t])@.len()
                == before.tracks@[t]@.len(),
        forall|t: int, i: int|
            0 <= t < before.tracks@.len() && 0 <= i < before.tracks@[t]@.len() ==> (
            #[trigger] after.tracks@[t]@[i]) == repaired(
                before.tracks@[t]@[i],
                removed_key,
                removed_at,
            ),
    ensures
        forall|t: int, i: int|
            0 <= t < before.tracks@.len() && 0 <= i < before.tracks@[t]@.len() && (
            #[trigger] before.tracks@[t]@[i]).input.maps_to == Some(removed_key)
                ==> after.tracks@[t]@[i].input.maps_to is None,
        forall|t: int, i: int|
            0 <= t < before.tracks@.len() && 0 <= i < before.tracks@[t]@.len() && (
            #[trigger] before.tracks@[t]@[i]).input.maps_to != Some(removed_key)
                ==> after.tracks@[t]@[i].input.maps_to == before.tracks@[t]@[i].input.maps_to
                && after.tracks@[t]@[i].choice == (if before.tracks@[t]@[i].choice > removed_at
                && before.tracks@[t]@[i].choice > 1 {
                before.tracks@[t]@[i].choice - 1
            } else {
                before.tracks@[t]@[i].choice as int
            }),
{
}

/// Whether the entries of one track carry pairwise distinct pitches, as
/// the rows of a loaded document do.
pub open spec fn distinct_notes(entries: Seq<InputState>) -> bool {
    forall|i: int, j: int|
        0 <= i < j < entries.len() ==> (#[trigger] entries[i]).input.note != (
        #[trigger] entries[j]).input.note
}

/// Per track, per input note, the interactive mapping state.
pub struct MappingTable {
    pub tracks: Vec<Vec<InputState>>,
}

/// Every binding in the table resolves in the registry.
pub open spec fn table_valid(table: &MappingTable, reg: &OutputRegistry) -> bool {
    forall|t: int, i: int|
        0 <= t < table.tracks@.len() && 0 <= i < (#[trigger] table.tracks@[t])@.len()
            ==> match (#[trigger] table.tracks@[t]@[i]).input.maps_to {
            Some(k) => reg.spec_get(k) is Some,
            None => true,
        }
}

/// The pitch-to-pitch function one track's entries denote under a given
/// registry: each bound entry whose key still resolves contributes its
/// pitch mapped to the output note's pitch.
pub open spec fn track_map_of(entries: Seq<InputState>, reg: &OutputRegistry) -> Map<u8, u8>
    decreases entries.len(),
{
    if entries.len() == 0 {
        Map::empty()
    } else {
        let m0 = track_map_of(entries.drop_last(), reg);
        let e = entries.last();
        match e.input.maps_to {
            Some(k) => match reg.spec_get(k) {
                Some(v) => m0.insert(e.input.note, v.note),
                None => m0,
            },
            None => m0,
        }
    }
}

/// A track with no bound entry denotes the empty pitch function.
pub proof fn lemma_track_map_empty(entries: Seq<InputState>, reg: &OutputRegistry)
    requires
        forall|i: int| 0 <= i < entries.len() ==> (#[trigger] entries[i]).input.maps_to is None,
    ensures
        track_map_of(entries, reg) =~= Map::<u8, u8>::empty(),
    decreases entries.len(),
{
    if entries.len() == 0 {
    } else {
        assert(forall|i: int|
            0 <= i < entries.drop_last().len() ==> entries.drop_last()[i] == entries[i]);
        lemma_track_map_empty(entries.drop_last(), reg);
        assert(entries.last() == entries[entries.len() - 1]);
    }
}

impl MappingTable {
    /// Distinct pitches within each track.
    pub open spec fn wf(&self) -> bool {
        forall|t: int|
            0 <= t < self.tracks@.len() ==> distinct_notes((#[trigger] self.tracks@[t])@)
    }

    /// An empty table.
    pub fn new() -> (r: MappingTable)
        ensures
            r.wf(),
            r.tracks@.len() == 0,
    {
        MappingTable { tracks: Vec::new() }
    }

    /// Overwrites one entry's binding and presentation index; every other
    /// entry, and every entry's note, stays as it was.
    pub fn set_mapping(
        &mut self,
        track: usize,
        index: usize,
        target: Option<OutputNoteKey>,
        choice: usize,
    )
        requires
            track < old(self).tracks@.len(),
            index < old(self).tracks@[track as int]@.len(),
        ensures
            final(self).tracks@.len() == old(self).tracks@.len(),
            forall|t: int|
                0 <= t < old(self).tracks@.len() && t != track ==> (#[trigger] final(self).tracks@[t]) == old(self).tracks@[t],
            final(self).tracks@[track as int]@ == old(self).tracks@[track as int]@.update(
                index as int,
                InputState {
                    input: InputNote {
                        note: old(self).tracks@[track as int]@[index as int].input.note,
                        maps_to: target,
                    },
                    choice,
                },
            ),
    {
        let row = &self.tracks[track];
        let note = row[index].input.note;
        let mut new_row: Vec<InputState> = Vec::new();
        let mut i: usize = 0;
        while i < row.len()
            invariant
                i <= row@.len(),
                row == old(self).tracks@[track as int],
                index < row@.len(),
                new_row@.len() == i,
                note == row@[index as int].input.note,
                forall|x: int| 0 <= x < i && x != index ==> (#[trigger] new_row@[x]) == row@[x],
                index < i ==> new_row@[index as int] == (InputState {
                    input: InputNote { note, maps_to: target },
                    choice,
                }),
            decreases row@.len() - i,
        {
            if i == index {
                new_row.push(InputState { input: InputNote { note, maps_to: target }, choice });
            } else {
                new_row.push(row[i]);
            }
            i = i + 1;
        }
        self.tracks.set(track, new_row);
        proof {
            assert(final(self).tracks@[track as int]@ =~= old(self).tracks@[
                track as int]@.update(
                index as int,
                InputState {
                    input: InputNote {
                        note: old(self).tracks@[track as int]@[index as int].input.note,
                        maps_to: target,
                    },
                    choice,
                },
            ));
        }
    }

    /// The removal repair: visits every entry of every track and applies
    /// `repaired` with the removed key and its registry position.
    pub fn reset_mapping(&mut self, removed_key: OutputNoteKey, removed_at: usize)
        ensures
            final(self).tracks@.len() == old(self).tracks@.len(),
            forall|t: int|
                0 <= t < old(self).tracks@.len() ==> (#[trigger] final(self).tracks@[t])@.len()
                    == old(self).tracks@[t]@.len(),
            forall|t: int, i: int|
                0 <= t < old(self).tracks@.len() && 0 <= i < old(self).tracks@[t]@.len() ==> (
                #[trigger] final(self).tracks@[t]@[i]) == repaired(
                    old(self).tracks@[t]@[i],
                    removed_key,
                    removed_at as int,
                ),
    {
        let mut new_tracks: Vec<Vec<InputState>> = Vec::new();
        let mut t: usize = 0;
        while t < self.tracks.len()
            invariant
                t <= self.tracks@.len(),
                *self == *old(self),
                new_tracks@.len() == t,
                forall|x: int|
                    0 <= x < t ==> (#[trigger] new_tracks@[x])@.len() == old(
                        self,
                    ).tracks@[x]@.len(),
                forall|x: int, i: int|
                    0 <= x < t && 0 <= i < old(self).tracks@[x]@.len() ==> (
                    #[trigger] new_tracks@[x]@[i]) == repaired(
                        old(self).tracks@[x]@[i],
                        removed_key,
                        removed_at as int,
                    ),
            decreases self.tracks@.len() - t,
        {
            let row = &self.tracks[t];
            let mut new_row: Vec<InputState> = Vec::new();
            let mut i: usize = 0;
            while i < row.len()
                invariant
                    i <= row@.len(),
                    row == old(self).tracks@[t as int],
                    t < old(self).tracks@.len(),
                    new_row@.len() == i,
                    forall|x: int|
                        0 <= x < i ==> (#[trigger] new_row@[x]) == repaired(
                            row@[x],
                            removed_key,
                            removed_at as int,
                        ),
                decreases row@.len() - i,
            {
                let e = row[i];
                let hit = match e.input.maps_to {
                    Some(k) => k.slot == removed_key.slot && k.generation
                        == removed_key.generation,
                    None => false,
                };
                let e1 = if hit {
                    InputState { input: InputNote { note: e.input.note, maps_to: None }, choice: 0 }
                } else {
                    e
                };
                let e2 = if e1.choice > removed_at && e1.choice > 1 {
                    InputState { input: e1.input, choice: e1.choice - 1 }
                } else {
                    e1
                };
                new_row.push(e2);
                i = i + 1;
            }
            new_tracks.push(new_row);
            t = t + 1;
        }
        self.tracks = new_tracks;
    }

    /// Builds, for each selected track in ascending order, the mapping
    /// that the track's bindings denote under the registry, resolving
    /// every key at call time.
    pub fn build_mapping(&self, registry: &OutputRegistry, selected: &Vec<bool>) -> (r: Vec<
        Mapping,
    >)
        requires
            registry.wf(),
            self.wf(),
            selected@.len() == self.tracks@.len(),
        ensures
            forall|j: int| 0 <= j < r@.len() ==> (#[trigger] r@[j]).wf(),
            forall|j1: int, j2: int|
                0 <= j1 < j2 < r@.len() ==> (#[trigger] r@[j1]).track < (#[trigger] r@[j2]).track,
            forall|j: int|
                0 <= j < r@.len() ==> (#[trigger] r@[j]).track < self.tracks@.len()
                    && selected@[r@[j].track as int],
            forall|j: int|
                0 <= j < r@.len() ==> pairs_map((#[trigger] r@[j]).map@) == track_map_of(
                    self.tracks@[r@[j].track as int]@,
                    registry,
                ),
            forall|t: int|
                0 <= t < selected@.len() && selected@[t] ==> exists|j: int|
                    0 <= j < r@.len() && (#[trigger] r@[j]).track == t,
    {
        let mut r: Vec<Mapping> = Vec::new();
        let mut t: usize = 0;
        while t < self.tracks.len()
            invariant
                t <= self.tracks@.len(),
                selected@.len() == self.tracks@.len(),
                registry.wf(),
                self.wf(),
                forall|j: int| 0 <= j < r@.len() ==> (#[trigger] r@[j]).wf(),
                forall|j: int| 0 <= j < r@.len() ==> (#[trigger] r@[j]).track < t,
                forall|j1: int, j2: int|
                    0 <= j1 < j2 < r@.len() ==> (#[trigger] r@[j1]).track < (
                    #[trigger] r@[j2]).track,
                forall|j: int|
                    0 <= j < r@.len() ==> selected@[(#[trigger] r@[j]).track as int],
                forall|j: int|
                    0 <= j < r@.len() ==> pairs_map((#[trigger] r@[j]).map@) == track_map_of(
                        self.tracks@[r@[j].track as int]@,
                        registry,
                    ),
                forall|x: int|
                    0 <= x < t && selected@[x] ==> exists|j: int|
                        0 <= j < r@.len() && (#[trigger] r@[j]).track == x,
            decreases self.tracks@.len() - t,
        {
            if selected[t] {
                let row = &self.tracks[t];
                let ghost entries = row@;
                let mut pairs: Vec<(u8, u8)> = Vec::new();
                let mut i: usize = 0;
                while i < row.len()
                    invariant
                        i <= entries.len(),
                        row == self.tracks@[t as int],
                        entries == row@,
                        t < self.tracks@.len(),
                        registry.wf(),
                        distinct_notes(entries),
                        pairs_map(pairs@) == track_map_of(entries.take(i as int), registry),
                        forall|x: int|
                            0 <= x < pairs@.len() ==> exists|y: int|
                                0 <= y < i && (#[trigger] pairs@[x]).0 == entries[y].input.note,
                        forall|x1: int, x2: int|
                            0 <= x1 < x2 < pairs@.len() ==> (#[trigger] pairs@[x1]).0 != (
                            #[trigger] pairs@[x2]).0,
                        forall|x: int| 0 <= x < pairs@.len() ==> (#[trigger] pairs@[x]).1 < 0x80,
                    decreases entries.len() - i,
                {
                    let e = row[i];
                    proof {
                        assert(entries.take(i + 1).drop_last() =~= entries.take(i as int));
                        assert(entries.take(i + 1).last() == entries[i as int]);
                    }
                    let ghost old_pairs = pairs@;
                    match e.input.maps_to {
                        Some(k) => {
                            match registry.get(k) {
                                Some(v) => {
                                    proof {
                                        assert(registry.slots@[k.slot as int].value is Some);
                                        assert(v.note < 0x80);
                                        assert forall|x: int|
                                            0 <= x < pairs@.len() implies (#[trigger] pairs@[x]).0
                                            != e.input.note by {
                                            let y = choose|y: int|
                                                0 <= y < i && (#[trigger] pairs@[x]).0 == entries[
                                                y].input.note;
                                        }
                                    }
                                    pairs.push((e.input.note, v.note));
                                    proof {
                                        assert(pairs@.drop_last() =~= old_pairs);
                                        assert(pairs@.last() == (e.input.note, v.note));
                                        assert(pairs_map(pairs@) == pairs_map(old_pairs).insert(
                                            e.input.note,
                                            v.note,
                                        ));
                                    }
                                },
                                None => {},
                            }
                        },
                        None => {},
                    }
                    proof {
                        assert(pairs_map(pairs@) == track_map_of(entries.take(i + 1), registry));
                    }
                    i = i + 1;
                }
                proof {
                    assert(entries.take(entries.len() as int) =~= entries);
                }
                let ghost old_r = r@;
                r.push(Mapping { track: t, map: pairs });
                proof {
                    assert(r@[r@.len() - 1].track == t as int);
                    assert forall|x: int|
                        0 <= x < t + 1 && selected@[x] implies exists|j: int|
                        0 <= j < r@.len() && (#[trigger] r@[j]).track == x by {
                        if x == t {
                            assert(r@[r@.len() - 1].track == x);
                        } else {
                            let j = choose|j: int|
                                0 <= j < old_r.len() && (#[trigger] old_r[j]).track == x;
                            assert(r@[j].track == x);
                        }
                    }
                }
            }
            t = t + 1;
        }
        r
    }
}

/// A fresh table for a loaded document: one unbound entry per distinct
/// pitch of each track, in the document's order.
pub fn init_tracks(midi: &MidiFile) -> (r: MappingTable)
    requires
        midi.wf(),
    ensures
        r.wf(),
        r.tracks@.len() == midi.tracks@.len(),
        forall|t: int|
            0 <= t < midi.tracks@.len() ==> (#[trigger] r.tracks@[t])@.len()
                == midi.tracks@[t]@.len(),
        forall|t: int, i: int|
            0 <= t < midi.tracks@.len() && 0 <= i < midi.tracks@[t]@.len() ==> (
            #[trigger] r.tracks@[t]@[i]) == (InputState {
                input: InputNote { note: midi.tracks@[t]@[i], maps_to: None },
                choice: 0,
            }),
{
    let mut tracks: Vec<Vec<InputState>> = Vec::new();
    let mut t: usize = 0;
    while t < midi.tracks.len()
        invariant
            t <= midi.tracks@.len(),
            midi.wf(),
            tracks@.len() == t,
            forall|x: int|
                0 <= x < t ==> (#[trigger] tracks@[x])@.len() == midi.tracks@[x]@.len(),
            forall|x: int, i: int|
                0 <= x < t && 0 <= i < midi.tracks@[x]@.len() ==> (#[trigger] tracks@[x]@[i])
                    == (InputState {
                    input: InputNote { note: midi.tracks@[x]@[i], maps_to: None },
                    choice: 0,
                }),
        decreases midi.tracks@.len() - t,
    {
        let row = &midi.tracks[t];
        let mut entries: Vec<InputState> = Vec::new();
        let mut i: usize = 0;
        while i < row.len()
            invariant
                i <= row@.len(),
                row == midi.tracks@[t as int],
                entries@.len() == i,
                forall|x: int|
                    0 <= x < i ==> (#[trigger] entries@[x]) == (InputState {
                        input: InputNote { note: row@[x], maps_to: None },
                        choice: 0,
                    }),
            decreases row@.len() - i,
        {
            entries.push(InputState::new(row[i]));
            i = i + 1;
        }
        tracks.push(entries);
        t = t + 1;
    }
    let r = MappingTable { tracks };
    proof {
        assert forall|t2: int|
            0 <= t2 < r.tracks@.len() implies distinct_notes((#[trigger] r.tracks@[t2])@) by {
            assert(crate::midi_file::rows_view(midi.tracks@)[t2] == midi.tracks@[t2]@);
            assert(crate::midi_file::strictly_increasing(midi.tracks@[t2]@));
            assert forall|i: int, j: int|
                0 <= i < j < r.tracks@[t2]@.len() implies (#[trigger] r.tracks@[t2]@[i]).input.note
                != (#[trigger] r.tracks@[t2]@[j]).input.note by {
                assert(midi.tracks@[t2]@[i] < midi.tracks@[t2]@[j]);
            }
        }
    }
    r
}

/// Applies one selection made in the candidate list: choice 0 clears the
/// entry's binding, and choice `c >= 1` binds it to the registry's
/// `c - 1`-th entry in insertion order.  A valid table stays valid.
pub fn select_output(
    table: &mut MappingTable,
    registry: &OutputRegistry,
    track: usize,
    index: usize,
    choice: usize,
)
    requires
        registry.wf(),
        track < old(table).tracks@.len(),
        index < old(table).tracks@[track as int]@.len(),
        choice <= registry.order@.len(),
    ensures
        final(table).tracks@.len() == old(table).tracks@.len(),
        forall|t: int|
            0 <= t < old(table).tracks@.len() && t != track ==> (#[trigger] final(table).tracks@[t]) == old(table).tracks@[t],
        final(table).tracks@[track as int]@ == old(table).tracks@[track as int]@.update(
            index as int,
            InputState {
                input: InputNote {
                    note: old(table).tracks@[track as int]@[index as int].input.note,
                    maps_to: if choice == 0 {
                        None
                    } else {
                        Some(registry.order@[choice - 1])
                    },
                },
                choice,
            },
        ),
        table_valid(old(table), registry) ==> table_valid(final(table), registry),
{
    if choice == 0 {
        table.set_mapping(track, index, None, choice);
    } else {
        let key = registry.order[choice - 1];
        table.set_mapping(track, index, Some(key), choice);
    }
    proof {
        assert forall|t: int, i: int|
            0 <= t < table.tracks@.len() && 0 <= i < table.tracks@[t]@.len() && table_valid(
                old(table),
                registry,
            ) implies match (#[trigger] table.tracks@[t]@[i]).input.maps_to {
            Some(k) => registry.spec_get(k) is Some,
            None => true,
        } by {
            if t == track && i == index {
                if choice > 0 {
                    assert(registry.spec_get(registry.order@[choice - 1]) is Some);
                }
            } else {
                assert(table.tracks@[t]@[i] == old(table).tracks@[t]@[i]);
            }
        }
    }
}

/// Removes a registry entry and repairs the table in one step: the
/// removal is never observable without the repair.  Yields whether the
/// key was live; a valid table stays valid.
pub fn remove_output(
    registry: &mut OutputRegistry,
    table: &mut MappingTable,
    key: OutputNoteKey,
) -> (r: bool)
    requires
        old(registry).wf(),
    ensures
        final(registry).wf(),
        final(registry).issued@ == old(registry).issued@,
        r == (old(registry).spec_get(key) is Some),
        !r ==> *final(registry) == *old(registry) && *final(table) == *old(table),
        r ==> final(registry).spec_get(key) is None && (forall|k: OutputNoteKey|
            k != key ==> final(registry).spec_get(k) == old(registry).spec_get(k)) && exists|
            j: int,
        |
            0 <= j < old(registry).order@.len() && old(registry).order@[j] == key && final(registry).order@ == old(registry).order@.remove(j) && (forall|t: int, i: int|
                0 <= t < old(table).tracks@.len() && 0 <= i < old(table).tracks@[t]@.len() ==> (
                #[trigger] final(table).tracks@[t]@[i]) == repaired(old(table).tracks@[t]@[i], key, j)),
        table_valid(old(table), old(registry)) ==> table_valid(final(table), final(registry)),
{
    let pos = registry.remove(key);
    match pos {
        None => false,
        Some(j) => {
            table.reset_mapping(key, j);
            proof {
                assert forall|t: int, i: int|
                    0 <= t < table.tracks@.len() && 0 <= i < table.tracks@[t]@.len()
                        && table_valid(old(table), old(registry)) implies match (
                #[trigger] table.tracks@[t]@[i]).input.maps_to {
                    Some(k) => registry.spec_get(k) is Some,
                    None => true,
                } by {
                    let e = old(table).tracks@[t]@[i];
                    lemma_repair_cases(e, key, j as int);
                    match table.tracks@[t]@[i].input.maps_to {
                        Some(k) => {
                            assert(e.input.maps_to == Some(k));
                            assert(k != key);
                        },
                        None => {},
                    }
                }
            }
            true
        },
    }
}

} // verus!
