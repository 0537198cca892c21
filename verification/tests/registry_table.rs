//! The output registry's stable keys and the mapping table's removal
//! repair, plus the end-to-end selection scenario.

use midi_mapper::inputs::{init_tracks, remove_output, select_output};
use midi_mapper::mapper::{InputNote, OutputNote, OutputNotePanel, OutputRegistry};
use midi_mapper::midi_file::MidiFile;

fn track_chunk(events: &[u8]) -> Vec<u8> {
    let mut v = vec![b'M', b'T', b'r', b'k'];
    v.extend_from_slice(&(events.len() as u32).to_be_bytes());
    v.extend_from_slice(events);
    v
}

fn smf(tracks: &[Vec<u8>]) -> Vec<u8> {
    let mut v = vec![b'M', b'T', b'h', b'd', 0, 0, 0, 6, 0, 1];
    v.extend_from_slice(&(tracks.len() as u16).to_be_bytes());
    v.extend_from_slice(&[0, 96]);
    for t in tracks {
        v.extend_from_slice(t);
    }
    v
}

fn two_track_file() -> Vec<u8> {
    let t0 = track_chunk(&[
        0x00, 0x90, 60, 64, 0x00, 0x90, 64, 64, 0x00, 0x90, 67, 64, 0x10, 0x80, 60, 64, 0x00,
        0x80, 64, 64, 0x00, 0x80, 67, 64, 0x00, 0xFF, 0x2F, 0x00,
    ]);
    let t1 = track_chunk(&[0x00, 0x91, 72, 80, 0x20, 0x81, 72, 0, 0x00, 0xFF, 0x2F, 0x00]);
    smf(&[t0, t1])
}

#[test]
fn registry_insert_and_get() {
    let mut reg = OutputRegistry::new();
    let k = reg.insert(OutputNote::new(62));
    assert_eq!(reg.get(k), Some(OutputNote::new(62)));
}

#[test]
fn registry_remove_invalidates_key() {
    let mut reg = OutputRegistry::new();
    let k = reg.insert(OutputNote::new(62));
    assert_eq!(reg.remove(k), Some(0));
    assert_eq!(reg.get(k), None);
    assert_eq!(reg.remove(k), None);
}

#[test]
fn registry_reused_slot_never_aliases_old_key() {
    let mut reg = OutputRegistry::new();
    let k1 = reg.insert(OutputNote::new(62));
    reg.remove(k1);
    let k2 = reg.insert(OutputNote::new(76));
    assert_ne!(k1, k2);
    assert_eq!(reg.get(k1), None);
    assert_eq!(reg.get(k2), Some(OutputNote::new(76)));
}

#[test]
fn registry_entries_keep_insertion_order() {
    let mut reg = OutputRegistry::new();
    let ka = reg.insert(OutputNote::new(10));
    let kb = reg.insert(OutputNote::new(20));
    let kc = reg.insert(OutputNote::new(30));
    reg.remove(kb);
    let entries = reg.entries();
    assert_eq!(entries.len(), 2);
    assert_eq!(entries[0], (ka, OutputNote::new(10)));
    assert_eq!(entries[1], (kc, OutputNote::new(30)));
}

#[test]
fn registry_remove_reports_position() {
    let mut reg = OutputRegistry::new();
    let _ka = reg.insert(OutputNote::new(10));
    let kb = reg.insert(OutputNote::new(20));
    assert_eq!(reg.remove(kb), Some(1));
}

#[test]
fn registry_permits_duplicate_pitches() {
    let mut reg = OutputRegistry::new();
    let k1 = reg.insert(OutputNote::new(62));
    let k2 = reg.insert(OutputNote::new(62));
    assert_ne!(k1, k2);
    assert_eq!(reg.entries().len(), 2);
}

#[test]
fn input_note_starts_unbound() {
    let n = InputNote::new(60);
    assert_eq!(n.note, 60);
    assert!(n.maps_to.is_none());
}

#[test]
fn output_note_panel_pairs_key_with_empty_alias() {
    let mut reg = OutputRegistry::new();
    let k = reg.insert(OutputNote::new(62));
    let panel = OutputNotePanel::new(k);
    assert_eq!(panel.key, k);
    assert!(panel.alias.is_empty());
}

#[test]
fn init_tracks_mirrors_the_summary() {
    let midi = MidiFile::new(two_track_file()).unwrap();
    let table = init_tracks(&midi);
    assert_eq!(table.tracks.len(), 2);
    assert_eq!(table.tracks[0].len(), 3);
    assert_eq!(table.tracks[0][1].input.note, 64);
    assert!(table.tracks[0][1].input.maps_to.is_none());
    assert_eq!(table.tracks[0][1].choice, 0);
    assert_eq!(table.tracks[1][0].input.note, 72);
}

#[test]
fn removal_repair_clears_all_references_to_the_removed_key() {
    let midi = MidiFile::new(two_track_file()).unwrap();
    let mut table = init_tracks(&midi);
    let mut reg = OutputRegistry::new();
    let _k62 = reg.insert(OutputNote::new(62));
    let k76 = reg.insert(OutputNote::new(76));
    // Two entries across both tracks point at the second registry entry
    // (choice 2), one at the first (choice 1).
    select_output(&mut table, &reg, 0, 0, 2);
    select_output(&mut table, &reg, 1, 0, 2);
    select_output(&mut table, &reg, 0, 1, 1);
    assert!(remove_output(&mut reg, &mut table, k76));
    // Both references to the removed key are gone, selection reset.
    assert!(table.tracks[0][0].input.maps_to.is_none());
    assert_eq!(table.tracks[0][0].choice, 0);
    assert!(table.tracks[1][0].input.maps_to.is_none());
    assert_eq!(table.tracks[1][0].choice, 0);
    // The reference to the other entry is untouched: its index (1) did
    // not exceed the removed position.
    assert!(table.tracks[0][1].input.maps_to.is_some());
    assert_eq!(table.tracks[0][1].choice, 1);
    // The removed key resolves to nothing now.
    assert!(reg.get(k76).is_none());
}

#[test]
fn removal_repair_decrements_indices_past_the_removed_position() {
    let midi = MidiFile::new(two_track_file()).unwrap();
    let mut table = init_tracks(&midi);
    let mut reg = OutputRegistry::new();
    let k10 = reg.insert(OutputNote::new(10));
    let _k20 = reg.insert(OutputNote::new(20));
    let _k30 = reg.insert(OutputNote::new(30));
    // Entries bound to positions 0, 1 and 2 (choices 1, 2 and 3).
    select_output(&mut table, &reg, 0, 0, 1);
    select_output(&mut table, &reg, 0, 1, 2);
    select_output(&mut table, &reg, 0, 2, 3);
    // Remove the first entry (position 0): the bound entry resets, the
    // other two indices close ranks.
    assert!(remove_output(&mut reg, &mut table, k10));
    assert!(table.tracks[0][0].input.maps_to.is_none());
    assert_eq!(table.tracks[0][0].choice, 0);
    assert_eq!(table.tracks[0][1].choice, 1);
    assert_eq!(table.tracks[0][2].choice, 2);
    // The surviving bindings still resolve.
    assert_eq!(reg.get(table.tracks[0][1].input.maps_to.unwrap()).unwrap().note, 20);
    assert_eq!(reg.get(table.tracks[0][2].input.maps_to.unwrap()).unwrap().note, 30);
}

#[test]
fn removing_a_dead_key_changes_nothing() {
    let midi = MidiFile::new(two_track_file()).unwrap();
    let mut table = init_tracks(&midi);
    let mut reg = OutputRegistry::new();
    let k = reg.insert(OutputNote::new(62));
    reg.remove(k);
    select_output(&mut table, &reg, 0, 0, 0);
    assert!(!remove_output(&mut reg, &mut table, k));
    assert_eq!(table.tracks[0][0].choice, 0);
}

#[test]
fn build_mapping_of_unbound_track_is_empty() {
    let midi = MidiFile::new(two_track_file()).unwrap();
    let table = init_tracks(&midi);
    let reg = OutputRegistry::new();
    let mappings = table.build_mapping(&reg, &vec![true, false]);
    assert_eq!(mappings.len(), 1);
    assert_eq!(mappings[0].track, 0);
    assert!(mappings[0].map.is_empty());
}

#[test]
fn build_mapping_resolves_keys_at_call_time() {
    let midi = MidiFile::new(two_track_file()).unwrap();
    let mut table = init_tracks(&midi);
    let mut reg = OutputRegistry::new();
    let _k62 = reg.insert(OutputNote::new(62));
    select_output(&mut table, &reg, 0, 0, 1);
    let mappings = table.build_mapping(&reg, &vec![true, true]);
    assert_eq!(mappings.len(), 2);
    assert_eq!(mappings[0].track, 0);
    assert_eq!(mappings[0].map, vec![(60, 62)]);
    assert_eq!(mappings[1].track, 1);
    assert!(mappings[1].map.is_empty());
}

#[test]
fn two_track_selection_scenario() {
    // Load a two-track file, declare outputs 62 and 76, bind 60 -> 62 on
    // track 0 and 72 -> 76 on track 1, then save with only track 1
    // selected: track 0 stays byte-identical, track 1 carries 76.
    let bytes = two_track_file();
    let midi = MidiFile::new(bytes.clone()).unwrap();
    assert_eq!(midi.tracks[0], vec![60, 64, 67]);
    assert_eq!(midi.tracks[1], vec![72]);
    let mut reg = OutputRegistry::new();
    let _k62 = reg.insert(OutputNote::new(62));
    let _k76 = reg.insert(OutputNote::new(76));
    let mut table = init_tracks(&midi);
    select_output(&mut table, &reg, 0, 0, 1);
    select_output(&mut table, &reg, 1, 0, 2);
    let mappings = table.build_mapping(&reg, &vec![false, true]);
    assert_eq!(mappings.len(), 1);
    assert_eq!(mappings[0].track, 1);
    assert_eq!(mappings[0].map, vec![(72, 76)]);
    let out = midi.map_file(&mappings).unwrap();
    // Track 0's chunk, and everything before track 1's data, is
    // byte-identical.
    let t1_data = bytes.len() - 12;
    assert_eq!(&out[..t1_data], &bytes[..t1_data]);
    let reloaded = MidiFile::new(out).unwrap();
    assert_eq!(reloaded.tracks[0], vec![60, 64, 67]);
    assert_eq!(reloaded.tracks[1], vec![76]);
}
