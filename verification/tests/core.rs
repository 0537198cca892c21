//! Loading, the note summary, and the remap transform on raw bytes.

use midi_mapper::Error;
use midi_mapper::midi_file::{Mapping, MidiFile, remap_bytes};

fn track_chunk(events: &[u8]) -> Vec<u8> {
    let mut v = vec![b'M', b'T', b'r', b'k'];
    v.extend_from_slice(&(events.len() as u32).to_be_bytes());
    v.extend_from_slice(events);
    v
}

fn smf(tracks: &[Vec<u8>]) -> Vec<u8> {
    let mut v = vec![b'M', b'T', b'h', b'd', 0, 0, 0, 6, 0, 1];
    v.extend_from_slice(&(tracks.len() as u16).to_be_bytes());
    v.extend_from_slice(&[0, 96]);
    for t in tracks {
        v.extend_from_slice(t);
    }
    v
}

fn two_track_file() -> Vec<u8> {
    // Track 0: notes 60, 64, 67 (on and off), then end of track.
    let t0 = track_chunk(&[
        0x00, 0x90, 60, 64, 0x00, 0x90, 64, 64, 0x00, 0x90, 67, 64, 0x10, 0x80, 60, 64, 0x00,
        0x80, 64, 64, 0x00, 0x80, 67, 64, 0x00, 0xFF, 0x2F, 0x00,
    ]);
    // Track 1: note 72 on channel 1.
    let t1 = track_chunk(&[0x00, 0x91, 72, 80, 0x20, 0x81, 72, 0, 0x00, 0xFF, 0x2F, 0x00]);
    smf(&[t0, t1])
}

#[test]
fn load_collects_distinct_pitches_per_track() {
    let bytes = two_track_file();
    let midi = MidiFile::new(bytes).unwrap();
    assert_eq!(midi.tracks.len(), 2);
    assert_eq!(midi.tracks[0], vec![60, 64, 67]);
    assert_eq!(midi.tracks[1], vec![72]);
}

#[test]
fn load_deduplicates_and_sorts() {
    // The same pitch on and off twice, plus a lower one afterwards.
    let t0 = track_chunk(&[
        0x00, 0x90, 70, 64, 0x00, 0x80, 70, 64, 0x00, 0x90, 70, 32, 0x00, 0x80, 70, 32, 0x00,
        0x90, 10, 64, 0x00, 0x80, 10, 64, 0x00, 0xFF, 0x2F, 0x00,
    ]);
    let midi = MidiFile::new(smf(&[t0])).unwrap();
    assert_eq!(midi.tracks, vec![vec![10, 70]]);
}

#[test]
fn load_ignores_other_event_kinds() {
    // A control change, a program change, a pitch bend, a meta text
    // event and a sysex: none of them contributes a pitch.
    let t0 = track_chunk(&[
        0x00, 0xB0, 7, 100, 0x00, 0xC0, 5, 0x00, 0xE0, 0, 64, 0x00, 0xFF, 0x01, 0x02, b'h',
        b'i', 0x00, 0xF0, 0x02, 0x01, 0xF7, 0x00, 0x90, 55, 64, 0x00, 0x80, 55, 64, 0x00, 0xFF,
        0x2F, 0x00,
    ]);
    let midi = MidiFile::new(smf(&[t0])).unwrap();
    assert_eq!(midi.tracks, vec![vec![55]]);
}

#[test]
fn load_uses_running_status() {
    // The second note-on omits its status byte.
    let t0 = track_chunk(&[
        0x00, 0x90, 40, 64, 0x08, 41, 64, 0x00, 0x80, 40, 0, 0x00, 0xFF, 0x2F, 0x00,
    ]);
    let midi = MidiFile::new(smf(&[t0])).unwrap();
    assert_eq!(midi.tracks, vec![vec![40, 41]]);
}

#[test]
fn load_masks_out_of_range_key_bytes() {
    // A key byte with the high bit set decodes to its low seven bits.
    let t0 = track_chunk(&[0x00, 0x90, 0xFF, 64, 0x00, 0x80, 0xFF, 64, 0x00, 0xFF, 0x2F, 0x00]);
    let midi = MidiFile::new(smf(&[t0])).unwrap();
    assert_eq!(midi.tracks, vec![vec![0x7F]]);
}

#[test]
fn load_rejects_bad_header_magic() {
    let mut bytes = two_track_file();
    bytes[0] = b'X';
    assert_eq!(MidiFile::new(bytes).unwrap_err(), Error::Parse);
}

#[test]
fn load_rejects_bad_header_length() {
    let mut bytes = two_track_file();
    bytes[7] = 7;
    assert_eq!(MidiFile::new(bytes).unwrap_err(), Error::Parse);
}

#[test]
fn load_rejects_bad_track_magic() {
    let mut bytes = two_track_file();
    bytes[14] = b'X';
    assert_eq!(MidiFile::new(bytes).unwrap_err(), Error::Parse);
}

#[test]
fn load_rejects_truncated_track() {
    let bytes = two_track_file();
    let cut = bytes.len() - 3;
    assert_eq!(MidiFile::new(bytes[..cut].to_vec()).unwrap_err(), Error::Parse);
}

#[test]
fn load_rejects_missing_tracks() {
    // The header announces two tracks but only one follows.
    let t0 = track_chunk(&[0x00, 0xFF, 0x2F, 0x00]);
    let mut v = vec![b'M', b'T', b'h', b'd', 0, 0, 0, 6, 0, 1, 0, 2, 0, 96];
    v.extend_from_slice(&t0);
    assert_eq!(MidiFile::new(v).unwrap_err(), Error::Parse);
}

#[test]
fn load_rejects_empty_input() {
    assert_eq!(MidiFile::new(Vec::new()).unwrap_err(), Error::Parse);
}

#[test]
fn error_messages_name_the_failure() {
    assert_eq!(Error::Parse.message(), "malformed MIDI file");
    assert_eq!(Error::Io.message(), "file I/O failed");
}

#[test]
fn remap_rewrites_only_mapped_key_bytes() {
    // The round trip: 60 -> 62 on track 0; velocity, timing, channel and
    // the other notes' bytes stay byte-identical.
    let bytes = two_track_file();
    let midi = MidiFile::new(bytes.clone()).unwrap();
    let mappings = vec![Mapping { track: 0, map: vec![(60, 62)] }];
    let out = midi.map_file(&mappings).unwrap();
    assert_eq!(out.len(), bytes.len());
    let diffs: Vec<usize> = (0..bytes.len()).filter(|&i| bytes[i] != out[i]).collect();
    // Track 0's data begins at offset 22; the two key bytes of note 60
    // sit at the start of the first note-on and the fourth event.
    assert_eq!(diffs, vec![24, 36]);
    assert_eq!(out[24], 62);
    assert_eq!(out[36], 62);
}

#[test]
fn remap_empty_map_is_byte_identical() {
    let bytes = two_track_file();
    let midi = MidiFile::new(bytes.clone()).unwrap();
    let mappings = vec![Mapping { track: 0, map: vec![] }];
    let out = midi.map_file(&mappings).unwrap();
    assert_eq!(out, bytes);
}

#[test]
fn remap_output_reloads_with_mapped_summary() {
    let bytes = two_track_file();
    let midi = MidiFile::new(bytes).unwrap();
    let mappings = vec![Mapping { track: 0, map: vec![(60, 62), (67, 2)] }];
    let out = midi.map_file(&mappings).unwrap();
    let reloaded = MidiFile::new(out).unwrap();
    assert_eq!(reloaded.tracks[0], vec![2, 62, 64]);
    assert_eq!(reloaded.tracks[1], vec![72]);
}

#[test]
fn remap_bytes_rejects_malformed_input() {
    let mappings = vec![Mapping { track: 0, map: vec![(60, 62)] }];
    assert_eq!(remap_bytes(&vec![1, 2, 3], &mappings).unwrap_err(), Error::Parse);
}

#[test]
fn remap_leaves_unnamed_tracks_untouched() {
    let bytes = two_track_file();
    let midi = MidiFile::new(bytes.clone()).unwrap();
    let mappings = vec![Mapping { track: 1, map: vec![(72, 76)] }];
    let out = midi.map_file(&mappings).unwrap();
    // Track 0's whole chunk (and the header) is byte-identical.
    let t1_chunk_start = bytes.len() - 20;
    assert_eq!(&out[..t1_chunk_start], &bytes[..t1_chunk_start]);
    let reloaded = MidiFile::new(out).unwrap();
    assert_eq!(reloaded.tracks[0], vec![60, 64, 67]);
    assert_eq!(reloaded.tracks[1], vec![76]);
}

#[test]
fn remap_out_of_range_track_maps_nothing() {
    let bytes = two_track_file();
    let midi = MidiFile::new(bytes.clone()).unwrap();
    let mappings = vec![Mapping { track: 9, map: vec![(60, 62)] }];
    let out = midi.map_file(&mappings).unwrap();
    assert_eq!(out, bytes);
}

#[test]
fn remap_trailing_bytes_survive() {
    // Bytes past the announced tracks are ignored by the parse and kept
    // verbatim by the transform.
    let mut bytes = two_track_file();
    bytes.extend_from_slice(&[1, 2, 3]);
    let midi = MidiFile::new(bytes.clone()).unwrap();
    let mappings = vec![Mapping { track: 1, map: vec![(72, 76)] }];
    let out = midi.map_file(&mappings).unwrap();
    assert_eq!(&out[out.len() - 3..], &[1, 2, 3]);
}
