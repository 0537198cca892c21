//! The load state machine, and cross-checks against independent MIDI
//! tooling: files written by midly load here, files written here parse
//! with midly, and the lossy pitch decoding agrees with wmidi.

use midi_mapper::loader::{LoadState, PollEvent};
use midi_mapper::midi_file::{Mapping, MidiFile};
use midi_mapper::Error;
use midly::num::{u15, u28, u4, u7};
use midly::{Format, Header, MidiMessage, Smf, Timing, TrackEvent, TrackEventKind};

fn track_chunk(events: &[u8]) -> Vec<u8> {
    let mut v = vec![b'M', b'T', b'r', b'k'];
    v.extend_from_slice(&(events.len() as u32).to_be_bytes());
    v.extend_from_slice(events);
    v
}

fn smf(tracks: &[Vec<u8>]) -> Vec<u8> {
    let mut v = vec![b'M', b'T', b'h', b'd', 0, 0, 0, 6, 0, 1];
    v.extend_from_slice(&(tracks.len() as u16).to_be_bytes());
    v.extend_from_slice(&[0, 96]);
    for t in tracks {
        v.extend_from_slice(t);
    }
    v
}

fn one_note_file(pitch: u8) -> Vec<u8> {
    let t0 = track_chunk(&[
        0x00, 0x90, pitch, 64, 0x10, 0x80, pitch, 64, 0x00, 0xFF, 0x2F, 0x00,
    ]);
    smf(&[t0])
}

#[test]
fn loader_walks_the_happy_path() {
    let state = LoadState::Uninitialized;
    let state = state.start_load();
    let (state, err) = state.on_poll(PollEvent::Empty);
    assert!(err.is_none());
    let midi = MidiFile::new(one_note_file(60)).unwrap();
    let (state, err) = state.on_poll(PollEvent::Finished(Ok(midi)));
    assert!(err.is_none());
    let doc = state.document().unwrap();
    assert_eq!(doc.tracks, vec![vec![60]]);
}

#[test]
fn loader_surfaces_a_parse_failure_and_reverts() {
    let state = LoadState::Uninitialized.start_load();
    let (state, err) = state.on_poll(PollEvent::Finished(Err(Error::Parse)));
    assert_eq!(err, Some(Error::Parse));
    assert!(state.document().is_none());
    // The slot is free again: a new load may start.
    let _ = state.start_load();
}

#[test]
fn loader_treats_disconnect_as_a_failed_load() {
    let state = LoadState::Uninitialized.start_load();
    let (state, err) = state.on_poll(PollEvent::Disconnected);
    assert!(err.is_none());
    assert!(state.document().is_none());
    let _ = state.start_load();
}

#[test]
fn a_file_written_by_midly_loads_here() {
    let header = Header::new(Format::SingleTrack, Timing::Metrical(u15::new(96)));
    let mut smf = Smf::new(header);
    let mut track = Vec::new();
    for (delta, key, vel) in [(0u32, 61u8, 64u8), (32, 61, 0), (0, 65, 64), (32, 65, 0)] {
        let message = if vel > 0 {
            MidiMessage::NoteOn { key: u7::new(key), vel: u7::new(vel) }
        } else {
            MidiMessage::NoteOff { key: u7::new(key), vel: u7::new(vel) }
        };
        track.push(TrackEvent {
            delta: u28::new(delta),
            kind: TrackEventKind::Midi { channel: u4::new(0), message },
        });
    }
    track.push(TrackEvent {
        delta: u28::new(0),
        kind: TrackEventKind::Meta(midly::MetaMessage::EndOfTrack),
    });
    smf.tracks.push(track);
    let mut bytes: Vec<u8> = Vec::new();
    smf.write(&mut bytes).unwrap();

    let midi = MidiFile::new(bytes).unwrap();
    assert_eq!(midi.tracks, vec![vec![61, 65]]);
}

#[test]
fn a_remapped_file_parses_with_midly() {
    let bytes = one_note_file(60);
    let midi = MidiFile::new(bytes).unwrap();
    let mappings = vec![Mapping { track: 0, map: vec![(60, 62)] }];
    let out = midi.map_file(&mappings).unwrap();

    let parsed = midly::Smf::parse(&out).unwrap();
    assert_eq!(parsed.tracks.len(), 1);
    let mut pitches = Vec::new();
    for event in &parsed.tracks[0] {
        if let midly::TrackEventKind::Midi { message, .. } = event.kind {
            match message {
                midly::MidiMessage::NoteOn { key, .. } => pitches.push(key.as_int()),
                midly::MidiMessage::NoteOff { key, .. } => pitches.push(key.as_int()),
                _ => {}
            }
        }
    }
    assert_eq!(pitches, vec![62, 62]);
}

#[test]
fn lossy_pitch_decoding_agrees_with_wmidi() {
    for raw in [0u8, 60, 127, 128, 200, 255] {
        let midi = MidiFile::new(one_note_file(raw)).unwrap();
        let expected = wmidi::Note::from_u8_lossy(raw) as u8;
        assert_eq!(midi.tracks, vec![vec![expected]]);
    }
}
