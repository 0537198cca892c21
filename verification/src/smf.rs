//! Mathematical model of the standard MIDI file (SMF) container.
//!
//! The model describes, for a byte sequence, where the track chunks lie and
//! where the note-on / note-off events inside each track keep their key
//! (pitch) byte.  Everything else about an event — delta time, velocity,
//! channel, meta and sysex payloads — is deliberately left opaque: the
//! library never edits those bytes, so the model only has to know how far
//! each event reaches.

use vstd::prelude::*;

verus! {

/// One note-on or note-off event found in a track: the file offset of its
/// key byte and the 7-bit pitch read (lossily, high bit dropped) from it.
pub ghost struct NoteSpot {
    pub off: int,
    pub pitch: u8,
}

/// One track chunk: the region of its event data within the file and the
/// note events found inside, in file order.
pub ghost struct TrackSpan {
    pub start: int,
    pub end: int,
    pub notes: Seq<NoteSpot>,
}

/// Big-endian 16-bit word starting at `pos`.
pub open spec fn u16_be(b: Seq<u8>, pos: int) -> int {
    b[pos] * 0x100 + b[pos + 1]
}

/// Big-endian 32-bit word starting at `pos`.
pub open spec fn u32_be(b: Seq<u8>, pos: int) -> int {
    b[pos] * 0x1000000 + b[pos + 1] * 0x10000 + b[pos + 2] * 0x100 + b[pos + 3]
}

/// A variable-length quantity read at `pos`, strictly before `end`, after
/// `seen` continuation bytes have already contributed `acc`.  Yields the
/// value and the position just past the quantity; at most four bytes form
/// one quantity.
pub open spec fn parse_varlen_at(b: Seq<u8>, pos: int, end: int, seen: int, acc: int) -> Option<(
    int,
    int,
)>
    decreases 4 - seen,
{
    if seen >= 4 || pos >= end || pos < 0 {
        None
    } else if b[pos] < 0x80 {
        Some((acc * 0x80 + b[pos], pos + 1))
    } else {
        parse_varlen_at(b, pos + 1, end, seen + 1, acc * 0x80 + (b[pos] - 0x80))
    }
}

/// A variable-length quantity starting at `pos`.
pub open spec fn parse_varlen(b: Seq<u8>, pos: int, end: int) -> Option<(int, int)> {
    parse_varlen_at(b, pos, end, 0, 0)
}

/// The data bytes of a channel-voice message whose data begins at `dpos`
/// under status byte `status` (`0x80..=0xEF`).  Yields the position past
/// the message, the new running status, and the note event if the message
/// is a note-on or note-off.
pub open spec fn parse_channel_event(b: Seq<u8>, dpos: int, end: int, status: u8) -> Option<(
    int,
    Option<u8>,
    Option<NoteSpot>,
)> {
    let kind = status / 16;
    let n: int = if kind == 0xC || kind == 0xD {
        1
    } else {
        2
    };
    if dpos + n > end {
        None
    } else {
        let note = if kind == 0x8 || kind == 0x9 {
            Some(NoteSpot { off: dpos, pitch: (b[dpos] % 0x80) as u8 })
        } else {
            None
        };
        Some((dpos + n, Some(status), note))
    }
}

/// One event whose first byte (after the delta time) stands at `pos`, with
/// running status `rs`.  Channel-voice messages update the running status;
/// meta (`0xFF`) and sysex (`0xF0`, `0xF7`) events cancel it and carry a
/// length-prefixed payload; the system common and realtime status bytes
/// (`0xF1..=0xF6`, `0xF8..=0xFE`) do not belong in a file and fail the
/// parse.
pub open spec fn parse_event(b: Seq<u8>, pos: int, end: int, rs: Option<u8>) -> Option<(
    int,
    Option<u8>,
    Option<NoteSpot>,
)> {
    if pos >= end || pos < 0 {
        None
    } else {
        let first = b[pos];
        if first < 0x80 {
            match rs {
                None => None,
                Some(status) => parse_channel_event(b, pos, end, status),
            }
        } else if first < 0xF0 {
            parse_channel_event(b, pos + 1, end, first)
        } else if first == 0xFF {
            if pos + 2 > end {
                None
            } else {
                match parse_varlen(b, pos + 2, end) {
                    None => None,
                    Some((len, next)) => if next + len > end {
                        None
                    } else {
                        Some((next + len, None, None))
                    },
                }
            }
        } else if first == 0xF0 || first == 0xF7 {
            match parse_varlen(b, pos + 1, end) {
                None => None,
                Some((len, next)) => if next + len > end {
                    None
                } else {
                    Some((next + len, None, None))
                },
            }
        } else {
            None
        }
    }
}

/// All events of one track's data region `[pos, end)`, each preceded by a
/// delta time, with running status `rs`; yields the note events in file
/// order.  The parse fails if any event is malformed or runs past `end`.
pub open spec fn parse_events(b: Seq<u8>, pos: int, end: int, rs: Option<u8>) -> Option<
    Seq<NoteSpot>,
>
    decreases end - pos,
{
    if pos == end {
        Some(Seq::empty())
    } else if pos > end || pos < 0 {
        None
    } else {
        match parse_varlen(b, pos, end) {
            None => None,
            Some((_delta, epos)) => match parse_event(b, epos, end, rs) {
                None => None,
                Some((next, rs2, note)) => if next <= pos || next > end {
                    None
                } else {
                    match parse_events(b, next, end, rs2) {
                        None => None,
                        Some(rest) => Some(
                            match note {
                                Some(n) => seq![n] + rest,
                                None => rest,
                            },
                        ),
                    }
                },
            },
        }
    }
}

/// `n` consecutive track chunks starting at `pos`: each is an `MTrk` tag,
/// a big-endian 32-bit data length, and that many bytes of event data.
pub open spec fn parse_tracks(b: Seq<u8>, pos: int, n: int) -> Option<Seq<TrackSpan>>
    decreases n,
{
    if n <= 0 {
        Some(Seq::empty())
    } else if pos < 0 || pos + 8 > b.len() {
        None
    } else if !(b[pos] == 0x4D && b[pos + 1] == 0x54 && b[pos + 2] == 0x72 && b[pos + 3] == 0x6B) {
        None
    } else {
        let len = u32_be(b, pos + 4);
        let dstart = pos + 8;
        let dend = dstart + len;
        if dend > b.len() {
            None
        } else {
            match parse_events(b, dstart, dend, None) {
                None => None,
                Some(notes) => match parse_tracks(b, dend, n - 1) {
                    None => None,
                    Some(rest) => Some(
                        seq![TrackSpan { start: dstart, end: dend, notes }] + rest,
                    ),
                },
            }
        }
    }
}

/// The whole container: an `MThd` header of data length 6 (format, track
/// count, division), followed by as many track chunks as the header
/// announces.  Bytes after the last announced track are ignored.
pub open spec fn parse_smf(b: Seq<u8>) -> Option<Seq<TrackSpan>> {
    if b.len() < 14 {
        None
    } else if !(b[0] == 0x4D && b[1] == 0x54 && b[2] == 0x68 && b[3] == 0x64) {
        None
    } else if u32_be(b, 4) != 6 {
        None
    } else {
        parse_tracks(b, 14, u16_be(b, 10))
    }
}

/// Whether some note event of `notes` carries pitch `p`.
pub open spec fn has_pitch(notes: Seq<NoteSpot>, p: u8) -> bool {
    exists|k: int| 0 <= k < notes.len() && notes[k].pitch == p
}

/// Whether `i` is the key-byte offset of some note event of `notes`.
pub open spec fn is_note_off_at(notes: Seq<NoteSpot>, i: int) -> bool {
    exists|k: int| 0 <= k < notes.len() && notes[k].off == i
}

/// Whether `i` is the key-byte offset of some note event of some track.
pub open spec fn is_span_note_off_at(spans: Seq<TrackSpan>, i: int) -> bool {
    exists|t: int| 0 <= t < spans.len() && is_note_off_at(spans[t].notes, i)
}

/// A variable-length quantity occupies at least one byte and stays inside
/// `[pos, end)`; from a nonnegative accumulator its value is nonnegative.
pub proof fn lemma_varlen_bounds(b: Seq<u8>, pos: int, end: int, seen: int, acc: int)
    requires
        parse_varlen_at(b, pos, end, seen, acc) is Some,
    ensures
        pos < parse_varlen_at(b, pos, end, seen, acc)->Some_0.1 <= end,
        acc >= 0 ==> parse_varlen_at(b, pos, end, seen, acc)->Some_0.0 >= 0,
    decreases 4 - seen,
{
    if b[pos] < 0x80 {
    } else {
        lemma_varlen_bounds(b, pos + 1, end, seen + 1, acc * 0x80 + (b[pos] - 0x80));
    }
}

/// Two byte sequences that agree on the bytes a variable-length quantity
/// consumes yield the same quantity.
pub proof fn lemma_varlen_agree(b: Seq<u8>, b2: Seq<u8>, pos: int, end: int, seen: int, acc: int)
    requires
        parse_varlen_at(b, pos, end, seen, acc) is Some,
        forall|i: int|
            pos <= i < parse_varlen_at(b, pos, end, seen, acc)->Some_0.1 ==> b2[i] == b[i],
    ensures
        parse_varlen_at(b2, pos, end, seen, acc) == parse_varlen_at(b, pos, end, seen, acc),
    decreases 4 - seen,
{
    lemma_varlen_bounds(b, pos, end, seen, acc);
    assert(b2[pos] == b[pos]);
    if b[pos] < 0x80 {
    } else {
        lemma_varlen_agree(b, b2, pos + 1, end, seen + 1, acc * 0x80 + (b[pos] - 0x80));
    }
}

/// A parsed event advances the position, stays inside `[pos, end)`, and if
/// it is a note event, its key byte lies within the event and holds the
/// recorded pitch.
pub proof fn lemma_event_props(b: Seq<u8>, pos: int, end: int, rs: Option<u8>)
    requires
        parse_event(b, pos, end, rs) is Some,
    ensures
        ({
            let e = parse_event(b, pos, end, rs)->Some_0;
            &&& pos < e.0 <= end
            &&& match e.2 {
                Some(n) => pos <= n.off < e.0 && n.pitch == b[n.off] % 0x80,
                None => true,
            }
        }),
{
    let first = b[pos];
    if first < 0x80 {
    } else if first < 0xF0 {
    } else if first == 0xFF {
        lemma_varlen_bounds(b, pos + 2, end, 0, 0);
    } else {
        lemma_varlen_bounds(b, pos + 1, end, 0, 0);
    }
}

/// Every note event found in `[pos, end)` keeps its key byte inside that
/// region, the recorded pitch is the masked key byte, and key offsets are
/// strictly increasing in file order.
pub proof fn lemma_events_props(b: Seq<u8>, pos: int, end: int, rs: Option<u8>)
    requires
        parse_events(b, pos, end, rs) is Some,
    ensures
        ({
            let notes = parse_events(b, pos, end, rs)->Some_0;
            &&& forall|k: int|
                0 <= k < notes.len() ==> pos <= (#[trigger] notes[k]).off < end && notes[k].pitch
                    == b[notes[k].off] % 0x80
            &&& forall|k1: int, k2: int|
                0 <= k1 < k2 < notes.len() ==> (#[trigger] notes[k1]).off < (
                #[trigger] notes[k2]).off
        }),
    decreases end - pos,
{
    if pos == end {
    } else {
        let (_delta, epos) = parse_varlen(b, pos, end)->Some_0;
        lemma_varlen_bounds(b, pos, end, 0, 0);
        let (next, rs2, note) = parse_event(b, epos, end, rs)->Some_0;
        lemma_event_props(b, epos, end, rs);
        lemma_events_props(b, next, end, rs2);
    }
}

/// Changing key bytes of note events to values below `0x80` is invisible
/// to the event structure: the changed bytes parse to the same events at
/// the same places, with each note's pitch now read from the new bytes.
pub proof fn lemma_events_rewrite(b: Seq<u8>, b2: Seq<u8>, pos: int, end: int, rs: Option<u8>)
    requires
        b2.len() == b.len(),
        parse_events(b, pos, end, rs) is Some,
        forall|i: int|
            pos <= i < end && b[i] != b2[i] ==> is_note_off_at(
                parse_events(b, pos, end, rs)->Some_0,
                i,
            ) && b2[i] < 0x80,
    ensures
        ({
            let notes = parse_events(b, pos, end, rs)->Some_0;
            let r2 = parse_events(b2, pos, end, rs);
            &&& r2 is Some
            &&& r2->Some_0.len() == notes.len()
            &&& forall|k: int|
                0 <= k < notes.len() ==> (#[trigger] r2->Some_0[k]).off == notes[k].off
                    && r2->Some_0[k].pitch == b2[notes[k].off] % 0x80
        }),
    decreases end - pos,
{
    let notes = parse_events(b, pos, end, rs)->Some_0;
    if pos == end {
    } else {
        let epos = parse_varlen(b, pos, end)->Some_0.1;
        lemma_varlen_bounds(b, pos, end, 0, 0);
        let e = parse_event(b, epos, end, rs)->Some_0;
        let next = e.0;
        let rs2 = e.1;
        let note = e.2;
        lemma_event_props(b, epos, end, rs);
        let tail = parse_events(b, next, end, rs2)->Some_0;
        lemma_events_props(b, next, end, rs2);
        assert(notes == match note {
            Some(n) => seq![n] + tail,
            None => tail,
        });
        // No key byte lies among the delta bytes `[pos, epos)`: the first
        // event's key (if any) sits at or past `epos`, the tail's keys at
        // or past `next`.
        assert forall|i: int| pos <= i < epos implies b2[i] == b[i] by {
            if b[i] != b2[i] {
                let k = choose|k: int| 0 <= k < notes.len() && notes[k].off == i;
                match note {
                    Some(n) => {
                        if k == 0 {
                            assert(notes[0].off >= epos);
                        } else {
                            assert(notes[k] == tail[k - 1]);
                        }
                    },
                    None => {
                        assert(notes[k] == tail[k]);
                    },
                }
            }
        };
        lemma_varlen_agree(b, b2, pos, end, 0, 0);
        // The first event reads the same structural bytes in `b2`.
        let first = b[epos];
        if first < 0x80 {
            // Running status: the first byte is itself the key byte of a
            // note event, or an untouched data byte; either way it stays
            // below 0x80 and the same message shape follows.
            assert(b2[epos] < 0x80);
            let status = rs->Some_0;
            let kind = status / 16;
            if kind == 0x8 || kind == 0x9 {
                assert(parse_event(b2, epos, end, rs)->Some_0.0 == next);
            } else {
                // None of this event's data bytes is a key byte.
                assert forall|i: int| epos <= i < next implies b2[i] == b[i] by {
                    if b[i] != b2[i] {
                        let k = choose|k: int| 0 <= k < notes.len() && notes[k].off == i;
                        assert(notes[k] == tail[k]);
                    }
                };
            }
        } else {
            // A status byte is never a key byte, so it is unchanged.
            assert(b2[epos] == b[epos]) by {
                if b[epos] != b2[epos] {
                    let k = choose|k: int| 0 <= k < notes.len() && notes[k].off == epos;
                    match note {
                        Some(n) => {
                            if k == 0 {
                                assert(notes[0].off > epos);
                            } else {
                                assert(notes[k] == tail[k - 1]);
                            }
                        },
                        None => {
                            assert(notes[k] == tail[k]);
                        },
                    }
                }
            };
            if first < 0xF0 {
                let kind = first / 16;
                if kind == 0x8 || kind == 0x9 {
                    assert(parse_event(b2, epos, end, rs)->Some_0.0 == next);
                } else {
                    assert forall|i: int| epos < i < next implies b2[i] == b[i] by {
                        if b[i] != b2[i] {
                            let k = choose|k: int| 0 <= k < notes.len() && notes[k].off == i;
                            assert(notes[k] == tail[k]);
                        }
                    };
                }
            } else {
                // Meta and sysex events carry no key byte at all: every
                // byte they span is unchanged.
                assert forall|i: int| epos < i < next implies b2[i] == b[i] by {
                    if b[i] != b2[i] {
                        let k = choose|k: int| 0 <= k < notes.len() && notes[k].off == i;
                        assert(notes[k] == tail[k]);
                    }
                };
                if first == 0xFF {
                    lemma_varlen_bounds(b, epos + 2, end, 0, 0);
                    lemma_varlen_agree(b, b2, epos + 2, end, 0, 0);
                } else {
                    lemma_varlen_bounds(b, epos + 1, end, 0, 0);
                    lemma_varlen_agree(b, b2, epos + 1, end, 0, 0);
                }
            }
        }
        assert(parse_event(b2, epos, end, rs) is Some);
        let e2 = parse_event(b2, epos, end, rs)->Some_0;
        assert(e2.0 == next && e2.1 == rs2);
        // The tail satisfies the same hypothesis beyond `next`.
        assert forall|i: int|
            next <= i < end && b[i] != b2[i] implies is_note_off_at(tail, i) && b2[i]
            < 0x80 by {
            if b[i] != b2[i] {
                let k = choose|k: int| 0 <= k < notes.len() && notes[k].off == i;
                match note {
                    Some(n) => {
                        if k == 0 {
                            assert(notes[0].off < next);
                        } else {
                            assert(notes[k] == tail[k - 1]);
                            assert(is_note_off_at(tail, i));
                        }
                    },
                    None => {
                        assert(notes[k] == tail[k]);
                        assert(is_note_off_at(tail, i));
                    },
                }
            }
        };
        lemma_events_rewrite(b, b2, next, end, rs2);
        let tail2 = parse_events(b2, next, end, rs2)->Some_0;
        assert(parse_events(b2, pos, end, rs)->Some_0 == match e2.2 {
            Some(n) => seq![n] + tail2,
            None => tail2,
        });
        assert forall|k: int|
            0 <= k < notes.len() implies (#[trigger] parse_events(b2, pos, end, rs)->Some_0[k]).off
            == notes[k].off && parse_events(b2, pos, end, rs)->Some_0[k].pitch == b2[notes[k].off]
            % 0x80 by {
            match note {
                Some(n) => {
                    if k > 0 {
                        assert(notes[k] == tail[k - 1]);
                        assert(parse_events(b2, pos, end, rs)->Some_0[k] == tail2[k - 1]);
                    }
                },
                None => {
                    assert(notes[k] == tail[k]);
                    assert(parse_events(b2, pos, end, rs)->Some_0[k] == tail2[k]);
                },
            }
        };
    }
}

/// Track chunks parsed from `pos` lie one after another, each data region
/// past its own 8-byte chunk header, and every note event sits inside its
/// track's data region with the pitch read from the key byte.
pub proof fn lemma_tracks_props(b: Seq<u8>, pos: int, n: int)
    requires
        parse_tracks(b, pos, n) is Some,
    ensures
        ({
            let spans = parse_tracks(b, pos, n)->Some_0;
            &&& spans.len() == if n <= 0 {
                0
            } else {
                n
            }
            &&& forall|t: int|
                0 <= t < spans.len() ==> pos + 8 <= (#[trigger] spans[t]).start <= spans[t].end
                    <= b.len()
            &&& forall|t1: int, t2: int|
                0 <= t1 < t2 < spans.len() ==> (#[trigger] spans[t1]).end + 8 <= (
                #[trigger] spans[t2]).start
            &&& forall|t: int, k: int|
                0 <= t < spans.len() && 0 <= k < (#[trigger] spans[t]).notes.len() ==> spans[t].start <= (#[trigger] spans[t].notes[k]).off < spans[t].end && spans[t].notes[k].pitch == b[spans[t].notes[k].off] % 0x80
            &&& forall|t: int, k1: int, k2: int|
                0 <= t < spans.len() && 0 <= k1 < k2 < (#[trigger] spans[t]).notes.len() ==> (
                #[trigger] spans[t].notes[k1]).off < (#[trigger] spans[t].notes[k2]).off
        }),
    decreases n,
{
    if n <= 0 {
    } else {
        let spans = parse_tracks(b, pos, n)->Some_0;
        let len = u32_be(b, pos + 4);
        let dstart = pos + 8;
        let dend = dstart + len;
        lemma_events_props(b, dstart, dend, None);
        lemma_tracks_props(b, dend, n - 1);
        let rest = parse_tracks(b, dend, n - 1)->Some_0;
        assert(spans == seq![TrackSpan {
            start: dstart,
            end: dend,
            notes: parse_events(b, dstart, dend, None)->Some_0,
        }] + rest);
        assert(b[pos + 4] >= 0 && b[pos + 5] >= 0 && b[pos + 6] >= 0 && b[pos + 7] >= 0);
        assert(len >= 0) by (nonlinear_arith)
            requires
                len == b[pos + 4] * 0x1000000 + b[pos + 5] * 0x10000 + b[pos + 6] * 0x100 + b[pos
                    + 7],
                b[pos + 4] >= 0 && b[pos + 5] >= 0 && b[pos + 6] >= 0 && b[pos + 7] >= 0,
        ;
        assert forall|t: int| 1 <= t < spans.len() implies spans[t] == rest[t - 1] by {}
    }
}

/// Changing key bytes of note events to values below `0x80` is invisible
/// to the chunk structure as well: the rewritten bytes parse to tracks
/// with the same regions and the same note offsets, pitches read anew.
pub proof fn lemma_tracks_rewrite(b: Seq<u8>, b2: Seq<u8>, pos: int, n: int)
    requires
        b2.len() == b.len(),
        parse_tracks(b, pos, n) is Some,
        forall|i: int|
            pos <= i < b.len() && b[i] != b2[i] ==> is_span_note_off_at(
                parse_tracks(b, pos, n)->Some_0,
                i,
            ) && b2[i] < 0x80,
    ensures
        ({
            let spans = parse_tracks(b, pos, n)->Some_0;
            let r2 = parse_tracks(b2, pos, n);
            &&& r2 is Some
            &&& r2->Some_0.len() == spans.len()
            &&& forall|t: int|
                0 <= t < spans.len() ==> (#[trigger] r2->Some_0[t]).start == spans[t].start
                    && r2->Some_0[t].end == spans[t].end && r2->Some_0[t].notes.len() == spans[t].notes.len()
            &&& forall|t: int, k: int|
                0 <= t < spans.len() && 0 <= k < (#[trigger] spans[t]).notes.len() ==> (
                #[trigger] r2->Some_0[t].notes[k]).off == spans[t].notes[k].off
                    && r2->Some_0[t].notes[k].pitch == b2[spans[t].notes[k].off] % 0x80
        }),
    decreases n,
{
    if n <= 0 {
    } else {
        let spans = parse_tracks(b, pos, n)->Some_0;
        lemma_tracks_props(b, pos, n);
        let len = u32_be(b, pos + 4);
        let dstart = pos + 8;
        let dend = dstart + len;
        let notes = parse_events(b, dstart, dend, None)->Some_0;
        let rest = parse_tracks(b, dend, n - 1)->Some_0;
        lemma_tracks_props(b, dend, n - 1);
        lemma_events_props(b, dstart, dend, None);
        assert(spans == seq![TrackSpan { start: dstart, end: dend, notes }] + rest);
        assert(spans[0].notes == notes);
        // The chunk header is outside every data region, hence unchanged.
        assert forall|i: int| pos <= i < dstart implies b2[i] == b[i] by {
            if b[i] != b2[i] {
                let t = choose|t: int|
                    0 <= t < spans.len() && is_note_off_at(spans[t].notes, i);
                let k = choose|k: int|
                    0 <= k < spans[t].notes.len() && spans[t].notes[k].off == i;
                assert(spans[t].start <= i);
            }
        };
        // Differences inside this track's data region are its own key bytes.
        assert forall|i: int|
            dstart <= i < dend && b[i] != b2[i] implies is_note_off_at(notes, i) && b2[i]
            < 0x80 by {
            let t = choose|t: int| 0 <= t < spans.len() && is_note_off_at(spans[t].notes, i);
            if t > 0 {
                assert(spans[t] == rest[t - 1]);
                let k = choose|k: int|
                    0 <= k < spans[t].notes.len() && spans[t].notes[k].off == i;
                assert(spans[t].start <= i);
            }
        };
        lemma_events_rewrite(b, b2, dstart, dend, None);
        // Differences past this track belong to later tracks.
        assert forall|i: int|
            dend <= i < b.len() && b[i] != b2[i] implies is_span_note_off_at(rest, i) && b2[i]
            < 0x80 by {
            let t = choose|t: int| 0 <= t < spans.len() && is_note_off_at(spans[t].notes, i);
            if t == 0 {
                let k = choose|k: int|
                    0 <= k < spans[t].notes.len() && spans[t].notes[k].off == i;
                assert(spans[0].notes[k].off < dend);
            } else {
                assert(spans[t] == rest[t - 1]);
                assert(is_note_off_at(rest[t - 1].notes, i));
            }
        };
        lemma_tracks_rewrite(b, b2, dend, n - 1);
        let rest2 = parse_tracks(b2, dend, n - 1)->Some_0;
        let notes2 = parse_events(b2, dstart, dend, None)->Some_0;
        assert(parse_tracks(b2, pos, n)->Some_0 == seq![TrackSpan {
            start: dstart,
            end: dend,
            notes: notes2,
        }] + rest2);
        assert forall|t: int| 1 <= t < spans.len() implies spans[t] == rest[t - 1]
            && parse_tracks(b2, pos, n)->Some_0[t] == rest2[t - 1] by {}
    }
}

/// Every note event of a parsed file lies past the 14-byte file header,
/// inside its own track's data region, with the recorded pitch equal to
/// the masked key byte.
pub proof fn lemma_smf_props(b: Seq<u8>)
    requires
        parse_smf(b) is Some,
    ensures
        ({
            let spans = parse_smf(b)->Some_0;
            &&& forall|t: int|
                0 <= t < spans.len() ==> 22 <= (#[trigger] spans[t]).start <= spans[t].end
                    <= b.len()
            &&& forall|t1: int, t2: int|
                0 <= t1 < t2 < spans.len() ==> (#[trigger] spans[t1]).end + 8 <= (
                #[trigger] spans[t2]).start
            &&& forall|t: int, k: int|
                0 <= t < spans.len() && 0 <= k < (#[trigger] spans[t]).notes.len() ==> spans[t].start <= (#[trigger] spans[t].notes[k]).off < spans[t].end && spans[t].notes[k].pitch == b[spans[t].notes[k].off] % 0x80
            &&& forall|t: int, k1: int, k2: int|
                0 <= t < spans.len() && 0 <= k1 < k2 < (#[trigger] spans[t]).notes.len() ==> (
                #[trigger] spans[t].notes[k1]).off < (#[trigger] spans[t].notes[k2]).off
        }),
{
    lemma_tracks_props(b, 14, u16_be(b, 10));
}

/// Changing key bytes of note events to values below `0x80` leaves the
/// whole container well-formed: the rewritten bytes parse to the same
/// track regions with notes at the same offsets, pitches read anew.
pub proof fn lemma_smf_rewrite(b: Seq<u8>, b2: Seq<u8>)
    requires
        b2.len() == b.len(),
        parse_smf(b) is Some,
        forall|i: int|
            0 <= i < b.len() && b[i] != b2[i] ==> is_span_note_off_at(parse_smf(b)->Some_0, i)
                && b2[i] < 0x80,
    ensures
        ({
            let spans = parse_smf(b)->Some_0;
            let r2 = parse_smf(b2);
            &&& r2 is Some
            &&& r2->Some_0.len() == spans.len()
            &&& forall|t: int|
                0 <= t < spans.len() ==> (#[trigger] r2->Some_0[t]).start == spans[t].start
                    && r2->Some_0[t].end == spans[t].end && r2->Some_0[t].notes.len() == spans[t].notes.len()
            &&& forall|t: int, k: int|
                0 <= t < spans.len() && 0 <= k < (#[trigger] spans[t]).notes.len() ==> (
                #[trigger] r2->Some_0[t].notes[k]).off == spans[t].notes[k].off
                    && r2->Some_0[t].notes[k].pitch == b2[spans[t].notes[k].off] % 0x80
        }),
{
    let spans = parse_smf(b)->Some_0;
    lemma_smf_props(b);
    // The file header is outside every data region, hence unchanged.
    assert forall|i: int| 0 <= i < 14 implies b2[i] == b[i] by {
        if b[i] != b2[i] {
            let t = choose|t: int| 0 <= t < spans.len() && is_note_off_at(spans[t].notes, i);
            let k = choose|k: int| 0 <= k < spans[t].notes.len() && spans[t].notes[k].off == i;
            assert(spans[t].start <= i);
        }
    };
    lemma_tracks_rewrite(b, b2, 14, u16_be(b, 10));
}

} // verus!
