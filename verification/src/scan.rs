//! Executable scanner for the MIDI container, verified against the model
//! in `smf`: it finds each track chunk's data region and the key bytes of
//! its note-on / note-off events, exactly as `parse_smf` describes.

use vstd::prelude::*;

use crate::smf::{
    NoteSpot, TrackSpan, lemma_varlen_bounds, parse_event, parse_events, parse_smf, parse_tracks,
    parse_varlen, parse_varlen_at, u16_be, u32_be,
};

verus! {

/// One note-on or note-off event: the file offset of its key byte and the
/// 7-bit pitch read from that byte.
#[derive(Clone, Copy, PartialEq, Eq, Structural, Debug)]
pub struct NoteEvent {
    pub off: usize,
    pub pitch: u8,
}

impl View for NoteEvent {
    type V = NoteSpot;

    open spec fn view(&self) -> NoteSpot {
        NoteSpot { off: self.off as int, pitch: self.pitch }
    }
}

/// One track chunk: its event-data region within the file and its note
/// events in file order.
#[derive(Debug)]
pub struct TrackData {
    pub start: usize,
    pub end: usize,
    pub notes: Vec<NoteEvent>,
}

impl View for TrackData {
    type V = TrackSpan;

    open spec fn view(&self) -> TrackSpan {
        TrackSpan { start: self.start as int, end: self.end as int, notes: notes_view(self.notes@) }
    }
}

/// The model counterpart of a vector of note events.
pub open spec fn notes_view(s: Seq<NoteEvent>) -> Seq<NoteSpot> {
    s.map_values(|e: NoteEvent| e@)
}

/// The model counterpart of a vector of track chunks.
pub open spec fn spans_view(s: Seq<TrackData>) -> Seq<TrackSpan> {
    s.map_values(|t: TrackData| t@)
}

/// Big-endian 16-bit read.
fn read_u16(b: &Vec<u8>, pos: usize) -> (r: u16)
    requires
        pos + 2 <= b.len(),
    ensures
        r == u16_be(b@, pos as int),
{
    (b[pos] as u16) * 0x100 + (b[pos + 1] as u16)
}

/// Big-endian 32-bit read.
fn read_u32(b: &Vec<u8>, pos: usize) -> (r: u32)
    requires
        pos + 4 <= b.len(),
    ensures
        r == u32_be(b@, pos as int),
{
    (b[pos] as u32) * 0x1000000 + (b[pos + 1] as u32) * 0x10000 + (b[pos + 2] as u32) * 0x100 + (
    b[pos + 3] as u32)
}

/// A variable-length quantity starting at `pos`: its value and the
/// position just past it.
fn scan_varlen(b: &Vec<u8>, pos: usize, end: usize) -> (r: Option<(u32, usize)>)
    requires
        pos <= end <= b.len(),
    ensures
        match r {
            Some(v) => parse_varlen(b@, pos as int, end as int) == Some((v.0 as int, v.1 as int)),
            None => parse_varlen(b@, pos as int, end as int) is None,
        },
{
    let mut cur = pos;
    let mut seen: u32 = 0;
    let mut acc: u32 = 0;
    while seen < 4
        invariant
            pos <= cur <= end <= b.len(),
            seen <= 4,
            seen == 0 ==> acc == 0,
            seen == 1 ==> acc < 0x80,
            seen == 2 ==> acc < 0x4000,
            seen == 3 ==> acc < 0x200000,
            parse_varlen(b@, pos as int, end as int) == parse_varlen_at(
                b@,
                cur as int,
                end as int,
                seen as int,
                acc as int,
            ),
        decreases 4 - seen,
    {
        if cur >= end {
            return None;
        }
        let byte = b[cur];
        if byte < 0x80 {
            return Some((acc * 0x80 + byte as u32, cur + 1));
        }
        if seen == 3 {
            proof {
                assert(parse_varlen_at(
                    b@,
                    cur as int + 1,
                    end as int,
                    4,
                    acc as int * 0x80 + (byte - 0x80),
                ) is None);
            }
            return None;
        }
        acc = acc * 0x80 + (byte - 0x80) as u32;
        seen = seen + 1;
        cur = cur + 1;
    }
    None
}

/// The data bytes of a channel-voice message under `status`, beginning at
/// `dpos`.
fn scan_channel(b: &Vec<u8>, dpos: usize, end: usize, status: u8) -> (r: Option<
    (usize, Option<u8>, Option<NoteEvent>),
>)
    requires
        dpos <= end <= b.len(),
    ensures
        match r {
            Some(v) => crate::smf::parse_channel_event(b@, dpos as int, end as int, status)
                == Some(
                (
                    v.0 as int,
                    v.1,
                    match v.2 {
                        Some(e) => Some(e@),
                        None => None,
                    },
                ),
            ),
            None => crate::smf::parse_channel_event(b@, dpos as int, end as int, status) is None,
        },
{
    let kind = status / 16;
    let n: usize = if kind == 0xC || kind == 0xD {
        1
    } else {
        2
    };
    if n > end - dpos {
        return None;
    }
    let note = if kind == 0x8 || kind == 0x9 {
        Some(NoteEvent { off: dpos, pitch: b[dpos] % 0x80 })
    } else {
        None
    };
    Some((dpos + n, Some(status), note))
}

/// One event whose first byte stands at `pos`, with running status `rs`.
fn scan_event(b: &Vec<u8>, pos: usize, end: usize, rs: Option<u8>) -> (r: Option<
    (usize, Option<u8>, Option<NoteEvent>),
>)
    requires
        pos <= end <= b.len(),
    ensures
        match r {
            Some(v) => parse_event(b@, pos as int, end as int, rs) == Some(
                (
                    v.0 as int,
                    v.1,
                    match v.2 {
                        Some(e) => Some(e@),
                        None => None,
                    },
                ),
            ),
            None => parse_event(b@, pos as int, end as int, rs) is None,
        },
{
    if pos >= end {
        return None;
    }
    let first = b[pos];
    if first < 0x80 {
        match rs {
            None => None,
            Some(status) => scan_channel(b, pos, end, status),
        }
    } else if first < 0xF0 {
        scan_channel(b, pos + 1, end, first)
    } else if first == 0xFF {
        if end - pos < 2 {
            return None;
        }
        match scan_varlen(b, pos + 2, end) {
            None => None,
            Some((len, next)) => {
                proof {
                    lemma_varlen_bounds(b@, pos + 2 as int, end as int, 0, 0);
                }
                if (len as usize) > end - next {
                    None
                } else {
                    Some((next + len as usize, None, None))
                }
            },
        }
    } else if first == 0xF0 || first == 0xF7 {
        match scan_varlen(b, pos + 1, end) {
            None => None,
            Some((len, next)) => {
                proof {
                    lemma_varlen_bounds(b@, pos + 1 as int, end as int, 0, 0);
                }
                if (len as usize) > end - next {
                    None
                } else {
                    Some((next + len as usize, None, None))
                }
            },
        }
    } else {
        None
    }
}

/// All events of one track's data region, yielding the note events in
/// file order.
fn scan_events(b: &Vec<u8>, start: usize, end: usize) -> (r: Option<Vec<NoteEvent>>)
    requires
        start <= end <= b.len(),
    ensures
        match r {
            Some(v) => parse_events(b@, start as int, end as int, None) == Some(notes_view(v@)),
            None => parse_events(b@, start as int, end as int, None) is None,
        },
{
    let mut cur = start;
    let mut rs: Option<u8> = None;
    let mut acc: Vec<NoteEvent> = Vec::new();
    while cur < end
        invariant
            start <= cur <= end <= b.len(),
            parse_events(b@, start as int, end as int, None) == (match parse_events(
                b@,
                cur as int,
                end as int,
                rs,
            ) {
                None => None::<Seq<NoteSpot>>,
                Some(rest) => Some(notes_view(acc@) + rest),
            }),
        decreases end - cur,
    {
        let ghost old_acc = acc@;
        let (_delta, epos) = match scan_varlen(b, cur, end) {
            None => {
                return None;
            },
            Some(v) => v,
        };
        proof {
            lemma_varlen_bounds(b@, cur as int, end as int, 0, 0);
        }
        let (next, rs2, note) = match scan_event(b, epos, end, rs) {
            None => {
                return None;
            },
            Some(v) => v,
        };
        if next <= cur || next > end {
            return None;
        }
        match note {
            Some(e) => {
                acc.push(e);
                proof {
                    assert(notes_view(acc@) =~= notes_view(old_acc).push(e@));
                    assert forall|rest: Seq<NoteSpot>|
                        true implies notes_view(old_acc) + (seq![e@] + rest) =~= notes_view(acc@)
                        + rest by {}
                }
            },
            None => {},
        }
        cur = next;
        rs = rs2;
    }
    assert(notes_view(acc@) + Seq::<NoteSpot>::empty() =~= notes_view(acc@));
    Some(acc)
}

/// The whole container: checks the `MThd` header and walks as many track
/// chunks as it announces, yielding each track's data region and note
/// events; `None` exactly where the model rejects the bytes.
pub fn scan_smf(b: &Vec<u8>) -> (r: Option<Vec<TrackData>>)
    ensures
        match r {
            Some(v) => parse_smf(b@) == Some(spans_view(v@)),
            None => parse_smf(b@) is None,
        },
{
    if b.len() < 14 {
        return None;
    }
    if !(b[0] == 0x4D && b[1] == 0x54 && b[2] == 0x68 && b[3] == 0x64) {
        return None;
    }
    let hlen = read_u32(b, 4);
    if hlen != 6 {
        return None;
    }
    let ntracks = read_u16(b, 10);
    let mut tracks: Vec<TrackData> = Vec::new();
    let mut done: u16 = 0;
    let mut cur: usize = 14;
    while done < ntracks
        invariant
            14 <= cur <= b.len(),
            done <= ntracks,
            tracks@.len() == done,
            parse_smf(b@) == (match parse_tracks(b@, cur as int, ntracks - done) {
                None => None::<Seq<TrackSpan>>,
                Some(rest) => Some(spans_view(tracks@) + rest),
            }),
        decreases ntracks - done,
    {
        let ghost old_tracks = tracks@;
        if b.len() - cur < 8 {
            return None;
        }
        if !(b[cur] == 0x4D && b[cur + 1] == 0x54 && b[cur + 2] == 0x72 && b[cur + 3] == 0x6B) {
            return None;
        }
        let len = read_u32(b, cur + 4);
        let dstart = cur + 8;
        if (len as usize) > b.len() - dstart {
            return None;
        }
        let dend = dstart + (len as usize);
        let notes = match scan_events(b, dstart, dend) {
            None => {
                return None;
            },
            Some(v) => v,
        };
        let td = TrackData { start: dstart, end: dend, notes };
        let ghost td_span = td@;
        tracks.push(td);
        proof {
            assert(spans_view(tracks@) =~= spans_view(old_tracks).push(td_span));
            assert forall|rest: Seq<TrackSpan>|
                true implies spans_view(old_tracks) + (seq![td_span] + rest) =~= spans_view(
                tracks@,
            ) + rest by {}
        }
        cur = dend;
        done = done + 1;
    }
    assert(spans_view(tracks@) + Seq::<TrackSpan>::empty() =~= spans_view(tracks@));
    Some(tracks)
}

} // verus!
