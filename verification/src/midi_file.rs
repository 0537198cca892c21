//! The loaded MIDI document and the remap transform.
//!
//! `MidiFile::new` parses a byte sequence and derives, per track, the
//! sorted set of distinct pitches used by its note-on / note-off events.
//! `remap_bytes` re-parses the original bytes and rewrites the key bytes
//! that the given mappings cover, leaving every other byte untouched.

use vstd::prelude::*;
use vstd::pervasive::VecAdditionalExecFns;

use crate::Error;
use crate::remap::{
    TrackMap, apply_maps, lemma_apply_push, lemma_rewrite_len, lemma_rewrite_push, map_targets_low,
    maps_wf, rewrite_notes,
};
use crate::scan::{NoteEvent, notes_view, scan_smf, spans_view};
use crate::smf::{TrackSpan, has_pitch, lemma_smf_props, parse_smf};

verus! {

/// The pitch-to-pitch function of one pair list: later pairs win, though
/// a well-formed mapping never repeats a key.
pub open spec fn pairs_map(s: Seq<(u8, u8)>) -> Map<u8, u8>
    decreases s.len(),
{
    if s.len() == 0 {
        Map::empty()
    } else {
        pairs_map(s.drop_last()).insert(s.last().0, s.last().1)
    }
}

/// A key is in the map exactly when some pair carries it, and with
/// distinct keys each pair's key looks up that pair's value.
pub proof fn lemma_pairs_map_props(s: Seq<(u8, u8)>)
    ensures
        forall|p: u8|
            #[trigger] pairs_map(s).dom().contains(p) <==> exists|i: int|
                0 <= i < s.len() && (#[trigger] s[i]).0 == p,
        (forall|i: int, j: int| 0 <= i < j < s.len() ==> (#[trigger] s[i]).0 != (#[trigger] s[j]).0)
            ==> forall|i: int|
            0 <= i < s.len() ==> pairs_map(s)[(#[trigger] s[i]).0] == s[i].1,
    decreases s.len(),
{
    if s.len() == 0 {
    } else {
        let head = s.drop_last();
        lemma_pairs_map_props(head);
        assert(forall|i: int| 0 <= i < head.len() ==> head[i] == s[i]);
        assert forall|p: u8| #[trigger]
            pairs_map(s).dom().contains(p) implies exists|i: int|
            0 <= i < s.len() && (#[trigger] s[i]).0 == p by {
            if p == s.last().0 {
                assert(s[s.len() - 1].0 == p);
            } else {
                assert(pairs_map(head).dom().contains(p));
                let i = choose|i: int| 0 <= i < head.len() && (#[trigger] head[i]).0 == p;
                assert(head[i] == s[i]);
                assert(s[i].0 == p);
            }
        };
        assert forall|p: u8|
            (exists|i: int| 0 <= i < s.len() && (#[trigger] s[i]).0 == p) implies #[trigger]
        pairs_map(s).dom().contains(p) by {
            let i = choose|i: int| 0 <= i < s.len() && (#[trigger] s[i]).0 == p;
            if i < s.len() - 1 {
                assert(head[i].0 == p);
            }
        };
    }
}

/// One track's mapping: the track's index in the file and the pitch
/// pairs to rewrite, each source pitch at most once, each target a valid
/// 7-bit pitch.
#[derive(Debug)]
pub struct Mapping {
    pub track: usize,
    pub map: Vec<(u8, u8)>,
}

impl View for Mapping {
    type V = TrackMap;

    open spec fn view(&self) -> TrackMap {
        TrackMap { track: self.track as int, map: pairs_map(self.map@) }
    }
}

impl Mapping {
    /// Distinct source pitches, and targets within the 7-bit range.
    pub open spec fn wf(&self) -> bool {
        &&& forall|i: int, j: int|
            0 <= i < j < self.map@.len() ==> (#[trigger] self.map@[i]).0 != (
            #[trigger] self.map@[j]).0
        &&& forall|i: int| 0 <= i < self.map@.len() ==> (#[trigger] self.map@[i]).1 < 0x80
    }
}

/// The model counterpart of a vector of mappings.
pub open spec fn maps_view(s: Seq<Mapping>) -> Seq<TrackMap> {
    s.map_values(|m: Mapping| m@)
}

/// A list of well-formed mappings with pairwise distinct tracks is a
/// well-formed map list of the model.
pub proof fn lemma_maps_view_wf(s: Seq<Mapping>)
    requires
        forall|j: int| 0 <= j < s.len() ==> (#[trigger] s[j]).wf(),
        forall|j1: int, j2: int|
            0 <= j1 < j2 < s.len() ==> (#[trigger] s[j1]).track != (#[trigger] s[j2]).track,
    ensures
        maps_wf(maps_view(s)),
{
    assert forall|j: int| 0 <= j < s.len() implies map_targets_low(
        (#[trigger] maps_view(s)[j]).map,
    ) by {
        lemma_pairs_map_props(s[j].map@);
        assert forall|p: u8| pairs_map(s[j].map@).dom().contains(p) implies pairs_map(s[j].map@)[p]
            < 0x80 by {
            let i = choose|i: int| 0 <= i < s[j].map@.len() && (#[trigger] s[j].map@[i]).0 == p;
            assert(pairs_map(s[j].map@)[s[j].map@[i].0] == s[j].map@[i].1);
        };
    };
}

/// Looks a pitch up in a mapping's pair list.
fn lookup(map: &Vec<(u8, u8)>, p: u8) -> (r: Option<u8>)
    requires
        forall|i: int, j: int|
            0 <= i < j < map@.len() ==> (#[trigger] map@[i]).0 != (#[trigger] map@[j]).0,
    ensures
        r == if pairs_map(map@).dom().contains(p) {
            Some(pairs_map(map@)[p])
        } else {
            None::<u8>
        },
{
    proof {
        lemma_pairs_map_props(map@);
    }
    let mut i: usize = 0;
    while i < map.len()
        invariant
            i <= map@.len(),
            forall|k: int| 0 <= k < i ==> (#[trigger] map@[k]).0 != p,
            forall|k1: int, k2: int|
                0 <= k1 < k2 < map@.len() ==> (#[trigger] map@[k1]).0 != (#[trigger] map@[k2]).0,
            forall|q: u8|
                #[trigger] pairs_map(map@).dom().contains(q) <==> exists|k: int|
                    0 <= k < map@.len() && (#[trigger] map@[k]).0 == q,
            forall|k: int|
                0 <= k < map@.len() ==> pairs_map(map@)[(#[trigger] map@[k]).0] == map@[k].1,
        decreases map@.len() - i,
    {
        let (key, val) = map[i];
        if key == p {
            return Some(val);
        }
        i = i + 1;
    }
    proof {
        if pairs_map(map@).dom().contains(p) {
            let k = choose|k: int| 0 <= k < map@.len() && (#[trigger] map@[k]).0 == p;
        }
    }
    None
}

/// A strictly ascending pitch row.
pub open spec fn strictly_increasing(s: Seq<u8>) -> bool {
    forall|i: int, j: int| 0 <= i < j < s.len() ==> s[i] < s[j]
}

/// The model counterpart of the per-track pitch rows.
pub open spec fn rows_view(v: Seq<Vec<u8>>) -> Seq<Seq<u8>> {
    v.map_values(|x: Vec<u8>| x@)
}

/// The derived summary is faithful: one row per track, each row strictly
/// ascending and holding exactly the pitches of that track's note events.
pub open spec fn summary_matches(rows: Seq<Seq<u8>>, spans: Seq<TrackSpan>) -> bool {
    &&& rows.len() == spans.len()
    &&& forall|t: int| 0 <= t < rows.len() ==> strictly_increasing(#[trigger] rows[t])
    &&& forall|t: int, p: u8|
        0 <= t < rows.len() ==> ((#[trigger] rows[t].contains(p)) <==> has_pitch(
            spans[t].notes,
            p,
        ))
}

/// The sorted set of distinct pitches among one track's note events.
fn distinct_pitches(notes: &Vec<NoteEvent>) -> (r: Vec<u8>)
    requires
        forall|k: int| 0 <= k < notes@.len() ==> (#[trigger] notes@[k]).pitch < 0x80,
    ensures
        strictly_increasing(r@),
        forall|p: u8| r@.contains(p) <==> has_pitch(notes_view(notes@), p),
{
    let mut seen: Vec<bool> = Vec::new();
    let mut q: usize = 0;
    while q < 128
        invariant
            q <= 128,
            seen@.len() == q,
            forall|x: int| 0 <= x < q ==> !seen@[x],
        decreases 128 - q,
    {
        seen.push(false);
        q = q + 1;
    }
    let mut k: usize = 0;
    while k < notes.len()
        invariant
            k <= notes@.len(),
            seen@.len() == 128,
            forall|x: int| 0 <= x < notes@.len() ==> (#[trigger] notes@[x]).pitch < 0x80,
            forall|p: u8|
                p < 128 ==> (seen@[p as int] <==> exists|x: int|
                    0 <= x < k && (#[trigger] notes@[x]).pitch == p),
        decreases notes@.len() - k,
    {
        let p = notes[k].pitch;
        seen.set(p as usize, true);
        proof {
            assert forall|q: u8|
                q < 128 implies (seen@[q as int] <==> exists|x: int|
                0 <= x < k + 1 && (#[trigger] notes@[x]).pitch == q) by {
                if q == p {
                    assert(notes@[k as int].pitch == q);
                } else {
                    if exists|x: int| 0 <= x < k + 1 && (#[trigger] notes@[x]).pitch == q {
                        let x = choose|x: int|
                            0 <= x < k + 1 && (#[trigger] notes@[x]).pitch == q;
                        assert(x < k);
                    }
                }
            };
        }
        k = k + 1;
    }
    let mut r: Vec<u8> = Vec::new();
    let mut q2: usize = 0;
    while q2 < 128
        invariant
            q2 <= 128,
            seen@.len() == 128,
            forall|p: u8|
                p < 128 ==> (seen@[p as int] <==> exists|x: int|
                    0 <= x < notes@.len() && (#[trigger] notes@[x]).pitch == p),
            forall|i: int, j: int| 0 <= i < j < r@.len() ==> r@[i] < r@[j],
            forall|i: int| 0 <= i < r@.len() ==> (#[trigger] r@[i]) < q2,
            forall|p: u8| r@.contains(p) <==> (p < q2 && seen@[p as int]),
        decreases 128 - q2,
    {
        if seen[q2] {
            let ghost old_r = r@;
            r.push(q2 as u8);
            proof {
                assert forall|p: u8| r@.contains(p) implies (p < q2 + 1 && seen@[p as int]) by {
                    let i = choose|i: int| 0 <= i < r@.len() && r@[i] == p;
                    if i < old_r.len() {
                        assert(old_r[i] == p);
                        assert(old_r.contains(p));
                    }
                };
                assert forall|p: u8| (p < q2 + 1 && seen@[p as int]) implies r@.contains(p) by {
                    if p < q2 {
                        assert(old_r.contains(p));
                        let i = choose|i: int| 0 <= i < old_r.len() && old_r[i] == p;
                        assert(r@[i] == p);
                    } else {
                        assert(r@[r@.len() - 1] == p);
                    }
                };
            }
        }
        q2 = q2 + 1;
    }
    proof {
        assert forall|p: u8| r@.contains(p) implies has_pitch(notes_view(notes@), p) by {
            let x = choose|x: int| 0 <= x < notes@.len() && (#[trigger] notes@[x]).pitch == p;
            assert(notes_view(notes@)[x].pitch == p);
        };
        assert forall|p: u8| has_pitch(notes_view(notes@), p) implies r@.contains(p) by {
            let x = choose|x: int|
                0 <= x < notes_view(notes@).len() && notes_view(notes@)[x].pitch == p;
            assert(notes@[x].pitch == p);
        };
    }
    r
}

/// A loaded MIDI document: the original bytes, kept verbatim, and the
/// derived per-track summary of distinct pitches, sorted ascending.
/// A document never changes once loaded; a new load replaces it.
#[derive(Debug)]
pub struct MidiFile {
    /// Per track, the distinct pitches of its note-on / note-off events.
    pub tracks: Vec<Vec<u8>>,
    /// The file content as loaded, kept verbatim for the remap transform.
    pub bytes: Vec<u8>,
}

impl MidiFile {
    /// The bytes the document was loaded from.
    pub open spec fn bytes_view(&self) -> Seq<u8> {
        self.bytes@
    }

    /// The document invariant: the kept bytes are a well-formed file and
    /// the summary reflects exactly their note events.
    pub open spec fn wf(&self) -> bool {
        &&& parse_smf(self.bytes_view()) is Some
        &&& summary_matches(rows_view(self.tracks@), parse_smf(self.bytes_view())->Some_0)
    }

    /// Parses the bytes and derives the per-track note summary.  Fails
    /// with `Error::Parse` exactly when the bytes are not a well-formed
    /// file.
    #[verifier::loop_isolation(false)]
    pub fn new(bytes: Vec<u8>) -> (r: Result<MidiFile, Error>)
        ensures
            match r {
                Ok(f) => parse_smf(bytes@) is Some && f.wf() && f.bytes_view() == bytes@,
                Err(e) => e == Error::Parse && parse_smf(bytes@) is None,
            },
    {
        let tds = match scan_smf(&bytes) {
            None => {
                return Err(Error::Parse);
            },
            Some(v) => v,
        };
        proof {
            lemma_smf_props(bytes@);
        }
        let ghost spans = spans_view(tds@);
        let mut tracks: Vec<Vec<u8>> = Vec::new();
        let mut t: usize = 0;
        while t < tds.len()
            invariant
                t <= tds@.len(),
                tracks@.len() == t,
                forall|x: int| 0 <= x < t ==> strictly_increasing((#[trigger] tracks@[x])@),
                forall|x: int, p: u8|
                    0 <= x < t ==> ((#[trigger] tracks@[x]@.contains(p)) <==> has_pitch(
                        spans[x].notes,
                        p,
                    )),
            decreases tds@.len() - t,
        {
            proof {
                assert(spans[t as int] == tds@[t as int]@);
                assert(spans[t as int].notes == notes_view(tds@[t as int].notes@));
                assert(spans[t as int].notes.len() == tds@[t as int].notes@.len());
                assert forall|k: int|
                    0 <= k < tds@[t as int].notes@.len() implies (#[trigger] tds@[t as int].notes@[k]).pitch < 0x80 by {
                    assert(notes_view(tds@[t as int].notes@)[k] == tds@[t as int].notes@[k]@);
                    assert(0 <= t < spans.len());
                    assert(parse_smf(bytes@)->Some_0 == spans);
                    assert(0 <= k < spans[t as int].notes.len());
                    assert(spans[t as int].start <= spans[t as int].notes[k].off < spans[
                        t as int].end);
                    assert(spans[t as int].notes[k].pitch == bytes@[spans[t as int].notes[k].off]
                        % 0x80);
                };
            }
            let row = distinct_pitches(&tds[t].notes);
            tracks.push(row);
            t = t + 1;
        }
        proof {
            assert forall|x: int| 0 <= x < tracks@.len() implies rows_view(tracks@)[x]
                == tracks@[x]@ by {}
            assert(summary_matches(rows_view(tracks@), spans));
        }
        Ok(MidiFile { tracks, bytes })
    }

    /// Re-parses the kept bytes and rewrites the mapped tracks; the
    /// document itself is untouched.  The parse cannot fail on a
    /// well-formed document, but is handled rather than assumed.
    pub fn map_file(&self, mappings: &Vec<Mapping>) -> (r: Result<Vec<u8>, Error>)
        requires
            self.wf(),
            forall|j: int| 0 <= j < mappings@.len() ==> (#[trigger] mappings@[j]).wf(),
            forall|j1: int, j2: int|
                0 <= j1 < j2 < mappings@.len() ==> (#[trigger] mappings@[j1]).track != (
                #[trigger] mappings@[j2]).track,
        ensures
            match r {
                Ok(out) => out@ == apply_maps(
                    self.bytes_view(),
                    parse_smf(self.bytes_view())->Some_0,
                    maps_view(mappings@),
                ),
                Err(_) => false,
            },
    {
        match remap_bytes(&self.bytes, mappings) {
            Ok(out) => Ok(out),
            Err(_) => Err(Error::Parse),
        }
    }
}

/// Copies a byte vector.
fn copy_bytes(b: &Vec<u8>) -> (r: Vec<u8>)
    ensures
        r@ == b@,
{
    let mut r: Vec<u8> = Vec::new();
    let mut i: usize = 0;
    while i < b.len()
        invariant
            i <= b@.len(),
            r@ == b@.take(i as int),
        decreases b@.len() - i,
    {
        r.push(b[i]);
        proof {
            assert(r@ =~= b@.take(i + 1));
        }
        i = i + 1;
    }
    proof {
        assert(b@.take(b@.len() as int) =~= b@);
    }
    r
}

/// Re-parses `bytes` afresh and rewrites, in each mapped track, the key
/// byte of every note-on / note-off event whose pitch the track's map
/// covers; every other byte is left as it was.  Fails with `Error::Parse`
/// exactly when the bytes are not a well-formed file.
#[verifier::loop_isolation(false)]
pub fn remap_bytes(bytes: &Vec<u8>, mappings: &Vec<Mapping>) -> (r: Result<Vec<u8>, Error>)
    requires
        forall|j: int| 0 <= j < mappings@.len() ==> (#[trigger] mappings@[j]).wf(),
        forall|j1: int, j2: int|
            0 <= j1 < j2 < mappings@.len() ==> (#[trigger] mappings@[j1]).track != (
            #[trigger] mappings@[j2]).track,
    ensures
        match r {
            Ok(out) => parse_smf(bytes@) is Some && out@ == apply_maps(
                bytes@,
                parse_smf(bytes@)->Some_0,
                maps_view(mappings@),
            ),
            Err(e) => e == Error::Parse && parse_smf(bytes@) is None,
        },
{
    let tds = match scan_smf(bytes) {
        None => {
            return Err(Error::Parse);
        },
        Some(v) => v,
    };
    let ghost spans = spans_view(tds@);
    let ghost ms = maps_view(mappings@);
    proof {
        lemma_smf_props(bytes@);
        lemma_maps_view_wf(mappings@);
    }
    let mut out = copy_bytes(bytes);
    let mut j: usize = 0;
    while j < mappings.len()
        invariant
            j <= mappings@.len(),
            parse_smf(bytes@) == Some(spans),
            spans == spans_view(tds@),
            ms == maps_view(mappings@),
            forall|x: int| 0 <= x < mappings@.len() ==> (#[trigger] mappings@[x]).wf(),
            out@ == apply_maps(bytes@, spans, ms.take(j as int)),
            out@.len() == bytes@.len(),
        decreases mappings@.len() - j,
    {
        let ghost before = out@;
        let track = mappings[j].track;
        proof {
            assert(ms.take(j + 1) =~= ms.take(j as int).push(ms[j as int]));
            lemma_apply_push(bytes@, spans, ms.take(j as int), ms[j as int]);
            assert(ms[j as int] == mappings@[j as int]@);
        }
        if track < tds.len() {
            let ghost tnotes = spans[track as int].notes;
            let ghost pm = pairs_map(mappings@[j as int].map@);
            proof {
                assert(spans[track as int] == tds@[track as int]@);
                assert(tnotes == notes_view(tds@[track as int].notes@));
                lemma_pairs_map_props(mappings@[j as int].map@);
            }
            let nlen = tds[track].notes.len();
            let mut k: usize = 0;
            while k < nlen
                invariant
                    k <= nlen,
                    nlen == tds@[track as int].notes@.len(),
                    track < tds@.len(),
                    parse_smf(bytes@) == Some(spans),
                    spans == spans_view(tds@),
                    spans[track as int] == tds@[track as int]@,
                    tnotes == notes_view(tds@[track as int].notes@),
                    tnotes.len() == nlen,
                    j < mappings@.len(),
                    pm == pairs_map(mappings@[j as int].map@),
                    forall|x: int| 0 <= x < mappings@.len() ==> (#[trigger] mappings@[x]).wf(),
                    out@ == rewrite_notes(before, tnotes.take(k as int), pm),
                    out@.len() == bytes@.len(),
                    before.len() == bytes@.len(),
                decreases nlen - k,
            {
                let note = tds[track].notes[k];
                proof {
                    assert(tnotes[k as int] == tds@[track as int].notes@[k as int]@);
                    assert(tnotes.take(k + 1) =~= tnotes.take(k as int).push(tnotes[k as int]));
                    lemma_rewrite_push(before, tnotes.take(k as int), tnotes[k as int], pm);
                    lemma_rewrite_len(before, tnotes.take(k as int), pm);
                    // The key byte lies inside the file.
                    lemma_smf_props(bytes@);
                    assert(parse_smf(bytes@)->Some_0 == spans);
                    assert(0 <= k < spans[track as int].notes.len());
                    assert(spans[track as int].notes == tnotes);
                    assert(22 <= spans[track as int].start <= spans[track as int].end
                        <= bytes@.len());
                    assert(spans[track as int].start <= tnotes[k as int].off < spans[track as int].end);
                }
                match lookup(&mappings[j].map, note.pitch) {
                    Some(to) => {
                        out.set(note.off, to);
                    },
                    None => {},
                }
                k = k + 1;
            }
            proof {
                assert(tnotes.take(nlen as int) =~= tnotes);
            }
        }
        j = j + 1;
    }
    proof {
        assert(ms.take(mappings@.len() as int) =~= ms);
    }
    Ok(out)
}

} // verus!
