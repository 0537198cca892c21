//! Model of the remap transform: rewriting the key bytes of note events.
//!
//! `rewrite_notes` walks one track's note events and replaces each key byte
//! whose pitch the map covers; `apply_maps` does so for several tracks.
//! The lemmas pin the result down byte by byte, and `lemma_remap_reparse`
//! combines them with the container model: the rewritten bytes are again a
//! well-formed file with the same shape and the mapped pitches.

use vstd::prelude::*;

use crate::smf::{
    NoteSpot, TrackSpan, is_note_off_at, is_span_note_off_at, lemma_smf_props, lemma_smf_rewrite,
    parse_smf,
};

verus! {

/// One track selected for the remap, with its pitch-to-pitch map.
pub ghost struct TrackMap {
    pub track: int,
    pub map: Map<u8, u8>,
}

/// Every pitch the map hands out is a valid 7-bit pitch.
pub open spec fn map_targets_low(m: Map<u8, u8>) -> bool {
    forall|p: u8| m.dom().contains(p) ==> m[p] < 0x80
}

/// The geometry a parsed file gives its track spans: data regions in
/// order and apart, every key byte inside its own region, key offsets
/// strictly increasing within a track.
pub open spec fn spans_wf(spans: Seq<TrackSpan>, blen: int) -> bool {
    &&& forall|t: int|
        0 <= t < spans.len() ==> 22 <= (#[trigger] spans[t]).start <= spans[t].end <= blen
    &&& forall|t1: int, t2: int|
        0 <= t1 < t2 < spans.len() ==> (#[trigger] spans[t1]).end + 8 <= (#[trigger] spans[t2]).start
    &&& forall|t: int, k: int|
        0 <= t < spans.len() && 0 <= k < (#[trigger] spans[t]).notes.len() ==> spans[t].start <= (
        #[trigger] spans[t].notes[k]).off < spans[t].end
    &&& forall|t: int, k1: int, k2: int|
        0 <= t < spans.len() && 0 <= k1 < k2 < (#[trigger] spans[t]).notes.len() ==> (
        #[trigger] spans[t].notes[k1]).off < (#[trigger] spans[t].notes[k2]).off
}

/// One track's rewrite: each note event whose pitch the map covers gets
/// its key byte replaced by the mapped pitch; all else stays.
pub open spec fn rewrite_notes(b: Seq<u8>, notes: Seq<NoteSpot>, m: Map<u8, u8>) -> Seq<u8>
    decreases notes.len(),
{
    if notes.len() == 0 {
        b
    } else {
        let n = notes[0];
        let b1 = if m.dom().contains(n.pitch) && 0 <= n.off < b.len() {
            b.update(n.off, m[n.pitch])
        } else {
            b
        };
        rewrite_notes(b1, notes.drop_first(), m)
    }
}

/// The whole transform: the tracks named by `ms`, in order, each through
/// its own map.  A track index out of range maps nothing.
pub open spec fn apply_maps(b: Seq<u8>, spans: Seq<TrackSpan>, ms: Seq<TrackMap>) -> Seq<u8>
    decreases ms.len(),
{
    if ms.len() == 0 {
        b
    } else {
        let m = ms[0];
        let b1 = if 0 <= m.track < spans.len() {
            rewrite_notes(b, spans[m.track].notes, m.map)
        } else {
            b
        };
        apply_maps(b1, spans, ms.drop_first())
    }
}

/// A rewrite keeps the length, and a byte changes only if it is the key
/// byte of one of the given note events and a 7-bit mapped pitch replaces it.
pub proof fn lemma_rewrite_changes(b: Seq<u8>, notes: Seq<NoteSpot>, m: Map<u8, u8>)
    requires
        map_targets_low(m),
    ensures
        rewrite_notes(b, notes, m).len() == b.len(),
        forall|i: int|
            0 <= i < b.len() && rewrite_notes(b, notes, m)[i] != b[i] ==> is_note_off_at(notes, i)
                && rewrite_notes(b, notes, m)[i] < 0x80,
    decreases notes.len(),
{
    if notes.len() == 0 {
    } else {
        let n = notes[0];
        let b1 = if m.dom().contains(n.pitch) && 0 <= n.off < b.len() {
            b.update(n.off, m[n.pitch])
        } else {
            b
        };
        lemma_rewrite_changes(b1, notes.drop_first(), m);
        assert forall|i: int|
            0 <= i < b.len() && rewrite_notes(b, notes, m)[i] != b[i] implies is_note_off_at(
            notes,
            i,
        ) && rewrite_notes(b, notes, m)[i] < 0x80 by {
            if rewrite_notes(b, notes, m)[i] != b1[i] {
                let k = choose|k: int|
                    0 <= k < notes.drop_first().len() && notes.drop_first()[k].off == i;
                assert(notes[k + 1].off == i);
            } else {
                assert(b1[i] != b[i]);
                assert(notes[0].off == i);
            }
        };
    }
}

/// What a rewrite writes at each key byte: the mapped pitch where the map
/// covers the note's pitch, the old byte elsewhere.  Key offsets must be
/// strictly increasing and in range, as a parsed track's are.
pub proof fn lemma_rewrite_at(b: Seq<u8>, notes: Seq<NoteSpot>, m: Map<u8, u8>)
    requires
        map_targets_low(m),
        forall|k: int| 0 <= k < notes.len() ==> 0 <= (#[trigger] notes[k]).off < b.len(),
        forall|k1: int, k2: int|
            0 <= k1 < k2 < notes.len() ==> (#[trigger] notes[k1]).off < (#[trigger] notes[k2]).off,
    ensures
        forall|k: int|
            0 <= k < notes.len() ==> rewrite_notes(b, notes, m)[(#[trigger] notes[k]).off] == (
            if m.dom().contains(notes[k].pitch) {
                m[notes[k].pitch]
            } else {
                b[notes[k].off]
            }),
    decreases notes.len(),
{
    if notes.len() == 0 {
    } else {
        let n = notes[0];
        let b1 = if m.dom().contains(n.pitch) && 0 <= n.off < b.len() {
            b.update(n.off, m[n.pitch])
        } else {
            b
        };
        let tail = notes.drop_first();
        lemma_rewrite_at(b1, tail, m);
        lemma_rewrite_changes(b1, tail, m);
        // The tail never writes at the first note's offset again.
        assert(!is_note_off_at(tail, n.off)) by {
            if is_note_off_at(tail, n.off) {
                let k = choose|k: int| 0 <= k < tail.len() && tail[k].off == n.off;
                assert(notes[k + 1].off == n.off);
            }
        };
        assert(rewrite_notes(b, notes, m)[n.off] == b1[n.off]);
        assert forall|k: int|
            0 <= k < notes.len() implies rewrite_notes(b, notes, m)[(#[trigger] notes[k]).off] == (
            if m.dom().contains(notes[k].pitch) {
                m[notes[k].pitch]
            } else {
                b[notes[k].off]
            }) by {
            if k > 0 {
                assert(notes[k] == tail[k - 1]);
                assert(b1[notes[k].off] == b[notes[k].off]);
            }
        };
    }
}

/// Which tracks a map list names.
pub open spec fn is_mapped_track(ms: Seq<TrackMap>, t: int) -> bool {
    exists|j: int| 0 <= j < ms.len() && ms[j].track == t
}

/// All maps hand out 7-bit pitches and no track is named twice.
pub open spec fn maps_wf(ms: Seq<TrackMap>) -> bool {
    &&& forall|j: int| 0 <= j < ms.len() ==> map_targets_low((#[trigger] ms[j]).map)
    &&& forall|j1: int, j2: int|
        0 <= j1 < j2 < ms.len() ==> (#[trigger] ms[j1]).track != (#[trigger] ms[j2]).track
}

/// Whether `i` is the key byte of a note event of one of the named tracks.
pub open spec fn is_mapped_note_off(spans: Seq<TrackSpan>, ms: Seq<TrackMap>, i: int) -> bool {
    exists|j: int|
        0 <= j < ms.len() && 0 <= ms[j].track < spans.len() && is_note_off_at(
            spans[ms[j].track].notes,
            i,
        )
}

/// The whole transform keeps the length, and a byte changes only if it is
/// the key byte of a note event of one of the named tracks, replaced by a
/// 7-bit pitch.
pub proof fn lemma_apply_changes(b: Seq<u8>, spans: Seq<TrackSpan>, ms: Seq<TrackMap>)
    requires
        forall|j: int| 0 <= j < ms.len() ==> map_targets_low((#[trigger] ms[j]).map),
    ensures
        apply_maps(b, spans, ms).len() == b.len(),
        forall|i: int|
            0 <= i < b.len() && apply_maps(b, spans, ms)[i] != b[i] ==> is_mapped_note_off(
                spans,
                ms,
                i,
            ) && apply_maps(b, spans, ms)[i] < 0x80,
    decreases ms.len(),
{
    if ms.len() == 0 {
    } else {
        let m = ms[0];
        let b1 = if 0 <= m.track < spans.len() {
            rewrite_notes(b, spans[m.track].notes, m.map)
        } else {
            b
        };
        lemma_rewrite_changes(b, if 0 <= m.track < spans.len() {
            spans[m.track].notes
        } else {
            Seq::empty()
        }, m.map);
        let tail = ms.drop_first();
        assert(forall|j: int| 0 <= j < tail.len() ==> tail[j] == ms[j + 1]);
        lemma_apply_changes(b1, spans, tail);
        assert forall|i: int|
            0 <= i < b.len() && apply_maps(b, spans, ms)[i] != b[i] implies is_mapped_note_off(
            spans,
            ms,
            i,
        ) && apply_maps(b, spans, ms)[i] < 0x80 by {
            if apply_maps(b, spans, ms)[i] != b1[i] {
                let j = choose|j: int|
                    0 <= j < tail.len() && 0 <= tail[j].track < spans.len() && is_note_off_at(
                        spans[tail[j].track].notes,
                        i,
                    );
                assert(ms[j + 1] == tail[j]);
                assert(is_mapped_note_off(spans, ms, i));
            } else {
                assert(b1[i] != b[i]);
                assert(0 <= m.track < spans.len() && is_note_off_at(spans[m.track].notes, i));
                assert(is_mapped_note_off(spans, ms, i));
            }
        };
    }
}

/// Key bytes of two different tracks never share an offset.
pub proof fn lemma_offs_of_distinct_tracks(
    spans: Seq<TrackSpan>,
    blen: int,
    t1: int,
    t2: int,
    i: int,
)
    requires
        spans_wf(spans, blen),
        0 <= t1 < spans.len(),
        0 <= t2 < spans.len(),
        t1 != t2,
        is_note_off_at(spans[t1].notes, i),
    ensures
        !is_note_off_at(spans[t2].notes, i),
{
    let k1 = choose|k: int| 0 <= k < spans[t1].notes.len() && spans[t1].notes[k].off == i;
    if is_note_off_at(spans[t2].notes, i) {
        let k2 = choose|k: int| 0 <= k < spans[t2].notes.len() && spans[t2].notes[k].off == i;
        if t1 < t2 {
            assert(spans[t1].end + 8 <= spans[t2].start);
        } else {
            assert(spans[t2].end + 8 <= spans[t1].start);
        }
    }
}

/// What the whole transform writes at each key byte of each named track:
/// the mapped pitch where that track's map covers the note's pitch, the
/// old byte elsewhere.
pub proof fn lemma_apply_at(b: Seq<u8>, spans: Seq<TrackSpan>, ms: Seq<TrackMap>)
    requires
        spans_wf(spans, b.len() as int),
        maps_wf(ms),
    ensures
        forall|j: int, k: int|
            0 <= j < ms.len() && 0 <= (#[trigger] ms[j]).track < spans.len() && 0 <= k
                < spans[ms[j].track].notes.len() ==> apply_maps(b, spans, ms)[(
            #[trigger] spans[ms[j].track].notes[k]).off] == (if ms[j].map.dom().contains(
                spans[ms[j].track].notes[k].pitch,
            ) {
                ms[j].map[spans[ms[j].track].notes[k].pitch]
            } else {
                b[spans[ms[j].track].notes[k].off]
            }),
    decreases ms.len(),
{
    if ms.len() == 0 {
    } else {
        let m = ms[0];
        let t0 = m.track;
        let b1 = if 0 <= t0 < spans.len() {
            rewrite_notes(b, spans[t0].notes, m.map)
        } else {
            b
        };
        let notes0 = if 0 <= t0 < spans.len() {
            spans[t0].notes
        } else {
            Seq::empty()
        };
        lemma_rewrite_changes(b, notes0, m.map);
        if 0 <= t0 < spans.len() {
            lemma_rewrite_at(b, spans[t0].notes, m.map);
        }
        let tail = ms.drop_first();
        assert(forall|j: int| 0 <= j < tail.len() ==> tail[j] == ms[j + 1]);
        lemma_apply_at(b1, spans, tail);
        lemma_apply_changes(b1, spans, tail);
        let out = apply_maps(b, spans, ms);
        assert forall|j: int, k: int|
            0 <= j < ms.len() && 0 <= (#[trigger] ms[j]).track < spans.len() && 0 <= k
                < spans[ms[j].track].notes.len() implies out[(
        #[trigger] spans[ms[j].track].notes[k]).off] == (if ms[j].map.dom().contains(
            spans[ms[j].track].notes[k].pitch,
        ) {
            ms[j].map[spans[ms[j].track].notes[k].pitch]
        } else {
            b[spans[ms[j].track].notes[k].off]
        }) by {
            let off = spans[ms[j].track].notes[k].off;
            if j == 0 {
                // No later map touches this track's key bytes.
                if out[off] != b1[off] {
                    let j2 = choose|j2: int|
                        0 <= j2 < tail.len() && 0 <= tail[j2].track < spans.len()
                            && is_note_off_at(spans[tail[j2].track].notes, off);
                    assert(tail[j2] == ms[j2 + 1]);
                    assert(tail[j2].track != t0);
                    lemma_offs_of_distinct_tracks(spans, b.len() as int, t0, tail[j2].track, off);
                    assert(is_note_off_at(spans[t0].notes, off));
                }
            } else {
                // The first map leaves this other track's key bytes alone.
                assert(ms[j] == tail[j - 1]);
                if b1[off] != b[off] {
                    assert(is_note_off_at(notes0, off));
                    lemma_offs_of_distinct_tracks(spans, b.len() as int, ms[j].track, t0, off);
                    assert(is_note_off_at(spans[ms[j].track].notes, off));
                }
                assert(apply_maps(b1, spans, tail)[off] == (if tail[j - 1].map.dom().contains(
                    spans[tail[j - 1].track].notes[k].pitch,
                ) {
                    tail[j - 1].map[spans[tail[j - 1].track].notes[k].pitch]
                } else {
                    b1[spans[tail[j - 1].track].notes[k].off]
                }));
            }
        };
    }
}

/// The pitch a note ends up with: the one its track's map assigns, or its
/// own where no named track's map covers it.
pub open spec fn mapped_pitch(ms: Seq<TrackMap>, t: int, p: u8) -> u8 {
    if exists|j: int|
        0 <= j < ms.len() && (#[trigger] ms[j]).track == t && ms[j].map.dom().contains(p) {
        let j = choose|j: int|
            0 <= j < ms.len() && (#[trigger] ms[j]).track == t && ms[j].map.dom().contains(p);
        ms[j].map[p]
    } else {
        p
    }
}

/// The round-trip law of the remap transform.  Rewriting the named tracks
/// of a well-formed file yields bytes of the same length that parse again
/// to the same track regions, with every note event at its old offset and
/// its pitch mapped exactly as the track's map says; every byte that is
/// not a rewritten key byte is unchanged.
pub proof fn lemma_remap_reparse(b: Seq<u8>, ms: Seq<TrackMap>)
    requires
        parse_smf(b) is Some,
        maps_wf(ms),
    ensures
        ({
            let spans = parse_smf(b)->Some_0;
            let out = apply_maps(b, spans, ms);
            let r2 = parse_smf(out);
            &&& out.len() == b.len()
            &&& forall|i: int|
                0 <= i < b.len() && !is_mapped_note_off(spans, ms, i) ==> out[i] == b[i]
            &&& r2 is Some
            &&& r2->Some_0.len() == spans.len()
            &&& forall|t: int|
                0 <= t < spans.len() ==> (#[trigger] r2->Some_0[t]).start == spans[t].start
                    && r2->Some_0[t].end == spans[t].end && r2->Some_0[t].notes.len()
                    == spans[t].notes.len()
            &&& forall|t: int, k: int|
                0 <= t < spans.len() && 0 <= k < (#[trigger] spans[t]).notes.len() ==> (
                #[trigger] r2->Some_0[t].notes[k]).off == spans[t].notes[k].off
                    && r2->Some_0[t].notes[k].pitch == mapped_pitch(
                    ms,
                    t,
                    spans[t].notes[k].pitch,
                )
        }),
{
    let spans = parse_smf(b)->Some_0;
    let out = apply_maps(b, spans, ms);
    lemma_smf_props(b);
    assert(spans_wf(spans, b.len() as int));
    lemma_apply_changes(b, spans, ms);
    lemma_apply_at(b, spans, ms);
    assert forall|i: int|
        0 <= i < b.len() && b[i] != out[i] implies is_span_note_off_at(spans, i) && out[i]
        < 0x80 by {
        let j = choose|j: int|
            0 <= j < ms.len() && 0 <= ms[j].track < spans.len() && is_note_off_at(
                spans[ms[j].track].notes,
                i,
            );
        assert(is_span_note_off_at(spans, i));
    };
    lemma_smf_rewrite(b, out);
    let spans2 = parse_smf(out)->Some_0;
    assert forall|t: int, k: int|
        0 <= t < spans.len() && 0 <= k < (#[trigger] spans[t]).notes.len() implies (
    #[trigger] spans2[t].notes[k]).off == spans[t].notes[k].off && spans2[t].notes[k].pitch
        == mapped_pitch(ms, t, spans[t].notes[k].pitch) by {
        let p = spans[t].notes[k].pitch;
        let off = spans[t].notes[k].off;
        assert(spans2[t].notes[k].pitch == out[off] % 0x80);
        assert(b[off] % 0x80 == p);
        if exists|j: int|
            0 <= j < ms.len() && (#[trigger] ms[j]).track == t && ms[j].map.dom().contains(p) {
            let j = choose|j: int|
                0 <= j < ms.len() && (#[trigger] ms[j]).track == t && ms[j].map.dom().contains(p);
            assert(out[off] == ms[j].map[p]);
            assert(mapped_pitch(ms, t, p) == ms[j].map[p]) by {
                let j2 = choose|j2: int|
                    0 <= j2 < ms.len() && (#[trigger] ms[j2]).track == t
                        && ms[j2].map.dom().contains(p);
                assert(j2 == j);
            };
        } else {
            // Either no named track owns this note, or its map skips the
            // pitch; the key byte is then untouched.
            if out[off] != b[off] {
                let j = choose|j: int|
                    0 <= j < ms.len() && 0 <= ms[j].track < spans.len() && is_note_off_at(
                        spans[ms[j].track].notes,
                        off,
                    );
                if ms[j].track != t {
                    lemma_offs_of_distinct_tracks(spans, b.len() as int, t, ms[j].track, off);
                    assert(is_note_off_at(spans[t].notes, off));
                } else {
                    assert(out[off] == b[off]);
                }
            }
        }
    };
}

/// The summary of the rewritten file, track by track: a pitch occurs
/// among a track's note events after the transform exactly when some note
/// event of that track mapped to it — so mapped pitches are present, and
/// an original pitch is absent unless an event its track's map does not
/// cover still produces it.
pub proof fn lemma_remap_summary(b: Seq<u8>, ms: Seq<TrackMap>, t: int, p: u8)
    requires
        parse_smf(b) is Some,
        maps_wf(ms),
        0 <= t < parse_smf(b)->Some_0.len(),
    ensures
        ({
            let spans = parse_smf(b)->Some_0;
            let spans2 = parse_smf(apply_maps(b, spans, ms))->Some_0;
            crate::smf::has_pitch(spans2[t].notes, p) <==> exists|k: int|
                0 <= k < spans[t].notes.len() && mapped_pitch(
                    ms,
                    t,
                    (#[trigger] spans[t].notes[k]).pitch,
                ) == p
        }),
{
    lemma_remap_reparse(b, ms);
    let spans = parse_smf(b)->Some_0;
    let spans2 = parse_smf(apply_maps(b, spans, ms))->Some_0;
    if crate::smf::has_pitch(spans2[t].notes, p) {
        let k = choose|k: int| 0 <= k < spans2[t].notes.len() && spans2[t].notes[k].pitch == p;
        assert(mapped_pitch(ms, t, spans[t].notes[k].pitch) == p);
    }
    if exists|k: int|
        0 <= k < spans[t].notes.len() && mapped_pitch(ms, t, (#[trigger] spans[t].notes[k]).pitch)
            == p {
        let k = choose|k: int|
            0 <= k < spans[t].notes.len() && mapped_pitch(
                ms,
                t,
                (#[trigger] spans[t].notes[k]).pitch,
            ) == p;
        assert(spans2[t].notes[k].pitch == p);
        assert(crate::smf::has_pitch(spans2[t].notes, p));
    }
}

/// A rewrite through an empty map changes nothing.
pub proof fn lemma_rewrite_empty(b: Seq<u8>, notes: Seq<NoteSpot>, m: Map<u8, u8>)
    requires
        m.dom() =~= Set::empty(),
    ensures
        rewrite_notes(b, notes, m) == b,
    decreases notes.len(),
{
    if notes.len() == 0 {
    } else {
        lemma_rewrite_empty(b, notes.drop_first(), m);
    }
}

/// A transform whose maps are all empty leaves the file byte-identical.
pub proof fn lemma_apply_all_empty(b: Seq<u8>, spans: Seq<TrackSpan>, ms: Seq<TrackMap>)
    requires
        forall|j: int| 0 <= j < ms.len() ==> (#[trigger] ms[j]).map.dom() =~= Set::empty(),
    ensures
        apply_maps(b, spans, ms) == b,
    decreases ms.len(),
{
    if ms.len() == 0 {
    } else {
        if 0 <= ms[0].track < spans.len() {
            lemma_rewrite_empty(b, spans[ms[0].track].notes, ms[0].map);
        }
        let tail = ms.drop_first();
        assert(forall|j: int| 0 <= j < tail.len() ==> tail[j] == ms[j + 1]);
        lemma_apply_all_empty(b, spans, tail);
    }
}

/// A track that no map names keeps every byte of its chunk — header and
/// data — byte-identical through the transform.
pub proof fn lemma_apply_untouched_track(
    b: Seq<u8>,
    spans: Seq<TrackSpan>,
    ms: Seq<TrackMap>,
    t: int,
)
    requires
        spans_wf(spans, b.len() as int),
        maps_wf(ms),
        0 <= t < spans.len(),
        !is_mapped_track(ms, t),
    ensures
        forall|i: int|
            spans[t].start - 8 <= i < spans[t].end ==> apply_maps(b, spans, ms)[i] == b[i],
{
    lemma_apply_changes(b, spans, ms);
    let out = apply_maps(b, spans, ms);
    assert forall|i: int| spans[t].start - 8 <= i < spans[t].end implies out[i] == b[i] by {
        if out[i] != b[i] {
            let j = choose|j: int|
                0 <= j < ms.len() && 0 <= ms[j].track < spans.len() && is_note_off_at(
                    spans[ms[j].track].notes,
                    i,
                );
            let t2 = ms[j].track;
            assert(t2 != t);
            let k = choose|k: int| 0 <= k < spans[t2].notes.len() && spans[t2].notes[k].off == i;
            if t2 < t {
                assert(spans[t2].end + 8 <= spans[t].start);
            } else {
                assert(spans[t].end + 8 <= spans[t2].start);
            }
        }
    };
}

/// A named track whose own map is empty keeps every byte of its chunk
/// byte-identical, whatever the other named tracks' maps rewrite.
pub proof fn lemma_empty_map_track_identity(
    b: Seq<u8>,
    spans: Seq<TrackSpan>,
    ms: Seq<TrackMap>,
    j: int,
)
    requires
        spans_wf(spans, b.len() as int),
        maps_wf(ms),
        0 <= j < ms.len(),
        ms[j].map.dom() =~= Set::<u8>::empty(),
        0 <= ms[j].track < spans.len(),
    ensures
        forall|i: int|
            spans[ms[j].track].start - 8 <= i < spans[ms[j].track].end ==> apply_maps(
                b,
                spans,
                ms,
            )[i] == b[i],
{
    let t = ms[j].track;
    lemma_apply_changes(b, spans, ms);
    lemma_apply_at(b, spans, ms);
    let out = apply_maps(b, spans, ms);
    assert forall|i: int| spans[t].start - 8 <= i < spans[t].end implies out[i] == b[i] by {
        if out[i] != b[i] {
            let j2 = choose|j2: int|
                0 <= j2 < ms.len() && 0 <= ms[j2].track < spans.len() && is_note_off_at(
                    spans[ms[j2].track].notes,
                    i,
                );
            let t2 = ms[j2].track;
            let k = choose|k: int| 0 <= k < spans[t2].notes.len() && spans[t2].notes[k].off == i;
            if t2 != t {
                if t2 < t {
                    assert(spans[t2].end + 8 <= spans[t].start);
                } else {
                    assert(spans[t].end + 8 <= spans[t2].start);
                }
            } else {
                assert(j2 == j);
                assert(!ms[j].map.dom().contains(spans[t].notes[k].pitch));
                assert(out[spans[ms[j2].track].notes[k].off] == b[spans[t].notes[k].off]);
            }
        }
    };
}

/// Appending one more note to a rewrite is one more key-byte update.
pub proof fn lemma_rewrite_push(b: Seq<u8>, notes: Seq<NoteSpot>, n: NoteSpot, m: Map<u8, u8>)
    ensures
        rewrite_notes(b, notes.push(n), m) == ({
            let r = rewrite_notes(b, notes, m);
            if m.dom().contains(n.pitch) && 0 <= n.off < r.len() {
                r.update(n.off, m[n.pitch])
            } else {
                r
            }
        }),
    decreases notes.len(),
{
    if notes.len() == 0 {
        assert(notes.push(n)[0] == n);
        assert(notes.push(n).drop_first() =~= Seq::<NoteSpot>::empty());
        let b1 = if m.dom().contains(n.pitch) && 0 <= n.off < b.len() {
            b.update(n.off, m[n.pitch])
        } else {
            b
        };
        assert(rewrite_notes(b, notes.push(n), m) == rewrite_notes(
            b1,
            notes.push(n).drop_first(),
            m,
        ));
        assert(rewrite_notes(b1, notes.push(n).drop_first(), m) == b1);
        assert(rewrite_notes(b, notes, m) == b);
    } else {
        let h = notes[0];
        let b1 = if m.dom().contains(h.pitch) && 0 <= h.off < b.len() {
            b.update(h.off, m[h.pitch])
        } else {
            b
        };
        assert(notes.push(n)[0] == h);
        assert(notes.push(n).drop_first() =~= notes.drop_first().push(n));
        lemma_rewrite_push(b1, notes.drop_first(), n, m);
        lemma_rewrite_len(b, notes, m);
        lemma_rewrite_len(b1, notes.drop_first(), m);
    }
}

/// A rewrite keeps the length of the bytes, whatever the map.
pub proof fn lemma_rewrite_len(b: Seq<u8>, notes: Seq<NoteSpot>, m: Map<u8, u8>)
    ensures
        rewrite_notes(b, notes, m).len() == b.len(),
    decreases notes.len(),
{
    if notes.len() == 0 {
    } else {
        let h = notes[0];
        let b1 = if m.dom().contains(h.pitch) && 0 <= h.off < b.len() {
            b.update(h.off, m[h.pitch])
        } else {
            b
        };
        lemma_rewrite_len(b1, notes.drop_first(), m);
    }
}

/// Naming one more track for the transform is one more track rewrite.
pub proof fn lemma_apply_push(b: Seq<u8>, spans: Seq<TrackSpan>, ms: Seq<TrackMap>, m: TrackMap)
    ensures
        apply_maps(b, spans, ms.push(m)) == ({
            let r = apply_maps(b, spans, ms);
            if 0 <= m.track < spans.len() {
                rewrite_notes(r, spans[m.track].notes, m.map)
            } else {
                r
            }
        }),
    decreases ms.len(),
{
    if ms.len() == 0 {
        assert(ms.push(m)[0] == m);
        assert(ms.push(m).drop_first() =~= Seq::<TrackMap>::empty());
        let b1 = if 0 <= m.track < spans.len() {
            rewrite_notes(b, spans[m.track].notes, m.map)
        } else {
            b
        };
        assert(apply_maps(b, spans, ms.push(m)) == apply_maps(b1, spans, ms.push(m).drop_first()));
        assert(apply_maps(b1, spans, ms.push(m).drop_first()) == b1);
        assert(apply_maps(b, spans, ms) == b);
    } else {
        let h = ms[0];
        let b1 = if 0 <= h.track < spans.len() {
            rewrite_notes(b, spans[h.track].notes, h.map)
        } else {
            b
        };
        assert(ms.push(m)[0] == h);
        assert(ms.push(m).drop_first() =~= ms.drop_first().push(m));
        lemma_apply_push(b1, spans, ms.drop_first(), m);
    }
}

} // verus!
