//! A note-mapping library for standard MIDI files.
//!
//! A loaded document keeps the original bytes and, per track, the set of
//! distinct pitches its note-on / note-off events use (`midi_file`,
//! backed by the container model in `smf` and the scanner in `scan`).
//! User-declared output notes live in a stable-identity registry
//! (`mapper`); input notes bind to them through a mapping table whose
//! removal repair keeps every binding live (`inputs`).  Saving re-parses
//! the original bytes and rewrites exactly the mapped key bytes (`remap`),
//! and a small state machine governs the background load (`loader`).

pub mod inputs;
pub mod loader;
pub mod mapper;
pub mod midi_file;
pub mod remap;
pub mod scan;
pub mod smf;

use vstd::prelude::*;

verus! {

/// Why a load or a save could not be carried out: either the bytes do not
/// form a standard MIDI container, or the surrounding I/O layer failed.
#[derive(Clone, Copy, PartialEq, Eq, Structural, Debug)]
pub enum Error {
    /// The bytes are not a well-formed standard MIDI file.
    Parse,
    /// Reading the source or writing the destination failed.
    Io,
}

impl Error {
    /// A short description for an error surface.
    pub fn message(&self) -> (r: &'static str)
        ensures
            (*self is Parse) ==> r@ == "malformed MIDI file"@,
            (*self is Io) ==> r@ == "file I/O failed"@,
    {
        match self {
            Error::Parse => "malformed MIDI file",
            Error::Io => "file I/O failed",
        }
    }
}

} // verus!
