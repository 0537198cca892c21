//! The document-loading state machine.
//!
//! Parsing runs on a worker and delivers its result through a single-shot
//! channel that the interactive side polls once per frame.  The decisions
//! live here: what each poll outcome does to the state, and which error,
//! if any, is surfaced.  The I/O itself — spawning the worker, reading the
//! file, polling the channel — stays outside the library.

use vstd::prelude::*;

use crate::Error;
use crate::midi_file::MidiFile;

verus! {

/// Where the document slot stands.  At most one parse is in flight.
pub enum LoadState {
    /// No document and no parse under way.
    Uninitialized,
    /// A parse is in flight; its result has not arrived yet.
    Initializing,
    /// A document is loaded.
    Initialized(MidiFile),
}

/// What one non-blocking poll of the result channel yielded.
pub enum PollEvent {
    /// Nothing yet; the parse is still running.
    Empty,
    /// The channel was dropped mid-flight: the load failed silently.
    Disconnected,
    /// The parse finished, well or badly.
    Finished(Result<MidiFile, Error>),
}

impl LoadState {
    /// Begins a load.  A slot with a parse already in flight may not
    /// start another.
    pub fn start_load(self) -> (r: LoadState)
        requires
            !(self is Initializing),
        ensures
            r is Initializing,
    {
        LoadState::Initializing
    }

    /// Applies one poll outcome: a finished parse installs the document
    /// or reverts to `Uninitialized` surfacing the error; a disconnect
    /// reverts silently; an empty poll changes nothing.
    pub fn on_poll(self, event: PollEvent) -> (r: (LoadState, Option<Error>))
        requires
            self is Initializing,
        ensures
            match event {
                PollEvent::Empty => r.0 is Initializing && r.1 is None,
                PollEvent::Disconnected => r.0 is Uninitialized && r.1 is None,
                PollEvent::Finished(res) => match res {
                    Ok(midi) => r.0 == LoadState::Initialized(midi) && r.1 is None,
                    Err(e) => r.0 is Uninitialized && r.1 == Some(e),
                },
            },
    {
        match event {
            PollEvent::Empty => (LoadState::Initializing, None),
            PollEvent::Disconnected => (LoadState::Uninitialized, None),
            PollEvent::Finished(res) => match res {
                Ok(midi) => (LoadState::Initialized(midi), None),
                Err(e) => (LoadState::Uninitialized, Some(e)),
            },
        }
    }

    /// The loaded document, if any.
    pub fn document(&self) -> (r: Option<&MidiFile>)
        ensures
            match r {
                Some(midi) => *self == LoadState::Initialized(*midi),
                None => !(*self is Initialized),
            },
    {
        match self {
            LoadState::Initialized(midi) => Some(midi),
            _ => None,
        }
    }
}

} // verus!
