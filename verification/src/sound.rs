//! The boundary to the sound-generation collaborator.

use crate::areas::Frequencies;
use vstd::prelude::*;

verus! {

/// Implemented by sound backends: consumes a stream of note events that the
/// mapping core produced. The backend synthesizes each note's equal-tempered
/// frequency and renders audio; neither is this core's concern.
pub trait Player {
    fn consume(&self, note_event_source: Frequencies);
}

} // verus!
