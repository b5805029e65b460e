//! A local speech-relay core: line protocol parsing, command dispatch,
//! word-wrapping of long utterances into bounded chunks, and the state
//! machine of a single shared, possibly-failed speech engine handle.

use vstd::prelude::*;

pub mod chunker;
pub mod dispatch;
pub mod engine;
pub mod protocol;

verus! {

/// Maximum length, in characters, of one chunk handed to the speech engine.
pub const MAX_CHUNK_LEN: usize = 10000;

/// Default TCP port the relay listens on when no override is given.
pub const DEFAULT_PORT: u16 = 64111;

} // verus!
