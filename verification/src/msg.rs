//! Messages of the session layer that the framing core carries opaquely.
//! Only the plain parts live here; payloads built from the game's world
//! state stay with the game.

use vstd::prelude::*;

verus! {

/// Why the server refused a client's request to change its state.
#[derive(Debug, Clone, Copy, PartialEq, Eq, Structural)]
pub enum RequestStateError {
    Denied,
    Already,
    Impossible,
    WrongMessage,
}

} // verus!
