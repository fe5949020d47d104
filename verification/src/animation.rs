//! The animations an entity can play.  The choice of animation is shared
//! state; its playback clock lives with the renderer.

use vstd::prelude::*;

verus! {

/// One of the fixed set of animations an entity can be in.
#[derive(Copy, Clone, Debug, PartialEq, Eq, Structural)]
pub enum Animation {
    Idle,
    Run,
    Jump,
    Gliding,
    Attack,
    Roll,
    Crun,
    Cidle,
    Cjump,
    BarrelRoll,
}

} // verus!
