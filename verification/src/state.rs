//! The client's stack of play states — title screen, menus, game sessions
//! — and the global state they share.

use vstd::prelude::*;

verus! {

/// The window's flags that play-state changes touch: whether the cursor is
/// grabbed, and whether the window still owes a refresh of its size.
pub struct Window {
    pub cursor_grabbed: bool,
    pub needs_refresh_resize: bool,
}

impl Window {
    /// Grabs or releases the cursor.
    pub fn grab_cursor(&mut self, grab: bool)
        ensures
            final(self).cursor_grabbed == grab,
            final(self).needs_refresh_resize == old(self).needs_refresh_resize,
    {
        self.cursor_grabbed = grab;
    }

    /// Marks the window as owing a size refresh.
    pub fn needs_refresh_resize(&mut self)
        ensures
            final(self).cursor_grabbed == old(self).cursor_grabbed,
            final(self).needs_refresh_resize,
    {
        self.needs_refresh_resize = true;
    }
}

/// The client's settings, as far as the play-state machinery reads them.
pub struct Settings {
    pub show_debug: bool,
}

/// State shared between all play states.
pub struct GlobalState {
    pub settings: Settings,
    pub window: Window,
}

impl GlobalState {
    /// Called after a change in play state has occurred, to reverse any
    /// temporary effect a state may have had: the cursor is released and
    /// the window owes a size refresh.
    pub fn on_play_state_changed(&mut self)
        ensures
            !final(self).window.cursor_grabbed,
            final(self).window.needs_refresh_resize,
            final(self).settings == old(self).settings,
    {
        self.window.grab_cursor(false);
        self.window.needs_refresh_resize();
    }
}

/// Which way the play-state stack last moved.
#[derive(Clone, Copy, Debug, PartialEq, Eq, Structural)]
pub enum Direction {
    Forwards,
    Backwards,
}

} // verus!
