use veloren_core::animation::Animation;
use veloren_core::msg::RequestStateError;
use veloren_core::state::{Direction, GlobalState, Settings, Window};

#[test]
fn play_state_change_releases_cursor_and_refreshes() {
    let mut global_state = GlobalState {
        settings: Settings { show_debug: false },
        window: Window {
            cursor_grabbed: true,
            needs_refresh_resize: false,
        },
    };
    global_state.on_play_state_changed();
    assert!(!global_state.window.cursor_grabbed);
    assert!(global_state.window.needs_refresh_resize);
}

#[test]
fn shared_enums_compare_by_variant() {
    assert_eq!(Animation::Run, Animation::Run);
    assert_ne!(Animation::Run, Animation::Idle);
    assert_eq!(RequestStateError::Denied, RequestStateError::Denied);
    assert_ne!(RequestStateError::Already, RequestStateError::Impossible);
    assert!(matches!(Direction::Forwards, Direction::Forwards));
}
