use gloom_rs::coordinator::apply_key_update;
use gloom_rs::coordinator::dispatch;
use gloom_rs::coordinator::sync_viewport;
use gloom_rs::coordinator::Dispatch;
use gloom_rs::coordinator::Flow;
use gloom_rs::coordinator::InputEvent;
use gloom_rs::coordinator::RenderHealth;
use gloom_rs::coordinator::Update;
use gloom_rs::coordinator::Viewport;
use gloom_rs::coordinator::WindowState;
use gloom_rs::input::camera_intent;
use gloom_rs::input::CameraIntent;
use gloom_rs::input::Key;
use gloom_rs::input::PressedKeys;

#[test]
fn press_is_idempotent_and_release_removes() {
    let mut k = PressedKeys::new();
    k.press(Key::W);
    k.press(Key::A);
    k.press(Key::W);
    assert_eq!(k.keys().clone(), vec![Key::W, Key::A]);
    k.release(Key::W);
    assert_eq!(k.keys().clone(), vec![Key::A]);
    assert!(!k.contains(Key::W));
    assert!(k.contains(Key::A));
}

#[test]
fn release_of_unpressed_key_is_ignored() {
    let mut k = PressedKeys::new();
    k.press(Key::Other(42));
    k.release(Key::Q);
    assert_eq!(k.keys().clone(), vec![Key::Other(42)]);
}

#[test]
fn camera_intent_nets_opposite_keys() {
    let mut k = PressedKeys::new();
    k.press(Key::D);
    k.press(Key::A);
    k.press(Key::W);
    k.press(Key::Space);
    k.press(Key::Left);
    k.press(Key::Up);
    assert_eq!(
        camera_intent(&k),
        CameraIntent { move_x: 0, move_y: 1, move_z: -1, turn_x: 1, turn_y: 1 }
    );
    let mut j = PressedKeys::new();
    j.press(Key::A);
    j.press(Key::S);
    j.press(Key::LShift);
    j.press(Key::Down);
    j.press(Key::Right);
    assert_eq!(
        camera_intent(&j),
        CameraIntent { move_x: -1, move_y: -1, move_z: 1, turn_x: -1, turn_y: -1 }
    );
    assert_eq!(
        camera_intent(&PressedKeys::new()),
        CameraIntent { move_x: 0, move_y: 0, move_z: 0, turn_x: 0, turn_y: 0 }
    );
}

#[test]
fn resize_applies_once_then_frames_leave_viewport_alone() {
    let mut window = WindowState::new(800, 600);
    let mut viewport = Viewport { width: 800, height: 600 };
    window.record_resize(1024, 768);
    assert_eq!(window, WindowState { width: 1024, height: 768, resized: true });
    assert!(sync_viewport(&mut viewport, &mut window));
    assert_eq!(viewport, Viewport { width: 1024, height: 768 });
    assert!(!window.resized);
    assert!(!sync_viewport(&mut viewport, &mut window));
    assert_eq!(viewport, Viewport { width: 1024, height: 768 });
    assert_eq!(window, WindowState { width: 1024, height: 768, resized: false });
}

#[test]
fn new_window_state_has_nothing_pending() {
    let mut window = WindowState::new(800, 600);
    let mut viewport = Viewport { width: 1, height: 1 };
    assert!(!sync_viewport(&mut viewport, &mut window));
    assert_eq!(viewport, Viewport { width: 1, height: 1 });
}

#[test]
fn health_turns_unhealthy_exactly_once() {
    let mut h = RenderHealth::new();
    assert!(h.healthy);
    assert!(!h.report_exit(false));
    assert!(h.healthy);
    assert!(h.report_exit(true));
    assert!(!h.healthy);
    assert!(!h.report_exit(true));
    assert!(!h.healthy);
}

#[test]
fn dispatch_resize_waits_and_records() {
    assert_eq!(
        dispatch(InputEvent::Resized { width: 1024, height: 768 }, true),
        Dispatch { flow: Flow::Wait, update: Update::Resize { width: 1024, height: 768 } }
    );
}

#[test]
fn dispatch_close_and_quit_keys_exit() {
    assert_eq!(dispatch(InputEvent::CloseRequested, true).flow, Flow::Exit);
    assert_eq!(
        dispatch(InputEvent::Keyboard { key: Key::Escape, pressed: true }, true),
        Dispatch { flow: Flow::Exit, update: Update::Press(Key::Escape) }
    );
    assert_eq!(
        dispatch(InputEvent::Keyboard { key: Key::Q, pressed: true }, true),
        Dispatch { flow: Flow::Exit, update: Update::Press(Key::Q) }
    );
}

#[test]
fn dispatch_quit_key_release_only_updates_keys() {
    assert_eq!(
        dispatch(InputEvent::Keyboard { key: Key::Q, pressed: false }, true),
        Dispatch { flow: Flow::Wait, update: Update::Release(Key::Q) }
    );
    assert_eq!(
        dispatch(InputEvent::Keyboard { key: Key::Escape, pressed: false }, true).flow,
        Flow::Wait
    );
}

#[test]
fn dispatch_exits_when_render_thread_failed() {
    assert_eq!(
        dispatch(InputEvent::MouseMotion, false),
        Dispatch { flow: Flow::Exit, update: Update::AccumulateMouse }
    );
    assert_eq!(dispatch(InputEvent::Other, false).flow, Flow::Exit);
}

#[test]
fn dispatch_movement_keys_wait() {
    assert_eq!(
        dispatch(InputEvent::Keyboard { key: Key::W, pressed: true }, true),
        Dispatch { flow: Flow::Wait, update: Update::Press(Key::W) }
    );
    assert_eq!(dispatch(InputEvent::Other, true).flow, Flow::Wait);
    assert_eq!(dispatch(InputEvent::MouseMotion, true).update, Update::AccumulateMouse);
}

#[test]
fn key_updates_reach_the_held_keys() {
    let mut k = PressedKeys::new();
    apply_key_update(&mut k, Update::Press(Key::S));
    apply_key_update(&mut k, Update::Press(Key::D));
    apply_key_update(&mut k, Update::AccumulateMouse);
    assert_eq!(k.keys().clone(), vec![Key::S, Key::D]);
    apply_key_update(&mut k, Update::Release(Key::S));
    assert_eq!(k.keys().clone(), vec![Key::D]);
}
