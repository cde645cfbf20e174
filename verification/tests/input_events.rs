use gloom::input::{camera_motion, control_flow, CameraMotion, Flow, Key, KeyState, PressedKeys, WindowInput};

#[test]
fn press_adds_once_and_release_removes() {
    let mut keys = PressedKeys::new();
    keys.press(Key::W);
    keys.press(Key::A);
    keys.press(Key::W);
    assert_eq!(keys.as_slice(), &[Key::W, Key::A]);
    assert!(keys.contains(Key::W));
    keys.release(Key::W);
    assert_eq!(keys.as_slice(), &[Key::A]);
    assert!(!keys.contains(Key::W));
    keys.release(Key::D);
    assert_eq!(keys.as_slice(), &[Key::A]);
}

#[test]
fn press_then_release_restores() {
    let mut keys = PressedKeys::new();
    keys.apply(KeyState::Pressed, Key::Other(57));
    keys.apply(KeyState::Pressed, Key::H);
    let before: Vec<Key> = keys.as_slice().to_vec();
    keys.apply(KeyState::Pressed, Key::J);
    keys.apply(KeyState::Released, Key::J);
    assert_eq!(keys.as_slice(), before.as_slice());
    keys.apply(KeyState::Released, Key::Other(57));
    assert_eq!(keys.as_slice(), &[Key::H]);
}

#[test]
fn exit_on_close_escape_q_or_failed_renderer() {
    assert_eq!(control_flow(true, WindowInput::Other), Flow::Wait);
    assert_eq!(control_flow(true, WindowInput::CloseRequested), Flow::Exit);
    assert_eq!(control_flow(true, WindowInput::Keyboard(KeyState::Pressed, Key::Escape)), Flow::Exit);
    assert_eq!(control_flow(true, WindowInput::Keyboard(KeyState::Released, Key::Q)), Flow::Exit);
    assert_eq!(control_flow(true, WindowInput::Keyboard(KeyState::Pressed, Key::W)), Flow::Wait);
    assert_eq!(control_flow(false, WindowInput::Other), Flow::Exit);
}

#[test]
fn keys_move_the_camera() {
    assert_eq!(camera_motion(Key::W), Some(CameraMotion::Forward));
    assert_eq!(camera_motion(Key::A), Some(CameraMotion::Left));
    assert_eq!(camera_motion(Key::S), Some(CameraMotion::Backward));
    assert_eq!(camera_motion(Key::D), Some(CameraMotion::Right));
    assert_eq!(camera_motion(Key::H), Some(CameraMotion::YawDecrease));
    assert_eq!(camera_motion(Key::L), Some(CameraMotion::YawIncrease));
    assert_eq!(camera_motion(Key::K), Some(CameraMotion::PitchDecrease));
    assert_eq!(camera_motion(Key::J), Some(CameraMotion::PitchIncrease));
    assert_eq!(camera_motion(Key::R), Some(CameraMotion::HeightDecrease));
    assert_eq!(camera_motion(Key::F), Some(CameraMotion::HeightIncrease));
    assert_eq!(camera_motion(Key::Q), None);
    assert_eq!(camera_motion(Key::Escape), None);
    assert_eq!(camera_motion(Key::Other(3)), None);
}
