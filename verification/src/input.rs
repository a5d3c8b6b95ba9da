use vstd::prelude::*;

verus! {

/// What a key press asks of the camera in the interactive viewer.
#[derive(Copy, Clone, Debug, PartialEq, Eq, Structural)]
pub enum CameraAction {
    /// control + q: leave the viewer
    Quit,
    /// w: move forward (negative z)
    MoveForward,
    /// s: move backward (positive z)
    MoveBackward,
    /// d: move right (positive x)
    MoveRight,
    /// a: move left (negative x)
    MoveLeft,
    /// space: move up (positive y)
    MoveUp,
    /// left control: move down (negative y)
    MoveDown,
    /// arrow up: tilt the camera up
    TiltUp,
    /// arrow down: tilt the camera down
    TiltDown,
    /// arrow left: pan the camera left
    PanLeft,
    /// arrow right: pan the camera right
    PanRight,
    /// h: widen the field of view
    WidenFov,
    /// l: narrow the field of view
    NarrowFov,
    /// any other key
    Nothing,
}

/// Whether the control modifier is held in an X11 key event state mask.
pub open spec fn control_held(mods: u16) -> bool {
    mods & (1u16 << 2u16) != 0
}

/// The camera action bound to an X11 keysym and modifier state.
pub open spec fn camera_action_spec(key_sym: u32, mods: u16) -> CameraAction {
    if key_sym == 0x71 && control_held(mods) {
        CameraAction::Quit
    } else if key_sym == 0x77 {
        CameraAction::MoveForward
    } else if key_sym == 0x73 {
        CameraAction::MoveBackward
    } else if key_sym == 0x64 {
        CameraAction::MoveRight
    } else if key_sym == 0x61 {
        CameraAction::MoveLeft
    } else if key_sym == 0xff52 {
        CameraAction::TiltUp
    } else if key_sym == 0xff54 {
        CameraAction::TiltDown
    } else if key_sym == 0xff51 {
        CameraAction::PanLeft
    } else if key_sym == 0xff53 {
        CameraAction::PanRight
    } else if key_sym == 0x20 {
        CameraAction::MoveUp
    } else if key_sym == 0xffe3 {
        CameraAction::MoveDown
    } else if key_sym == 0x68 {
        CameraAction::WidenFov
    } else if key_sym == 0x6c {
        CameraAction::NarrowFov
    } else {
        CameraAction::Nothing
    }
}

/// The q key (keysym 0x71) quits exactly when the control bit (bit 2) of the
/// modifier mask is set, whatever other modifiers (shift, lock, num lock, ...)
/// are held with it; without control it does nothing.
pub proof fn lemma_control_q_quits(mods: u16)
    ensures
        (camera_action_spec(0x71, mods) == CameraAction::Quit) == (mods & 4u16 != 0),
        camera_action_spec(0x71, mods) == CameraAction::Quit || camera_action_spec(0x71, mods)
            == CameraAction::Nothing,
{
    assert((1u16 << 2u16) == 4u16) by (bit_vector);
}

/// Apart from q, which key was pressed alone decides the action: modifiers
/// held with it change nothing.
pub proof fn lemma_modifiers_ignored_for_other_keys(key_sym: u32, mods1: u16, mods2: u16)
    requires
        key_sym != 0x71,
    ensures
        camera_action_spec(key_sym, mods1) == camera_action_spec(key_sym, mods2),
        camera_action_spec(key_sym, mods1) != CameraAction::Quit,
{
}

/// Maps a key press (X11 keysym and modifier state) to a camera action.
pub fn camera_action(key_sym: u32, mods: u16) -> (r: CameraAction)
    ensures
        r == camera_action_spec(key_sym, mods),
{
    match (key_sym, mods) {
        // control + q to exit
        (0x71, mods) if mods & (1u16 << 2u16) != 0 => CameraAction::Quit,
        // wasd keys to move
        (0x77, _) => CameraAction::MoveForward,
        (0x73, _) => CameraAction::MoveBackward,
        (0x64, _) => CameraAction::MoveRight,
        (0x61, _) => CameraAction::MoveLeft,
        // up and down arrow keys to tilt camera
        (0xff52, _) => CameraAction::TiltUp,
        (0xff54, _) => CameraAction::TiltDown,
        // left and right arrow keys to pan camera
        (0xff51, _) => CameraAction::PanLeft,
        (0xff53, _) => CameraAction::PanRight,
        // space to move upwards
        (0x20, _) => CameraAction::MoveUp,
        // left control to move downwards
        (0xffe3, _) => CameraAction::MoveDown,
        // h and l keys to increase and decrease fov
        (0x68, _) => CameraAction::WidenFov,
        (0x6c, _) => CameraAction::NarrowFov,
        _ => CameraAction::Nothing,
    }
}

} // verus!
