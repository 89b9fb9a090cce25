use vstd::prelude::*;
use crate::input::Key;
use crate::input::PressedKeys;

verus! {

/// The window size as last reported, and whether it changed since the render
/// side last applied it.
#[derive(Clone, Copy, Debug, PartialEq, Eq, Structural)]
pub struct WindowState {
    pub width: u32,
    pub height: u32,
    pub resized: bool,
}

impl WindowState {
    /// The initial size, taken as already applied.
    pub fn new(width: u32, height: u32) -> (r: Self)
        ensures
            r == (WindowState { width, height, resized: false }),
    {
        WindowState { width, height, resized: false }
    }

    /// Records a resize reported by the window system.
    pub fn record_resize(&mut self, width: u32, height: u32)
        ensures
            *final(self) == (WindowState { width, height, resized: true }),
    {
        self.width = width;
        self.height = height;
        self.resized = true;
    }
}

/// The size the render side draws at: viewport and aspect ratio `width / height`.
#[derive(Clone, Copy, Debug, PartialEq, Eq, Structural)]
pub struct Viewport {
    pub width: u32,
    pub height: u32,
}

/// The per-frame resize step. A pending resize is applied to the viewport and
/// only then marked as applied; without one nothing changes. Returns whether
/// a resize was applied, so the caller can resize its surface too.
pub fn sync_viewport(viewport: &mut Viewport, window: &mut WindowState) -> (applied: bool)
    ensures
        applied == old(window).resized,
        old(window).resized ==> {
            &&& *final(viewport) == (Viewport { width: old(window).width, height: old(window).height })
            &&& *final(window) == (WindowState { resized: false, ..*old(window) })
        },
        !old(window).resized ==> *final(viewport) == *old(viewport) && *final(window) == *old(window),
{
    if window.resized {
        viewport.width = window.width;
        viewport.height = window.height;
        window.resized = false;
        true
    } else {
        false
    }
}

/// Whether the render thread is still running normally. It starts healthy and
/// turns unhealthy once, when the render thread is seen to have failed.
#[derive(Clone, Copy, Debug, PartialEq, Eq, Structural)]
pub struct RenderHealth {
    pub healthy: bool,
}

impl RenderHealth {
    pub fn new() -> (r: Self)
        ensures
            r.healthy,
    {
        RenderHealth { healthy: true }
    }

    /// Records how the render thread ended. Returns whether this call is the
    /// one that turned the state unhealthy.
    pub fn report_exit(&mut self, abnormal: bool) -> (flipped: bool)
        ensures
            flipped == (old(self).healthy && abnormal),
            final(self).healthy == (old(self).healthy && !abnormal),
    {
        if abnormal && self.healthy {
            self.healthy = false;
            true
        } else {
            false
        }
    }
}

/// The events of the window system the event loop reacts to.
#[derive(Clone, Copy, Debug, PartialEq, Eq, Structural)]
pub enum InputEvent {
    Resized { width: u32, height: u32 },
    CloseRequested,
    Keyboard { key: Key, pressed: bool },
    /// Pointer motion; the delta itself is accumulated by the caller.
    MouseMotion,
    Other,
}

/// Whether the event loop goes on waiting for events or ends the process.
#[derive(Clone, Copy, Debug, PartialEq, Eq, Structural)]
pub enum Flow {
    Wait,
    Exit,
}

/// What an event asks of the shared state.
#[derive(Clone, Copy, Debug, PartialEq, Eq, Structural)]
pub enum Update {
    Nothing,
    Resize { width: u32, height: u32 },
    Press(Key),
    Release(Key),
    AccumulateMouse,
}

/// The event loop's decision for one event.
#[derive(Clone, Copy, Debug, PartialEq, Eq, Structural)]
pub struct Dispatch {
    pub flow: Flow,
    pub update: Update,
}

/// Whether an event by itself ends the program: a close request, or a press
/// of the escape or `Q` key.
pub open spec fn ends_program(e: InputEvent) -> bool {
    match e {
        InputEvent::CloseRequested => true,
        InputEvent::Keyboard { key, pressed } => pressed && (key == Key::Escape || key == Key::Q),
        _ => false,
    }
}

pub open spec fn update_for(e: InputEvent) -> Update {
    match e {
        InputEvent::Resized { width, height } => Update::Resize { width, height },
        InputEvent::Keyboard { key, pressed } => if pressed {
            Update::Press(key)
        } else {
            Update::Release(key)
        },
        InputEvent::MouseMotion => Update::AccumulateMouse,
        _ => Update::Nothing,
    }
}

/// Decides one iteration of the event loop: exit when the render thread is
/// unhealthy or the event ends the program, else wait for the next event;
/// and the update the event makes to the shared state.
pub fn dispatch(event: InputEvent, render_healthy: bool) -> (r: Dispatch)
    ensures
        r.flow == (if !render_healthy || ends_program(event) {
            Flow::Exit
        } else {
            Flow::Wait
        }),
        r.update == update_for(event),
{
    let mut flow = Flow::Wait;
    if !render_healthy {
        flow = Flow::Exit;
    }
    let update = match event {
        InputEvent::Resized { width, height } => Update::Resize { width, height },
        InputEvent::CloseRequested => {
            flow = Flow::Exit;
            Update::Nothing
        },
        InputEvent::Keyboard { key, pressed } => {
            match key {
                Key::Escape | Key::Q => {
                    if pressed {
                        flow = Flow::Exit;
                    }
                },
                _ => {},
            }
            if pressed {
                Update::Press(key)
            } else {
                Update::Release(key)
            }
        },
        InputEvent::MouseMotion => Update::AccumulateMouse,
        InputEvent::Other => Update::Nothing,
    };
    Dispatch { flow, update }
}

/// Applies a key update to the held keys; other updates leave them alone.
pub fn apply_key_update(keys: &mut PressedKeys, update: Update)
    requires
        old(keys).wf(),
    ensures
        final(keys).wf(),
        update matches Update::Press(k) ==> final(keys)@ == if old(keys)@.contains(k) {
            old(keys)@
        } else {
            old(keys)@.push(k)
        },
        update matches Update::Release(k) ==> !final(keys)@.contains(k) && (!old(keys)@.contains(k)
            ==> final(keys)@ == old(keys)@) && (old(keys)@.contains(k) ==> exists|i: int|
            0 <= i < old(keys)@.len() && old(keys)@[i] == k && final(keys)@ == old(keys)@.remove(i)),
        !(update is Press || update is Release) ==> final(keys)@ == old(keys)@,
{
    match update {
        Update::Press(k) => keys.press(k),
        Update::Release(k) => keys.release(k),
        _ => {},
    }
}

} // verus!
