//! What the window's events ask for.
use crate::fpu::{Fpu32, Op32};
use crate::literal::{ONE, ZERO};
use crate::number::{lit, Real32};
use crate::upload::Uniforms;
use vstd::prelude::*;

verus! {

/// How frames reach the screen.
#[derive(Copy, Clone, PartialEq, Eq, Structural, Debug)]
pub enum PresentMode {
    Immediate,
    Mailbox,
    Other,
}

/// `i` is the first place of `mode`.
pub open spec fn first_of(modes: Seq<PresentMode>, mode: PresentMode, i: int) -> bool {
    &&& 0 <= i < modes.len()
    &&& modes[i] == mode
    &&& forall|j: int| 0 <= j < i ==> #[trigger] modes[j] != mode
}

fn find(modes: &Vec<PresentMode>, mode: PresentMode) -> (r: Option<usize>)
    ensures
        match r {
            Some(i) => first_of(modes@, mode, i as int),
            None => !modes@.contains(mode),
        },
{
    for i in 0..modes.len()
        invariant
            forall|j: int| 0 <= j < i ==> #[trigger] modes[j] != mode,
    {
        if modes[i] == mode {
            return Some(i);
        }
    }
    None
}

/// The mode to take: without waiting for the screen where that can be had, with
/// a mailbox as the second choice, else the first one there is.
pub fn choose_present_mode(modes: &Vec<PresentMode>) -> (r: usize)
    requires
        modes.len() > 0,
    ensures
        r < modes.len(),
        if modes@.contains(PresentMode::Immediate) {
            first_of(modes@, PresentMode::Immediate, r as int)
        } else if modes@.contains(PresentMode::Mailbox) {
            first_of(modes@, PresentMode::Mailbox, r as int)
        } else {
            r == 0
        },
{
    if let Some(i) = find(modes, PresentMode::Immediate) {
        return i;
    }
    if let Some(i) = find(modes, PresentMode::Mailbox) {
        return i;
    }
    0
}

/// What happened to the window.
#[derive(Copy, Clone, PartialEq, Eq, Structural, Debug)]
pub enum WindowEvent {
    CloseRequested,
    Resized(u32, u32),
    RedrawRequested,
    AboutToWait,
    Other,
}

/// What is to be done about it.
#[derive(Copy, Clone, PartialEq, Eq, Structural, Debug)]
pub enum Action {
    Exit,
    /// Configure the surface for the new size and write the uniforms.
    Reconfigure,
    Draw,
    RequestRedraw,
    Nothing,
}

/// What asking for the next frame's texture gave.
#[derive(Copy, Clone, PartialEq, Eq, Structural, Debug)]
pub enum SurfaceStatus {
    Ready,
    Outdated,
    Lost,
    Timeout,
    OutOfMemory,
}

/// What is to be done with the frame.
#[derive(Copy, Clone, PartialEq, Eq, Structural, Debug)]
pub enum FrameAction {
    Render,
    /// Configure the surface again and leave the frame out.
    ReconfigureAndSkip,
    Skip,
    Exit,
}

/// The size of the surface; neither side is ever zero.
#[derive(Copy, Clone, PartialEq, Eq, Structural, Debug)]
pub struct Surface {
    pub width: u32,
    pub height: u32,
}

impl Surface {
    pub open spec fn well_formed(self) -> bool {
        self.width > 0 && self.height > 0
    }

    /// A surface of the window's size, of at least one pixel.
    pub fn new(width: u32, height: u32) -> (r: Self)
        ensures
            r.well_formed(),
            r.width == (if width < 1 {
                1
            } else {
                width
            }),
            r.height == (if height < 1 {
                1
            } else {
                height
            }),
    {
        Surface {
            width: if width < 1 {
                1
            } else {
                width
            },
            height: if height < 1 {
                1
            } else {
                height
            },
        }
    }

    /// The state and the action that an event leads to: a window that is
    /// resized to nothing keeps its surface.
    pub open spec fn after(self, event: WindowEvent) -> (Surface, Action) {
        match event {
            WindowEvent::CloseRequested => (self, Action::Exit),
            WindowEvent::Resized(width, height) => if width > 0 && height > 0 {
                (Surface { width, height }, Action::Reconfigure)
            } else {
                (self, Action::Nothing)
            },
            WindowEvent::RedrawRequested => (self, Action::Draw),
            WindowEvent::AboutToWait => (self, Action::RequestRedraw),
            WindowEvent::Other => (self, Action::Nothing),
        }
    }

    pub fn on_event(&mut self, event: WindowEvent) -> (action: Action)
        ensures
            (*final(self), action) == old(self).after(event),
            old(self).well_formed() ==> final(self).well_formed(),
    {
        match event {
            WindowEvent::CloseRequested => Action::Exit,
            WindowEvent::Resized(width, height) => {
                if width > 0 && height > 0 {
                    self.width = width;
                    self.height = height;
                    Action::Reconfigure
                } else {
                    Action::Nothing
                }
            },
            WindowEvent::RedrawRequested => Action::Draw,
            WindowEvent::AboutToWait => Action::RequestRedraw,
            WindowEvent::Other => Action::Nothing,
        }
    }

    /// A frame is drawn only into a ready texture. A surface that no longer fits
    /// is configured anew, and only a lack of memory ends the program.
    pub fn on_acquire(&self, status: SurfaceStatus) -> (action: FrameAction)
        ensures
            action == (match status {
                SurfaceStatus::Ready => FrameAction::Render,
                SurfaceStatus::Outdated | SurfaceStatus::Lost => if self.well_formed() {
                    FrameAction::ReconfigureAndSkip
                } else {
                    FrameAction::Skip
                },
                SurfaceStatus::Timeout => FrameAction::Skip,
                SurfaceStatus::OutOfMemory => FrameAction::Exit,
            }),
    {
        match status {
            SurfaceStatus::Ready => FrameAction::Render,
            SurfaceStatus::Outdated | SurfaceStatus::Lost => {
                if self.width > 0 && self.height > 0 {
                    FrameAction::ReconfigureAndSkip
                } else {
                    FrameAction::Skip
                }
            },
            SurfaceStatus::Timeout => FrameAction::Skip,
            SurfaceStatus::OutOfMemory => FrameAction::Exit,
        }
    }

    /// The size as the shader reads it.
    pub open spec fn size_of<F: Fn(Op32) -> Real32>(self, u: &Fpu32<F>) -> [Real32; 2] {
        [u.from_uint(self.width as u64), u.from_uint(self.height as u64)]
    }

    pub fn size<F: Fn(Op32) -> Real32>(&self, u: &Fpu32<F>) -> (r: [Real32; 2])
        ensures
            r == self.size_of(u),
    {
        [u.from_uint(self.width as u64), u.from_uint(self.height as u64)]
    }

    /// The uniforms at the start.
    pub fn uniforms<F: Fn(Op32) -> Real32>(&self, u: &Fpu32<F>) -> (r: Uniforms)
        ensures
            r.screen_size == self.size_of(u),
            r.zoom == lit(ONE),
            r.time == lit(ZERO),
    {
        Uniforms { screen_size: self.size(u), zoom: lit(ONE), time: lit(ZERO) }
    }
}

} // verus!
