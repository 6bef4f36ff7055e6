//! The optional diagnostic display: the pipeline only hands out where the
//! engine may paint pixels. A background worker owns the presentation
//! surface itself; the library never touches it.

use vstd::prelude::*;

verus! {

/// Tells the engine where to paint decoded frames, if anywhere.
pub trait ScreenUpdateCallback {
    /// What the callback hands out: each impl's contract states its
    /// buffer here.
    spec fn spec_buffer(&self) -> Option<(usize, usize)>;

    /// The address and pitch (in pixels) of the screen buffer the engine
    /// should paint into, or nothing if no display is attached.
    fn get_screen_buffer_pointer_and_pitch(&self) -> (r: Option<(usize, usize)>)
        ensures
            r == self.spec_buffer(),
    ;
}

/// No display: the engine paints nothing.
pub struct NoScreen;

impl ScreenUpdateCallback for NoScreen {
    /// No display is attached: always nothing.
    open spec fn spec_buffer(&self) -> Option<(usize, usize)> {
        None
    }

    fn get_screen_buffer_pointer_and_pitch(&self) -> (r: Option<(usize, usize)>) {
        None
    }
}

/// A handle on the display worker's presentation surface: the address of
/// its pixel buffer and the buffer's pitch in pixels. The worker that owns
/// the surface keeps the buffer alive and at a fixed address for the whole
/// run.
#[derive(Clone, Copy, PartialEq, Eq, Structural)]
pub struct Sdl {
    /// The address of the surface's pixel buffer.
    pub surface_base_address: usize,
    /// The surface's pitch, in pixels.
    pub surface_pitch: usize,
}

impl Sdl {
    /// A handle on a surface at the given address and pitch.
    pub fn new(surface_base_address: usize, surface_pitch: usize) -> (r: Sdl)
        ensures
            r.surface_base_address == surface_base_address,
            r.surface_pitch == surface_pitch,
    {
        Sdl { surface_base_address, surface_pitch }
    }
}

/// A display: the engine paints into the worker's surface.
pub struct SdlScreen {
    /// The handle on the worker's surface.
    pub sdl: Sdl,
}

impl SdlScreen {
    /// A screen that paints into the surface `sdl` points at.
    pub fn new(sdl: Sdl) -> (r: SdlScreen)
        ensures
            r.sdl == sdl,
    {
        SdlScreen { sdl }
    }
}

impl ScreenUpdateCallback for SdlScreen {
    /// Always the handle's surface: its base address and pitch.
    open spec fn spec_buffer(&self) -> Option<(usize, usize)> {
        Some((self.sdl.surface_base_address, self.sdl.surface_pitch))
    }

    fn get_screen_buffer_pointer_and_pitch(&self) -> (r: Option<(usize, usize)>) {
        Some((self.sdl.surface_base_address, self.sdl.surface_pitch))
    }
}

} // verus!
