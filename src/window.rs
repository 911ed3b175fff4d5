use vstd::prelude::*;

verus! {

/// Size of a window's drawing area.
#[derive(Debug, Copy, Clone)]
pub struct Info {
    pub width: i32,
    pub height: i32,
}

/// Buffer sizes that the next frame needs.
#[derive(Debug, Copy, Clone)]
pub struct NextFrame {
    pub vbo_size: usize,
    pub ebo_size: usize,
}

/// The OpenGL profile to ask for: core, with major and minor version.
pub enum GLVersion {
    Core((u8, u8)),
}

/// How to open a window.
pub struct WindowOptions {
    pub gl_version: GLVersion,
    pub title: String,
    pub initial_size: (u32, u32),
    pub vsync: bool,
}

/// The stages of a shader program.
pub enum ProgramKind {
    VertexAndFragment,
}

/// Turns window-system input into the application's input events.
pub struct SdlInputMapper {}

impl SdlInputMapper {
    pub fn new() -> (r: SdlInputMapper) {
        SdlInputMapper {}
    }
}

} // verus!
