//! Kernel support library: a physical page-frame bitmap allocator, a scaled
//! bitmap-font framebuffer text renderer and a plain console text renderer.
//!
//! The library decides *what* to do (which frames are free, which pixels to
//! paint); touching real memory-mapped hardware is left to the caller.

pub mod font;
pub mod framebuffer;
pub mod memory;
pub mod writer;
