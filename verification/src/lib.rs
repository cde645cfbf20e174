//! Verified core of a small OpenGL playground: Wavefront OBJ text parsing,
//! keyboard state for the event loop, and the decision logic around the
//! OpenGL debug callback.

pub mod gl_debug;
pub mod input;
pub mod numbers;
pub mod obj;
pub mod text;
pub mod transform;
