use vstd::prelude::*;

verus! {

/// Failures reported synchronously by the resource tables.
#[derive(Debug, Clone, Copy, PartialEq, Eq, Structural)]
pub enum RenderError {
    /// A texture or model reference that is not (or no longer) mapped.
    UnknownHandle,
    /// A model submitted with no faces.
    EmptyGeometry,
    /// The visible geometry does not fit the fixed-size vertex buffer.
    BufferCapacityExceeded,
    /// A mutation through a handle whose model was already collected.
    StaleHandle,
    /// A counter reached its limit: every model id has been handed out, or a
    /// model has as many handles as its count can hold.
    CountExhausted,
}

} // verus!
