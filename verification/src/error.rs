use vstd::prelude::*;

verus! {

/// What the library reports instead of a result.
#[derive(Debug, Clone, Copy, PartialEq, Eq)]
pub enum Error {
    /// An unspecified failure.
    Error,
    /// A failure with a fixed message.
    MessageError(&'static str),
    /// An edge index (first) at or beyond the edge count (second).
    EdgeOutOfBounds(usize, usize),
    /// A node index (first) at or beyond the node count (second).
    NodeOutOfBounds(usize, usize),
    /// Dimensions or a root count that no maze can have.
    InvalidGeometry,
    /// The frontier ran empty before every cell was reached.
    BuilderStall,
    /// A border on the solution path has no gateway.
    GatewayMissing,
}

impl Default for Error {
    fn default() -> (e: Self)
        ensures
            e == Error::Error,
    {
        Error::Error
    }
}

} // verus!
