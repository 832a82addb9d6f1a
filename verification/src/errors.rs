use vstd::prelude::*;

verus! {

/// Returned by `listen` when the endpoint name is already bound by a live
/// server. The server never starts in this case.
#[derive(Clone, Copy, Debug, PartialEq, Eq, Structural)]
pub struct BindError;

/// Returned by `send` when the server has already been stopped. This is the
/// only error `send` surfaces: per-session write failures are converted into
/// that session's `Disconnected` event instead.
#[derive(Clone, Copy, Debug, PartialEq, Eq, Structural)]
pub struct SendError;

} // verus!
