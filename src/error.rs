//! Failures of connection setup and of an established connection.
use vstd::prelude::*;

verus! {

#[derive(Debug, Clone, Copy, PartialEq, Eq, Structural)]
pub enum ConnectionSetupError {
    ConnectionTimeOut,
    ConnectionRejected,
    UnableRoCreateSocket,
    SecurityAbort,
}

#[derive(Debug, Clone, Copy, PartialEq, Eq, Structural)]
pub enum ConnectionError {
    Failure,
    Broken,
    NotExist,
}

} // verus!
