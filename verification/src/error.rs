use vstd::prelude::*;

verus! {

/// Kernel-wide error type.
#[derive(Debug, Clone, Copy, PartialEq, Eq)]
pub enum KernelError {
    /// An argument was outside what the operation accepts.
    InvalidArgument,
    /// The object already exists.
    AlreadyExists,
    /// The object was not found.
    NotFound,
    /// No memory (or no table slot) was left.
    OutOfMemory,
    /// The operation or protocol is not supported.
    Unsupported,
    /// Another failure, with a short description.
    Other(&'static str),
}

/// Kernel-wide result type.
pub type KernelResult<T> = Result<T, KernelError>;

} // verus!
