use vstd::prelude::*;

verus! {

/// The kinds of failure that every scheme operation reports in place of a
/// byte count.
#[derive(Clone, Copy, Debug, PartialEq, Eq, Structural)]
pub enum SchemeError {
    /// Unknown path, identifier or unresolved route.
    NotFound,
    /// A name is already taken.
    AlreadyExists,
    /// The caller may not open this resource.
    AccessDenied,
    /// Unknown resource descriptor.
    BadDescriptor,
    /// Malformed path encoding or undersized buffer.
    InvalidArgument,
    /// No free scheme identifier is left.
    ResourceExhausted,
}

impl SchemeError {
    /// The error number reported to user space for this kind.
    pub fn errno(&self) -> (r: usize)
        ensures
            r == self.errno_spec(),
    {
        match self {
            SchemeError::NotFound => 2,
            SchemeError::AlreadyExists => 17,
            SchemeError::AccessDenied => 13,
            SchemeError::BadDescriptor => 9,
            SchemeError::InvalidArgument => 22,
            SchemeError::ResourceExhausted => 11,
        }
    }

    pub open spec fn errno_spec(&self) -> usize {
        match self {
            SchemeError::NotFound => 2,
            SchemeError::AlreadyExists => 17,
            SchemeError::AccessDenied => 13,
            SchemeError::BadDescriptor => 9,
            SchemeError::InvalidArgument => 22,
            SchemeError::ResourceExhausted => 11,
        }
    }
}

} // verus!
