use vstd::prelude::*;

verus! {

/// The typed failures the core can report.
///
/// `NotFound` and `Exhausted` are kept distinct so a caller can tell an
/// identifier that never existed from one whose budget has been used up.
#[derive(Clone, Copy, PartialEq, Eq, Structural, Debug)]
pub enum CoreError {
    /// The identifier is unknown to the registry, or its blob is missing.
    NotFound,
    /// The identifier is known but its remaining budget is zero.
    Exhausted,
    /// An insert collided with an identifier that is already present.
    AlreadyExists,
    /// A payload exceeded the maximum accepted size.
    TooLarge,
    /// An admin command name that the core does not know.
    UnsupportedCommand,
}

/// The stable name of each error, as the `name` method returns it.
pub open spec fn spec_name(e: CoreError) -> Seq<char> {
    match e {
        CoreError::NotFound => "not_found"@,
        CoreError::Exhausted => "exhausted"@,
        CoreError::AlreadyExists => "already_exists"@,
        CoreError::TooLarge => "too_large"@,
        CoreError::UnsupportedCommand => "unsupported_command"@,
    }
}

impl CoreError {
    /// A short stable name for the error, for callers that log or encode it.
    pub fn name(&self) -> (r: &'static str)
        ensures
            r@ == spec_name(*self),
    {
        match self {
            CoreError::NotFound => "not_found",
            CoreError::Exhausted => "exhausted",
            CoreError::AlreadyExists => "already_exists",
            CoreError::TooLarge => "too_large",
            CoreError::UnsupportedCommand => "unsupported_command",
        }
    }
}

} // verus!
