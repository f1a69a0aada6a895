use vstd::prelude::*;

verus! {

/// Why a route could not be added.
#[derive(Copy, Clone, Eq, PartialEq, Debug)]
pub enum RouterError {
    DuplicateKey,
    NullKey,
    NullValue,
}

impl RouterError {
    /// The human-readable message of each error.
    pub open spec fn message(self) -> Seq<char> {
        match self {
            RouterError::DuplicateKey => "Key already exists"@,
            RouterError::NullKey => "Key does not exist"@,
            RouterError::NullValue => "Value does not exist"@,
        }
    }

    /// The message that describes this error.
    pub fn description_str(&self) -> (r: &'static str)
        ensures
            r@ == self.message(),
    {
        match *self {
            RouterError::DuplicateKey => "Key already exists",
            RouterError::NullKey => "Key does not exist",
            RouterError::NullValue => "Value does not exist",
        }
    }
}

} // verus!
