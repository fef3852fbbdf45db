use vstd::prelude::*;

verus! {

/// What can go wrong in the cache: a value could not be turned into bytes,
/// or bytes could not be turned back into a value. The text says why.
#[derive(Debug, PartialEq, Eq)]
pub enum CacheError {
    ConversionFailed(String),
}

impl CacheError {
    /// A conversion error carrying `detail`.
    pub fn conversion(detail: &str) -> (r: CacheError)
        ensures
            r matches CacheError::ConversionFailed(d) && d@ == detail@,
    {
        CacheError::ConversionFailed(detail.to_owned())
    }

    /// The explanation the error carries.
    pub fn detail(&self) -> (r: &String)
        ensures
            match self {
                CacheError::ConversionFailed(d) => r == d,
            },
    {
        match self {
            CacheError::ConversionFailed(d) => d,
        }
    }
}

} // verus!
