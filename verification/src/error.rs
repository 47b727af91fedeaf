use vstd::prelude::*;

verus! {

/// Failure taxonomy of the engine.
///
/// Every public operation reports failure through this one type; callers are
/// expected to render all variants uniformly rather than branching on the
/// transport that failed.
///
/// `String` carries conditions the engine detects itself (an unknown user, an
/// exhausted id space). The remaining variants exist for the surrounding
/// process to funnel failures of the backing store, of the operating system,
/// and of document decoding into, already rendered as text.
#[derive(Debug)]
pub enum RingError {
    String(String),
    Store(String),
    IO(String),
    Serde(String),
}

impl RingError {
    /// The message carried by this error, whichever class it belongs to.
    pub open spec fn text(&self) -> Seq<char> {
        match self {
            RingError::String(s) => s@,
            RingError::Store(s) => s@,
            RingError::IO(s) => s@,
            RingError::Serde(s) => s@,
        }
    }

    /// Human-readable message of the error.
    pub fn message(&self) -> (m: String)
        ensures
            m@ == self.text(),
    {
        match self {
            RingError::String(s) => s.clone(),
            RingError::Store(s) => s.clone(),
            RingError::IO(s) => s.clone(),
            RingError::Serde(s) => s.clone(),
        }
    }
}

} // verus!
