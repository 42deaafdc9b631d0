use vstd::prelude::*;

verus! {

/// Every failure the engine can report.
///
/// I/O failures belong to the layer that owns the file handles; inside the
/// engine the only failures are a record that does not decode and a `remove`
/// of a key that is not present.
#[derive(Clone, Copy, Debug, PartialEq, Eq, Structural)]
pub enum KvError {
    /// `remove` was called for a key with no live record.
    KeyNotFound,
    /// A log record failed to decode.
    CorruptLog,
}

} // verus!
