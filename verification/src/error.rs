use vstd::prelude::*;

verus! {

/// Error taxonomy of the pipeline.
///
/// - `ToolInvocation`: an external process exited nonzero or could not be
///   spawned; soft for classification purposes.
/// - `Parse`: malformed timestamp or chapter structure.
/// - `Path`: a file path is not under the expected source root.
/// - `Io`: a create/read/write failure, fatal for the single task only.
/// - `Exhaustion`: the catalog numbering space is used up.
/// - `Serialization`: a JSON or binary encode/decode failure.
/// - `Precondition`: a caller handed a value that the operation rejects.
#[derive(Clone, Copy, Debug, PartialEq, Eq, Structural)]
pub enum LibError {
    ToolInvocation,
    Parse,
    Path,
    Io,
    Exhaustion,
    Serialization,
    Precondition,
}

impl LibError {
    /// A short human-readable description, in place of `Display`.
    pub fn message(&self) -> (r: &'static str)
        ensures
            r@.len() > 0,
    {
        proof {
            reveal_strlit("external tool invocation failed");
            reveal_strlit("malformed timestamp or chapter structure");
            reveal_strlit("path is not under the expected source root");
            reveal_strlit("i/o failure");
            reveal_strlit("catalog numbering space exhausted");
            reveal_strlit("serialization failure");
            reveal_strlit("precondition violated");
        }
        match self {
            LibError::ToolInvocation => "external tool invocation failed",
            LibError::Parse => "malformed timestamp or chapter structure",
            LibError::Path => "path is not under the expected source root",
            LibError::Io => "i/o failure",
            LibError::Exhaustion => "catalog numbering space exhausted",
            LibError::Serialization => "serialization failure",
            LibError::Precondition => "precondition violated",
        }
    }
}

} // verus!
