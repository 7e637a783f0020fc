use vstd::prelude::*;

verus! {

/// Why bundling failed. Each of these is an "invalid input" failure: the
/// caller handed the library something it refuses.
#[derive(Clone, Copy, Debug, PartialEq, Eq, Structural)]
pub enum BundleError {
    /// The module's structure cannot be walked: a bad header, an unknown
    /// section kind, or a length that runs past the data.
    MalformedModule,
    /// A bundled path, or one of its ancestors, is missing or is neither a
    /// regular file nor a directory.
    NotFileOrDir,
    /// A bundled path does not start with the configured prefix.
    PrefixMismatch,
}

} // verus!
