//! Error kinds reported by the parser.

use vstd::prelude::*;

verus! {

/// Everything that can go wrong while validating or reading a flattened
/// device tree.
#[derive(Clone, Copy, Debug, PartialEq, Eq, Structural)]
pub enum Error {
    /// The requested node or property does not exist.
    NotFound,
    /// The passed node or property is not part of the device tree.
    BadOffset,
    /// A badly formatted path was supplied.
    BadPath,
    /// An invalid phandle was supplied.
    BadPhandle,
    /// The device tree is incomplete.
    BadState,
    /// The buffer is shorter than the header asks for.
    Truncated,
    /// The magic number does not identify a flattened device tree.
    BadMagic(u32),
    /// The version is unsupported by the library.
    BadVersion(u32),
    /// The structure block is corrupt, such as misnested nodes.
    BadStructure,
    /// The sub-blocks are laid out in a bad order.
    BadLayout,
    /// An internal assertion of the library failed.
    Internal,
    /// A cell-count property has a bad format or value.
    BadNCells,
    /// A property value cannot be decoded as the requested type.
    BadValue,
}

} // verus!
