//! The reserved byte values that frame a bundle, and the current format version.
use vstd::prelude::*;

verus! {

/// Introduces an escaped literal inside file content.
pub const ESC_CHAR: u8 = 0xFF;

/// First byte of every bundle.
pub const BOWL_CHAR: u8 = 0x9A;

/// Introduces a file record; the file's path follows.
pub const FILE_CHAR: u8 = 0x9C;

/// Separates a file's path from its (escaped) content.
pub const CONTENT_CHAR: u8 = 0x9E;

/// Introduces the version string, right after [`BOWL_CHAR`].
pub const VERSION_CHAR: u8 = 0xA0;

/// The ASCII dot that separates the segments of a version string.
pub const VERSION_SEPARATOR: u8 = 0x2E;

/// The format version written by [`crate::bowlfile::BowlFile::new`].
pub const CURRENT_VERSION: &'static str = "0.0.1";

/// True for the five reserved bytes, the escape byte included.
pub open spec fn is_sentinel(b: u8) -> bool {
    b == ESC_CHAR || b == BOWL_CHAR || b == FILE_CHAR || b == CONTENT_CHAR || b == VERSION_CHAR
}

/// The reserved bytes are pairwise distinct and none of them is ASCII.
pub proof fn lemma_sentinels_distinct()
    ensures
        ESC_CHAR != BOWL_CHAR && ESC_CHAR != FILE_CHAR && ESC_CHAR != CONTENT_CHAR
            && ESC_CHAR != VERSION_CHAR,
        BOWL_CHAR != FILE_CHAR && BOWL_CHAR != CONTENT_CHAR && BOWL_CHAR != VERSION_CHAR,
        FILE_CHAR != CONTENT_CHAR && FILE_CHAR != VERSION_CHAR,
        CONTENT_CHAR != VERSION_CHAR,
        forall|b: u8| #[trigger] is_sentinel(b) ==> b >= 0x80,
{
}

} // verus!
