//! Console log colouring: each source tag gets one of six terminal colour
//! codes, picked by hashing the tag. The printing itself stays with the
//! I/O layer.

use vstd::prelude::*;

verus! {

/// The console logger.
pub struct Logger;

/// Relies on std's `DefaultHasher`: some 64-bit hash of the input; its
/// value is not relied on.
#[verifier::external_body]
fn tag_hash(input: &str) -> (r: u64) {
    let mut hasher = std::collections::hash_map::DefaultHasher::new();
    std::hash::Hash::hash(input, &mut hasher);
    std::hash::Hasher::finish(&hasher)
}

impl Logger {
    /// The terminal colour code for a source tag: always one of the six
    /// codes 31 through 36.
    pub fn color_code_for(input: &str) -> (r: u8)
        ensures
            31 <= r <= 36,
    {
        let h = tag_hash(input);
        let idx = h % 6;
        31 + idx as u8
    }
}

} // verus!
