//! Streaming tokenizer-and-batcher core: a leftmost-longest multi-pattern
//! tokenizer, an online byte-pair vocabulary trainer, and a bucketed batch
//! assembler, together with the small state machines that drive them.

use vstd::prelude::*;

pub mod batch;
pub mod iter;
pub mod matcher;
pub mod pipeline;
pub mod sample;
pub mod trainer;
pub mod unicode;

verus! {

/// Why construction of a trainer, batcher or matcher rejected its inputs.
#[derive(Clone, Copy, Debug, PartialEq, Eq, Structural)]
pub enum ConfigError {
    /// The decay factor is not in `[0, 1)` (scaled by 1000).
    DecayOutOfRange,
    /// The bigram count threshold does not leave headroom below the counter maximum.
    ThresholdCountTooLarge,
    /// The drop factor (scaled by 1000) is too large to compare against counters.
    DropFactorTooLarge,
    /// The vocabulary bound does not exceed the forced single-byte alphabet.
    VocabTooSmall,
    /// The bigram matrix for the requested vocabulary bound would not fit in memory.
    VocabTooLarge,
    /// The requested batch shape would overflow an address-space-sized count.
    ShapeTooLarge,
    /// A batch must have at least one row.
    ZeroBatchSize,
    /// A batch row must have at least one column.
    ZeroSeqLen,
    /// The bucket pool threshold must be at least one.
    ZeroBucketCount,
    /// The bucket pool threshold must not be below the batch size.
    PoolTooSmall,
    /// A matcher needs at least one pattern.
    NoPatterns,
    /// Patterns must be non-empty byte strings.
    EmptyPattern,
    /// Patterns must be pairwise distinct.
    DuplicatePattern,
    /// Token indices must fit in the signed 32-bit cells of a batch.
    TooManyPatterns,
    /// The pattern automaton could not be built.
    MatcherBuild,
}

/// True when `x` is below the optional bound `max`; an absent bound never limits.
pub fn below_limit(x: usize, max: Option<usize>) -> (r: bool)
    ensures
        r == match max {
            Option::None => true,
            Option::Some(m) => x < m,
        },
{
    match max {
        None => true,
        Some(m) => x < m,
    }
}

} // verus!
