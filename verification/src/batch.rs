//! Bucketed batch assembly over a frozen vocabulary.
//!
//! Samples are tokenized and installed as buckets; batches of shape
//! `batch_size x seq_len` are drawn from a pool of at least `bucket_count`
//! buckets, one randomly chosen bucket per row.  A bucket whose remainder
//! falls below a full row is evicted and its buffer recycled through a free
//! list of empty buffers.

use rand::Rng;
use rand::SeedableRng;
use vstd::prelude::*;

use crate::matcher::{match_tokens, Matcher};
use crate::ConfigError;

verus! {

/// Monotone counters over the lifetime of a batcher.
#[derive(Clone, Copy, Debug, PartialEq, Eq, Structural)]
pub struct Stats {
    /// How many non-empty samples have been installed.
    pub sample_count: usize,
    /// How many tokens the installed samples held before their head offsets
    /// were dropped (saturating).
    pub token_count: usize,
    /// How many batches have been produced.
    pub batch_count: usize,
}

impl Default for Stats {
    /// All counters start at zero.
    fn default() -> (r: Self)
        ensures
            r == (Stats { sample_count: 0, token_count: 0, batch_count: 0 }),
    {
        Stats { sample_count: 0, token_count: 0, batch_count: 0 }
    }
}

/// One partially consumed tokenized sample.
pub struct Bucket {
    /// Which sample the tokens came from.
    pub sample: usize,
    /// The index, within the sample's full token sequence, of the token now
    /// at the front.
    pub start_index: usize,
    /// The tokens not yet drained into a batch.
    pub tokens: Vec<usize>,
}

/// One immutable `batch_size x seq_len` matrix of token indices, with the
/// origin of each row.
pub struct Batch {
    /// The rows; every cell holds a token index, or `-1` where unfilled.
    pub tokens: Vec<Vec<i32>>,
    /// How many rows the batch has.
    pub batch_size: usize,
    /// How many cells each row has.
    pub seq_len: usize,
    /// For each row, the `sample` of the bucket it was drained from.
    pub samples: Vec<usize>,
    /// For each row, the `start_index` of that bucket before the drain.
    pub start_indices: Vec<usize>,
}

/// A bucket is well formed against a vocabulary size: it is never empty
/// while held, all its tokens index the vocabulary, and its start index
/// cannot overflow while it is drained.
pub open spec fn bucket_wf(b: Bucket, vocab_len: int) -> bool {
    &&& b.tokens@.len() >= 1
    &&& forall|i: int| 0 <= i < b.tokens@.len() ==> (#[trigger] b.tokens@[i] as int) < vocab_len
    &&& b.start_index + b.tokens@.len() <= usize::MAX
}

/// The prefix of length `w` in `[1, seq_len]` holds token indices below
/// `vocab_len`, and every cell after it is `-1`.
pub open spec fn row_filled(row: Seq<i32>, seq_len: int, vocab_len: int, w: int) -> bool {
    &&& 1 <= w <= seq_len
    &&& forall|j: int| 0 <= j < w ==> 0 <= (#[trigger] row[j] as int) < vocab_len
    &&& forall|j: int| w <= j < seq_len ==> (#[trigger] row[j] as int) == -1
}

/// One batch row is fully formed: some prefix holds token indices and `-1`
/// fills the rest.
pub open spec fn row_ok(row: Seq<i32>, seq_len: int, vocab_len: int) -> bool {
    &&& row.len() == seq_len
    &&& exists|w: int| row_filled(row, seq_len, vocab_len, w)
}

/// The total number of tokens held across a bucket list.
pub open spec fn held_tokens(bs: Seq<Bucket>) -> int
    decreases bs.len(),
{
    if bs.len() == 0 {
        0
    } else {
        held_tokens(bs.drop_last()) + bs.last().tokens@.len()
    }
}

/// How many cells of one row are filled, that is, not the sentinel.
pub open spec fn filled_in_row(row: Seq<i32>) -> int
    decreases row.len(),
{
    if row.len() == 0 {
        0
    } else {
        filled_in_row(row.drop_last()) + if row.last() == -1i32 {
            0int
        } else {
            1int
        }
    }
}

/// The filled cells of a whole batch, over all rows.
pub open spec fn filled_cells(rows: Seq<Vec<i32>>) -> int
    decreases rows.len(),
{
    if rows.len() == 0 {
        0
    } else {
        filled_cells(rows.drop_last()) + filled_in_row(rows.last()@)
    }
}

/// Replacing one bucket changes the held total by the difference of the two
/// buckets' lengths.
proof fn lemma_held_update(bs: Seq<Bucket>, k: int, x: Bucket)
    requires
        0 <= k < bs.len(),
    ensures
        held_tokens(bs.update(k, x)) == held_tokens(bs) - bs[k].tokens@.len() + x.tokens@.len(),
    decreases bs.len(),
{
    let s2 = bs.update(k, x);
    if k == bs.len() - 1 {
        assert(s2.drop_last() =~= bs.drop_last());
        assert(s2.last() == x);
    } else {
        lemma_held_update(bs.drop_last(), k, x);
        assert(s2.drop_last() =~= bs.drop_last().update(k, x));
        assert(s2.last() == bs.last());
    }
}

/// Swap-removing one bucket lowers the held total by that bucket's length.
proof fn lemma_held_swap_remove(bs: Seq<Bucket>, k: int)
    requires
        0 <= k < bs.len(),
    ensures
        held_tokens(bs.update(k, bs.last()).drop_last()) == held_tokens(bs)
            - bs[k].tokens@.len(),
{
    lemma_held_update(bs, k, bs.last());
    let s2 = bs.update(k, bs.last());
    assert(s2.last() == bs.last());
    assert(held_tokens(s2) == held_tokens(s2.drop_last()) + s2.last().tokens@.len());
}

/// Appending one bucket raises the held total by that bucket's length.
proof fn lemma_held_push(bs: Seq<Bucket>, x: Bucket)
    ensures
        held_tokens(bs.push(x)) == held_tokens(bs) + x.tokens@.len(),
{
    assert(bs.push(x).drop_last() =~= bs);
    assert(bs.push(x).last() == x);
}

/// A row whose first `w` cells are filled and whose rest is the sentinel
/// holds exactly `w` filled cells.
proof fn lemma_filled_row_count(row: Seq<i32>, w: int)
    requires
        0 <= w <= row.len(),
        forall|j: int| 0 <= j < w ==> (#[trigger] row[j] as int) != -1,
        forall|j: int| w <= j < row.len() ==> (#[trigger] row[j] as int) == -1,
    ensures
        filled_in_row(row) == w,
    decreases row.len(),
{
    if row.len() == 0 {
    } else if w == row.len() {
        lemma_filled_row_count(row.drop_last(), w - 1);
        assert(row.last() as int != -1);
    } else {
        lemma_filled_row_count(row.drop_last(), w);
        assert(row.last() as int == -1);
    }
}

/// Some bucket of the list carries sample id `s`.
pub open spec fn sample_among(bs: Seq<Bucket>, s: usize) -> bool
    decreases bs.len(),
{
    if bs.len() == 0 {
        false
    } else {
        bs[0].sample == s || sample_among(bs.drop_first(), s)
    }
}

/// The sample id of any listed bucket is among the list's sample ids.
proof fn lemma_sample_among(bs: Seq<Bucket>, k: int)
    requires
        0 <= k < bs.len(),
    ensures
        sample_among(bs, bs[k].sample),
    decreases bs.len(),
{
    if k > 0 {
        lemma_sample_among(bs.drop_first(), k - 1);
    }
}

/// Appending one row raises the filled-cell total by that row's count.
proof fn lemma_filled_push(rows: Seq<Vec<i32>>, row: Vec<i32>)
    ensures
        filled_cells(rows.push(row)) == filled_cells(rows) + filled_in_row(row@),
{
    assert(rows.push(row).drop_last() =~= rows);
    assert(rows.push(row).last() == row);
}

/// The mathematical image of one bucket.
pub ghost struct BucketModel {
    /// Which sample the tokens came from.
    pub sample: usize,
    /// The index, within the sample, of the token at the front.
    pub start: usize,
    /// The remaining tokens.
    pub tokens: Seq<usize>,
}

/// The mathematical image of a bucket list.
pub open spec fn buckets_model(bs: Seq<Bucket>) -> Seq<BucketModel> {
    Seq::new(
        bs.len(),
        |i: int|
            BucketModel { sample: bs[i].sample, start: bs[i].start_index, tokens: bs[i].tokens@ },
    )
}

/// Everything one pop reads and writes, as mathematical values.
pub ghost struct PopState {
    /// The held buckets.
    pub buckets: Seq<BucketModel>,
    /// The free list of recycled buffers.
    pub free: Seq<Seq<usize>>,
    /// The batch rows produced so far.
    pub rows: Seq<Seq<i32>>,
    /// The recorded origin sample of each row.
    pub samples: Seq<usize>,
    /// The recorded start index of each row's bucket before its drain.
    pub starts: Seq<usize>,
}

/// Assembles a [`PopState`] from the concrete pieces.
pub open spec fn pop_state_of(
    bs: Seq<Bucket>,
    free: Seq<Seq<usize>>,
    rows: Seq<Seq<i32>>,
    samples: Seq<usize>,
    starts: Seq<usize>,
) -> PopState {
    PopState { buckets: buckets_model(bs), free, rows, samples, starts }
}

/// One row's drain from the bucket at index `k`: the row receives the
/// bucket's first `w = min(seq_len, |tokens|)` tokens and `-1` after them;
/// the bucket's origin and prior start index are recorded, its start
/// advances by `w`, and it is swap-removed — rejoining the pool exactly
/// when a full row remains, its emptied buffer joining the free list
/// otherwise.
pub open spec fn pop_row_spec(st: PopState, k: int, seq_len: int) -> PopState {
    let b = st.buckets[k];
    let w = if seq_len < b.tokens.len() {
        seq_len
    } else {
        b.tokens.len() as int
    };
    let row = Seq::new(
        seq_len as nat,
        |j: int|
            if j < w {
                b.tokens[j] as i32
            } else {
                -1i32
            },
    );
    let rest = st.buckets.update(k, st.buckets.last()).drop_last();
    let drained = BucketModel {
        sample: b.sample,
        start: (b.start + w) as usize,
        tokens: b.tokens.skip(w),
    };
    PopState {
        buckets: if drained.tokens.len() >= seq_len {
            rest.push(drained)
        } else {
            rest
        },
        free: if drained.tokens.len() >= seq_len {
            st.free
        } else {
            st.free.push(Seq::empty())
        },
        rows: st.rows.push(row),
        samples: st.samples.push(b.sample),
        starts: st.starts.push(b.start),
    }
}

/// The state after draining one row per pick, in order.
pub open spec fn pop_rows_spec(st: PopState, picks: Seq<int>, seq_len: int) -> PopState
    decreases picks.len(),
{
    if picks.len() == 0 {
        st
    } else {
        pop_rows_spec(pop_row_spec(st, picks[0], seq_len), picks.drop_first(), seq_len)
    }
}

/// Every pick indexes a bucket held at its own step.
pub open spec fn picks_valid(st: PopState, picks: Seq<int>, seq_len: int) -> bool
    decreases picks.len(),
{
    if picks.len() == 0 {
        true
    } else {
        0 <= picks[0] < st.buckets.len() && picks_valid(
            pop_row_spec(st, picks[0], seq_len),
            picks.drop_first(),
            seq_len,
        )
    }
}

/// Appending one pick drains one more row from the folded state.
proof fn lemma_pop_rows_snoc(st: PopState, picks: Seq<int>, k: int, seq_len: int)
    ensures
        pop_rows_spec(st, picks.push(k), seq_len) == pop_row_spec(
            pop_rows_spec(st, picks, seq_len),
            k,
            seq_len,
        ),
        picks_valid(st, picks.push(k), seq_len) == (picks_valid(st, picks, seq_len) && 0 <= k
            < pop_rows_spec(st, picks, seq_len).buckets.len()),
    decreases picks.len(),
{
    if picks.len() == 0 {
        assert(picks.push(k)[0] == k);
        assert(picks.push(k).drop_first() =~= Seq::<int>::empty());
        assert(pop_rows_spec(pop_row_spec(st, k, seq_len), Seq::<int>::empty(), seq_len)
            == pop_row_spec(st, k, seq_len));
        assert(pop_rows_spec(st, picks, seq_len) == st);
        assert(picks_valid(st, picks, seq_len));
        assert(picks_valid(pop_row_spec(st, k, seq_len), Seq::<int>::empty(), seq_len));
    } else {
        assert(picks.push(k)[0] == picks[0]);
        assert(picks.push(k).drop_first() =~= picks.drop_first().push(k));
        lemma_pop_rows_snoc(pop_row_spec(st, picks[0], seq_len), picks.drop_first(), k, seq_len);
        assert(pop_rows_spec(st, picks.push(k), seq_len) == pop_rows_spec(
            pop_row_spec(st, picks[0], seq_len),
            picks.drop_first().push(k),
            seq_len,
        ));
        assert(pop_rows_spec(st, picks, seq_len) == pop_rows_spec(
            pop_row_spec(st, picks[0], seq_len),
            picks.drop_first(),
            seq_len,
        ));
    }
}

#[verifier::external_type_specification]
#[verifier::external_body]
pub struct ExSmallRng(rand::rngs::SmallRng);

/// Relies on `SeedableRng::from_entropy` for `SmallRng`: a generator seeded
/// from the system; nothing is promised of the values it will produce.
#[verifier::external_body]
fn rng_from_entropy() -> (r: rand::rngs::SmallRng) {
    rand::rngs::SmallRng::from_entropy()
}

/// Relies on `SeedableRng::seed_from_u64` for `SmallRng`: a generator in a
/// seed-determined state; nothing is promised of the values it will produce.
#[verifier::external_body]
fn rng_from_seed(seed: u64) -> (r: rand::rngs::SmallRng) {
    rand::rngs::SmallRng::seed_from_u64(seed)
}

/// Relies on `Rng::gen_range` over `0..n`: some value below `n`; which one
/// depends on the generator state, so no more is stated.
#[verifier::external_body]
fn rng_below(rng: &mut rand::rngs::SmallRng, n: usize) -> (r: usize)
    requires
        n >= 1,
    ensures
        r < n,
{
    rng.gen_range(0..n)
}

/// The first configuration fault of a batcher, if any.
pub open spec fn batcher_precheck(
    batch_size: usize,
    seq_len: usize,
    bucket_count: usize,
    pats: Seq<Seq<u8>>,
) -> Option<ConfigError> {
    if batch_size == 0 {
        Some(ConfigError::ZeroBatchSize)
    } else if seq_len == 0 {
        Some(ConfigError::ZeroSeqLen)
    } else if bucket_count == 0 {
        Some(ConfigError::ZeroBucketCount)
    } else if bucket_count < batch_size {
        Some(ConfigError::PoolTooSmall)
    } else if batch_size * seq_len > usize::MAX {
        Some(ConfigError::ShapeTooLarge)
    } else if pats.len() > i32::MAX {
        Some(ConfigError::TooManyPatterns)
    } else if pats.len() == 0 {
        Some(ConfigError::NoPatterns)
    } else if !crate::matcher::pats_wf(pats) {
        Some(ConfigError::EmptyPattern)
    } else if !crate::matcher::pats_distinct(pats) {
        Some(ConfigError::DuplicatePattern)
    } else {
        None
    }
}

/// Turns a token stream into fixed-shape batches through a pool of buckets.
pub struct Batcher {
    batch_size: usize,
    seq_len: usize,
    bucket_count: usize,
    matcher: Matcher,
    rng: rand::rngs::SmallRng,
    stats: Stats,
    buckets: Vec<Bucket>,
    empty_buffers: Vec<Vec<usize>>,
    /// The bucket indices the most recent batch drained, row by row; ghost
    /// state that lets the batch contract name the random choices.
    last_picks: Ghost<Seq<int>>,
}

impl Batcher {
    /// The frozen vocabulary the batcher tokenizes with.
    pub closed spec fn patterns_view(&self) -> Seq<Seq<u8>> {
        self.matcher.patterns_view()
    }

    /// The number of rows per batch.
    pub closed spec fn batch_size_spec(&self) -> usize {
        self.batch_size
    }

    /// The number of cells per row.
    pub closed spec fn seq_len_spec(&self) -> usize {
        self.seq_len
    }

    /// The bucket pool threshold below which no batch is produced.
    pub closed spec fn bucket_count_spec(&self) -> usize {
        self.bucket_count
    }

    /// The current counters.
    pub closed spec fn stats_spec(&self) -> Stats {
        self.stats
    }

    /// The buckets currently held.
    pub closed spec fn buckets_view(&self) -> Seq<Bucket> {
        self.buckets@
    }

    /// The recycled buffers on the free list.
    pub closed spec fn free_buffers_view(&self) -> Seq<Seq<usize>> {
        self.empty_buffers.deep_view()
    }

    /// The bucket indices the most recent batch drained, row by row.
    pub closed spec fn last_picks_view(&self) -> Seq<int> {
        self.last_picks@
    }

    /// The batcher invariant: the matcher is sound, the shape is positive
    /// and overflow-free, every held bucket is non-empty with in-range
    /// tokens, and every free-list buffer is empty.
    pub closed spec fn wf(&self) -> bool {
        &&& self.matcher.wf()
        &&& 1 <= self.matcher.patterns_view().len() <= i32::MAX
        &&& self.batch_size >= 1
        &&& self.seq_len >= 1
        &&& self.bucket_count >= self.batch_size
        &&& self.batch_size * self.seq_len <= usize::MAX
        &&& forall|k: int|
            0 <= k < self.buckets@.len() ==> bucket_wf(
                #[trigger] self.buckets@[k],
                self.matcher.patterns_view().len() as int,
            )
        &&& forall|k: int|
            0 <= k < self.empty_buffers@.len() ==> (#[trigger] self.empty_buffers@[k])@.len() == 0
    }

    /// Law: every buffer on the free list has length zero.
    pub proof fn lemma_free_buffers_empty(&self)
        requires
            self.wf(),
        ensures
            forall|k: int|
                0 <= k < self.free_buffers_view().len() ==> (#[trigger] self.free_buffers_view()[
                    k
                ]).len() == 0,
    {
        assert forall|k: int| 0 <= k < self.free_buffers_view().len() implies (
        #[trigger] self.free_buffers_view()[k]).len() == 0 by {
            assert(self.free_buffers_view()[k] == self.empty_buffers@[k]@);
        }
    }

    /// Law: every held bucket is non-empty and all its tokens index the
    /// vocabulary.
    pub proof fn lemma_buckets_wf(&self)
        requires
            self.wf(),
        ensures
            forall|k: int|
                0 <= k < self.buckets_view().len() ==> bucket_wf(
                    #[trigger] self.buckets_view()[k],
                    self.patterns_view().len() as int,
                ),
    {
    }

    /// A batcher over the vocabulary `tokens`, seeded from the system.  The
    /// shape must be positive, the pool threshold at least the batch size,
    /// and the vocabulary usable as a pattern list; the first fault is
    /// reported, and a vocabulary whose automaton cannot be built is
    /// reported as `MatcherBuild`.
    pub fn new(batch_size: usize, seq_len: usize, bucket_count: usize, tokens: Vec<Vec<u8>>) -> (r:
        Result<Batcher, ConfigError>)
        ensures
            ({
                let pre = batcher_precheck(batch_size, seq_len, bucket_count, tokens.deep_view());
                match pre {
                    Some(e) => r matches Err(e2) && e2 == e,
                    None => if crate::matcher::ac_build_ok(tokens.deep_view()) {
                        r is Ok
                    } else {
                        r matches Err(e2) && e2 == ConfigError::MatcherBuild
                    },
                }
            }),
            r matches Ok(b) ==> b.wf() && b.patterns_view() == tokens.deep_view()
                && b.batch_size_spec() == batch_size && b.seq_len_spec() == seq_len
                && b.bucket_count_spec() == bucket_count && b.stats_spec() == (Stats {
                sample_count: 0,
                token_count: 0,
                batch_count: 0,
            }) && b.buckets_view().len() == 0 && b.free_buffers_view().len() == 0,
    {
        let rng = rng_from_entropy();
        Self::build(batch_size, seq_len, bucket_count, tokens, rng)
    }

    /// As [`Batcher::new`], but in a seed-determined state.
    pub fn with_seed(
        batch_size: usize,
        seq_len: usize,
        bucket_count: usize,
        tokens: Vec<Vec<u8>>,
        seed: u64,
    ) -> (r: Result<Batcher, ConfigError>)
        ensures
            ({
                let pre = batcher_precheck(batch_size, seq_len, bucket_count, tokens.deep_view());
                match pre {
                    Some(e) => r matches Err(e2) && e2 == e,
                    None => if crate::matcher::ac_build_ok(tokens.deep_view()) {
                        r is Ok
                    } else {
                        r matches Err(e2) && e2 == ConfigError::MatcherBuild
                    },
                }
            }),
            r matches Ok(b) ==> b.wf() && b.patterns_view() == tokens.deep_view()
                && b.batch_size_spec() == batch_size && b.seq_len_spec() == seq_len
                && b.bucket_count_spec() == bucket_count && b.stats_spec() == (Stats {
                sample_count: 0,
                token_count: 0,
                batch_count: 0,
            }) && b.buckets_view().len() == 0 && b.free_buffers_view().len() == 0,
    {
        let rng = rng_from_seed(seed);
        Self::build(batch_size, seq_len, bucket_count, tokens, rng)
    }

    /// Checks the configuration and builds the matcher.
    fn build(
        batch_size: usize,
        seq_len: usize,
        bucket_count: usize,
        tokens: Vec<Vec<u8>>,
        rng: rand::rngs::SmallRng,
    ) -> (r: Result<Batcher, ConfigError>)
        ensures
            ({
                let pre = batcher_precheck(batch_size, seq_len, bucket_count, tokens.deep_view());
                match pre {
                    Some(e) => r matches Err(e2) && e2 == e,
                    None => if crate::matcher::ac_build_ok(tokens.deep_view()) {
                        r is Ok
                    } else {
                        r matches Err(e2) && e2 == ConfigError::MatcherBuild
                    },
                }
            }),
            r matches Ok(b) ==> b.wf() && b.patterns_view() == tokens.deep_view()
                && b.batch_size_spec() == batch_size && b.seq_len_spec() == seq_len
                && b.bucket_count_spec() == bucket_count && b.stats_spec() == (Stats {
                sample_count: 0,
                token_count: 0,
                batch_count: 0,
            }) && b.buckets_view().len() == 0 && b.free_buffers_view().len() == 0,
    {
        if batch_size == 0 {
            return Err(ConfigError::ZeroBatchSize);
        }
        if seq_len == 0 {
            return Err(ConfigError::ZeroSeqLen);
        }
        if bucket_count == 0 {
            return Err(ConfigError::ZeroBucketCount);
        }
        if bucket_count < batch_size {
            return Err(ConfigError::PoolTooSmall);
        }
        if seq_len > usize::MAX / batch_size {
            proof {
                vstd::arithmetic::div_mod::lemma_fundamental_div_mod(usize::MAX as int, batch_size as int);
                assert(batch_size * seq_len > usize::MAX) by (nonlinear_arith)
                    requires
                        batch_size >= 1,
                        seq_len > usize::MAX / batch_size,
                        usize::MAX == (batch_size * (usize::MAX / batch_size)) + usize::MAX % batch_size,
                        0 <= usize::MAX % batch_size < batch_size,
                ;
            }
            return Err(ConfigError::ShapeTooLarge);
        }
        proof {
            vstd::arithmetic::div_mod::lemma_fundamental_div_mod(usize::MAX as int, batch_size as int);
            assert(batch_size * seq_len <= usize::MAX) by (nonlinear_arith)
                requires
                    batch_size >= 1,
                    seq_len <= usize::MAX / batch_size,
                    usize::MAX == (batch_size * (usize::MAX / batch_size)) + usize::MAX % batch_size,
                    0 <= usize::MAX % batch_size < batch_size,
            ;
        }
        if tokens.len() > (i32::MAX as usize) {
            return Err(ConfigError::TooManyPatterns);
        }
        match Matcher::new(tokens) {
            Ok(matcher) => Ok(
                Batcher {
                    batch_size,
                    seq_len,
                    bucket_count,
                    matcher,
                    rng,
                    stats: Stats { sample_count: 0, token_count: 0, batch_count: 0 },
                    buckets: Vec::new(),
                    empty_buffers: Vec::new(),
                    last_picks: Ghost(Seq::empty()),
                },
            ),
            Err(e) => Err(e),
        }
    }

    /// The current counters.
    pub fn stats(&self) -> (s: Stats)
        ensures
            s == self.stats_spec(),
    {
        self.stats
    }

    /// How many buckets are currently held.
    pub fn bucket_len(&self) -> (n: usize)
        ensures
            n == self.buckets_view().len(),
    {
        self.buckets.len()
    }

    /// Tokenizes one sample and installs it as a bucket.  A sample that
    /// yields no token installs nothing and reports `false`.  Otherwise a
    /// bucket is appended whose tokens are the sample's tokens with a head
    /// offset dropped: the offset is some value below `seq_len` when the
    /// sample is longer than a row, and zero otherwise.  The sample counter
    /// grows by one and the token counter by the full token count of the
    /// sample, saturating.
    pub fn push_sample(&mut self, sample: &[u8]) -> (produced: bool)
        requires
            old(self).wf(),
            old(self).stats_spec().sample_count < usize::MAX,
        ensures
            final (self).wf(),
            final (self).patterns_view() == old(self).patterns_view(),
            final (self).batch_size_spec() == old(self).batch_size_spec(),
            final (self).seq_len_spec() == old(self).seq_len_spec(),
            final (self).bucket_count_spec() == old(self).bucket_count_spec(),
            final (self).stats_spec().batch_count == old(self).stats_spec().batch_count,
            produced == (match_tokens(old(self).patterns_view(), sample@).len() > 0),
            !produced ==> *final (self) == *old(self),
            produced ==> final (self).free_buffers_view() == (if old(
                self,
            ).free_buffers_view().len() > 0 {
                old(self).free_buffers_view().drop_last()
            } else {
                old(self).free_buffers_view()
            }),
            produced ==> ({
                let toks = match_tokens(old(self).patterns_view(), sample@);
                &&& final (self).stats_spec().sample_count == old(self).stats_spec().sample_count
                    + 1
                &&& final (self).stats_spec().token_count == (if old(self).stats_spec().token_count
                    + toks.len() <= usize::MAX {
                    old(self).stats_spec().token_count + toks.len()
                } else {
                    usize::MAX as int
                })
                &&& final (self).buckets_view().len() == old(self).buckets_view().len() + 1
                &&& final (self).buckets_view().take(old(self).buckets_view().len() as int)
                    == old(self).buckets_view()
                &&& ({
                    let b = final (self).buckets_view().last();
                    &&& b.sample == old(self).stats_spec().sample_count
                    &&& (toks.len() > old(self).seq_len_spec() ==> (b.start_index as int)
                        < old(self).seq_len_spec())
                    &&& (toks.len() <= old(self).seq_len_spec() ==> b.start_index == 0)
                    &&& b.tokens@ == toks.skip(b.start_index as int)
                })
            }),
    {
        let toks = self.matcher.tokenize(sample);
        if toks.len() == 0 {
            return false;
        }
        let ghost fb0 = self.empty_buffers.deep_view();
        let mut buffer: Vec<usize> = match self.empty_buffers.pop() {
            Some(b) => b,
            None => Vec::new(),
        };
        proof {
            if fb0.len() > 0 {
                assert(self.empty_buffers.deep_view() =~= fb0.drop_last());
            } else {
                assert(self.empty_buffers.deep_view() =~= fb0);
            }
        }
        assert(buffer@.len() == 0);
        let offset: usize = if toks.len() > self.seq_len {
            rng_below(&mut self.rng, self.seq_len)
        } else {
            0
        };
        let mut i: usize = offset;
        while i < toks.len()
            invariant
                offset <= i <= toks@.len(),
                buffer@ == toks@.subrange(offset as int, i as int),
            decreases toks@.len() - i,
        {
            let t = toks[i];
            buffer.push(t);
            proof {
                assert(buffer@ =~= toks@.subrange(offset as int, i + 1));
            }
            i += 1;
        }
        proof {
            assert(buffer@ =~= toks@.skip(offset as int));
        }
        let bucket = Bucket { sample: self.stats.sample_count, start_index: offset, tokens: buffer };
        self.buckets.push(bucket);
        self.stats.sample_count = self.stats.sample_count + 1;
        self.stats.token_count = if self.stats.token_count <= usize::MAX - toks.len() {
            self.stats.token_count + toks.len()
        } else {
            usize::MAX
        };
        proof {
            assert(self.buckets@.take(old(self).buckets@.len() as int) =~= old(self).buckets@);
        }
        true
    }

    /// Produces one batch, or nothing while fewer than `bucket_count`
    /// buckets are held.  Each row drains a full-length prefix (or all, for
    /// a short bucket) of one randomly chosen bucket into its leading cells
    /// and leaves `-1` behind it; a bucket left shorter than a row is
    /// evicted and its buffer, emptied, joins the free list.  After the
    /// call, every bucket that was drained either left the pool or still
    /// holds a full row, and every bucket still held was either untouched or
    /// holds a full row.  The random choices are kept as a ghost trace of
    /// bucket indices, and the whole effect of the call — row contents,
    /// recorded origins, start advances, evictions and recycled buffers —
    /// equals the fold of [`pop_row_spec`] over that trace.
    #[verifier::rlimit(100)]
    #[verifier::spinoff_prover]
    pub fn pop_batch(&mut self) -> (r: Option<Batch>)
        requires
            old(self).wf(),
            old(self).stats_spec().batch_count < usize::MAX,
        ensures
            final (self).wf(),
            final (self).patterns_view() == old(self).patterns_view(),
            final (self).batch_size_spec() == old(self).batch_size_spec(),
            final (self).seq_len_spec() == old(self).seq_len_spec(),
            final (self).bucket_count_spec() == old(self).bucket_count_spec(),
            r is None <==> old(self).buckets_view().len() < old(self).bucket_count_spec(),
            r is None ==> *final (self) == *old(self),
            r matches Some(batch) ==> ({
                &&& batch.batch_size == old(self).batch_size_spec()
                &&& batch.seq_len == old(self).seq_len_spec()
                &&& batch.tokens@.len() == old(self).batch_size_spec()
                &&& batch.samples@.len() == old(self).batch_size_spec()
                &&& batch.start_indices@.len() == old(self).batch_size_spec()
                &&& forall|row: int|
                    0 <= row < batch.tokens@.len() ==> row_ok(
                        (#[trigger] batch.tokens@[row])@,
                        old(self).seq_len_spec() as int,
                        old(self).patterns_view().len() as int,
                    )
                &&& final (self).stats_spec().batch_count == old(self).stats_spec().batch_count + 1
                &&& final (self).stats_spec().sample_count == old(self).stats_spec().sample_count
                &&& final (self).stats_spec().token_count == old(self).stats_spec().token_count
                &&& final (self).buckets_view().len() <= old(self).buckets_view().len()
                &&& forall|k: int|
                    0 <= k < final (self).buckets_view().len() ==> (#[trigger] final (self).buckets_view()[k]).tokens@.len()
                        >= old(self).seq_len_spec() || old(self).buckets_view().contains(
                        final (self).buckets_view()[k])
            }),
            r matches Some(batch) ==> forall|i: int|
                0 <= i < batch.samples@.len() ==> sample_among(
                    old(self).buckets_view(),
                    #[trigger] batch.samples@[i],
                ),
            r matches Some(batch) ==> ({
                let init = pop_state_of(
                    old(self).buckets_view(),
                    old(self).free_buffers_view(),
                    Seq::empty(),
                    Seq::empty(),
                    Seq::empty(),
                );
                let picks = final (self).last_picks_view();
                let fin = pop_rows_spec(init, picks, old(self).seq_len_spec() as int);
                &&& picks.len() == old(self).batch_size_spec()
                &&& picks_valid(init, picks, old(self).seq_len_spec() as int)
                &&& buckets_model(final (self).buckets_view()) == fin.buckets
                &&& final (self).free_buffers_view() == fin.free
                &&& batch.tokens.deep_view() == fin.rows
                &&& batch.samples@ == fin.samples
                &&& batch.start_indices@ == fin.starts
            }),
            r matches Some(batch) ==> final (self).free_buffers_view().len()
                == old(self).free_buffers_view().len() + (old(self).buckets_view().len()
                - final (self).buckets_view().len()),
            r matches Some(batch) ==> held_tokens(final (self).buckets_view()) + filled_cells(
                batch.tokens@,
            ) <= held_tokens(old(self).buckets_view()) <= held_tokens(
                final (self).buckets_view(),
            ) + filled_cells(batch.tokens@) + old(self).batch_size_spec() * (old(
                self,
            ).seq_len_spec() - 1),
    {
        if self.buckets.len() < self.bucket_count {
            return None;
        }
        let ghost orig = *self;
        let ghost init = pop_state_of(
            orig.buckets_view(),
            orig.free_buffers_view(),
            Seq::empty(),
            Seq::empty(),
            Seq::empty(),
        );
        let ghost mut picks: Seq<int> = Seq::empty();
        proof {
            assert forall|x: int| 0 <= x < self.buckets@.len() implies sample_among(
                orig.buckets_view(),
                (#[trigger] self.buckets@[x]).sample,
            ) by {
                lemma_sample_among(orig.buckets_view(), x);
            }
        }
        let batch_size = self.batch_size;
        let seq_len = self.seq_len;
        let mut rows: Vec<Vec<i32>> = Vec::new();
        let mut samples: Vec<usize> = Vec::new();
        let mut starts: Vec<usize> = Vec::new();
        let ghost mut discarded: int = 0;
        proof {
            assert(pop_rows_spec(init, picks, seq_len as int) == init);
            assert(picks_valid(init, picks, seq_len as int));
            assert(rows.deep_view() =~= Seq::<Seq<i32>>::empty());
            assert(init == pop_state_of(
                self.buckets@,
                self.empty_buffers.deep_view(),
                rows.deep_view(),
                samples@,
                starts@,
            ));
        }
        let mut bi: usize = 0;
        while bi < batch_size
            invariant
                self.wf(),
                self.matcher.patterns_view() == orig.patterns_view(),
                self.batch_size == orig.batch_size_spec(),
                self.seq_len == orig.seq_len_spec(),
                self.bucket_count == orig.bucket_count_spec(),
                self.stats == orig.stats_spec(),
                batch_size == orig.batch_size_spec(),
                seq_len == orig.seq_len_spec(),
                bi <= batch_size,
                rows@.len() == bi,
                samples@.len() == bi,
                starts@.len() == bi,
                self.buckets@.len() + bi >= orig.buckets_view().len(),
                orig.buckets_view().len() >= orig.bucket_count_spec(),
                self.buckets@.len() <= orig.buckets_view().len(),
                forall|row: int|
                    0 <= row < bi ==> row_ok(
                        (#[trigger] rows@[row])@,
                        seq_len as int,
                        orig.patterns_view().len() as int,
                    ),
                forall|k: int|
                    0 <= k < self.buckets@.len() ==> (#[trigger] self.buckets@[k]).tokens@.len()
                        >= seq_len || orig.buckets_view().contains(self.buckets@[k]),
                0 <= discarded <= bi * (seq_len - 1),
                held_tokens(orig.buckets_view()) == held_tokens(self.buckets@) + filled_cells(
                    rows@,
                ) + discarded,
                self.empty_buffers@.len() == orig.free_buffers_view().len() + (
                orig.buckets_view().len() - self.buckets@.len()),
                forall|x: int|
                    0 <= x < self.buckets@.len() ==> sample_among(
                        orig.buckets_view(),
                        (#[trigger] self.buckets@[x]).sample,
                    ),
                forall|i: int|
                    0 <= i < bi ==> sample_among(orig.buckets_view(), #[trigger] samples@[i]),
                init == pop_state_of(
                    orig.buckets_view(),
                    orig.free_buffers_view(),
                    Seq::empty(),
                    Seq::empty(),
                    Seq::empty(),
                ),
                picks.len() == bi,
                picks_valid(init, picks, seq_len as int),
                pop_rows_spec(init, picks, seq_len as int) == pop_state_of(
                    self.buckets@,
                    self.empty_buffers.deep_view(),
                    rows.deep_view(),
                    samples@,
                    starts@,
                ),
            decreases batch_size - bi,
        {
            assert(self.buckets@.len() >= 1);
            let k = rng_below(&mut self.rng, self.buckets.len());
            let ghost stA = pop_rows_spec(init, picks, seq_len as int);
            let ghost rowsA = rows.deep_view();
            let ghost samplesA = samples@;
            let ghost startsA = starts@;
            let ghost freeA = self.empty_buffers.deep_view();
            let ghost bs0 = self.buckets@;
            let mut bucket = self.buckets.swap_remove(k);
            let ghost len_k = bucket.tokens@.len() as int;
            let ghost toks0 = bucket.tokens@;
            let ghost start0 = bucket.start_index;
            let ghost sample0 = bucket.sample;
            proof {
                lemma_held_swap_remove(bs0, k as int);
                assert(held_tokens(self.buckets@) == held_tokens(bs0) - len_k);
                assert(sample_among(orig.buckets_view(), bucket.sample));
                assert forall|x: int| 0 <= x < self.buckets@.len() implies sample_among(
                    orig.buckets_view(),
                    (#[trigger] self.buckets@[x]).sample,
                ) by {
                    if x == k {
                        assert(self.buckets@[x] == bs0.last());
                    } else {
                        assert(self.buckets@[x] == bs0[x]);
                    }
                }
                assert(bucket_wf(bucket, self.matcher.patterns_view().len() as int));
                assert forall|x: int| 0 <= x < self.buckets@.len() implies bucket_wf(
                    #[trigger] self.buckets@[x],
                    self.matcher.patterns_view().len() as int,
                ) && (self.buckets@[x].tokens@.len() >= seq_len
                    || orig.buckets_view().contains(self.buckets@[x])) by {
                    if x == k {
                        assert(self.buckets@[x] == bs0.last());
                    } else {
                        assert(self.buckets@[x] == bs0[x]);
                    }
                }
            }
            samples.push(bucket.sample);
            starts.push(bucket.start_index);
            let w: usize = if seq_len < bucket.tokens.len() {
                seq_len
            } else {
                bucket.tokens.len()
            };
            let mut row: Vec<i32> = Vec::new();
            let mut j: usize = 0;
            while j < w
                invariant
                    j <= w,
                    w <= bucket.tokens@.len(),
                    bucket.tokens@ == toks0,
                    row@.len() == j,
                    forall|x: int| 0 <= x < bucket.tokens@.len() ==> (
                    #[trigger] bucket.tokens@[x] as int) < orig.patterns_view().len(),
                    orig.patterns_view().len() <= i32::MAX,
                    forall|x: int| 0 <= x < j ==> 0 <= (#[trigger] row@[x] as int)
                        < orig.patterns_view().len(),
                    forall|x: int| 0 <= x < j ==> #[trigger] row@[x] == toks0[x] as i32,
                decreases w - j,
            {
                let t = bucket.tokens[j];
                assert((t as int) < orig.patterns_view().len());
                row.push(t as i32);
                j += 1;
            }
            while row.len() < seq_len
                invariant
                    w <= row@.len() <= seq_len,
                    w <= toks0.len(),
                    forall|x: int| 0 <= x < w ==> 0 <= (#[trigger] row@[x] as int)
                        < orig.patterns_view().len(),
                    forall|x: int| 0 <= x < w ==> #[trigger] row@[x] == toks0[x] as i32,
                    forall|x: int| w <= x < row@.len() ==> (#[trigger] row@[x] as int) == -1,
                decreases seq_len - row@.len(),
            {
                row.push(-1i32);
            }
            proof {
                assert(row_filled(row@, seq_len as int, orig.patterns_view().len() as int, w as int));
                assert(row_ok(row@, seq_len as int, orig.patterns_view().len() as int));
                assert forall|x: int| 0 <= x < w implies (#[trigger] row@[x] as int) != -1 by {
                    assert(0 <= row@[x] as int);
                }
                lemma_filled_row_count(row@, w as int);
                assert(filled_in_row(row@) == w as int);
                lemma_filled_push(rows@, row);
            }
            let ghost rows0 = rows@;
            let ghost row0 = row@;
            rows.push(row);
            proof {
                assert(filled_cells(rows@) == filled_cells(rows0) + filled_in_row(row0));
                assert forall|x: int| 0 <= x < rows.deep_view().len() implies
                    #[trigger] rows.deep_view()[x] == rowsA.push(row0)[x] by {
                    if x < rowsA.len() {
                        assert(rows@[x] == rows0[x]);
                        assert(rows0[x]@ == rowsA[x]);
                    } else {
                        assert(rows@[x]@ == row0);
                    }
                }
                assert(rows.deep_view() =~= rowsA.push(row0));
            }
            let len = bucket.tokens.len();
            let mut j2: usize = w;
            while j2 < len
                invariant
                    w <= j2 <= len,
                    len == bucket.tokens@.len(),
                    len == toks0.len(),
                    sample_among(orig.buckets_view(), bucket.sample),
                    bucket.sample == sample0,
                    bucket.start_index == start0,
                    start0 + toks0.len() <= usize::MAX,
                    forall|x: int| j2 <= x < len ==> bucket.tokens@[x] == toks0[x],
                    forall|x: int| 0 <= x < j2 - w ==> bucket.tokens@[x] == toks0[x + w],
                    forall|x: int| 0 <= x < toks0.len() ==> (#[trigger] toks0[x] as int)
                        < orig.patterns_view().len(),
                decreases len - j2,
            {
                let v = bucket.tokens[j2];
                bucket.tokens.set(j2 - w, v);
                j2 += 1;
            }
            bucket.tokens.truncate(len - w);
            proof {
                assert(bucket.tokens@.len() == len - w);
                assert forall|x: int| 0 <= x < bucket.tokens@.len() implies (
                #[trigger] bucket.tokens@[x] as int) < orig.patterns_view().len() by {
                    assert(bucket.tokens@[x] == toks0[x + w]);
                }
                assert(bucket.tokens@ =~= toks0.skip(w as int));
            }
            assert(bucket.start_index + w <= usize::MAX);
            bucket.start_index = bucket.start_index + w;
            proof {
                assert(stA == pop_state_of(bs0, freeA, rowsA, samplesA, startsA));
                assert(stA.buckets[k as int] == (BucketModel {
                    sample: sample0,
                    start: start0,
                    tokens: toks0,
                }));
                assert(stA.buckets.last() == (BucketModel {
                    sample: bs0.last().sample,
                    start: bs0.last().start_index,
                    tokens: bs0.last().tokens@,
                }));
                assert(samples@ =~= samplesA.push(sample0));
                assert(starts@ =~= startsA.push(start0));
                assert(row0 =~= Seq::new(
                    seq_len as nat,
                    |j: int|
                        if j < (w as int) {
                            toks0[j] as i32
                        } else {
                            -1i32
                        },
                ));
            }
            if bucket.tokens.len() >= seq_len {
                proof {
                    assert(bucket_wf(bucket, self.matcher.patterns_view().len() as int));
                }
                let ghost bs1 = self.buckets@;
                let ghost kept = bucket.tokens@.len() as int;
                self.buckets.push(bucket);
                proof {
                    lemma_held_push(bs1, self.buckets@.last());
                    assert(held_tokens(self.buckets@) == held_tokens(bs1) + kept);
                    assert(kept == len_k - w);
                    assert forall|x: int| 0 <= x < self.buckets@.len() implies bucket_wf(
                        #[trigger] self.buckets@[x],
                        self.matcher.patterns_view().len() as int,
                    ) && (self.buckets@[x].tokens@.len() >= seq_len
                        || orig.buckets_view().contains(self.buckets@[x])) by {
                        if x < bs1.len() {
                            assert(self.buckets@[x] == bs1[x]);
                        } else {
                            assert(self.buckets@[x] == bucket);
                        }
                    }
                    assert forall|x: int| 0 <= x < self.buckets@.len() implies sample_among(
                        orig.buckets_view(),
                        (#[trigger] self.buckets@[x]).sample,
                    ) by {
                        if x < bs1.len() {
                            assert(self.buckets@[x] == bs1[x]);
                        } else {
                            assert(self.buckets@[x] == bucket);
                        }
                    }
                    assert forall|x: int| 0 <= x < self.buckets@.len() implies
                        #[trigger] buckets_model(self.buckets@)[x] == pop_row_spec(
                        stA,
                        k as int,
                        seq_len as int,
                    ).buckets[x] by {
                        if x < bs1.len() {
                            assert(self.buckets@[x] == bs1[x]);
                            if x == k {
                                assert(bs1[x] == bs0.last());
                            } else {
                                assert(bs1[x] == bs0[x]);
                                assert(buckets_model(bs0)[x] == (BucketModel {
                                    sample: bs0[x].sample,
                                    start: bs0[x].start_index,
                                    tokens: bs0[x].tokens@,
                                }));
                            }
                        } else {
                            assert(self.buckets@[x] == bucket);
                        }
                    }
                    assert(buckets_model(self.buckets@) =~= pop_row_spec(
                        stA,
                        k as int,
                        seq_len as int,
                    ).buckets);
                    assert(self.empty_buffers.deep_view() =~= pop_row_spec(
                        stA,
                        k as int,
                        seq_len as int,
                    ).free);
                    assert(discarded <= (bi + 1) * (seq_len - 1)) by (nonlinear_arith)
                        requires
                            discarded <= bi * (seq_len - 1),
                            bi >= 0,
                            seq_len >= 1,
                    ;
                }
            } else {
                proof {
                    assert(len_k - w < seq_len as int);
                    assert(w as int <= len_k);
                    discarded = discarded + (len_k - w as int);
                    assert(discarded <= (bi + 1) * (seq_len - 1)) by (nonlinear_arith)
                        requires
                            discarded - (len_k - w as int) <= bi * (seq_len - 1),
                            len_k - w as int <= seq_len - 1,
                            bi >= 0,
                            seq_len >= 1,
                    ;
                }
                let ghost kept_e = bucket.tokens@.len() as int;
                bucket.tokens.clear();
                let ghost fb0 = self.empty_buffers@;
                self.empty_buffers.push(bucket.tokens);
                proof {
                    assert forall|x: int| 0 <= x < self.empty_buffers@.len() implies (
                    #[trigger] self.empty_buffers@[x])@.len() == 0 by {
                        if x < fb0.len() {
                            assert(self.empty_buffers@[x] == fb0[x]);
                        }
                    }
                    assert(kept_e < seq_len as int);
                    assert forall|x: int| 0 <= x < self.buckets@.len() implies
                        #[trigger] buckets_model(self.buckets@)[x] == pop_row_spec(
                        stA,
                        k as int,
                        seq_len as int,
                    ).buckets[x] by {
                        if x == k {
                            assert(self.buckets@[x] == bs0.last());
                        } else {
                            assert(self.buckets@[x] == bs0[x]);
                            assert(buckets_model(bs0)[x] == (BucketModel {
                                sample: bs0[x].sample,
                                start: bs0[x].start_index,
                                tokens: bs0[x].tokens@,
                            }));
                        }
                    }
                    assert(buckets_model(self.buckets@) =~= pop_row_spec(
                        stA,
                        k as int,
                        seq_len as int,
                    ).buckets);
                    assert forall|x: int| 0 <= x < self.empty_buffers.deep_view().len() implies
                        #[trigger] self.empty_buffers.deep_view()[x] == freeA.push(
                        Seq::<usize>::empty(),
                    )[x] by {
                        if x < fb0.len() {
                            assert(self.empty_buffers@[x] == fb0[x]);
                            assert(fb0[x]@ == freeA[x]);
                        } else {
                            assert(self.empty_buffers@[x]@ =~= Seq::<usize>::empty());
                        }
                    }
                    assert(self.empty_buffers.deep_view() =~= pop_row_spec(
                        stA,
                        k as int,
                        seq_len as int,
                    ).free);
                }
            }
            proof {
                let stB = pop_row_spec(stA, k as int, seq_len as int);
                assert(rows.deep_view() == stB.rows);
                assert(samples@ == stB.samples);
                assert(starts@ == stB.starts);
                assert(pop_state_of(
                    self.buckets@,
                    self.empty_buffers.deep_view(),
                    rows.deep_view(),
                    samples@,
                    starts@,
                ) == stB);
                lemma_pop_rows_snoc(init, picks, k as int, seq_len as int);
                picks = picks.push(k as int);
                assert(pop_rows_spec(init, picks, seq_len as int) == stB);
                assert(picks_valid(init, picks, seq_len as int));
            }
            bi += 1;
        }
        proof {
            self.last_picks@ = picks;
        }
        self.stats.batch_count = self.stats.batch_count + 1;
        let batch = Batch { tokens: rows, batch_size, seq_len, samples, start_indices: starts };
        proof {
            assert(old(self).buckets_view() == orig.buckets_view());
            assert(held_tokens(orig.buckets_view()) == held_tokens(self.buckets@) + filled_cells(
                batch.tokens@,
            ) + discarded);
            assert(0 <= discarded <= (batch_size as int) * ((seq_len as int) - 1));
        }
        Some(batch)
    }
}

} // verus!
