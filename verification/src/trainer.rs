//! Online byte-pair vocabulary induction.
//!
//! Starting from the forced single-byte alphabet, the trainer counts
//! adjacent-token bigrams over a tokenized sample stream and, whenever the
//! hottest bigram and the sample spacing cross their thresholds, runs one
//! merge epoch: the pair becomes a new token, a stale merged token may be
//! evicted, the matcher is rebuilt, and all counters decay.

use vstd::prelude::*;

use crate::matcher::{bytes_eq, match_tokens, pats_distinct, pats_wf, Matcher};
use crate::unicode::{byte_is_whitespace, byte_is_whitespace_spec};
use crate::ConfigError;

verus! {

/// How many forced single-byte tokens open every vocabulary.
pub const FORCED_TOKEN_COUNT: usize = 255;

/// The parameters of vocabulary training.  The decay factor and the drop
/// factor are rationals scaled by 1000.
#[derive(Clone, Copy, Debug)]
pub struct TrainerConfig {
    /// The vocabulary size at which training stops.
    pub max_tokens: usize,
    /// How many conditional evictions may happen in all.
    pub max_drops: usize,
    /// Scaled by 1000: a stale token is evicted while the vocabulary is full
    /// when its count times this factor stays below the hottest count.
    pub threshold_drop_factor_milli: u64,
    /// The bigram count a pair must reach before it is merged.
    pub threshold_count: u32,
    /// How many samples must pass between merges.
    pub threshold_samples: u32,
    /// Scaled by 1000: every counter is multiplied by this after a merge.
    pub count_decay_milli: u32,
}

/// The configuration is inside its documented ranges and the bigram matrix
/// fits in memory.
pub open spec fn config_wf(cfg: TrainerConfig) -> bool {
    &&& cfg.count_decay_milli < 1000
    &&& cfg.threshold_count < u32::MAX
    &&& cfg.threshold_drop_factor_milli <= u32::MAX
    &&& cfg.max_tokens > FORCED_TOKEN_COUNT
    &&& cfg.max_tokens * cfg.max_tokens <= usize::MAX
}

/// The first configuration fault, if any.
pub open spec fn trainer_precheck(cfg: TrainerConfig) -> Option<ConfigError> {
    if cfg.count_decay_milli >= 1000 {
        Some(ConfigError::DecayOutOfRange)
    } else if cfg.threshold_count == u32::MAX {
        Some(ConfigError::ThresholdCountTooLarge)
    } else if cfg.threshold_drop_factor_milli > u32::MAX {
        Some(ConfigError::DropFactorTooLarge)
    } else if cfg.max_tokens <= FORCED_TOKEN_COUNT {
        Some(ConfigError::VocabTooSmall)
    } else if cfg.max_tokens > usize::MAX / cfg.max_tokens {
        Some(ConfigError::VocabTooLarge)
    } else {
        None
    }
}

/// Saturating addition on 32-bit counters.
pub open spec fn sat_add_u32(a: u32, b: u32) -> u32 {
    if a + b > u32::MAX {
        u32::MAX
    } else {
        (a + b) as u32
    }
}

/// Saturating addition on 64-bit counters.
pub open spec fn sat_add_u64(a: u64, b: u64) -> u64 {
    if a + b > u64::MAX {
        u64::MAX
    } else {
        (a + b) as u64
    }
}

/// Saturating subtraction: clamped at zero.
pub open spec fn sat_sub_u32(a: u32, b: u32) -> u32 {
    if a >= b {
        (a - b) as u32
    } else {
        0
    }
}

/// Saturating addition on machine-word counters.
pub open spec fn sat_add_usize(a: usize, b: usize) -> usize {
    if a + b > usize::MAX {
        usize::MAX
    } else {
        (a + b) as usize
    }
}

/// The counting state threaded through one sample's token stream.
pub ghost struct IngestState {
    /// The flat bigram matrix.
    pub bigram: Seq<u32>,
    /// The per-token emission counters.
    pub unigram: Seq<u32>,
    /// The hottest bigram count seen since the last merge.
    pub top_count: u32,
    /// The pair holding that count.
    pub top_pair: Option<(usize, usize)>,
    /// The previously emitted token, if any.
    pub prev: Option<usize>,
    /// Tokens emitted since the last merge.
    pub tokens_since: u64,
}

/// One emitted token updates the counts: its unigram counter grows, and
/// when it follows a token of the same whitespace class, their bigram cell
/// grows and may become the new argmax.
pub open spec fn ingest_step(st: IngestState, ws: Seq<bool>, v: int, t: usize) -> IngestState {
    let unigram2 = st.unigram.update(t as int, sat_add_u32(st.unigram[t as int], 1));
    let ts2 = sat_add_u64(st.tokens_since, 1);
    match st.prev {
        Option::Some(p) => {
            if ws[p as int] == ws[t as int] {
                let idx = (p as int) * v + (t as int);
                let c = sat_add_u32(st.bigram[idx], 1);
                let bigram2 = st.bigram.update(idx, c);
                if c > st.top_count {
                    IngestState {
                        bigram: bigram2,
                        unigram: unigram2,
                        top_count: c,
                        top_pair: Some((p, t)),
                        prev: Some(t),
                        tokens_since: ts2,
                    }
                } else {
                    IngestState {
                        bigram: bigram2,
                        unigram: unigram2,
                        top_count: st.top_count,
                        top_pair: st.top_pair,
                        prev: Some(t),
                        tokens_since: ts2,
                    }
                }
            } else {
                IngestState {
                    bigram: st.bigram,
                    unigram: unigram2,
                    top_count: st.top_count,
                    top_pair: st.top_pair,
                    prev: Some(t),
                    tokens_since: ts2,
                }
            }
        },
        Option::None => IngestState {
            bigram: st.bigram,
            unigram: unigram2,
            top_count: st.top_count,
            top_pair: st.top_pair,
            prev: Some(t),
            tokens_since: ts2,
        },
    }
}

/// The counting state after a whole token stream.
pub open spec fn ingest_seq(st: IngestState, ws: Seq<bool>, v: int, toks: Seq<usize>) -> IngestState
    decreases toks.len(),
{
    if toks.len() == 0 {
        st
    } else {
        ingest_seq(ingest_step(st, ws, v, toks[0]), ws, v, toks.drop_first())
    }
}

/// The first least-used merged token in `[lo, hi)` of the counters `u`,
/// restricted to indices marked in `m`: the lowest count wins, and between
/// equal counts the lowest index.
pub open spec fn least_upto(u: Seq<u32>, m: Seq<bool>, lo: int, hi: int) -> Option<(int, u32)>
    decreases hi - lo,
{
    if hi <= lo {
        None
    } else {
        let rest = least_upto(u, m, lo, hi - 1);
        if m[hi - 1] {
            match rest {
                Option::Some(ic) => if u[hi - 1] < ic.1 {
                    Some((hi - 1, u[hi - 1]))
                } else {
                    Some(ic)
                },
                Option::None => Some((hi - 1, u[hi - 1])),
            }
        } else {
            rest
        }
    }
}

/// What `least_upto` returns really is a marked entry of the scanned range
/// holding its own counter value, and no marked entry below it is smaller,
/// nor equally small at a lower index.
pub proof fn lemma_least_upto(u: Seq<u32>, m: Seq<bool>, lo: int, hi: int)
    ensures
        match least_upto(u, m, lo, hi) {
            Option::Some(ic) => {
                &&& lo <= ic.0 < hi
                &&& m[ic.0]
                &&& u[ic.0] == ic.1
                &&& forall|j: int| lo <= j < hi && m[j] ==> ic.1 <= #[trigger] u[j]
                &&& forall|j: int| lo <= j < ic.0 && m[j] ==> ic.1 < #[trigger] u[j]
            },
            Option::None => forall|j: int| lo <= j < hi ==> !m[j],
        },
    decreases hi - lo,
{
    if hi > lo {
        lemma_least_upto(u, m, lo, hi - 1);
    }
}

/// A sequence after a swap-removal at `d`: the last element moves to `d`
/// and the length shrinks by one.
pub open spec fn swap_remove_seq<A>(s: Seq<A>, d: int) -> Seq<A> {
    s.update(d, s.last()).drop_last()
}

/// Law: in a duplicate-free vocabulary, the bytes of a swap-removed token
/// are no longer present afterwards.
pub proof fn lemma_swap_remove_removes(s: Seq<Seq<u8>>, d: int)
    requires
        pats_distinct(s),
        0 <= d < s.len(),
    ensures
        !swap_remove_seq(s, d).contains(s[d]),
{
    let s2 = swap_remove_seq(s, d);
    assert forall|i: int| 0 <= i < s2.len() implies s2[i] != s[d] by {
        if i == d {
            if d < s.len() - 1 {
                assert(s2[i] == s[s.len() - 1]);
            }
        } else {
            assert(s2[i] == s[i]);
        }
    }
    if s2.contains(s[d]) {
        let i = choose|i: int| 0 <= i < s2.len() && s2[i] == s[d];
        assert(false);
    }
}

/// Marks index `x` as having taken part in a merge, unless it is forced.
pub open spec fn mark_merged(m: Seq<bool>, x: int) -> Seq<bool> {
    if x >= FORCED_TOKEN_COUNT {
        m.update(x, true)
    } else {
        m
    }
}

/// A counter scaled by `decay / 1000`.
pub open spec fn scale_milli(c: u32, decay: u32) -> u32 {
    (((c as int) * (decay as int)) / 1000) as u32
}

/// The clip-and-decay of the live `n x n` corner of the flat bigram matrix:
/// each live cell is clipped at `tc` and scaled; scratch cells are left
/// alone.
pub open spec fn decay_bigram(bg: Seq<u32>, v: int, n: int, tc: u32, decay: u32) -> Seq<u32> {
    Seq::new(
        bg.len(),
        |idx: int|
            {
                let i = idx / v;
                let j = idx % v;
                if i < n && j < n {
                    scale_milli(if bg[idx] > tc {
                        tc
                    } else {
                        bg[idx]
                    }, decay)
                } else {
                    bg[idx]
                }
            },
    )
}

/// Every unigram counter scaled, without clipping.
pub open spec fn decay_unigram(u: Seq<u32>, decay: u32) -> Seq<u32> {
    u.map(|i: int, c: u32| scale_milli(c, decay))
}

/// `x` with `d` and `e` exchanged.
pub open spec fn swap_idx(x: int, d: int, e: int) -> int {
    if x == d {
        e
    } else if x == e {
        d
    } else {
        x
    }
}

/// The flat bigram matrix with row `d` and row `e`, and column `d` and
/// column `e`, exchanged inside the live `n x n` corner.
pub open spec fn swap_rc(bg: Seq<u32>, v: int, n: int, d: int, e: int) -> Seq<u32> {
    Seq::new(
        bg.len(),
        |idx: int|
            {
                let i = idx / v;
                let j = idx % v;
                if i < n && j < n {
                    bg[swap_idx(i, d, e) * v + swap_idx(j, d, e)]
                } else {
                    bg[idx]
                }
            },
    )
}

/// Entry `h` of a creation history is the concatenation of two earlier
/// entries.
pub open spec fn concat_of_earlier(hist: Seq<Seq<u8>>, h: int) -> bool {
    exists|x: int, y: int| 0 <= x < h && 0 <= y < h && hist[h] == hist[x] + hist[y]
}

/// A vocabulary holds the given bytes already.
pub open spec fn tokens_contain(tokens: Seq<Seq<u8>>, bytes: Seq<u8>) -> bool {
    exists|i: int| 0 <= i < tokens.len() && tokens[i] == bytes
}

/// Row `a`, column `b` of a flat `v x v` matrix decompose back out of the
/// flat index.
pub proof fn lemma_flat_index(v: int, a: int, b: int)
    requires
        0 <= a < v,
        0 <= b < v,
    ensures
        (a * v + b) / v == a,
        (a * v + b) % v == b,
        0 <= a * v + b < v * v,
{
    assert(0 <= a * v + b && a * v + b < v * v && a * v + b == a * v + b) by (nonlinear_arith)
        requires
            0 <= a < v,
            0 <= b < v,
    ;
    vstd::arithmetic::div_mod::lemma_fundamental_div_mod_converse(a * v + b, v, a, b);
}

/// A flat index of a `v x v` matrix decomposes into a row and a column.
pub proof fn lemma_flat_decomp(v: int, idx: int)
    requires
        v >= 1,
        0 <= idx < v * v,
    ensures
        0 <= idx / v < v,
        0 <= idx % v < v,
        idx == (idx / v) * v + idx % v,
{
    vstd::arithmetic::div_mod::lemma_fundamental_div_mod(idx, v);
    assert(v * (idx / v) == (idx / v) * v) by (nonlinear_arith);
    assert(idx / v < v) by (nonlinear_arith)
        requires
            v >= 1,
            0 <= idx < v * v,
            idx == v * (idx / v) + idx % v,
            0 <= idx % v < v,
    ;
    assert(idx / v >= 0) by (nonlinear_arith)
        requires
            v >= 1,
            idx >= 0,
            idx == v * (idx / v) + idx % v,
            0 <= idx % v < v,
    ;
}

/// The flat matrix with rows `d` and `e` exchanged over the live columns.
pub open spec fn swap_rows(bg: Seq<u32>, v: int, n: int, d: int, e: int) -> Seq<u32> {
    Seq::new(
        bg.len(),
        |idx: int|
            {
                let i = idx / v;
                let j = idx % v;
                if j < n && (i == d || i == e) {
                    bg[swap_idx(i, d, e) * v + j]
                } else {
                    bg[idx]
                }
            },
    )
}

/// The flat matrix with columns `d` and `e` exchanged over the live rows.
pub open spec fn swap_cols(bg: Seq<u32>, v: int, n: int, d: int, e: int) -> Seq<u32> {
    Seq::new(
        bg.len(),
        |idx: int|
            {
                let i = idx / v;
                let j = idx % v;
                if i < n && (j == d || j == e) {
                    bg[i * v + swap_idx(j, d, e)]
                } else {
                    bg[idx]
                }
            },
    )
}

/// The whole mutable state of a trainer, as mathematical values.
pub ghost struct TrainerModel {
    /// The vocabulary.
    pub tokens: Seq<Seq<u8>>,
    /// Each token's cached whitespace class.
    pub ws: Seq<bool>,
    /// The flat `max_tokens x max_tokens` bigram matrix.
    pub bigram: Seq<u32>,
    /// The per-token emission counters.
    pub unigram: Seq<u32>,
    /// Which tokens have taken part in a merge.
    pub merged: Seq<bool>,
    /// Tokens emitted since the last merge.
    pub tokens_since: u64,
    /// Samples consumed since the last merge.
    pub samples_since: u32,
    /// How many evictions have happened.
    pub drops: usize,
    /// The hottest bigram count since the last merge.
    pub top_count: u32,
    /// The pair holding that count.
    pub top_pair: Option<(usize, usize)>,
    /// Every evicted token with its count at eviction, in order.
    pub dropped: Seq<(Seq<u8>, u32)>,
}

/// The model after one sample's tokens have been counted.
pub open spec fn ingested_spec(cfg: TrainerConfig, m: TrainerModel, text: Seq<u8>) -> TrainerModel {
    let toks = match_tokens(m.tokens, text);
    let st0 = IngestState {
        bigram: m.bigram,
        unigram: m.unigram,
        top_count: m.top_count,
        top_pair: m.top_pair,
        prev: None,
        tokens_since: m.tokens_since,
    };
    let st = ingest_seq(st0, m.ws, cfg.max_tokens as int, toks);
    TrainerModel {
        tokens: m.tokens,
        ws: m.ws,
        bigram: st.bigram,
        unigram: st.unigram,
        merged: m.merged,
        tokens_since: st.tokens_since,
        samples_since: sat_add_u32(m.samples_since, 1),
        drops: m.drops,
        top_count: st.top_count,
        top_pair: st.top_pair,
        dropped: m.dropped,
    }
}

/// A merge epoch is due: the hottest pair crossed the count threshold,
/// enough samples have passed, and a pair exists at all.
pub open spec fn epoch_fires(cfg: TrainerConfig, m: TrainerModel) -> bool {
    &&& m.top_count >= cfg.threshold_count
    &&& m.samples_since >= cfg.threshold_samples
    &&& m.top_pair is Some
}

/// One merge epoch.  The hottest pair's concatenation becomes a new token
/// (unless those bytes exist already, in which case only the cell and the
/// epoch counters reset, keeping the vocabulary duplicate-free); the least
/// used merged token may be evicted by swap-removal, with the bigram matrix
/// rows and columns swapped alike; and all counters are clipped and decayed.
pub open spec fn epoch_spec(cfg: TrainerConfig, m: TrainerModel) -> TrainerModel {
    let v = cfg.max_tokens as int;
    let pair = m.top_pair->0;
    let a = pair.0 as int;
    let b = pair.1 as int;
    let new_bytes = m.tokens[a] + m.tokens[b];
    if tokens_contain(m.tokens, new_bytes) {
        TrainerModel {
            tokens: m.tokens,
            ws: m.ws,
            bigram: m.bigram.update(a * v + b, 0u32),
            unigram: m.unigram,
            merged: m.merged,
            tokens_since: 0u64,
            samples_since: 0u32,
            drops: m.drops,
            top_count: 0u32,
            top_pair: None,
            dropped: m.dropped,
        }
    } else {
        let tokens1 = m.tokens.push(new_bytes);
        let ws1 = m.ws.push(m.ws[a]);
        let merged1 = mark_merged(mark_merged(m.merged, a), b).push(false);
        let u1 = m.unigram.update(a, sat_sub_u32(m.unigram[a], m.top_count));
        let u2 = u1.update(b, sat_sub_u32(u1[b], m.top_count));
        let u3 = u2.push(m.top_count);
        let bg1 = m.bigram.update(a * v + b, 0u32);
        let scan = least_upto(u3, merged1, FORCED_TOKEN_COUNT as int, tokens1.len() - 1);
        let do_drop = match scan {
            Option::Some(ic) => ic.1 == 0 || (tokens1.len() == cfg.max_tokens && m.drops
                < cfg.max_drops && (ic.1 as int) * (cfg.threshold_drop_factor_milli as int) / 1000
                < m.top_count),
            Option::None => false,
        };
        if do_drop {
            let d = (scan->0).0;
            let c = (scan->0).1;
            let e = tokens1.len() - 1;
            let tokens2 = swap_remove_seq(tokens1, d);
            let n2 = tokens2.len();
            TrainerModel {
                tokens: tokens2,
                ws: swap_remove_seq(ws1, d),
                bigram: decay_bigram(
                    swap_rc(bg1, v, tokens1.len() as int, d, e),
                    v,
                    n2 as int,
                    cfg.threshold_count,
                    cfg.count_decay_milli,
                ),
                unigram: decay_unigram(swap_remove_seq(u3, d), cfg.count_decay_milli),
                merged: swap_remove_seq(merged1, d),
                tokens_since: 0u64,
                samples_since: 0u32,
                drops: sat_add_usize(m.drops, 1),
                top_count: 0u32,
                top_pair: None,
                dropped: m.dropped.push((tokens1[d], c)),
            }
        } else {
            TrainerModel {
                tokens: tokens1,
                ws: ws1,
                bigram: decay_bigram(
                    bg1,
                    v,
                    tokens1.len() as int,
                    cfg.threshold_count,
                    cfg.count_decay_milli,
                ),
                unigram: decay_unigram(u3, cfg.count_decay_milli),
                merged: merged1,
                tokens_since: 0u64,
                samples_since: 0u32,
                drops: m.drops,
                top_count: 0u32,
                top_pair: None,
                dropped: m.dropped,
            }
        }
    }
}

/// Law: when a merge epoch evicts a token, the evicted bytes — the last
/// entry of the drop record — are no longer present in the resulting
/// vocabulary.  (A later epoch may re-create the same bytes by merging the
/// same pair again; the record is not retroactively erased then.)
pub proof fn lemma_dropped_token_absent(cfg: TrainerConfig, m: TrainerModel)
    requires
        pats_distinct(m.tokens),
        m.top_pair is Some,
        0 <= ((m.top_pair->0).0 as int) < m.tokens.len(),
        0 <= ((m.top_pair->0).1 as int) < m.tokens.len(),
        epoch_spec(cfg, m).dropped.len() > m.dropped.len(),
    ensures
        !tokens_contain(epoch_spec(cfg, m).tokens, epoch_spec(cfg, m).dropped.last().0),
{
    let pair = m.top_pair->0;
    let a = pair.0 as int;
    let b = pair.1 as int;
    let new_bytes = m.tokens[a] + m.tokens[b];
    assert(!tokens_contain(m.tokens, new_bytes));
    let tokens1 = m.tokens.push(new_bytes);
    assert forall|p: int, q: int| 0 <= p < q < tokens1.len() implies tokens1[p] != tokens1[q] by {
        if q == tokens1.len() - 1 {
            assert(tokens1[q] == new_bytes);
            assert(tokens1[p] == m.tokens[p]);
        }
    }
    assert(pats_distinct(tokens1));
    let v = cfg.max_tokens as int;
    let merged1 = mark_merged(mark_merged(m.merged, a), b).push(false);
    let u1 = m.unigram.update(a, sat_sub_u32(m.unigram[a], m.top_count));
    let u2 = u1.update(b, sat_sub_u32(u1[b], m.top_count));
    let u3 = u2.push(m.top_count);
    let scan = least_upto(u3, merged1, FORCED_TOKEN_COUNT as int, tokens1.len() - 1);
    assert(scan is Some);
    let d = (scan->0).0;
    lemma_least_upto(u3, merged1, FORCED_TOKEN_COUNT as int, tokens1.len() - 1);
    assert(0 <= d < tokens1.len());
    lemma_swap_remove_removes(tokens1, d);
    assert(epoch_spec(cfg, m).tokens == swap_remove_seq(tokens1, d));
    assert(epoch_spec(cfg, m).dropped.last().0 == tokens1[d]);
    assert forall|i: int|
        0 <= i < epoch_spec(cfg, m).tokens.len() implies epoch_spec(cfg, m).tokens[i]
        != epoch_spec(cfg, m).dropped.last().0 by {
        assert(!swap_remove_seq(tokens1, d).contains(tokens1[d]));
        if swap_remove_seq(tokens1, d)[i] == tokens1[d] {
            assert(swap_remove_seq(tokens1, d).contains(tokens1[d]));
        }
    }
}

/// What one sample does to the trainer: its tokens are counted, and a merge
/// epoch runs when it is due.
pub open spec fn train_step_spec(cfg: TrainerConfig, m: TrainerModel, text: Seq<u8>)
    -> TrainerModel {
    let m1 = ingested_spec(cfg, m, text);
    if epoch_fires(cfg, m1) {
        epoch_spec(cfg, m1)
    } else {
        m1
    }
}

/// Whether the merge epoch due on `m` can complete: either the hottest
/// pair's concatenation exists already (nothing is rebuilt), or the
/// automaton builder accepts the epoch's resulting vocabulary.
pub open spec fn epoch_rebuild_ok(cfg: TrainerConfig, m: TrainerModel) -> bool {
    let pair = m.top_pair->0;
    let new_bytes = m.tokens[pair.0 as int] + m.tokens[pair.1 as int];
    tokens_contain(m.tokens, new_bytes) || crate::matcher::ac_build_ok(epoch_spec(cfg, m).tokens)
}

/// The state of a fresh trainer: the forced single-byte alphabet and all
/// counters at zero.
pub open spec fn initial_model(cfg: TrainerConfig) -> TrainerModel {
    TrainerModel {
        tokens: Seq::new(FORCED_TOKEN_COUNT as nat, |i: int| seq![(i as u8)]),
        ws: Seq::new(FORCED_TOKEN_COUNT as nat, |i: int| byte_is_whitespace_spec(i as u8)),
        bigram: Seq::new((cfg.max_tokens * cfg.max_tokens) as nat, |i: int| 0u32),
        unigram: Seq::new(FORCED_TOKEN_COUNT as nat, |i: int| 0u32),
        merged: Seq::new(FORCED_TOKEN_COUNT as nat, |i: int| false),
        tokens_since: 0u64,
        samples_since: 0u32,
        drops: 0usize,
        top_count: 0u32,
        top_pair: None,
        dropped: Seq::empty(),
    }
}

/// Grows a byte-pair vocabulary over a stream of samples.
pub struct Trainer {
    config: TrainerConfig,
    matcher: Matcher,
    is_whitespace: Vec<bool>,
    bigram: Vec<u32>,
    unigram: Vec<u32>,
    has_been_merged: Vec<bool>,
    tokens_since_add: u64,
    samples_since_add: u32,
    drops_applied: usize,
    top_count: u32,
    top_pair: Option<(usize, usize)>,
    dropped_tokens: Vec<(Vec<u8>, u32)>,
    history: Ghost<Seq<Seq<u8>>>,
}

impl Trainer {
    /// The current vocabulary.
    pub closed spec fn tokens_view(&self) -> Seq<Seq<u8>> {
        self.matcher.patterns_view()
    }

    /// The configuration the trainer was built with.
    pub closed spec fn config_spec(&self) -> TrainerConfig {
        self.config
    }

    /// Every byte string that has ever been a token, in creation order; the
    /// forced alphabet opens it and nothing is ever removed from it.
    pub closed spec fn history_view(&self) -> Seq<Seq<u8>> {
        self.history@
    }

    /// Every evicted token with its count at eviction.
    pub closed spec fn dropped_view(&self) -> Seq<(Seq<u8>, u32)> {
        Seq::new(
            self.dropped_tokens@.len(),
            |i: int| (self.dropped_tokens@[i].0@, self.dropped_tokens@[i].1),
        )
    }

    /// The trainer's whole mutable state as mathematical values.
    pub closed spec fn model(&self) -> TrainerModel {
        TrainerModel {
            tokens: self.matcher.patterns_view(),
            ws: self.is_whitespace@,
            bigram: self.bigram@,
            unigram: self.unigram@,
            merged: self.has_been_merged@,
            tokens_since: self.tokens_since_add,
            samples_since: self.samples_since_add,
            drops: self.drops_applied,
            top_count: self.top_count,
            top_pair: self.top_pair,
            dropped: self.dropped_view(),
        }
    }

    /// The trainer invariant: the configuration is sane; the matcher holds
    /// the vocabulary, which opens with the forced alphabet in byte order,
    /// holds no duplicate and no empty token, and caches each token's
    /// whitespace class; the counter vectors match the vocabulary length;
    /// forced tokens are never marked merged; the hottest pair, when set,
    /// is in range with matching whitespace classes; and the creation
    /// history explains every token.
    pub closed spec fn wf(&self) -> bool {
        let toks = self.matcher.patterns_view();
        let v = self.config.max_tokens as int;
        &&& config_wf(self.config)
        &&& self.matcher.wf()
        &&& FORCED_TOKEN_COUNT <= toks.len() <= self.config.max_tokens
        &&& self.is_whitespace@.len() == toks.len()
        &&& self.unigram@.len() == toks.len()
        &&& self.has_been_merged@.len() == toks.len()
        &&& self.bigram@.len() == v * v
        &&& forall|i: int|
            0 <= i < FORCED_TOKEN_COUNT ==> #[trigger] toks[i] == seq![(i as u8)]
        &&& forall|i: int|
            FORCED_TOKEN_COUNT <= i < toks.len() ==> (#[trigger] toks[i]).len() >= 2
        &&& forall|i: int|
            0 <= i < toks.len() ==> #[trigger] self.is_whitespace@[i] == byte_is_whitespace_spec(
                toks[i][0],
            )
        &&& forall|i: int| 0 <= i < FORCED_TOKEN_COUNT ==> !(#[trigger] self.has_been_merged@[i])
        &&& (self.top_pair matches Some(p) ==> (p.0 as int) < toks.len() && (p.1 as int)
            < toks.len() && self.is_whitespace@[p.0 as int] == self.is_whitespace@[p.1 as int])
        &&& (self.top_count > 0 ==> self.top_pair is Some)
        &&& self.history@.len() >= FORCED_TOKEN_COUNT
        &&& forall|h: int|
            0 <= h < FORCED_TOKEN_COUNT ==> #[trigger] self.history@[h] == seq![(h as u8)]
        &&& forall|h: int|
            FORCED_TOKEN_COUNT <= h < self.history@.len() ==> #[trigger] concat_of_earlier(
                self.history@,
                h,
            )
        &&& forall|i: int|
            0 <= i < toks.len() ==> self.history@.contains(#[trigger] toks[i])
    }

    /// Law: the forced tokens occupy the first indices of the vocabulary,
    /// one per byte value in ascending byte order.
    pub proof fn lemma_forced_prefix(&self)
        requires
            self.wf(),
        ensures
            self.tokens_view().len() >= FORCED_TOKEN_COUNT,
            forall|i: int|
                0 <= i < FORCED_TOKEN_COUNT ==> #[trigger] self.tokens_view()[i] == seq![
                    (i as u8),
                ],
    {
    }

    /// Law: the vocabulary always holds at least the forced alphabet and
    /// never exceeds its bound, so a trainer that reports itself done holds
    /// exactly `max_tokens` tokens.
    pub proof fn lemma_vocab_bounded(&self)
        requires
            self.wf(),
        ensures
            FORCED_TOKEN_COUNT <= self.tokens_view().len() <= self.config_spec().max_tokens,
    {
    }

    /// Law: no two tokens of the vocabulary share byte content.
    pub proof fn lemma_tokens_distinct(&self)
        requires
            self.wf(),
        ensures
            pats_distinct(self.tokens_view()),
    {
        self.matcher.lemma_wf_patterns();
    }

    /// Law: the hottest pair always joins two tokens of one whitespace
    /// class; a merge across the whitespace boundary can never happen.
    pub proof fn lemma_top_pair_whitespace(&self)
        requires
            self.wf(),
        ensures
            self.model().top_pair matches Some(p) ==> self.model().ws[p.0 as int]
                == self.model().ws[p.1 as int],
    {
    }

    /// Law: every token ever created is explained by the creation history:
    /// the history opens with the forced alphabet, every later entry is the
    /// concatenation of two earlier entries, and every token of the current
    /// vocabulary appears in the history.
    pub proof fn lemma_merged_token_structure(&self)
        requires
            self.wf(),
        ensures
            forall|h: int|
                0 <= h < FORCED_TOKEN_COUNT ==> #[trigger] self.history_view()[h] == seq![
                    (h as u8),
                ],
            forall|h: int|
                FORCED_TOKEN_COUNT <= h < self.history_view().len() ==> #[trigger] concat_of_earlier(
                    self.history_view(),
                    h,
                ),
            forall|i: int|
                0 <= i < self.tokens_view().len() ==> self.history_view().contains(
                    #[trigger] self.tokens_view()[i],
                ),
    {
        assert(self.history_view() == self.history@);
    }

    /// A trainer over the forced alphabet.  Configuration faults are
    /// reported in a fixed order; on a sound configuration construction
    /// succeeds exactly when the automaton builder accepts the forced
    /// alphabet, and a refusal is reported as `MatcherBuild`.
    pub fn new(config: TrainerConfig) -> (r: Result<Trainer, ConfigError>)
        ensures
            ({
                match trainer_precheck(config) {
                    Some(e) => r matches Err(e2) && e2 == e,
                    None => if crate::matcher::ac_build_ok(initial_model(config).tokens) {
                        r is Ok
                    } else {
                        r matches Err(e2) && e2 == ConfigError::MatcherBuild
                    },
                }
            }),
            r matches Ok(t) ==> t.wf() && t.config_spec() == config && t.model() == initial_model(
                config,
            ),
    {
        if config.count_decay_milli >= 1000 {
            return Err(ConfigError::DecayOutOfRange);
        }
        if config.threshold_count == u32::MAX {
            return Err(ConfigError::ThresholdCountTooLarge);
        }
        if config.threshold_drop_factor_milli > (u32::MAX as u64) {
            return Err(ConfigError::DropFactorTooLarge);
        }
        if config.max_tokens <= FORCED_TOKEN_COUNT {
            return Err(ConfigError::VocabTooSmall);
        }
        if config.max_tokens > usize::MAX / config.max_tokens {
            return Err(ConfigError::VocabTooLarge);
        }
        let v = config.max_tokens;
        proof {
            vstd::arithmetic::div_mod::lemma_fundamental_div_mod(usize::MAX as int, v as int);
            assert(v * v <= usize::MAX) by (nonlinear_arith)
                requires
                    v >= 1,
                    v <= usize::MAX / v,
                    usize::MAX == (v * (usize::MAX / v)) + usize::MAX % v,
                    0 <= usize::MAX % v < v,
            ;
        }
        let mut forced: Vec<Vec<u8>> = Vec::new();
        let mut ws: Vec<bool> = Vec::new();
        let mut unigram: Vec<u32> = Vec::new();
        let mut merged: Vec<bool> = Vec::new();
        let mut i: usize = 0;
        while i < FORCED_TOKEN_COUNT
            invariant
                i <= FORCED_TOKEN_COUNT,
                forced@.len() == i,
                ws@.len() == i,
                unigram@.len() == i,
                merged@.len() == i,
                forall|j: int| 0 <= j < i ==> #[trigger] forced.deep_view()[j] == seq![(j as u8)],
                forall|j: int| 0 <= j < i ==> #[trigger] ws@[j] == byte_is_whitespace_spec(j as u8),
                forall|j: int| 0 <= j < i ==> #[trigger] unigram@[j] == 0u32,
                forall|j: int| 0 <= j < i ==> #[trigger] merged@[j] == false,
            decreases FORCED_TOKEN_COUNT - i,
        {
            let mut t: Vec<u8> = Vec::new();
            t.push(i as u8);
            assert(t@ =~= seq![(i as u8)]);
            let ghost fd0 = forced.deep_view();
            forced.push(t);
            proof {
                assert forall|j: int| 0 <= j < i + 1 implies #[trigger] forced.deep_view()[j]
                    == seq![(j as u8)] by {
                    if j < i {
                        assert(forced.deep_view()[j] == fd0[j]);
                    } else {
                        assert(forced.deep_view()[j] =~= seq![(j as u8)]);
                    }
                }
            }
            ws.push(byte_is_whitespace(i as u8));
            unigram.push(0);
            merged.push(false);
            i += 1;
        }
        let mut bigram: Vec<u32> = Vec::new();
        let n = v * v;
        let mut k: usize = 0;
        while k < n
            invariant
                k <= n,
                bigram@.len() == k,
                forall|j: int| 0 <= j < k ==> #[trigger] bigram@[j] == 0u32,
            decreases n - k,
        {
            bigram.push(0);
            k += 1;
        }
        proof {
            assert forall|p: int, q: int|
                0 <= p < q < forced.deep_view().len() implies forced.deep_view()[p]
                != forced.deep_view()[q] by {
                assert(forced.deep_view()[p] == seq![(p as u8)]);
                assert(forced.deep_view()[q] == seq![(q as u8)]);
                assert(forced.deep_view()[p][0] == p as u8);
                assert(forced.deep_view()[q][0] == q as u8);
            }
            assert(pats_distinct(forced.deep_view()));
            assert forall|p: int| 0 <= p < forced.deep_view().len() implies (
            #[trigger] forced.deep_view()[p]).len() >= 1 by {
                assert(forced.deep_view()[p] == seq![(p as u8)]);
            }
            assert(pats_wf(forced.deep_view()));
        }
        let ghost forced_dv = forced.deep_view();
        proof {
            assert(forced_dv =~= initial_model(config).tokens);
        }
        let matcher = match Matcher::new(forced) {
            Ok(m) => m,
            Err(e) => {
                proof {
                    assert(e == ConfigError::MatcherBuild);
                }
                return Err(e);
            },
        };
        let t = Trainer {
            config,
            matcher,
            is_whitespace: ws,
            bigram,
            unigram,
            has_been_merged: merged,
            tokens_since_add: 0,
            samples_since_add: 0,
            drops_applied: 0,
            top_count: 0,
            top_pair: None,
            dropped_tokens: Vec::new(),
            history: Ghost(forced_dv),
        };
        proof {
            assert(t.matcher.patterns_view() =~= initial_model(config).tokens);
            assert(t.is_whitespace@ =~= initial_model(config).ws);
            assert(t.bigram@ =~= initial_model(config).bigram);
            assert(t.unigram@ =~= initial_model(config).unigram);
            assert(t.has_been_merged@ =~= initial_model(config).merged);
            assert(t.dropped_view() =~= Seq::<(Seq<u8>, u32)>::empty());
            assert forall|x: int| 0 <= x < t.matcher.patterns_view().len() implies t.history@.contains(
                #[trigger] t.matcher.patterns_view()[x],
            ) by {
                assert(t.history@[x] == t.matcher.patterns_view()[x]);
            }
            assert(t.wf());
            assert(t.model() == initial_model(config));
        }
        Ok(t)
    }

    /// Whether the vocabulary has reached its bound: training is complete.
    pub fn is_done(&self) -> (r: bool)
        requires
            self.wf(),
        ensures
            r == (self.tokens_view().len() >= self.config_spec().max_tokens),
    {
        self.matcher.pattern_count() >= self.config.max_tokens
    }

    /// How many tokens the vocabulary holds.
    pub fn token_count(&self) -> (n: usize)
        ensures
            n == self.tokens_view().len(),
    {
        self.matcher.pattern_count()
    }

    /// A copy of the vocabulary, index for index.
    pub fn tokens(&self) -> (r: Vec<Vec<u8>>)
        ensures
            r.deep_view() == self.tokens_view(),
    {
        let count = self.matcher.pattern_count();
        let mut r: Vec<Vec<u8>> = Vec::new();
        let mut i: usize = 0;
        while i < count
            invariant
                i <= count,
                count == self.tokens_view().len(),
                r@.len() == i,
                forall|j: int| 0 <= j < i ==> #[trigger] r.deep_view()[j] == self.tokens_view()[j],
            decreases count - i,
        {
            let p = self.matcher.pattern(i);
            let mut c: Vec<u8> = Vec::new();
            let mut j: usize = 0;
            while j < p.len()
                invariant
                    j <= p@.len(),
                    c@ == p@.take(j as int),
                decreases p@.len() - j,
            {
                let x = p[j];
                c.push(x);
                proof {
                    assert(c@ =~= p@.take(j + 1));
                }
                j += 1;
            }
            proof {
                assert(c@ =~= p@);
                assert(c@ =~= p.deep_view());
            }
            let ghost rd0 = r.deep_view();
            r.push(c);
            proof {
                assert forall|j: int| 0 <= j < i + 1 implies #[trigger] r.deep_view()[j]
                    == self.tokens_view()[j] by {
                    if j < i {
                        assert(r.deep_view()[j] == rd0[j]);
                    } else {
                        assert(r.deep_view()[j] =~= self.tokens_view()[j]);
                    }
                }
            }
            i += 1;
        }
        proof {
            assert(r.deep_view() =~= self.tokens_view());
        }
        r
    }

    /// The per-token emission counters, index for index with the
    /// vocabulary.
    pub fn unigram_counts(&self) -> (r: &Vec<u32>)
        ensures
            r@ == self.model().unigram,
    {
        &self.unigram
    }

    /// A copy of the evicted tokens with their counts at eviction.
    pub fn dropped(&self) -> (r: &Vec<(Vec<u8>, u32)>)
        ensures
            forall|i: int|
                0 <= i < r@.len() ==> (#[trigger] r@[i].0@, r@[i].1) == self.dropped_view()[i],
            r@.len() == self.dropped_view().len(),
    {
        &self.dropped_tokens
    }

    /// The counting state held in the trainer's fields, with `prev` supplied
    /// by the caller.
    pub closed spec fn cur_state(&self, prev: Option<usize>) -> IngestState {
        IngestState {
            bigram: self.bigram@,
            unigram: self.unigram@,
            top_count: self.top_count,
            top_pair: self.top_pair,
            prev,
            tokens_since: self.tokens_since_add,
        }
    }

    /// Counts one sample's emitted tokens into the bigram and unigram
    /// counters, tracking the hottest pair, exactly as [`ingest_seq`] says.
    fn ingest_tokens(&mut self, toks: &Vec<usize>)
        requires
            old(self).wf(),
            forall|i: int|
                0 <= i < toks@.len() ==> (#[trigger] toks@[i] as int) < old(
                    self,
                ).tokens_view().len(),
        ensures
            final (self).wf(),
            final (self).config_spec() == old(self).config_spec(),
            final (self).tokens_view() == old(self).tokens_view(),
            final (self).matcher == old(self).matcher,
            final (self).is_whitespace@ == old(self).is_whitespace@,
            final (self).has_been_merged@ == old(self).has_been_merged@,
            final (self).samples_since_add == old(self).samples_since_add,
            final (self).drops_applied == old(self).drops_applied,
            final (self).dropped_view() == old(self).dropped_view(),
            final (self).history_view() == old(self).history_view(),
            ({
                let st = ingest_seq(
                    old(self).cur_state(None),
                    old(self).is_whitespace@,
                    old(self).config_spec().max_tokens as int,
                    toks@,
                );
                &&& final (self).bigram@ == st.bigram
                &&& final (self).unigram@ == st.unigram
                &&& final (self).top_count == st.top_count
                &&& final (self).top_pair == st.top_pair
                &&& final (self).tokens_since_add == st.tokens_since
            }),
    {
        let ghost ws0 = self.is_whitespace@;
        let ghost v_int = self.config.max_tokens as int;
        let ghost st_total = ingest_seq(self.cur_state(None), ws0, v_int, toks@);
        proof {
            assert(toks@.skip(0) =~= toks@);
        }
        let mut prev: Option<usize> = None;
        let mut i: usize = 0;
        while i < toks.len()
            invariant
                i <= toks@.len(),
                self.wf(),
                self.config == old(self).config,
                self.matcher == old(self).matcher,
                self.is_whitespace@ == ws0,
                ws0 == old(self).is_whitespace@,
                v_int == self.config.max_tokens as int,
                self.has_been_merged@ == old(self).has_been_merged@,
                self.samples_since_add == old(self).samples_since_add,
                self.drops_applied == old(self).drops_applied,
                self.dropped_tokens == old(self).dropped_tokens,
                self.history@ == old(self).history@,
                st_total == ingest_seq(
                    old(self).cur_state(None),
                    ws0,
                    v_int,
                    toks@,
                ),
                forall|x: int|
                    0 <= x < toks@.len() ==> (#[trigger] toks@[x] as int)
                        < self.tokens_view().len(),
                prev matches Some(p) ==> (p as int) < self.tokens_view().len(),
                ingest_seq(self.cur_state(prev), ws0, v_int, toks@.skip(i as int)) == st_total,
            decreases toks@.len() - i,
        {
            let ghost st_a = self.cur_state(prev);
            let t = toks[i];
            let u = self.unigram[t];
            let u2 = if u == u32::MAX {
                u32::MAX
            } else {
                u + 1
            };
            self.unigram.set(t, u2);
            self.tokens_since_add = if self.tokens_since_add == u64::MAX {
                u64::MAX
            } else {
                self.tokens_since_add + 1
            };
            match prev {
                Some(p) => {
                    let wp = self.is_whitespace[p];
                    let wt = self.is_whitespace[t];
                    if wp == wt {
                        let idx = bg_at(self.config.max_tokens, p, t);
                        let c0 = self.bigram[idx];
                        let c = if c0 == u32::MAX {
                            u32::MAX
                        } else {
                            c0 + 1
                        };
                        self.bigram.set(idx, c);
                        if c > self.top_count {
                            self.top_count = c;
                            self.top_pair = Some((p, t));
                        }
                    }
                },
                None => {},
            }
            proof {
                assert(self.cur_state(Some(t)) == ingest_step(st_a, ws0, v_int, t));
                assert(toks@.skip(i as int)[0] == toks@[i as int]);
                assert(toks@.skip(i as int).drop_first() =~= toks@.skip(i + 1));
                assert(ingest_seq(self.cur_state(Some(t)), ws0, v_int, toks@.skip(i + 1))
                    == st_total);
            }
            prev = Some(t);
            i += 1;
        }
        proof {
            assert(toks@.skip(toks@.len() as int) =~= Seq::<usize>::empty());
            assert(ingest_seq(self.cur_state(prev), ws0, v_int, toks@.skip(toks@.len() as int))
                == self.cur_state(prev));
        }
    }

    /// Runs one merge epoch, exactly as [`epoch_spec`] says.  When the new
    /// token list's automaton cannot be built, nothing changes and
    /// `MatcherBuild` is reported.
    #[verifier::rlimit(100)]
    #[verifier::spinoff_prover]
    fn merge_epoch(&mut self) -> (r: Result<(), ConfigError>)
        requires
            old(self).wf(),
            old(self).model().top_pair is Some,
            old(self).tokens_view().len() < old(self).config_spec().max_tokens,
        ensures
            final (self).wf(),
            final (self).config_spec() == old(self).config_spec(),
            r is Ok <==> epoch_rebuild_ok(old(self).config_spec(), old(self).model()),
            r is Ok ==> final (self).model() == epoch_spec(
                old(self).config_spec(),
                old(self).model(),
            ),
            r matches Err(e) ==> e == ConfigError::MatcherBuild && *final (self) == *old(self),
    {
        let ghost cfg = self.config;
        let ghost m0 = self.model();
        let (a, b) = match self.top_pair {
            Some(p) => p,
            None => (0, 0),
        };
        proof {
            assert(self.top_pair == Some((a, b)));
            assert((m0.top_pair->0).0 == a && (m0.top_pair->0).1 == b);
        }
        let v = self.config.max_tokens;
        let count = self.matcher.pattern_count();
        assert((a as int) < count && (b as int) < count);
        let mut nb: Vec<u8> = Vec::new();
        {
            let pa = self.matcher.pattern(a);
            let mut j: usize = 0;
            while j < pa.len()
                invariant
                    j <= pa@.len(),
                    nb@ == pa@.take(j as int),
                decreases pa@.len() - j,
            {
                let x = pa[j];
                nb.push(x);
                proof {
                    assert(nb@ =~= pa@.take(j + 1));
                }
                j += 1;
            }
            proof {
                assert(nb@ =~= pa@);
                assert(nb@ =~= m0.tokens[a as int]);
            }
        }
        let ghost pa_bytes = nb@;
        {
            let pb = self.matcher.pattern(b);
            let mut j: usize = 0;
            while j < pb.len()
                invariant
                    j <= pb@.len(),
                    nb@ == pa_bytes + pb@.take(j as int),
                decreases pb@.len() - j,
            {
                let x = pb[j];
                nb.push(x);
                proof {
                    assert(nb@ =~= pa_bytes + pb@.take(j + 1));
                }
                j += 1;
            }
            proof {
                assert(nb@ =~= pa_bytes + pb@);
                assert(nb@ =~= m0.tokens[a as int] + m0.tokens[b as int]);
            }
        }
        let ghost nbv = nb@;
        let mut dup = false;
        let mut di: usize = 0;
        while di < count
            invariant
                di <= count,
                count == self.tokens_view().len(),
                self.wf(),
                nbv == nb@,
                dup == exists|j: int| 0 <= j < di && #[trigger] self.tokens_view()[j] == nbv,
            decreases count - di,
        {
            let p = self.matcher.pattern(di);
            if bytes_eq(p, &nb) {
                proof {
                    assert(p.deep_view() =~= p@);
                    assert(nb.deep_view() =~= nbv);
                    assert(self.tokens_view()[di as int] == nbv);
                }
                dup = true;
            } else {
                proof {
                    assert(p.deep_view() =~= p@);
                    assert(nb.deep_view() =~= nbv);
                    assert(self.tokens_view()[di as int] != nbv);
                }
            }
            di += 1;
        }
        proof {
            assert(dup == tokens_contain(m0.tokens, nbv));
        }
        if dup {
            let idxab = bg_at(v, a, b);
            self.bigram.set(idxab, 0);
            self.top_count = 0;
            self.top_pair = None;
            self.tokens_since_add = 0;
            self.samples_since_add = 0;
            proof {
                assert(self.dropped_view() =~= m0.dropped);
                assert(self.model() == epoch_spec(cfg, m0));
                assert(self.wf());
                assert(epoch_rebuild_ok(cfg, m0));
            }
            return Ok(());
        }
        let top = self.top_count;
        let ua0 = self.unigram[a];
        let ua1 = if ua0 >= top {
            ua0 - top
        } else {
            0
        };
        let ub0 = if b == a {
            ua1
        } else {
            self.unigram[b]
        };
        let ub1 = if ub0 >= top {
            ub0 - top
        } else {
            0
        };
        let ghost u1 = m0.unigram.update(a as int, ua1);
        let ghost u2 = u1.update(b as int, ub1);
        let ghost u3 = u2.push(top);
        let ghost merged1 = mark_merged(mark_merged(m0.merged, a as int), b as int).push(false);
        proof {
            assert(u1[b as int] == ub0);
            assert(u2 == m0.unigram.update(a as int, ua1).update(
                b as int,
                sat_sub_u32(u1[b as int], top),
            ));
        }
        let mut best: Option<(usize, u32)> = None;
        let mut i: usize = FORCED_TOKEN_COUNT;
        proof {
            assert(least_upto(u3, merged1, FORCED_TOKEN_COUNT as int, FORCED_TOKEN_COUNT as int)
                is None);
        }
        while i < count
            invariant
                FORCED_TOKEN_COUNT <= i <= count,
                count == self.tokens_view().len(),
                self.wf(),
                count < self.config.max_tokens,
                a < count,
                b < count,
                u3.len() == count + 1,
                merged1.len() == count + 1,
                u3 == m0.unigram.update(a as int, ua1).update(b as int, ub1).push(top),
                merged1 == mark_merged(mark_merged(m0.merged, a as int), b as int).push(false),
                m0.unigram == self.unigram@,
                m0.merged == self.has_been_merged@,
                ua1 == u3[a as int] || a as int == b as int,
                match best {
                    Some(p) => least_upto(u3, merged1, FORCED_TOKEN_COUNT as int, i as int)
                        == Some((p.0 as int, p.1)) && p.0 < count,
                    None => least_upto(u3, merged1, FORCED_TOKEN_COUNT as int, i as int) is None,
                },
            decreases count - i,
        {
            let mval = self.has_been_merged[i] || i == a || i == b;
            let uval = if i == b {
                ub1
            } else if i == a {
                ua1
            } else {
                self.unigram[i]
            };
            proof {
                assert(u3[i as int] == uval);
                assert(merged1[i as int] == mval);
            }
            match best {
                Some(bc) => {
                    if mval && uval < bc.1 {
                        best = Some((i, uval));
                    }
                },
                None => {
                    if mval {
                        best = Some((i, uval));
                    }
                },
            }
            i += 1;
        }
        let ghost scan = least_upto(u3, merged1, FORCED_TOKEN_COUNT as int, count as int);
        let mut do_drop = false;
        let mut d: usize = 0;
        let mut dc: u32 = 0;
        match best {
            Some(p) => {
                d = p.0;
                dc = p.1;
                if dc == 0 {
                    do_drop = true;
                } else if count + 1 == self.config.max_tokens && self.drops_applied
                    < self.config.max_drops {
                    proof {
                        assert((dc as int) * (self.config.threshold_drop_factor_milli as int)
                            <= (u32::MAX as int) * (u32::MAX as int)) by (nonlinear_arith)
                            requires
                                dc <= u32::MAX,
                                self.config.threshold_drop_factor_milli <= u32::MAX,
                        ;
                    }
                    if (dc as u64) * self.config.threshold_drop_factor_milli / 1000 < (top as u64) {
                        do_drop = true;
                    }
                }
            },
            None => {},
        }
        proof {
            lemma_least_upto(u3, merged1, FORCED_TOKEN_COUNT as int, count as int);
            assert(do_drop == match scan {
                Option::Some(ic) => ic.1 == 0 || (count + 1 == cfg.max_tokens && m0.drops
                    < cfg.max_drops && (ic.1 as int) * (cfg.threshold_drop_factor_milli as int)
                    / 1000 < m0.top_count),
                Option::None => false,
            });
            if do_drop {
                assert(FORCED_TOKEN_COUNT <= d < count);
                assert(u3[d as int] == dc);
            }
        }
        let mut cand = self.tokens();
        let ghost cd0 = cand.deep_view();
        cand.push(nb);
        proof {
            assert forall|j: int| 0 <= j < count + 1 implies #[trigger] cand.deep_view()[j]
                == m0.tokens.push(nbv)[j] by {
                if j < count {
                    assert(cand.deep_view()[j] == cd0[j]);
                } else {
                    assert(cand.deep_view()[j] == nbv);
                }
            }
            assert(cand.deep_view() =~= m0.tokens.push(nbv));
        }
        let ghost tokens1 = m0.tokens.push(nbv);
        let mut removed_bytes: Vec<u8> = Vec::new();
        if do_drop {
            let ghost cd1 = cand.deep_view();
            let ghost cv1 = cand@;
            removed_bytes = cand.swap_remove(d);
            proof {
                assert(cd1 == tokens1);
                assert forall|j: int| 0 <= j < cand.deep_view().len() implies #[trigger] cand.deep_view()[
                    j
                ] == swap_remove_seq(tokens1, d as int)[j] by {
                    assert(cand.deep_view()[j] == cand@[j].deep_view());
                    if j == d {
                        assert(cand@[j] == cv1.last());
                        assert(cv1.last().deep_view() == cd1[cd1.len() - 1]);
                    } else {
                        assert(cand@[j] == cv1[j]);
                        assert(cv1[j].deep_view() == cd1[j]);
                    }
                }
                assert(cand.deep_view() =~= swap_remove_seq(tokens1, d as int));
                assert(removed_bytes.deep_view() == tokens1[d as int]);
            }
        }
        let ghost candv = cand.deep_view();
        proof {
            self.matcher.lemma_wf_patterns();
            assert(nbv.len() >= 2);
            assert forall|p: int, q: int| 0 <= p < q < tokens1.len() implies tokens1[p]
                != tokens1[q] by {
                if q == tokens1.len() - 1 {
                    assert(tokens1[q] == nbv);
                    assert(!tokens_contain(m0.tokens, nbv));
                    assert(tokens1[p] == m0.tokens[p]);
                }
            }
            assert(pats_distinct(tokens1));
            assert forall|p: int| 0 <= p < tokens1.len() implies (#[trigger] tokens1[p]).len()
                >= 1 by {
                if p < m0.tokens.len() {
                    assert(tokens1[p] == m0.tokens[p]);
                }
            }
            assert(pats_wf(tokens1));
            if do_drop {
                assert forall|p: int, q: int| 0 <= p < q < candv.len() implies candv[p]
                    != candv[q] by {
                    assert(candv[p] == swap_remove_seq(tokens1, d as int)[p]);
                    assert(candv[q] == swap_remove_seq(tokens1, d as int)[q]);
                    if p == d {
                        assert(candv[p] == tokens1[tokens1.len() - 1]);
                    } else {
                        assert(candv[p] == tokens1[p]);
                    }
                    if q == d {
                        assert(candv[q] == tokens1[tokens1.len() - 1]);
                    } else {
                        assert(candv[q] == tokens1[q]);
                    }
                }
                assert(pats_distinct(candv));
                assert forall|p: int| 0 <= p < candv.len() implies (#[trigger] candv[p]).len()
                    >= 1 by {
                    if p == d {
                        assert(candv[p] == tokens1[tokens1.len() - 1]);
                    } else {
                        assert(candv[p] == tokens1[p]);
                    }
                }
                assert(pats_wf(candv));
            }
            assert(candv.len() > 0);
            if do_drop {
                assert(scan == Some((d as int, dc)));
                assert(epoch_spec(cfg, m0).tokens == swap_remove_seq(tokens1, d as int));
            } else {
                assert(epoch_spec(cfg, m0).tokens == tokens1);
            }
            assert(epoch_spec(cfg, m0).tokens == candv);
        }
        let new_matcher = match Matcher::new(cand) {
            Ok(mm) => mm,
            Err(e) => {
                proof {
                    assert(e == ConfigError::MatcherBuild);
                    assert(!crate::matcher::ac_build_ok(candv));
                    assert(!epoch_rebuild_ok(cfg, m0));
                }
                return Err(ConfigError::MatcherBuild);
            },
        };
        proof {
            assert(crate::matcher::ac_build_ok(candv));
            assert(epoch_rebuild_ok(cfg, m0));
        }
        self.matcher = new_matcher;
        self.unigram.set(a, ua1);
        self.unigram.set(b, ub1);
        self.unigram.push(top);
        if a >= FORCED_TOKEN_COUNT {
            self.has_been_merged.set(a, true);
        }
        if b >= FORCED_TOKEN_COUNT {
            self.has_been_merged.set(b, true);
        }
        self.has_been_merged.push(false);
        let wa = self.is_whitespace[a];
        self.is_whitespace.push(wa);
        let idxab = bg_at(v, a, b);
        self.bigram.set(idxab, 0);
        proof {
            assert(self.unigram@ == u3);
            assert(self.has_been_merged@ == merged1);
            assert(self.bigram@ == m0.bigram.update((a as int) * (v as int) + (b as int), 0u32));
        }
        if do_drop {
            self.unigram.swap_remove(d);
            self.has_been_merged.swap_remove(d);
            self.is_whitespace.swap_remove(d);
            swap_bigram_rc(&mut self.bigram, v, count + 1, d, count);
            let ghost dv0 = self.dropped_view();
            self.dropped_tokens.push((removed_bytes, dc));
            proof {
                assert forall|j: int| 0 <= j < self.dropped_view().len() implies
                    #[trigger] self.dropped_view()[j] == m0.dropped.push((tokens1[d as int], dc))[j] by {
                    if j < dv0.len() {
                        assert(self.dropped_view()[j] == dv0[j]);
                    } else {
                        assert(self.dropped_view()[j] == (removed_bytes@, dc));
                        assert(removed_bytes@ =~= removed_bytes.deep_view());
                    }
                }
                assert(self.dropped_view() =~= m0.dropped.push((tokens1[d as int], dc)));
            }
            self.drops_applied = if self.drops_applied == usize::MAX {
                usize::MAX
            } else {
                self.drops_applied + 1
            };
        }
        let live = self.matcher.pattern_count();
        decay_bigram_cells(
            &mut self.bigram,
            v,
            live,
            self.config.threshold_count,
            self.config.count_decay_milli,
        );
        decay_unigram_cells(&mut self.unigram, self.config.count_decay_milli);
        self.top_count = 0;
        self.top_pair = None;
        self.tokens_since_add = 0;
        self.samples_since_add = 0;
        self.history = Ghost(self.history@.push(nbv));
        proof {
            let target = epoch_spec(cfg, m0);
            if do_drop {
                assert(self.matcher.patterns_view() == target.tokens);
                assert(self.unigram@ == target.unigram);
                assert(self.bigram@ == target.bigram);
                assert(self.has_been_merged@ == target.merged);
                assert(self.is_whitespace@ =~= swap_remove_seq(m0.ws.push(m0.ws[a as int]), d as int));
            } else {
                assert(self.matcher.patterns_view() == target.tokens);
                assert(self.unigram@ == target.unigram);
                assert(self.bigram@ == target.bigram);
                assert(self.is_whitespace@ =~= m0.ws.push(m0.ws[a as int]));
            }
            assert(self.model() == target);
            let toks = self.matcher.patterns_view();
            let n = toks.len();
            assert(FORCED_TOKEN_COUNT <= n <= cfg.max_tokens);
            assert forall|x: int| 0 <= x < FORCED_TOKEN_COUNT implies #[trigger] toks[x] == seq![
                (x as u8),
            ] by {
                assert(toks[x] == tokens1[x]);
                assert(tokens1[x] == m0.tokens[x]);
            }
            assert forall|x: int| FORCED_TOKEN_COUNT <= x < n implies (#[trigger] toks[x]).len()
                >= 2 by {
                if do_drop && x == d {
                    assert(toks[x] == tokens1[tokens1.len() - 1]);
                } else {
                    assert(toks[x] == tokens1[x]);
                    if x < m0.tokens.len() {
                        assert(tokens1[x] == m0.tokens[x]);
                    }
                }
            }
            assert(nbv[0] == m0.tokens[a as int][0]);
            assert forall|x: int| 0 <= x < n implies #[trigger] self.is_whitespace@[x]
                == byte_is_whitespace_spec(toks[x][0]) by {
                let ws1 = m0.ws.push(m0.ws[a as int]);
                if do_drop && x == d {
                    assert(self.is_whitespace@[x] == ws1[ws1.len() - 1]);
                    assert(toks[x] == tokens1[tokens1.len() - 1]);
                } else {
                    assert(self.is_whitespace@[x] == ws1[x]);
                    assert(toks[x] == tokens1[x]);
                    if x < m0.tokens.len() {
                        assert(tokens1[x] == m0.tokens[x]);
                        assert(ws1[x] == m0.ws[x]);
                    }
                }
            }
            assert forall|x: int| 0 <= x < FORCED_TOKEN_COUNT implies !(
            #[trigger] self.has_been_merged@[x]) by {
                if do_drop && x == d {
                } else {
                    assert(self.has_been_merged@[x] == merged1[x]);
                }
            }
            let hist = self.history@;
            let hist0 = m0.tokens.len() as int;
            assert(hist.len() >= FORCED_TOKEN_COUNT);
            assert forall|h: int| 0 <= h < FORCED_TOKEN_COUNT implies #[trigger] hist[h] == seq![
                (h as u8),
            ] by {
                assert(hist[h] == old(self).history@[h]);
            }
            assert forall|h: int| FORCED_TOKEN_COUNT <= h < hist.len() implies
                #[trigger] concat_of_earlier(hist, h) by {
                if h < hist.len() - 1 {
                    assert(concat_of_earlier(old(self).history@, h));
                    let (x, y) = choose|x: int, y: int|
                        0 <= x < h && 0 <= y < h && old(self).history@[h] == old(self).history@[x]
                            + old(self).history@[y];
                    assert(hist[h] == hist[x] + hist[y]);
                } else {
                    assert(old(self).history@.contains(m0.tokens[a as int]));
                    let ha = choose|ha: int|
                        0 <= ha < old(self).history@.len() && old(self).history@[ha]
                            == m0.tokens[a as int];
                    assert(old(self).history@.contains(m0.tokens[b as int]));
                    let hb = choose|hb: int|
                        0 <= hb < old(self).history@.len() && old(self).history@[hb]
                            == m0.tokens[b as int];
                    assert(hist[h] == nbv);
                    assert(hist[ha] == m0.tokens[a as int]);
                    assert(hist[hb] == m0.tokens[b as int]);
                    assert(hist[h] == hist[ha] + hist[hb]);
                }
            }
            assert forall|x: int| 0 <= x < n implies hist.contains(#[trigger] toks[x]) by {
                if do_drop && x == d {
                    assert(toks[x] == nbv);
                    assert(hist[hist.len() - 1] == nbv);
                } else {
                    assert(toks[x] == tokens1[x]);
                    if x < m0.tokens.len() {
                        assert(old(self).history@.contains(m0.tokens[x]));
                        let hx = choose|hx: int|
                            0 <= hx < old(self).history@.len() && old(self).history@[hx]
                                == m0.tokens[x];
                        assert(hist[hx] == toks[x]);
                    } else {
                        assert(toks[x] == nbv);
                        assert(hist[hist.len() - 1] == nbv);
                    }
                }
            }
            assert(self.wf());
        }
        Ok(())
    }
}

impl Trainer {
    /// Consumes one sample: tokenizes it with the current matcher, counts
    /// its bigrams and unigrams, and runs a merge epoch when both
    /// thresholds are crossed, exactly as [`train_step_spec`] says.  The
    /// result reports whether the vocabulary has reached its bound.  When a
    /// due epoch cannot rebuild the matcher, the counts of this sample are
    /// kept, the epoch does not happen, and `MatcherBuild` is reported.
    pub fn push_sample(&mut self, text: &[u8]) -> (r: Result<bool, ConfigError>)
        requires
            old(self).wf(),
            old(self).tokens_view().len() < old(self).config_spec().max_tokens,
        ensures
            final (self).wf(),
            final (self).config_spec() == old(self).config_spec(),
            r matches Ok(done) ==> final (self).model() == train_step_spec(
                old(self).config_spec(),
                old(self).model(),
                text@,
            ) && done == (final (self).tokens_view().len() >= old(
                self,
            ).config_spec().max_tokens),
            r matches Err(e) ==> e == ConfigError::MatcherBuild && final (self).model()
                == ingested_spec(old(self).config_spec(), old(self).model(), text@),
            r is Err <==> (epoch_fires(
                old(self).config_spec(),
                ingested_spec(old(self).config_spec(), old(self).model(), text@),
            ) && !epoch_rebuild_ok(
                old(self).config_spec(),
                ingested_spec(old(self).config_spec(), old(self).model(), text@),
            )),
    {
        let ghost cfg = self.config;
        let ghost m0 = self.model();
        self.samples_since_add = if self.samples_since_add == u32::MAX {
            u32::MAX
        } else {
            self.samples_since_add + 1
        };
        let toks = self.matcher.tokenize(text);
        self.ingest_tokens(&toks);
        proof {
            assert(self.model() == ingested_spec(cfg, m0, text@));
        }
        let ghost m1 = ingested_spec(cfg, m0, text@);
        if self.top_count >= self.config.threshold_count && self.samples_since_add
            >= self.config.threshold_samples {
            let has_pair = match self.top_pair {
                Some(_) => true,
                None => false,
            };
            if has_pair {
                proof {
                    assert(epoch_fires(cfg, m1));
                }
                match self.merge_epoch() {
                    Ok(_) => {
                        proof {
                            assert(self.model() == train_step_spec(cfg, m0, text@));
                        }
                    },
                    Err(e) => {
                        return Err(e);
                    },
                }
            } else {
                proof {
                    assert(!epoch_fires(cfg, m1));
                    assert(self.model() == train_step_spec(cfg, m0, text@));
                }
            }
        } else {
            proof {
                assert(!epoch_fires(cfg, m1));
                assert(self.model() == train_step_spec(cfg, m0, text@));
            }
        }
        let done = self.is_done();
        Ok(done)
    }
}

/// The flat index of row `a`, column `b` in a `v x v` matrix.
fn bg_at(v: usize, a: usize, b: usize) -> (i: usize)
    requires
        a < v,
        b < v,
        v * v <= usize::MAX,
    ensures
        i as int == (a as int) * (v as int) + (b as int),
        i < v * v,
{
    proof {
        lemma_flat_index(v as int, a as int, b as int);
    }
    a * v + b
}

/// Exchanges rows `d` and `e` and then columns `d` and `e` of the live
/// `n x n` corner of the flat matrix, in place.
fn swap_bigram_rc(bg: &mut Vec<u32>, v: usize, n: usize, d: usize, e: usize)
    requires
        old(bg)@.len() == v * v,
        d < n,
        e < n,
        n <= v,
        v >= 1,
        v * v <= usize::MAX,
    ensures
        final (bg)@ == swap_rc(old(bg)@, v as int, n as int, d as int, e as int),
{
    let ghost bg0 = old(bg)@;
    let mut j: usize = 0;
    while j < n
        invariant
            j <= n,
            d < n <= v,
            e < n,
            v * v <= usize::MAX,
            bg@.len() == v * v,
            bg0.len() == v * v,
            forall|idx: int|
                0 <= idx < v * v ==> #[trigger] bg@[idx] == {
                    let r = idx / (v as int);
                    let c = idx % (v as int);
                    if c < j && (r == d || r == e) {
                        bg0[swap_idx(r, d as int, e as int) * (v as int) + c]
                    } else {
                        bg0[idx]
                    }
                },
        decreases n - j,
    {
        let di = bg_at(v, d, j);
        let ei = bg_at(v, e, j);
        let x = bg[di];
        let y = bg[ei];
        bg.set(di, y);
        bg.set(ei, x);
        proof {
            lemma_flat_index(v as int, d as int, j as int);
            lemma_flat_index(v as int, e as int, j as int);
            assert forall|idx: int| 0 <= idx < v * v implies #[trigger] bg@[idx] == {
                let r = idx / (v as int);
                let c = idx % (v as int);
                if c < j + 1 && (r == d || r == e) {
                    bg0[swap_idx(r, d as int, e as int) * (v as int) + c]
                } else {
                    bg0[idx]
                }
            } by {
                lemma_flat_decomp(v as int, idx);
                if idx == di as int {
                    assert(idx / (v as int) == d as int && idx % (v as int) == j as int);
                } else if idx == ei as int {
                    assert(idx / (v as int) == e as int && idx % (v as int) == j as int);
                } else {
                    assert((idx / (v as int)) * (v as int) + idx % (v as int) != di as int);
                    assert((idx / (v as int)) * (v as int) + idx % (v as int) != ei as int);
                }
            }
        }
        j += 1;
    }
    let ghost bg1 = bg@;
    let mut i: usize = 0;
    while i < n
        invariant
            i <= n,
            d < n <= v,
            e < n,
            v * v <= usize::MAX,
            bg@.len() == v * v,
            bg1.len() == v * v,
            forall|idx: int|
                0 <= idx < v * v ==> #[trigger] bg@[idx] == {
                    let r = idx / (v as int);
                    let c = idx % (v as int);
                    if r < i && (c == d || c == e) {
                        bg1[r * (v as int) + swap_idx(c, d as int, e as int)]
                    } else {
                        bg1[idx]
                    }
                },
        decreases n - i,
    {
        let di = bg_at(v, i, d);
        let ei = bg_at(v, i, e);
        let x = bg[di];
        let y = bg[ei];
        bg.set(di, y);
        bg.set(ei, x);
        proof {
            lemma_flat_index(v as int, i as int, d as int);
            lemma_flat_index(v as int, i as int, e as int);
            assert forall|idx: int| 0 <= idx < v * v implies #[trigger] bg@[idx] == {
                let r = idx / (v as int);
                let c = idx % (v as int);
                if r < i + 1 && (c == d || c == e) {
                    bg1[r * (v as int) + swap_idx(c, d as int, e as int)]
                } else {
                    bg1[idx]
                }
            } by {
                lemma_flat_decomp(v as int, idx);
                if idx == di as int {
                    assert(idx / (v as int) == i as int && idx % (v as int) == d as int);
                } else if idx == ei as int {
                    assert(idx / (v as int) == i as int && idx % (v as int) == e as int);
                } else {
                    assert((idx / (v as int)) * (v as int) + idx % (v as int) != di as int);
                    assert((idx / (v as int)) * (v as int) + idx % (v as int) != ei as int);
                }
            }
        }
        i += 1;
    }
    proof {
        let vi = v as int;
        let ni = n as int;
        let dd = d as int;
        let ee = e as int;
        let target = swap_rc(bg0, vi, ni, dd, ee);
        assert forall|idx: int| 0 <= idx < bg@.len() implies bg@[idx] == target[idx] by {
            lemma_flat_decomp(vi, idx);
            let r = idx / vi;
            let c = idx % vi;
            if r < ni && (c == dd || c == ee) {
                let c2 = swap_idx(c, dd, ee);
                lemma_flat_index(vi, r, c2);
                assert(bg@[idx] == bg1[r * vi + c2]);
                if c2 < ni && (r == dd || r == ee) {
                    let r2 = swap_idx(r, dd, ee);
                    lemma_flat_index(vi, r2, c2);
                    assert(bg1[r * vi + c2] == bg0[r2 * vi + c2]);
                } else {
                    assert(bg1[r * vi + c2] == bg0[r * vi + c2]);
                }
            } else {
                assert(bg@[idx] == bg1[idx]);
                if c < ni && (r == dd || r == ee) {
                    let r2 = swap_idx(r, dd, ee);
                    lemma_flat_index(vi, r2, c);
                    assert(bg1[idx] == bg0[r2 * vi + c]);
                } else {
                    assert(bg1[idx] == bg0[idx]);
                }
            }
        }
        assert(bg@ =~= target);
    }
}

/// One counter scaled by `decay / 1000` in 64-bit arithmetic.
fn scale_counter(c: u32, decay: u32) -> (r: u32)
    requires
        decay < 1000,
    ensures
        r == scale_milli(c, decay),
        r <= c,
{
    proof {
        assert((c as int) * (decay as int) <= (c as int) * 1000) by (nonlinear_arith)
            requires
                decay < 1000,
                c >= 0,
        ;
        vstd::arithmetic::div_mod::lemma_div_is_ordered(
            (c as int) * (decay as int),
            (c as int) * 1000,
            1000,
        );
        vstd::arithmetic::div_mod::lemma_fundamental_div_mod_converse(
            (c as int) * 1000,
            1000,
            c as int,
            0,
        );
        vstd::arithmetic::div_mod::lemma_div_pos_is_pos((c as int) * (decay as int), 1000);
        assert((c as int) * (decay as int) >= 0) by (nonlinear_arith)
            requires
                c >= 0,
                decay >= 0,
        ;
    }
    (((c as u64) * (decay as u64)) / 1000) as u32
}

/// Clips and decays the live `n x n` corner of the flat matrix, in place.
fn decay_bigram_cells(bg: &mut Vec<u32>, v: usize, n: usize, tc: u32, decay: u32)
    requires
        old(bg)@.len() == v * v,
        n <= v,
        v >= 1,
        v * v <= usize::MAX,
        decay < 1000,
    ensures
        final (bg)@ == decay_bigram(old(bg)@, v as int, n as int, tc, decay),
{
    let ghost bg0 = old(bg)@;
    let total = v * v;
    let mut idx: usize = 0;
    while idx < total
        invariant
            idx <= total,
            total == v * v,
            n <= v,
            v >= 1,
            v * v <= usize::MAX,
            decay < 1000,
            bg@.len() == v * v,
            bg0.len() == v * v,
            forall|k: int|
                0 <= k < idx ==> #[trigger] bg@[k] == decay_bigram(bg0, v as int, n as int, tc, decay)[k],
            forall|k: int| idx <= k < v * v ==> #[trigger] bg@[k] == bg0[k],
        decreases total - idx,
    {
        proof {
            lemma_flat_decomp(v as int, idx as int);
        }
        let r = idx / v;
        let c = idx % v;
        if r < n && c < n {
            let cur = bg[idx];
            let clipped = if cur > tc {
                tc
            } else {
                cur
            };
            let scaled = scale_counter(clipped, decay);
            bg.set(idx, scaled);
        }
        idx += 1;
    }
    proof {
        assert(bg@ =~= decay_bigram(bg0, v as int, n as int, tc, decay));
    }
}

/// Scales every counter of the vector, in place.
fn decay_unigram_cells(u: &mut Vec<u32>, decay: u32)
    requires
        decay < 1000,
    ensures
        final (u)@ == decay_unigram(old(u)@, decay),
{
    let ghost u0 = old(u)@;
    let mut i: usize = 0;
    while i < u.len()
        invariant
            i <= u@.len(),
            u@.len() == u0.len(),
            decay < 1000,
            forall|k: int| 0 <= k < i ==> #[trigger] u@[k] == scale_milli(u0[k], decay),
            forall|k: int| i <= k < u0.len() ==> #[trigger] u@[k] == u0[k],
        decreases u@.len() - i,
    {
        let cur = u[i];
        let scaled = scale_counter(cur, decay);
        u.set(i, scaled);
        i += 1;
    }
    proof {
        assert(u@ =~= decay_unigram(u0, decay));
    }
}

} // verus!
