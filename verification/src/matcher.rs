//! Leftmost-longest multi-pattern matching over byte strings.
//!
//! The matching discipline is stated here as a spec function: at each
//! position of the input, the longest pattern that matches there is reported
//! and the search resumes after it; where no pattern matches, the search
//! advances one byte.  The automaton that realises this discipline comes from
//! the `aho_corasick` crate and is trusted to follow it; every consequence of
//! the discipline is proved below.

use vstd::prelude::*;

use crate::ConfigError;

verus! {

/// Every pattern is a non-empty byte string.
pub open spec fn pats_wf(pats: Seq<Seq<u8>>) -> bool {
    forall|p: int| 0 <= p < pats.len() ==> pats[p].len() >= 1
}

/// No two patterns hold the same bytes.
pub open spec fn pats_distinct(pats: Seq<Seq<u8>>) -> bool {
    forall|p: int, q: int| 0 <= p < q < pats.len() ==> pats[p] != pats[q]
}

/// Pattern `p` matches the input at position `pos`.
pub open spec fn is_match_at(pats: Seq<Seq<u8>>, input: Seq<u8>, pos: int, p: int) -> bool {
    &&& 0 <= p < pats.len()
    &&& 0 <= pos
    &&& pos + pats[p].len() <= input.len()
    &&& input.subrange(pos, pos + pats[p].len() as int) == pats[p]
}

/// The longest pattern among indices `[k, pats.len())` that matches at
/// `pos`; between equally long matches the lower index wins.
pub open spec fn best_match_from(pats: Seq<Seq<u8>>, input: Seq<u8>, pos: int, k: int) -> Option<
    int,
>
    decreases pats.len() - k,
{
    if k < 0 || k >= pats.len() {
        None
    } else {
        let rest = best_match_from(pats, input, pos, k + 1);
        if is_match_at(pats, input, pos, k) {
            match rest {
                Option::Some(q) => if 0 <= q < pats.len() && pats[q].len() > pats[k].len() {
                    Some(q)
                } else {
                    Some(k)
                },
                Option::None => Some(k),
            }
        } else {
            rest
        }
    }
}

/// The longest pattern matching at `pos`, if any.
pub open spec fn best_match_at(pats: Seq<Seq<u8>>, input: Seq<u8>, pos: int) -> Option<int> {
    best_match_from(pats, input, pos, 0)
}

/// The `(offset, pattern index)` pairs that leftmost-longest matching emits
/// from position `pos` on: the longest match at the current position, or one
/// byte of progress where nothing matches.
pub open spec fn match_seq_from(pats: Seq<Seq<u8>>, input: Seq<u8>, pos: int) -> Seq<
    (usize, usize),
>
    decreases input.len() - pos,
{
    if !(pats_wf(pats) && 0 <= pos && pos < input.len() && input.len() <= usize::MAX
        && pats.len() <= usize::MAX) {
        Seq::empty()
    } else {
        match best_match_at(pats, input, pos) {
            Option::Some(p) => {
                if 0 <= p < pats.len() && pos + pats[p].len() <= input.len() {
                    seq![((pos as usize), (p as usize))] + match_seq_from(
                        pats,
                        input,
                        pos + pats[p].len(),
                    )
                } else {
                    Seq::empty()
                }
            },
            Option::None => match_seq_from(pats, input, pos + 1),
        }
    }
}

/// All matches that leftmost-longest matching emits over the whole input.
pub open spec fn match_seq(pats: Seq<Seq<u8>>, input: Seq<u8>) -> Seq<(usize, usize)> {
    match_seq_from(pats, input, 0)
}

/// The emitted token indices alone, in match order.
pub open spec fn match_tokens(pats: Seq<Seq<u8>>, input: Seq<u8>) -> Seq<usize> {
    match_seq(pats, input).map_values(|m: (usize, usize)| m.1)
}

/// What `best_match_from` returns is a match, and it is at least as long as
/// any other match at the same position; where it returns nothing, nothing
/// matches.
pub proof fn lemma_best_match_from(pats: Seq<Seq<u8>>, input: Seq<u8>, pos: int, k: int)
    requires
        0 <= k,
    ensures
        match best_match_from(pats, input, pos, k) {
            Option::Some(p) => {
                &&& k <= p < pats.len()
                &&& is_match_at(pats, input, pos, p)
                &&& forall|j: int|
                    k <= j < pats.len() && is_match_at(pats, input, pos, j) ==> pats[j].len()
                        <= pats[p].len()
            },
            Option::None => forall|j: int|
                k <= j < pats.len() ==> !is_match_at(pats, input, pos, j),
        },
    decreases pats.len() - k,
{
    if k < pats.len() {
        lemma_best_match_from(pats, input, pos, k + 1);
    }
}

/// The combined shape of the emitted match list: every entry is a real match
/// no shorter than any other match at its offset, offsets start at `pos`,
/// and successive matches do not overlap.
pub proof fn lemma_match_seq_from_props(pats: Seq<Seq<u8>>, input: Seq<u8>, pos: int)
    ensures
        ({
            let ms = match_seq_from(pats, input, pos);
            forall|i: int|
                #![trigger ms[i]]
                0 <= i < ms.len() ==> {
                    &&& pos <= ms[i].0
                    &&& is_match_at(pats, input, ms[i].0 as int, ms[i].1 as int)
                    &&& (forall|q: int|
                        is_match_at(pats, input, ms[i].0 as int, q) ==> pats[q].len() <= pats[ms[i].1 as int].len())
                    &&& (i + 1 < ms.len() ==> ms[i].0 + pats[ms[i].1 as int].len() <= ms[i + 1].0)
                }
        }),
    decreases input.len() - pos,
{
    let ms = match_seq_from(pats, input, pos);
    if !(pats_wf(pats) && 0 <= pos && pos < input.len() && input.len() <= usize::MAX
        && pats.len() <= usize::MAX) {
    } else {
        lemma_best_match_from(pats, input, pos, 0);
        match best_match_at(pats, input, pos) {
            Option::Some(p) => {
                let lp = pats[p].len() as int;
                lemma_match_seq_from_props(pats, input, pos + lp);
                let rest = match_seq_from(pats, input, pos + lp);
                assert(ms == seq![((pos as usize), (p as usize))] + rest);
                assert forall|i: int| #![trigger ms[i]] 0 <= i < ms.len() implies {
                    &&& pos <= ms[i].0
                    &&& is_match_at(pats, input, ms[i].0 as int, ms[i].1 as int)
                    &&& (forall|q: int|
                        is_match_at(pats, input, ms[i].0 as int, q) ==> pats[q].len()
                            <= pats[ms[i].1 as int].len())
                    &&& (i + 1 < ms.len() ==> ms[i].0 + pats[ms[i].1 as int].len() <= ms[i + 1].0)
                } by {
                    if i == 0 {
                        assert(ms[0] == ((pos as usize), (p as usize)));
                        assert(ms[0].0 as int == pos);
                        assert(ms[0].1 as int == p);
                        assert(is_match_at(pats, input, pos, p));
                        assert forall|q: int|
                            is_match_at(pats, input, ms[0].0 as int, q) implies pats[q].len()
                            <= pats[ms[0].1 as int].len() by {
                            assert(is_match_at(pats, input, pos, q));
                        }
                        if ms.len() > 1 {
                            assert(ms[1] == rest[0]);
                            assert(pos + lp <= rest[0].0);
                        }
                    } else {
                        assert(ms[i] == rest[i - 1]);
                        assert(pos + lp <= rest[i - 1].0);
                        assert(is_match_at(pats, input, rest[i - 1].0 as int, rest[i - 1].1 as int));
                        assert forall|q: int|
                            is_match_at(pats, input, ms[i].0 as int, q) implies pats[q].len()
                            <= pats[ms[i].1 as int].len() by {
                            assert(is_match_at(pats, input, rest[i - 1].0 as int, q));
                        }
                        if i + 1 < ms.len() {
                            assert(ms[i + 1] == rest[i]);
                            assert(rest[i - 1].0 + pats[rest[i - 1].1 as int].len() <= rest[i].0);
                        }
                    }
                }
            },
            Option::None => {
                lemma_match_seq_from_props(pats, input, pos + 1);
                let rest = match_seq_from(pats, input, pos + 1);
                assert(ms == rest);
                assert forall|i: int| #![trigger ms[i]] 0 <= i < ms.len() implies {
                    &&& pos <= ms[i].0
                    &&& is_match_at(pats, input, ms[i].0 as int, ms[i].1 as int)
                    &&& (forall|q: int|
                        is_match_at(pats, input, ms[i].0 as int, q) ==> pats[q].len()
                            <= pats[ms[i].1 as int].len())
                    &&& (i + 1 < ms.len() ==> ms[i].0 + pats[ms[i].1 as int].len() <= ms[i + 1].0)
                } by {
                    assert(pos + 1 <= ms[i].0);
                }
            },
        }
    }
}

/// Law: every emitted pair `(o, p)` names a pattern that is really present
/// at offset `o` of the input: `input[o .. o + |pats[p]|] == pats[p]`; in
/// particular every emitted pattern index lies below `pats.len()`.
pub proof fn lemma_matches_exact(pats: Seq<Seq<u8>>, input: Seq<u8>)
    ensures
        forall|i: int|
            0 <= i < match_seq(pats, input).len() ==> {
                let m = #[trigger] match_seq(pats, input)[i];
                &&& (m.1 as int) < pats.len()
                &&& m.0 + pats[m.1 as int].len() <= input.len()
                &&& input.subrange(m.0 as int, m.0 + pats[m.1 as int].len()) == pats[m.1 as int]
            },
{
    lemma_match_seq_from_props(pats, input, 0);
    let ms = match_seq(pats, input);
    assert forall|i: int| #![trigger ms[i]] 0 <= i < ms.len() implies {
        let m = ms[i];
        &&& (m.1 as int) < pats.len()
        &&& m.0 + pats[m.1 as int].len() <= input.len()
        &&& input.subrange(m.0 as int, m.0 + pats[m.1 as int].len()) == pats[m.1 as int]
    } by {
        assert(0 <= ms[i].0);
        assert(is_match_at(pats, input, ms[i].0 as int, ms[i].1 as int));
    }
}

/// Law: successive matches do not overlap; each match ends at or before the
/// next one starts.
pub proof fn lemma_matches_nonoverlapping(pats: Seq<Seq<u8>>, input: Seq<u8>)
    ensures
        forall|i: int|
            0 <= i && i + 1 < match_seq(pats, input).len() ==> {
                let m = #[trigger] match_seq(pats, input)[i];
                let n = match_seq(pats, input)[i + 1];
                m.0 + pats[m.1 as int].len() <= n.0
            },
{
    lemma_match_seq_from_props(pats, input, 0);
    let ms = match_seq(pats, input);
    assert forall|i: int| #![trigger ms[i]] 0 <= i && i + 1 < ms.len() implies {
        let m = ms[i];
        let n = ms[i + 1];
        m.0 + pats[m.1 as int].len() <= n.0
    } by {
        assert(ms == match_seq_from(pats, input, 0));
        assert(0 <= ms[i].0);
        assert(0 <= ms[i + 1].0);
        assert(i + 1 < ms.len() ==> ms[i].0 + pats[ms[i].1 as int].len() <= ms[i + 1].0);
    }
}

/// Law: matching is leftmost-longest; for an emitted pair `(o, p)` no
/// pattern strictly longer than `pats[p]` matches the input at `o`.
pub proof fn lemma_matches_leftmost_longest(pats: Seq<Seq<u8>>, input: Seq<u8>)
    ensures
        forall|i: int, q: int|
            0 <= i < match_seq(pats, input).len() && #[trigger] is_match_at(
                pats,
                input,
                match_seq(pats, input)[i].0 as int,
                q,
            ) ==> pats[q].len() <= pats[match_seq(pats, input)[i].1 as int].len(),
{
    lemma_match_seq_from_props(pats, input, 0);
    let ms = match_seq(pats, input);
    assert forall|i: int, q: int|
        #![trigger is_match_at(pats, input, ms[i].0 as int, q)]
        0 <= i < ms.len() && is_match_at(pats, input, ms[i].0 as int, q) implies pats[q].len()
        <= pats[ms[i].1 as int].len() by {
        assert(0 <= ms[i].0);
    }
}

/// Position `x` of the input lies inside one of the reported matches.
pub open spec fn match_covers(pats: Seq<Seq<u8>>, ms: Seq<(usize, usize)>, x: int) -> bool
    decreases ms.len(),
{
    if ms.len() == 0 {
        false
    } else {
        (ms[0].0 <= x < ms[0].0 + pats[ms[0].1 as int].len()) || match_covers(
            pats,
            ms.drop_first(),
            x,
        )
    }
}

/// The matching from `pos` covers or deliberately skips every later
/// position: a position outside all reported matches is one where no
/// pattern matches at all.
pub proof fn lemma_match_seq_from_total(pats: Seq<Seq<u8>>, input: Seq<u8>, pos: int)
    requires
        0 <= pos,
        pats_wf(pats),
        pats.len() <= usize::MAX,
        input.len() <= usize::MAX,
    ensures
        forall|x: int|
            pos <= x < input.len() ==> match_covers(pats, match_seq_from(pats, input, pos), x)
                || best_match_at(pats, input, x) is None,
    decreases input.len() - pos,
{
    let ms = match_seq_from(pats, input, pos);
    if !(0 <= pos && pos < input.len()) {
    } else {
        lemma_best_match_from(pats, input, pos, 0);
        match best_match_at(pats, input, pos) {
            Option::Some(p) => {
                let lp = pats[p].len() as int;
                lemma_match_seq_from_total(pats, input, pos + lp);
                let rest = match_seq_from(pats, input, pos + lp);
                assert(ms == seq![((pos as usize), (p as usize))] + rest);
                assert forall|x: int|
                    pos <= x < input.len() implies match_covers(pats, ms, x) || best_match_at(
                    pats,
                    input,
                    x,
                ) is None by {
                    if x < pos + lp {
                        assert(ms[0] == ((pos as usize), (p as usize)));
                        assert(ms[0].0 <= x < ms[0].0 + pats[ms[0].1 as int].len());
                        assert(match_covers(pats, ms, x));
                    } else {
                        assert(match_covers(pats, rest, x) || best_match_at(pats, input, x)
                            is None);
                        if match_covers(pats, rest, x) {
                            assert(ms.drop_first() =~= rest);
                            assert(match_covers(pats, ms.drop_first(), x));
                            assert(match_covers(pats, ms, x));
                        }
                    }
                }
            },
            Option::None => {
                lemma_match_seq_from_total(pats, input, pos + 1);
                let rest = match_seq_from(pats, input, pos + 1);
                assert(ms == rest);
                assert forall|x: int|
                    pos <= x < input.len() implies match_covers(pats, ms, x) || best_match_at(
                    pats,
                    input,
                    x,
                ) is None by {
                    if x > pos {
                        assert(match_covers(pats, rest, x) || best_match_at(pats, input, x)
                            is None);
                    }
                }
            },
        }
    }
}

/// Law: matching is effectively total.  Every input position at which some
/// pattern matches lies inside exactly one reported match; a position lies
/// outside all matches only where no pattern matches at all.  With a
/// vocabulary holding a token for every byte value that can occur, every
/// input byte is emitted as part of one token.
pub proof fn lemma_matches_total(pats: Seq<Seq<u8>>, input: Seq<u8>)
    requires
        pats_wf(pats),
        pats.len() <= usize::MAX,
        input.len() <= usize::MAX,
    ensures
        forall|x: int, p: int|
            0 <= x < input.len() && #[trigger] is_match_at(pats, input, x, p) ==> match_covers(
                pats,
                match_seq(pats, input),
                x,
            ),
{
    lemma_match_seq_from_total(pats, input, 0);
    assert forall|x: int, p: int|
        0 <= x < input.len() && #[trigger] is_match_at(pats, input, x, p) implies match_covers(
        pats,
        match_seq(pats, input),
        x,
    ) by {
        lemma_best_match_from(pats, input, x, 0);
        if best_match_at(pats, input, x) is None {
            assert(!is_match_at(pats, input, x, p));
        }
    }
}

/// Law: every emitted token index lies in `[0, pats.len())`, so a token list
/// produced by any matcher built from a vocabulary indexes that vocabulary.
pub proof fn lemma_tokens_in_range(pats: Seq<Seq<u8>>, input: Seq<u8>)
    ensures
        forall|i: int|
            0 <= i < match_tokens(pats, input).len() ==> (#[trigger] match_tokens(pats, input)[i]
                as int) < pats.len(),
{
    lemma_matches_exact(pats, input);
}

#[verifier::external_type_specification]
#[verifier::external_body]
pub struct ExAhoCorasick(aho_corasick::AhoCorasick);

/// The pattern list an automaton was built from.
pub uninterp spec fn ac_patterns(ac: aho_corasick::AhoCorasick) -> Seq<Seq<u8>>;

/// Whether the automaton builder accepts a pattern list.  The builder is
/// deterministic: acceptance depends on the patterns alone (it refuses only
/// over-long inputs), so it carries a name.
pub uninterp spec fn ac_build_ok(pats: Seq<Seq<u8>>) -> bool;

/// Relies on `AhoCorasickBuilder::build` with `MatchKind::LeftmostLongest`:
/// whether it accepts is a function of the pattern list alone, and on
/// success the automaton holds exactly the given patterns.
#[verifier::external_body]
fn ac_build(patterns: &Vec<Vec<u8>>) -> (r: Option<aho_corasick::AhoCorasick>)
    ensures
        r is Some <==> ac_build_ok(patterns.deep_view()),
        r matches Some(ac) ==> ac_patterns(ac) == patterns.deep_view(),
{
    aho_corasick::AhoCorasickBuilder::new().match_kind(
        aho_corasick::MatchKind::LeftmostLongest,
    ).build(patterns).ok()
}

/// Relies on `AhoCorasick::find_iter` under leftmost-longest semantics: the
/// non-overlapping matches it reports, in input order, are exactly those of
/// the discipline spelled out by [`match_seq`].  The requirement that the
/// patterns are distinct and non-empty keeps the reported matches free of the
/// tie-breaking and empty-match cases that the discipline does not cover.
#[verifier::external_body]
fn ac_find_all(ac: &aho_corasick::AhoCorasick, input: &[u8]) -> (r: Vec<(usize, usize)>)
    requires
        pats_wf(ac_patterns(*ac)),
        pats_distinct(ac_patterns(*ac)),
    ensures
        r@ == match_seq(ac_patterns(*ac), input@),
{
    ac.find_iter(input).map(|m| (m.start(), m.pattern().as_usize())).collect()
}

/// An immutable matcher for one frozen pattern list.
pub struct Matcher {
    patterns: Vec<Vec<u8>>,
    ac: aho_corasick::AhoCorasick,
}

impl Matcher {
    /// The pattern list the matcher was built from.
    pub closed spec fn patterns_view(&self) -> Seq<Seq<u8>> {
        self.patterns.deep_view()
    }

    /// The automaton agrees with the stored patterns, which are non-empty
    /// and pairwise distinct.
    pub closed spec fn wf(&self) -> bool {
        &&& ac_patterns(self.ac) == self.patterns.deep_view()
        &&& pats_wf(self.patterns.deep_view())
        &&& pats_distinct(self.patterns.deep_view())
    }

    /// Builds a matcher over `patterns`.  The pattern list must be
    /// non-empty, free of empty patterns and free of duplicates; each of
    /// those faults is reported as its own error.  On a valid list the
    /// build succeeds exactly when the automaton builder accepts it, and a
    /// refusal is reported as `MatcherBuild`.
    pub fn new(patterns: Vec<Vec<u8>>) -> (r: Result<Matcher, ConfigError>)
        ensures
            r matches Ok(m) ==> m.wf() && m.patterns_view() == patterns.deep_view(),
            r is Ok <==> patterns.deep_view().len() > 0 && pats_wf(patterns.deep_view())
                && pats_distinct(patterns.deep_view()) && ac_build_ok(patterns.deep_view()),
            r matches Err(e) && e == ConfigError::NoPatterns <==> patterns.deep_view().len() == 0,
            r matches Err(e) && e == ConfigError::EmptyPattern <==> patterns.deep_view().len() > 0
                && !pats_wf(patterns.deep_view()),
            r matches Err(e) && e == ConfigError::DuplicatePattern <==> patterns.deep_view().len()
                > 0 && pats_wf(patterns.deep_view()) && !pats_distinct(patterns.deep_view()),
            r matches Err(e) && e == ConfigError::MatcherBuild <==> patterns.deep_view().len() > 0
                && pats_wf(patterns.deep_view()) && pats_distinct(patterns.deep_view())
                && !ac_build_ok(patterns.deep_view()),
    {
        if patterns.len() == 0 {
            return Err(ConfigError::NoPatterns);
        }
        let mut i: usize = 0;
        while i < patterns.len()
            invariant
                i <= patterns.len(),
                forall|j: int| 0 <= j < i ==> patterns.deep_view()[j].len() >= 1,
            decreases patterns.len() - i,
        {
            if patterns[i].len() == 0 {
                assert(patterns.deep_view()[i as int].len() == 0);
                return Err(ConfigError::EmptyPattern);
            }
            assert(patterns.deep_view()[i as int].len() >= 1);
            i += 1;
        }
        assert(pats_wf(patterns.deep_view()));
        let mut p: usize = 0;
        while p < patterns.len()
            invariant
                p <= patterns.len(),
                patterns.len() > 0,
                pats_wf(patterns.deep_view()),
                forall|a: int, b: int| 0 <= a < b < patterns.len() && a < p ==> patterns.deep_view()[a]
                    != patterns.deep_view()[b],
            decreases patterns.len() - p,
        {
            let mut q: usize = p + 1;
            while q < patterns.len()
                invariant
                    p < q <= patterns.len() || (p + 1 == q && q <= patterns.len()),
                    p < patterns.len(),
                    patterns.len() > 0,
                    pats_wf(patterns.deep_view()),
                    forall|b: int| p < b < q ==> patterns.deep_view()[p as int]
                        != patterns.deep_view()[b],
                decreases patterns.len() - q,
            {
                if bytes_eq(&patterns[p], &patterns[q]) {
                    proof {
                        assert(patterns.deep_view()[p as int] == patterns@[p as int].deep_view());
                        assert(patterns.deep_view()[q as int] == patterns@[q as int].deep_view());
                        assert(patterns.deep_view()[p as int] == patterns.deep_view()[q as int]);
                        assert(!pats_distinct(patterns.deep_view()));
                    }
                    return Err(ConfigError::DuplicatePattern);
                }
                proof {
                    assert(patterns.deep_view()[p as int] == patterns@[p as int].deep_view());
                    assert(patterns.deep_view()[q as int] == patterns@[q as int].deep_view());
                    assert(patterns.deep_view()[p as int] != patterns.deep_view()[q as int]);
                }
                q += 1;
            }
            p += 1;
        }
        assert(pats_distinct(patterns.deep_view()));
        match ac_build(&patterns) {
            Some(ac) => Ok(Matcher { patterns, ac }),
            None => Err(ConfigError::MatcherBuild),
        }
    }

    /// What the matcher invariant gives every caller: the patterns are
    /// non-empty and pairwise distinct.
    pub proof fn lemma_wf_patterns(&self)
        requires
            self.wf(),
        ensures
            pats_wf(self.patterns_view()),
            pats_distinct(self.patterns_view()),
    {
    }

    /// How many patterns the matcher holds.
    pub fn pattern_count(&self) -> (n: usize)
        ensures
            n == self.patterns_view().len(),
    {
        proof {
            assert(self.patterns.deep_view().len() == self.patterns@.len());
        }
        self.patterns.len()
    }

    /// The bytes of pattern `p`.
    pub fn pattern(&self, p: usize) -> (r: &Vec<u8>)
        requires
            p < self.patterns_view().len(),
        ensures
            r.deep_view() == self.patterns_view()[p as int],
    {
        proof {
            assert(self.patterns.deep_view().len() == self.patterns@.len());
            assert(self.patterns@[p as int].deep_view() == self.patterns.deep_view()[p as int]);
        }
        &self.patterns[p]
    }

    /// All leftmost-longest matches over `input`, as `(offset, pattern
    /// index)` pairs in input order.
    pub fn find_matches(&self, input: &[u8]) -> (r: Vec<(usize, usize)>)
        requires
            self.wf(),
        ensures
            r@ == match_seq(self.patterns_view(), input@),
    {
        ac_find_all(&self.ac, input)
    }

    /// The emitted token indices over `input`, in match order; every index
    /// lies below the pattern count.
    pub fn tokenize(&self, input: &[u8]) -> (r: Vec<usize>)
        requires
            self.wf(),
        ensures
            r@ == match_tokens(self.patterns_view(), input@),
            forall|i: int| 0 <= i < r@.len() ==> (#[trigger] r@[i] as int)
                < self.patterns_view().len(),
    {
        let ms = self.find_matches(input);
        let mut r: Vec<usize> = Vec::new();
        let mut i: usize = 0;
        proof {
            lemma_tokens_in_range(self.patterns_view(), input@);
        }
        while i < ms.len()
            invariant
                i <= ms.len(),
                ms@ == match_seq(self.patterns_view(), input@),
                r@ == match_tokens(self.patterns_view(), input@).take(i as int),
            decreases ms.len() - i,
        {
            let m = ms[i];
            r.push(m.1);
            proof {
                assert(match_tokens(self.patterns_view(), input@).take(i + 1)
                    =~= match_tokens(self.patterns_view(), input@).take(i as int).push(
                    match_seq(self.patterns_view(), input@)[i as int].1,
                ));
            }
            i += 1;
        }
        proof {
            assert(match_tokens(self.patterns_view(), input@).take(ms@.len() as int)
                =~= match_tokens(self.patterns_view(), input@));
        }
        r
    }
}

/// Builds the multi-pattern tokenizer over a frozen token list; the same
/// construction as [`Matcher::new`], under the name the training and
/// serving tools call it by.
pub fn build_tokenizer(tokens: Vec<Vec<u8>>) -> (r: Result<Matcher, ConfigError>)
    ensures
        r matches Ok(m) ==> m.wf() && m.patterns_view() == tokens.deep_view(),
        r is Ok <==> tokens.deep_view().len() > 0 && pats_wf(tokens.deep_view())
            && pats_distinct(tokens.deep_view()) && ac_build_ok(tokens.deep_view()),
        r matches Err(e) && e == ConfigError::NoPatterns <==> tokens.deep_view().len() == 0,
        r matches Err(e) && e == ConfigError::EmptyPattern <==> tokens.deep_view().len() > 0
            && !pats_wf(tokens.deep_view()),
        r matches Err(e) && e == ConfigError::DuplicatePattern <==> tokens.deep_view().len() > 0
            && pats_wf(tokens.deep_view()) && !pats_distinct(tokens.deep_view()),
        r matches Err(e) && e == ConfigError::MatcherBuild <==> tokens.deep_view().len() > 0
            && pats_wf(tokens.deep_view()) && pats_distinct(tokens.deep_view()) && !ac_build_ok(
            tokens.deep_view()),
{
    Matcher::new(tokens)
}

/// Byte-for-byte equality of two byte vectors.
pub fn bytes_eq(a: &Vec<u8>, b: &Vec<u8>) -> (r: bool)
    ensures
        r == (a.deep_view() == b.deep_view()),
{
    if a.len() != b.len() {
        assert(a.deep_view().len() != b.deep_view().len());
        return false;
    }
    let mut i: usize = 0;
    while i < a.len()
        invariant
            i <= a.len(),
            a.len() == b.len(),
            forall|j: int| 0 <= j < i ==> a@[j] == b@[j],
        decreases a.len() - i,
    {
        if a[i] != b[i] {
            assert(a.deep_view()[i as int] != b.deep_view()[i as int]);
            return false;
        }
        i += 1;
    }
    proof {
        assert(a.deep_view() =~= b.deep_view());
    }
    true
}

} // verus!
