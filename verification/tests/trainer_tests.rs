use kt_core::matcher::Matcher;
use kt_core::trainer::{Trainer, TrainerConfig, FORCED_TOKEN_COUNT};
use kt_core::ConfigError;

fn config(max_tokens: usize) -> TrainerConfig {
    TrainerConfig {
        max_tokens,
        max_drops: 1024,
        threshold_drop_factor_milli: 2000,
        threshold_count: 2,
        threshold_samples: 1,
        count_decay_milli: 990,
    }
}

#[test]
fn trainer_config_errors() {
    let mut c = config(300);
    c.count_decay_milli = 1000;
    assert!(matches!(Trainer::new(c), Err(ConfigError::DecayOutOfRange)));
    let mut c = config(300);
    c.threshold_count = u32::MAX;
    assert!(matches!(
        Trainer::new(c),
        Err(ConfigError::ThresholdCountTooLarge)
    ));
    let mut c = config(300);
    c.threshold_drop_factor_milli = (u32::MAX as u64) + 1;
    assert!(matches!(
        Trainer::new(c),
        Err(ConfigError::DropFactorTooLarge)
    ));
    let c = config(255);
    assert!(matches!(Trainer::new(c), Err(ConfigError::VocabTooSmall)));
    let c = config(usize::MAX);
    assert!(matches!(Trainer::new(c), Err(ConfigError::VocabTooLarge)));
}

#[test]
fn trainer_starts_with_forced_alphabet() {
    let t = Trainer::new(config(300)).unwrap();
    let toks = t.tokens();
    assert_eq!(toks.len(), FORCED_TOKEN_COUNT);
    for (i, tok) in toks.iter().enumerate() {
        assert_eq!(tok, &vec![i as u8]);
    }
    assert!(!t.is_done());
}

#[test]
fn trainer_merges_hot_pair() {
    let mut t = Trainer::new(config(256)).unwrap();
    // one long run of a single byte makes (a, a) the hottest pair at once
    let sample = "a".repeat(50);
    let done = t.push_sample(sample.as_bytes()).unwrap();
    assert!(done);
    let toks = t.tokens();
    assert_eq!(toks.len(), 256);
    assert_eq!(toks[255], b"aa".to_vec());
}

#[test]
fn trainer_rewind_terminates() {
    // Training over a small corpus replayed from the start must reach the
    // vocabulary bound.  Five ten-letter groups allow nine merges each:
    // exactly the forty-five tokens the bound asks for beyond the alphabet.
    let mut t = Trainer::new(config(300)).unwrap();
    let line = "abcdefghij klmnopqrst uvwxyz0123 456789ABCD EFGHIJKLMN ";
    let corpus: Vec<String> = (0..10).map(|_| line.repeat(50)).collect();
    let mut passes = 0usize;
    'outer: loop {
        passes += 1;
        assert!(passes < 1_000, "training did not terminate");
        for s in &corpus {
            if t.is_done() {
                break 'outer;
            }
            t.push_sample(s.as_bytes()).unwrap();
        }
    }
    assert!(t.is_done());
    assert_eq!(t.tokens().len(), 300);
    assert!(passes > 1, "the corpus was replayed at least once");
}

#[test]
fn trainer_whitespace_boundary() {
    // With letters separated by runs of spaces, a letter is never merged
    // with a space: no token mixes whitespace and non-whitespace bytes.
    let mut t = Trainer::new(config(257)).unwrap();
    let sample = "x   x   x   x   x   x   x   x   x   x";
    let mut rounds = 0usize;
    while !t.is_done() {
        rounds += 1;
        assert!(rounds < 1_000, "training did not terminate");
        t.push_sample(sample.as_bytes()).unwrap();
    }
    for tok in t.tokens() {
        let has_ws = tok.iter().any(|b| (*b as char).is_whitespace());
        let has_non_ws = tok.iter().any(|b| !(*b as char).is_whitespace());
        assert!(
            !(has_ws && has_non_ws),
            "token mixes whitespace and non-whitespace: {:?}",
            tok
        );
    }
}

#[test]
fn trainer_vocabulary_invariants() {
    let mut t = Trainer::new(config(260)).unwrap();
    let sample = "a".repeat(400);
    let mut rounds = 0usize;
    while !t.is_done() {
        rounds += 1;
        assert!(rounds < 1_000, "training did not terminate");
        t.push_sample(sample.as_bytes()).unwrap();
    }
    let toks = t.tokens();
    // forced tokens first, in byte order
    for i in 0..FORCED_TOKEN_COUNT {
        assert_eq!(toks[i], vec![i as u8]);
    }
    // no two tokens share content
    for i in 0..toks.len() {
        for j in (i + 1)..toks.len() {
            assert_ne!(toks[i], toks[j]);
        }
    }
    // every merged token concatenates two tokens that exist in the list
    // (this run evicts nothing, so every parent is still present)
    assert!(t.dropped().is_empty());
    for i in FORCED_TOKEN_COUNT..toks.len() {
        let tok = &toks[i];
        let mut explained = false;
        for x in 0..toks.len() {
            for y in 0..toks.len() {
                if toks[x].len() + toks[y].len() == tok.len() {
                    let mut cat = toks[x].clone();
                    cat.extend_from_slice(&toks[y]);
                    if &cat == tok {
                        explained = true;
                    }
                }
            }
        }
        assert!(explained, "token {:?} is not a concatenation", tok);
    }
}

#[test]
fn trainer_roundtrip_matcher() {
    let mut t = Trainer::new(config(258)).unwrap();
    let sample = "ab".repeat(200);
    let mut rounds = 0usize;
    while !t.is_done() {
        rounds += 1;
        assert!(rounds < 1_000, "training did not terminate");
        t.push_sample(sample.as_bytes()).unwrap();
    }
    let toks = t.tokens();
    let vocab_len = toks.len();
    let m = Matcher::new(toks).unwrap();
    let ids = m.tokenize("the quick brown fox! \u{0}\u{7f}".as_bytes());
    assert!(!ids.is_empty());
    for id in ids {
        assert!(id < vocab_len);
    }
}

#[test]
fn trainer_drops_dead_token() {
    // With full decay, the counters of "aa" are wiped after its merge; once
    // "aa" takes part in the next merge its remaining count is absorbed and
    // reaches zero, so it is evicted in that same epoch.
    let mut cfg = config(400);
    cfg.count_decay_milli = 0;
    let mut t = Trainer::new(cfg).unwrap();
    t.push_sample("a".repeat(50).as_bytes()).unwrap();
    assert_eq!(t.token_count(), 256);
    t.push_sample("a".repeat(50).as_bytes()).unwrap();
    let dropped = t.dropped();
    assert!(!dropped.is_empty(), "no token was evicted");
    assert_eq!(dropped[0].0, b"aa".to_vec());
    assert_eq!(dropped[0].1, 0u32);
    // what was recorded as dropped no longer appears in the vocabulary
    let toks = t.tokens();
    for (bytes, _count) in dropped {
        assert!(!toks.contains(bytes), "dropped token still present");
    }
}
