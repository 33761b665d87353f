use kt_core::batch::Batcher;
use kt_core::ConfigError;

fn one_token_vocab() -> Vec<Vec<u8>> {
    vec![b"a".to_vec()]
}

#[test]
fn batcher_m_threshold() {
    // B=2, L=4, M=4: three 10-token samples leave pop_batch empty; the
    // fourth yields a 2x4 batch drawn from those buckets.
    let mut b = Batcher::with_seed(2, 4, 4, one_token_vocab(), 7).unwrap();
    let ten = "aaaaaaaaaa";
    assert!(b.push_sample(ten.as_bytes()));
    assert!(b.push_sample(ten.as_bytes()));
    assert!(b.push_sample(ten.as_bytes()));
    assert!(b.pop_batch().is_none());
    assert!(b.push_sample(ten.as_bytes()));
    let batch = b.pop_batch().expect("four buckets are enough");
    assert_eq!(batch.batch_size, 2);
    assert_eq!(batch.seq_len, 4);
    assert_eq!(batch.tokens.len(), 2);
    for row in &batch.tokens {
        assert_eq!(row.len(), 4);
        // ten tokens minus a head offset below four leaves at least six, so
        // each row is a full window of token index zero
        for cell in row {
            assert_eq!(*cell, 0i32);
        }
    }
    assert_eq!(batch.samples.len(), 2);
    assert_eq!(batch.start_indices.len(), 2);
    for s in &batch.samples {
        assert!(*s < 4);
    }
    assert_eq!(b.stats().batch_count, 1);
}

#[test]
fn batcher_short_sample() {
    // B=1, L=8, M=1: a five-token sample fills one row's first five cells
    // and leaves -1 behind; the bucket is evicted on that same pop.
    let mut b = Batcher::with_seed(1, 8, 1, one_token_vocab(), 3).unwrap();
    assert!(b.push_sample("aaaaa".as_bytes()));
    let batch = b.pop_batch().expect("one bucket is enough");
    assert_eq!(batch.tokens.len(), 1);
    let row = &batch.tokens[0];
    assert_eq!(row.len(), 8);
    for i in 0..5 {
        assert_eq!(row[i], 0i32);
    }
    for i in 5..8 {
        assert_eq!(row[i], -1i32);
    }
    assert_eq!(batch.samples[0], 0);
    assert_eq!(batch.start_indices[0], 0);
    assert_eq!(b.bucket_len(), 0);
    assert!(b.pop_batch().is_none());
}

#[test]
fn batcher_sample_count_tracks_nonempty_pushes() {
    let mut b = Batcher::with_seed(1, 4, 1, vec![b"b".to_vec()], 1).unwrap();
    assert!(!b.push_sample(&[]));
    assert_eq!(b.stats().sample_count, 0);
    // tokens exist for none of these bytes, so no bucket is produced
    assert!(!b.push_sample("aaa".as_bytes()));
    assert_eq!(b.stats().sample_count, 0);
    assert!(b.push_sample("bb".as_bytes()));
    assert_eq!(b.stats().sample_count, 1);
    assert_eq!(b.stats().token_count, 2);
    assert!(b.push_sample("bbb".as_bytes()));
    assert_eq!(b.stats().sample_count, 2);
    assert_eq!(b.stats().token_count, 5);
}

#[test]
fn batcher_long_run_windows() {
    // A 23-token sample with L=4 and no offset possible only for short
    // samples; drain it window by window through repeated pops with M=1.
    let mut b = Batcher::with_seed(1, 4, 1, one_token_vocab(), 11).unwrap();
    let text: String = "a".repeat(23);
    assert!(b.push_sample(text.as_bytes()));
    let mut filled = 0usize;
    while let Some(batch) = b.pop_batch() {
        for row in &batch.tokens {
            filled += row.iter().filter(|c| **c >= 0).count();
        }
    }
    // the head offset drops up to three leading tokens, leaving 20 to 23;
    // full windows of four are drained until the remainder falls below
    // four, so exactly twenty cells are filled whatever the offset was
    assert_eq!(filled, 20);
    assert_eq!(b.stats().token_count, 23);
}

#[test]
fn batcher_config_errors() {
    let v = one_token_vocab();
    assert!(matches!(
        Batcher::new(0, 4, 4, v.clone()),
        Err(ConfigError::ZeroBatchSize)
    ));
    assert!(matches!(
        Batcher::new(2, 0, 4, v.clone()),
        Err(ConfigError::ZeroSeqLen)
    ));
    assert!(matches!(
        Batcher::new(2, 4, 0, v.clone()),
        Err(ConfigError::ZeroBucketCount)
    ));
    assert!(matches!(
        Batcher::new(4, 4, 2, v.clone()),
        Err(ConfigError::PoolTooSmall)
    ));
    assert!(matches!(
        Batcher::new(2, 4, 4, Vec::new()),
        Err(ConfigError::NoPatterns)
    ));
}
