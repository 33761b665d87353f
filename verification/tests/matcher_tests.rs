use kt_core::matcher::Matcher;
use kt_core::ConfigError;

fn forced_alphabet() -> Vec<Vec<u8>> {
    (0u16..255).map(|b| vec![b as u8]).collect()
}

#[test]
fn forced_alphabet_tokenizer() {
    let m = Matcher::new(forced_alphabet()).unwrap();
    let toks = m.tokenize("ab".as_bytes());
    assert_eq!(toks, vec![0x61usize, 0x62usize]);
}

#[test]
fn simple_merge_prefers_longest() {
    let pats = vec![b"a".to_vec(), b"b".to_vec(), b"ab".to_vec()];
    let m = Matcher::new(pats).unwrap();
    let toks = m.tokenize("ab".as_bytes());
    assert_eq!(toks, vec![2usize]);
}

#[test]
fn matcher_offsets_and_skips() {
    let pats = vec![b"a".to_vec(), b"ab".to_vec()];
    let m = Matcher::new(pats).unwrap();
    // bytes: x a b y a -- 'x' and 'y' match nothing and are skipped
    let ms = m.find_matches("xabya".as_bytes());
    assert_eq!(ms, vec![(1usize, 1usize), (4usize, 0usize)]);
}

#[test]
fn matcher_empty_input() {
    let m = Matcher::new(forced_alphabet()).unwrap();
    let toks = m.tokenize(&[]);
    assert!(toks.is_empty());
}

#[test]
fn matcher_no_patterns_refused() {
    let r = Matcher::new(Vec::new());
    assert!(matches!(r, Err(ConfigError::NoPatterns)));
}

#[test]
fn matcher_empty_pattern_refused() {
    let r = Matcher::new(vec![b"a".to_vec(), Vec::new()]);
    assert!(matches!(r, Err(ConfigError::EmptyPattern)));
}

#[test]
fn matcher_duplicate_pattern_refused() {
    let r = Matcher::new(vec![b"a".to_vec(), b"b".to_vec(), b"a".to_vec()]);
    assert!(matches!(r, Err(ConfigError::DuplicatePattern)));
}

#[test]
fn matcher_nonoverlapping_total_cover() {
    // With all byte values as patterns, every byte of valid UTF-8 is covered
    // exactly once, in order.
    let m = Matcher::new(forced_alphabet()).unwrap();
    let input = "hello world";
    let ms = m.find_matches(input.as_bytes());
    assert_eq!(ms.len(), input.len());
    for (i, (off, pidx)) in ms.iter().enumerate() {
        assert_eq!(*off, i);
        assert_eq!(*pidx, input.as_bytes()[i] as usize);
    }
}
