use kt_core::below_limit;
use kt_core::batch::Stats;
use kt_core::iter::{FlatRepeatResult, PullStep};
use kt_core::pipeline::{PassOutcome, ProducerControl};
use kt_core::sample::{Meta, Sample, SampleReader};

fn sample(text: &str) -> Sample {
    Sample {
        text: text.to_string(),
        meta: Meta {
            pile_set_name: "test-set".to_string(),
        },
    }
}

#[test]
fn reader_keeps_ltr_sample() {
    let r = SampleReader::new(true, false);
    let out = r.process(sample("plain text")).expect("kept");
    assert_eq!(out.text, "plain text");
    assert_eq!(out.meta.pile_set_name, "test-set");
}

#[test]
fn reader_skips_rtl_sample() {
    let r = SampleReader::new(true, false);
    assert!(r.process(sample("shalom \u{05D0}")).is_none());
    // with the filter off the same sample is kept
    let r = SampleReader::new(false, false);
    assert!(r.process(sample("shalom \u{05D0}")).is_some());
}

#[test]
fn reader_normalizes_text() {
    let r = SampleReader::new(true, true);
    // "e" followed by a combining acute accent composes to a single char
    let out = r.process(sample("caf\u{0065}\u{0301}")).expect("kept");
    assert_eq!(out.text, "caf\u{00E9}");
    assert_eq!(out.meta.pile_set_name, "test-set");
    // without normalization the text passes through untouched
    let r = SampleReader::new(true, false);
    let out = r.process(sample("caf\u{0065}\u{0301}")).expect("kept");
    assert_eq!(out.text, "caf\u{0065}\u{0301}");
}

#[test]
fn rewind_state_machine() {
    let mut f = FlatRepeatResult::new();
    // nothing is open yet: the factory goes first
    assert_eq!(f.next_step(), PullStep::InvokeFactory);
    f.on_factory_result(true);
    assert_eq!(f.next_step(), PullStep::PullInner);
    // the inner sequence ends: back to the factory
    f.on_inner_exhausted();
    assert_eq!(f.next_step(), PullStep::InvokeFactory);
    // a failing factory leaves nothing open, so the next pull retries it
    f.on_factory_result(false);
    assert_eq!(f.next_step(), PullStep::InvokeFactory);
}

#[test]
fn producer_pass_control() {
    let mut c = ProducerControl::new();
    c.note_push(false);
    c.note_push(false);
    // an empty pass stops the producer
    assert_eq!(c.finish_pass(), PassOutcome::Stop);
    c.note_push(false);
    c.note_push(true);
    c.note_push(false);
    // a productive pass rewinds, and the next pass starts clean
    assert_eq!(c.finish_pass(), PassOutcome::Rewind);
    assert_eq!(c.finish_pass(), PassOutcome::Stop);
}

#[test]
fn below_limit_cases() {
    assert!(below_limit(5, None));
    assert!(below_limit(usize::MAX, None));
    assert!(below_limit(4, Some(5)));
    assert!(!below_limit(5, Some(5)));
    assert!(!below_limit(6, Some(5)));
}

#[test]
fn stats_default_is_zero() {
    let s = Stats::default();
    assert_eq!(s.sample_count, 0);
    assert_eq!(s.token_count, 0);
    assert_eq!(s.batch_count, 0);
}
