//! Per-sample filtering and normalization.
//!
//! Decoding the corpus and parsing its lines is plumbing that stays outside
//! the library; what reaches this module is one decoded sample at a time.
//! The decisions taken on it — skipping right-to-left text and normalizing —
//! are made here.

use unicode_normalization::UnicodeNormalization;
use vstd::prelude::*;

use crate::unicode::{str_is_ltr, str_is_ltr_spec};

verus! {

/// The metadata object carried with each corpus sample.
pub struct Meta {
    /// Which sub-corpus the sample came from.
    pub pile_set_name: String,
}

/// One corpus sample: its text and its metadata.
pub struct Sample {
    /// The sample text.
    pub text: String,
    /// The sample metadata.
    pub meta: Meta,
}

/// The canonical composition (NFC) normal form of a character sequence.
pub uninterp spec fn nfc_of(s: Seq<char>) -> Seq<char>;

/// Relies on `unicode_normalization`'s `nfc`: the normal form depends on the
/// characters alone, and an empty string stays empty.
#[verifier::external_body]
fn nfc_normalize(s: &str) -> (r: String)
    ensures
        r@ == nfc_of(s@),
        s@.len() == 0 ==> r@.len() == 0,
{
    s.nfc().collect::<String>()
}

/// The per-sample policy of a sample stream: whether right-to-left samples
/// are skipped and whether the text is normalized.
pub struct SampleReader {
    remove_rtl: bool,
    normalize: bool,
}

impl SampleReader {
    /// Whether samples holding right-to-left text are skipped.
    pub closed spec fn remove_rtl_spec(&self) -> bool {
        self.remove_rtl
    }

    /// Whether sample text is brought into NFC normal form.
    pub closed spec fn normalize_spec(&self) -> bool {
        self.normalize
    }

    /// A reader with the given policy.
    pub fn new(remove_rtl: bool, normalize: bool) -> (r: Self)
        ensures
            r.remove_rtl_spec() == remove_rtl,
            r.normalize_spec() == normalize,
    {
        SampleReader { remove_rtl, normalize }
    }

    /// What becomes of one decoded sample: nothing when right-to-left text
    /// is being removed and the text is not left-to-right; otherwise the
    /// sample itself, with its text normalized when normalization is on and
    /// its metadata untouched.
    pub fn process(&self, sample: Sample) -> (r: Option<Sample>)
        ensures
            (self.remove_rtl_spec() && !str_is_ltr_spec(sample.text@)) ==> r is None,
            !(self.remove_rtl_spec() && !str_is_ltr_spec(sample.text@)) ==> (r matches Some(out)
                && out.meta == sample.meta && out.text@ == (if self.normalize_spec() {
                nfc_of(sample.text@)
            } else {
                sample.text@
            })),
    {
        if self.remove_rtl && !str_is_ltr(sample.text.as_str()) {
            return None;
        }
        if self.normalize {
            let text = nfc_normalize(sample.text.as_str());
            Some(Sample { text, meta: sample.meta })
        } else {
            Some(sample)
        }
    }
}

} // verus!
