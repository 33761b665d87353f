//! Left-to-right text detection over Unicode bidirectional classes.
//!
//! The classification of a character into a bidi class is delegated to the
//! `unicode_bidi` crate; everything that is decided from that class is
//! verified here.

use vstd::prelude::*;

verus! {

/// The Unicode bidirectional character classes, mirrored one variant for one
/// variant from `unicode_bidi::BidiClass` so that verified code can inspect
/// them.
#[derive(Clone, Copy, Debug, PartialEq, Eq, Structural)]
pub enum BidiCategory {
    /// Left-to-Right
    L,
    /// European Number
    EN,
    /// European Separator
    ES,
    /// European Terminator
    ET,
    /// Common Separator
    CS,
    /// Nonspacing Mark
    NSM,
    /// Boundary Neutral
    BN,
    /// Paragraph Separator
    B,
    /// Segment Separator
    S,
    /// Whitespace
    WS,
    /// Other Neutral
    ON,
    /// Arabic Letter
    AL,
    /// Arabic Number
    AN,
    /// Right-to-Left
    R,
    /// Left-to-Right Embedding
    LRE,
    /// Left-to-Right Override
    LRO,
    /// Right-to-Left Embedding
    RLE,
    /// Right-to-Left Override
    RLO,
    /// Pop Directional Format
    PDF,
    /// Left-to-Right Isolate
    LRI,
    /// Right-to-Left Isolate
    RLI,
    /// First Strong Isolate
    FSI,
    /// Pop Directional Isolate
    PDI,
}

/// The bidi class that the Unicode character database assigns to `c`,
/// encoded as the class's position in the declaration order of
/// `unicode_bidi::BidiClass` (which lists its 23 variants alphabetically).
pub uninterp spec fn char_bidi_code(c: char) -> u8;

/// Relies on `unicode_bidi::bidi_class`: the class depends on the character
/// alone, and the fieldless class enum casts to its declaration index, which
/// lies below the variant count.
#[verifier::external_body]
fn bidi_class_code(c: char) -> (r: u8)
    ensures
        r == char_bidi_code(c),
        r < 23,
{
    unicode_bidi::bidi_class(c) as u8
}

/// The bidi category behind a declaration-order class code; the names are
/// alphabetical in the foreign enum, and any out-of-range code falls back to
/// Other Neutral.
pub open spec fn code_to_category(code: u8) -> BidiCategory {
    if code == 0 {
        BidiCategory::AL
    } else if code == 1 {
        BidiCategory::AN
    } else if code == 2 {
        BidiCategory::B
    } else if code == 3 {
        BidiCategory::BN
    } else if code == 4 {
        BidiCategory::CS
    } else if code == 5 {
        BidiCategory::EN
    } else if code == 6 {
        BidiCategory::ES
    } else if code == 7 {
        BidiCategory::ET
    } else if code == 8 {
        BidiCategory::FSI
    } else if code == 9 {
        BidiCategory::L
    } else if code == 10 {
        BidiCategory::LRE
    } else if code == 11 {
        BidiCategory::LRI
    } else if code == 12 {
        BidiCategory::LRO
    } else if code == 13 {
        BidiCategory::NSM
    } else if code == 14 {
        BidiCategory::ON
    } else if code == 15 {
        BidiCategory::PDF
    } else if code == 16 {
        BidiCategory::PDI
    } else if code == 17 {
        BidiCategory::R
    } else if code == 18 {
        BidiCategory::RLE
    } else if code == 19 {
        BidiCategory::RLI
    } else if code == 20 {
        BidiCategory::RLO
    } else if code == 21 {
        BidiCategory::S
    } else {
        BidiCategory::WS
    }
}

/// The bidi class that the Unicode character database assigns to `c`.
pub open spec fn char_bidi(c: char) -> BidiCategory {
    code_to_category(char_bidi_code(c))
}

/// Decodes a declaration-order class code into its category.
fn category_of_code(code: u8) -> (r: BidiCategory)
    ensures
        r == code_to_category(code),
{
    if code == 0 {
        BidiCategory::AL
    } else if code == 1 {
        BidiCategory::AN
    } else if code == 2 {
        BidiCategory::B
    } else if code == 3 {
        BidiCategory::BN
    } else if code == 4 {
        BidiCategory::CS
    } else if code == 5 {
        BidiCategory::EN
    } else if code == 6 {
        BidiCategory::ES
    } else if code == 7 {
        BidiCategory::ET
    } else if code == 8 {
        BidiCategory::FSI
    } else if code == 9 {
        BidiCategory::L
    } else if code == 10 {
        BidiCategory::LRE
    } else if code == 11 {
        BidiCategory::LRI
    } else if code == 12 {
        BidiCategory::LRO
    } else if code == 13 {
        BidiCategory::NSM
    } else if code == 14 {
        BidiCategory::ON
    } else if code == 15 {
        BidiCategory::PDF
    } else if code == 16 {
        BidiCategory::PDI
    } else if code == 17 {
        BidiCategory::R
    } else if code == 18 {
        BidiCategory::RLE
    } else if code == 19 {
        BidiCategory::RLI
    } else if code == 20 {
        BidiCategory::RLO
    } else if code == 21 {
        BidiCategory::S
    } else {
        BidiCategory::WS
    }
}

/// The category of one character, through the class table.
pub fn bidi_category(c: char) -> (r: BidiCategory)
    ensures
        r == char_bidi(c),
{
    category_of_code(bidi_class_code(c))
}

/// A class keeps text left-to-right when it is an ordinary LTR class; the
/// right-to-left classes and all explicit formatting classes do not.
pub open spec fn category_is_ltr(class: BidiCategory) -> bool {
    match class {
        BidiCategory::L
        | BidiCategory::EN
        | BidiCategory::ES
        | BidiCategory::ET
        | BidiCategory::CS
        | BidiCategory::NSM
        | BidiCategory::BN
        | BidiCategory::B
        | BidiCategory::S
        | BidiCategory::WS
        | BidiCategory::ON => true,
        _ => false,
    }
}

/// Decides whether a bidi class is one of the left-to-right classes.
pub fn class_is_ltr(class: BidiCategory) -> (r: bool)
    ensures
        r == category_is_ltr(class),
{
    match class {
        BidiCategory::L
        | BidiCategory::EN
        | BidiCategory::ES
        | BidiCategory::ET
        | BidiCategory::CS
        | BidiCategory::NSM
        | BidiCategory::BN
        | BidiCategory::B
        | BidiCategory::S
        | BidiCategory::WS
        | BidiCategory::ON => true,
        BidiCategory::AL | BidiCategory::AN | BidiCategory::R => false,
        BidiCategory::LRE
        | BidiCategory::LRO
        | BidiCategory::RLE
        | BidiCategory::RLO
        | BidiCategory::PDF
        | BidiCategory::LRI
        | BidiCategory::RLI
        | BidiCategory::FSI
        | BidiCategory::PDI => false,
    }
}

/// A character counts as left-to-right when it lies below the first block
/// that holds right-to-left characters, and otherwise when its bidi class is
/// a left-to-right class.
pub open spec fn char_is_ltr_spec(c: char) -> bool {
    if (c as u32) < 0x590 {
        true
    } else {
        category_is_ltr(char_bidi(c))
    }
}

/// Decides whether one character is left-to-right, taking the short cut for
/// the blocks below the first right-to-left block.
pub fn char_is_ltr(c: char) -> (r: bool)
    ensures
        r == char_is_ltr_spec(c),
{
    if (c as u32) < 0x590 {
        true
    } else {
        class_is_ltr(bidi_category(c))
    }
}

/// The byte, read as a character, is Unicode whitespace.  Of the characters
/// below `U+0100` exactly tab through carriage return, space, next line and
/// no-break space carry the White_Space property.
pub open spec fn byte_is_whitespace_spec(b: u8) -> bool {
    b == 0x09 || b == 0x0a || b == 0x0b || b == 0x0c || b == 0x0d || b == 0x20 || b == 0x85 || b
        == 0xa0
}

/// Decides whether a byte, read as a character, is whitespace.
pub fn byte_is_whitespace(b: u8) -> (r: bool)
    ensures
        r == byte_is_whitespace_spec(b),
{
    b == 0x09 || b == 0x0a || b == 0x0b || b == 0x0c || b == 0x0d || b == 0x20 || b == 0x85 || b
        == 0xa0
}

/// A string is left-to-right when every one of its characters is.
pub open spec fn str_is_ltr_spec(s: Seq<char>) -> bool {
    forall|i: int| 0 <= i < s.len() ==> char_is_ltr_spec(s[i])
}

/// Decides whether every character of `s` is left-to-right.
pub fn str_is_ltr(s: &str) -> (r: bool)
    ensures
        r == str_is_ltr_spec(s@),
{
    let mut r = true;
    for c in it: s.chars()
        invariant
            it.seq() == s@,
            r == (forall|i: int| 0 <= i < it.index() ==> char_is_ltr_spec(s@[i])),
    {
        if !char_is_ltr(c) {
            r = false;
        }
    }
    r
}

} // verus!
