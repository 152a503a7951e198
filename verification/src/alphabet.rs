//! The alphabet of labels, as a table from bytes to classes.
//!
//! Two bytes stand for the same character of a name exactly when they have
//! the same class and that class is not zero. A letter and its other case
//! share a class; every byte that no label may hold has the class zero.

use vstd::prelude::*;
use crate::config::Config;
use crate::error::Error;

verus! {

/// The class of every byte: the lower-case letter for a letter of either
/// case, the byte itself for a digit, `-`, `_` and `#`, and zero for the rest.
pub const CLASS_TABLE: [u8; 256] = [
    0x00, 0x00, 0x00, 0x00, 0x00, 0x00, 0x00, 0x00, 0x00, 0x00, 0x00, 0x00, 0x00, 0x00, 0x00, 0x00,
    0x00, 0x00, 0x00, 0x00, 0x00, 0x00, 0x00, 0x00, 0x00, 0x00, 0x00, 0x00, 0x00, 0x00, 0x00, 0x00,
    0x00, 0x00, 0x00, 0x23, 0x00, 0x00, 0x00, 0x00, 0x00, 0x00, 0x00, 0x00, 0x00, 0x2d, 0x00, 0x00,
    0x30, 0x31, 0x32, 0x33, 0x34, 0x35, 0x36, 0x37, 0x38, 0x39, 0x00, 0x00, 0x00, 0x00, 0x00, 0x00,
    0x00, 0x61, 0x62, 0x63, 0x64, 0x65, 0x66, 0x67, 0x68, 0x69, 0x6a, 0x6b, 0x6c, 0x6d, 0x6e, 0x6f,
    0x70, 0x71, 0x72, 0x73, 0x74, 0x75, 0x76, 0x77, 0x78, 0x79, 0x7a, 0x00, 0x00, 0x00, 0x00, 0x5f,
    0x00, 0x61, 0x62, 0x63, 0x64, 0x65, 0x66, 0x67, 0x68, 0x69, 0x6a, 0x6b, 0x6c, 0x6d, 0x6e, 0x6f,
    0x70, 0x71, 0x72, 0x73, 0x74, 0x75, 0x76, 0x77, 0x78, 0x79, 0x7a, 0x00, 0x00, 0x00, 0x00, 0x00,
    0x00, 0x00, 0x00, 0x00, 0x00, 0x00, 0x00, 0x00, 0x00, 0x00, 0x00, 0x00, 0x00, 0x00, 0x00, 0x00,
    0x00, 0x00, 0x00, 0x00, 0x00, 0x00, 0x00, 0x00, 0x00, 0x00, 0x00, 0x00, 0x00, 0x00, 0x00, 0x00,
    0x00, 0x00, 0x00, 0x00, 0x00, 0x00, 0x00, 0x00, 0x00, 0x00, 0x00, 0x00, 0x00, 0x00, 0x00, 0x00,
    0x00, 0x00, 0x00, 0x00, 0x00, 0x00, 0x00, 0x00, 0x00, 0x00, 0x00, 0x00, 0x00, 0x00, 0x00, 0x00,
    0x00, 0x00, 0x00, 0x00, 0x00, 0x00, 0x00, 0x00, 0x00, 0x00, 0x00, 0x00, 0x00, 0x00, 0x00, 0x00,
    0x00, 0x00, 0x00, 0x00, 0x00, 0x00, 0x00, 0x00, 0x00, 0x00, 0x00, 0x00, 0x00, 0x00, 0x00, 0x00,
    0x00, 0x00, 0x00, 0x00, 0x00, 0x00, 0x00, 0x00, 0x00, 0x00, 0x00, 0x00, 0x00, 0x00, 0x00, 0x00,
    0x00, 0x00, 0x00, 0x00, 0x00, 0x00, 0x00, 0x00, 0x00, 0x00, 0x00, 0x00, 0x00, 0x00, 0x00, 0x00,
];

/// Whether `c` is a lower-case ASCII letter.
pub open spec fn is_lower_letter(c: u8) -> bool {
    0x61 <= c <= 0x7a
}

/// Whether `c` is an upper-case ASCII letter.
pub open spec fn is_upper_letter(c: u8) -> bool {
    0x41 <= c <= 0x5a
}

/// Whether `c` is an ASCII digit.
pub open spec fn is_digit(c: u8) -> bool {
    0x30 <= c <= 0x39
}

/// Whether `c` is one of the two characters beyond letters, digits and the
/// hyphen that the lenient alphabet allows: `_` and `#`.
pub open spec fn is_special(c: u8) -> bool {
    c == 0x5f || c == 0x23
}

/// The class of a byte in the widest alphabet.
pub open spec fn char_class(c: u8) -> u8 {
    if is_lower_letter(c) || is_digit(c) || c == 0x2d || is_special(c) {
        c
    } else if is_upper_letter(c) {
        (c + 0x20) as u8
    } else {
        0
    }
}

/// The class of a byte under a policy: as [`char_class`], but zero for the
/// special characters where the policy leaves them out.
pub open spec fn folded(c: u8, cfg: Config) -> u8 {
    if cfg.name_without_special_chars && is_special(c) {
        0
    } else {
        char_class(c)
    }
}

/// Whether `c` may stand in a stored label: it is in the alphabet of the
/// policy and, if a letter, in lower case.
pub open spec fn is_label_char(c: u8, cfg: Config) -> bool {
    c != 0 && folded(c, cfg) == c
}

/// What the table says of each kind of byte.
pub proof fn lemma_class_table(c: u8)
    ensures
        is_upper_letter(c) ==> char_class(c) == c + 0x20 && char_class(c) == char_class(
            (c + 0x20) as u8,
        ),
        is_lower_letter(c) || is_digit(c) || c == 0x2d || is_special(c) ==> char_class(c) == c,
        !(is_upper_letter(c) || is_lower_letter(c) || is_digit(c) || c == 0x2d || is_special(c))
            ==> char_class(c) == 0,
        char_class(char_class(c)) == char_class(c),
        char_class(c) != 0 ==> char_class(c) < 0x80,
        char_class(0x2e) == 0,
{
}

/// Two bytes of one class are the same character: equal, or a letter in its
/// two cases.
pub proof fn lemma_same_class(a: u8, b: u8)
    requires
        char_class(a) == char_class(b),
        char_class(a) != 0,
    ensures
        a == b || a == b + 0x20 || b == a + 0x20,
        (a == b + 0x20 ==> is_upper_letter(b)),
        (b == a + 0x20 ==> is_upper_letter(a)),
{
}

/// Looks a byte up in [`CLASS_TABLE`].
pub fn class_of(c: u8) -> (class: u8)
    ensures
        class == char_class(c),
{
    CLASS_TABLE[c as usize]
}

/// The class of a byte under a policy.
pub fn fold_char(c: u8, cfg: Config) -> (class: u8)
    ensures
        class == folded(c, cfg),
{
    if cfg.name_without_special_chars && (c == 0x5f || c == 0x23) {
        0
    } else {
        class_of(c)
    }
}

/// Accepts a byte that may stand in a stored label as it is.
pub fn check_any_char(c: u8, cfg: Config) -> (r: Result<u8, Error>)
    ensures
        r == (if is_label_char(c, cfg) {
            Ok::<u8, Error>(c)
        } else {
            Err::<u8, Error>(Error::InvalidLabelChar)
        }),
{
    if c != 0 && fold_char(c, cfg) == c {
        Ok(c)
    } else {
        Err(Error::InvalidLabelChar)
    }
}

/// Accepts a byte of the alphabet in either case and gives its stored form.
pub fn check_and_lower_any_char(c: u8, cfg: Config) -> (r: Result<u8, Error>)
    ensures
        r == (if folded(c, cfg) != 0 {
            Ok::<u8, Error>(folded(c, cfg))
        } else {
            Err::<u8, Error>(Error::InvalidLabelChar)
        }),
        r matches Ok(l) ==> is_label_char(l, cfg),
{
    let class = fold_char(c, cfg);
    if class != 0 {
        Ok(class)
    } else {
        Err(Error::InvalidLabelChar)
    }
}

} // verus!
