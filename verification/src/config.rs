//! The policy under which names are validated, parsed and printed.

use vstd::prelude::*;

verus! {

/// The rules that a domain name is held to.
///
/// Every flag narrows what is accepted; with all flags off the policy is the
/// most lenient one, which is also the default.
#[derive(Debug, Clone, Copy, PartialEq, Eq, Hash)]
pub struct Config {
    /// A label holds at most 63 bytes (otherwise at most 255).
    pub label_length_limited_to_63: bool,
    /// The encoded name holds at most 255 bytes (otherwise at most `u32::MAX`).
    pub name_length_limited_to_255: bool,
    /// Only letters, digits and the hyphen are allowed (otherwise also `_` and `#`).
    pub name_without_special_chars: bool,
    /// Every label begins with a letter.
    pub label_should_start_with_letter: bool,
    /// No label begins or ends with a hyphen.
    pub label_cannot_start_or_end_with_hyphen: bool,
    /// Text must end with a dot, and is printed with one.
    pub name_should_have_trailing_dot: bool,
    /// Text is read as Unicode and labels are stored in their ASCII-compatible form.
    pub punycode: bool,
}

impl Config {
    /// The most lenient policy: every flag is off.
    pub open spec fn spec_relaxed() -> Config {
        Config {
            label_length_limited_to_63: false,
            name_length_limited_to_255: false,
            name_without_special_chars: false,
            label_should_start_with_letter: false,
            label_cannot_start_or_end_with_hyphen: false,
            name_should_have_trailing_dot: false,
            punycode: false,
        }
    }

    /// The policy of the Internet standards: short labels, short names, the
    /// plain alphabet, a leading letter and a trailing dot.
    pub open spec fn spec_strict_rfc() -> Config {
        Config {
            label_length_limited_to_63: true,
            name_length_limited_to_255: true,
            name_without_special_chars: true,
            label_should_start_with_letter: true,
            label_cannot_start_or_end_with_hyphen: false,
            name_should_have_trailing_dot: true,
            punycode: false,
        }
    }

    /// The largest number of bytes in one label.
    pub open spec fn label_limit(self) -> int {
        if self.label_length_limited_to_63 {
            63
        } else {
            255
        }
    }

    /// The largest number of bytes in an encoded name, terminator included.
    pub open spec fn name_limit(self) -> int {
        if self.name_length_limited_to_255 {
            255
        } else {
            0xffff_ffff
        }
    }

    /// Whether `self` is no more lenient than `other`: each restriction of
    /// `other` is also one of `self`. The trailing dot is a matter of text,
    /// not of names, and is left out here; so is the reading of Unicode.
    pub open spec fn at_least_as_strict_as(self, other: Config) -> bool {
        &&& other.label_length_limited_to_63 ==> self.label_length_limited_to_63
        &&& other.name_length_limited_to_255 ==> self.name_length_limited_to_255
        &&& other.name_without_special_chars ==> self.name_without_special_chars
        &&& other.label_should_start_with_letter ==> self.label_should_start_with_letter
        &&& other.label_cannot_start_or_end_with_hyphen
            ==> self.label_cannot_start_or_end_with_hyphen
    }

    #[verifier::when_used_as_spec(spec_relaxed)]
    pub fn relaxed() -> (cfg: Config)
        ensures
            cfg == Config::spec_relaxed(),
    {
        Config {
            label_length_limited_to_63: false,
            name_length_limited_to_255: false,
            name_without_special_chars: false,
            label_should_start_with_letter: false,
            label_cannot_start_or_end_with_hyphen: false,
            name_should_have_trailing_dot: false,
            punycode: false,
        }
    }

    #[verifier::when_used_as_spec(spec_strict_rfc)]
    pub fn strict_rfc() -> (cfg: Config)
        ensures
            cfg == Config::spec_strict_rfc(),
    {
        Config {
            label_length_limited_to_63: true,
            name_length_limited_to_255: true,
            name_without_special_chars: true,
            label_should_start_with_letter: true,
            label_cannot_start_or_end_with_hyphen: false,
            name_should_have_trailing_dot: true,
            punycode: false,
        }
    }

    /// The largest number of bytes in one label, as a machine integer.
    pub fn max_label_len(&self) -> (n: usize)
        ensures
            n == self.label_limit(),
    {
        if self.label_length_limited_to_63 {
            63
        } else {
            255
        }
    }

    /// Whether an encoded name of `len` bytes is within the limit.
    pub fn name_fits(&self, len: usize) -> (fits: bool)
        ensures
            fits == (len <= self.name_limit()),
    {
        if self.name_length_limited_to_255 {
            len <= 255
        } else {
            len as u64 <= 0xffff_ffffu64
        }
    }
}

impl Default for Config {
    fn default() -> (cfg: Config)
        ensures
            cfg == Config::relaxed(),
    {
        Config::relaxed()
    }
}

} // verus!
