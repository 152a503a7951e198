//! Fully qualified domain names in their wire encoding.
//!
//! A name is kept as the byte sequence of RFC 1035: each label is preceded by
//! its length, and a nul byte ends the name. `github.com.` is exactly
//! `b"\x06github\x03com\x00"`. Names compare, order and hash without regard
//! to the case of their letters, because every stored letter is in lower
//! case.
//!
//! [`FQDN`] owns its bytes and [`Fqdn`] borrows them. Both are seen in
//! contracts as the sequence of their labels. What is accepted as a name is
//! decided by a [`Config`], which every function that reads or writes names
//! takes; the default is the most lenient one.
//!
//! The modules, from the ground up:
//!
//! - [`alphabet`]: the table of character classes;
//! - [`wire`]: the model of names and of their encoding;
//! - [`check`]: validation of byte sequences;
//! - [`text`]: reading and writing of dotted text;
//! - [`relations`]: equality, order and the subdomain relation;
//! - [`fqdnref`] and [`fqdn`]: the two types;
//! - [`punycode`]: names in Unicode;
//! - [`parse`]: the ways into a name that choose between ASCII and Unicode;
//! - [`laws`]: what holds of all of this together.

pub mod alphabet;
pub mod ascii;
pub mod check;
pub mod config;
pub mod error;
pub mod fqdn;
pub mod fqdnref;
pub mod laws;
pub mod parse;
pub mod punycode;
pub mod relations;
pub mod text;
pub mod wire;

pub use crate::alphabet::{check_and_lower_any_char, check_any_char};
pub use crate::check::check_byte_sequence;
pub use crate::config::Config;
pub use crate::error::Error;
pub use crate::fqdn::FQDN;
pub use crate::fqdnref::Fqdn;
