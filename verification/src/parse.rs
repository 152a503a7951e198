//! The ways into a name that choose between ASCII and Unicode text: from
//! one text, from several pieces of text, and from the bytes of a C string.

use vstd::prelude::*;
use vstd::string::StringSliceAdditionalSpecFns;
use vstd::utf8::valid_utf8;
use crate::alphabet::is_upper_letter;
use crate::ascii::str_from_utf8;
use crate::check::check_sequence;
use crate::config::Config;
use crate::error::Error;
use crate::fqdn::FQDN;
use crate::fqdnref::Fqdn;
use crate::punycode::puny_text;
use crate::text::{append_bytes, dotted, lemma_dotted_push, parse_text};
use crate::wire::{labels_of, valid_name, DOT};

verus! {

/// The name that a dotted text stands for: read as Unicode where the policy
/// says so, else as ASCII.
pub open spec fn name_of_text(text: Seq<u8>, cfg: Config) -> Result<Seq<Seq<u8>>, Error> {
    if cfg.punycode {
        puny_text(text, cfg)
    } else {
        parse_text(text, cfg)
    }
}

/// The UTF-8 bytes of each piece of text.
pub open spec fn parts_bytes(parts: Seq<&str>) -> Seq<Seq<u8>> {
    Seq::new(parts.len(), |i: int| parts[i].spec_bytes())
}

/// The text that pieces make: every piece followed by a dot, and of two
/// dots at the end only one.
pub open spec fn parts_text(parts: Seq<Seq<u8>>) -> Seq<u8> {
    let text = dotted(parts);
    if text.len() >= 2 && text[text.len() - 2] == DOT {
        text.drop_last()
    } else {
        text
    }
}

/// The name that pieces of text stand for: the root where they make no
/// more than a dot, else the name of their text.
pub open spec fn name_of_parts(parts: Seq<Seq<u8>>, cfg: Config) -> Result<Seq<Seq<u8>>, Error> {
    if dotted(parts).len() <= 1 {
        Ok(Seq::empty())
    } else {
        name_of_text(parts_text(parts), cfg)
    }
}

/// An ASCII letter in lower case, any other byte as it is.
pub open spec fn ascii_lower(c: u8) -> u8 {
    if is_upper_letter(c) {
        (c + 0x20) as u8
    } else {
        c
    }
}

/// The bytes with their ASCII letters in lower case.
pub open spec fn lowered(bytes: Seq<u8>) -> Seq<u8> {
    Seq::new(bytes.len(), |i: int| ascii_lower(bytes[i]))
}

/// The name that the bytes of a C string stand for.
///
/// With every ASCII letter in lower case and the terminator behind them, the
/// bytes are taken as an encoded name if they are one. Else they are read as
/// dotted text, which must be UTF-8.
pub open spec fn name_of_c_bytes(bytes: Seq<u8>, cfg: Config) -> Result<Seq<Seq<u8>>, Error> {
    let low = lowered(bytes);
    if check_sequence(low.push(0), cfg) is Ok {
        Ok(labels_of(low.push(0)))
    } else if !valid_utf8(low) {
        Err(Error::InvalidLabelChar)
    } else {
        name_of_text(low, cfg)
    }
}

impl FQDN {
    /// Reads a name from the bytes of its dotted text, as Unicode where the
    /// policy says so, else as ASCII.
    pub fn parse_bytes(text: &[u8], cfg: Config) -> (r: Result<FQDN, Error>)
        ensures
            match r {
                Ok(name) => name_of_text(text@, cfg) == Ok::<Seq<Seq<u8>>, Error>(name@)
                    && valid_name(name@, cfg),
                Err(e) => name_of_text(text@, cfg) == Err::<Seq<Seq<u8>>, Error>(e),
            },
    {
        if cfg.punycode {
            FQDN::from_unicode_text(text, cfg)
        } else {
            FQDN::from_text(text, cfg)
        }
    }

    /// Reads a name from its dotted text, as Unicode where the policy says
    /// so, else as ASCII.
    pub fn parse(s: &str, cfg: Config) -> (r: Result<FQDN, Error>)
        ensures
            match r {
                Ok(name) => name_of_text(s.spec_bytes(), cfg) == Ok::<Seq<Seq<u8>>, Error>(name@)
                    && valid_name(name@, cfg),
                Err(e) => name_of_text(s.spec_bytes(), cfg) == Err::<Seq<Seq<u8>>, Error>(e),
            },
    {
        FQDN::parse_bytes(s.as_bytes(), cfg)
    }

    /// Makes a name of pieces of text: each piece is followed by a dot, a
    /// dot that the last piece brings along is not doubled, and the whole is
    /// read as one text. No piece, or one empty piece, is the root.
    pub fn from_parts(parts: &[&str], cfg: Config) -> (r: Result<FQDN, Error>)
        ensures
            match r {
                Ok(name) => name_of_parts(parts_bytes(parts@), cfg) == Ok::<Seq<Seq<u8>>, Error>(
                    name@,
                ) && valid_name(name@, cfg),
                Err(e) => name_of_parts(parts_bytes(parts@), cfg) == Err::<Seq<Seq<u8>>, Error>(e),
            },
    {
        let ghost pieces = parts_bytes(parts@);
        let count = parts.len();
        let mut text: Vec<u8> = Vec::new();
        let mut i: usize = 0;
        proof {
            assert(pieces.take(0) =~= Seq::<Seq<u8>>::empty());
        }
        while i < count
            invariant
                i <= count,
                count == parts@.len(),
                pieces == parts_bytes(parts@),
                text@ == dotted(pieces.take(i as int)),
            decreases count - i,
        {
            let piece: &str = parts[i];
            proof {
                lemma_dotted_push(pieces.take(i as int), pieces[i as int]);
                assert(pieces.take(i + 1) =~= pieces.take(i as int).push(pieces[i as int]));
            }
            append_bytes(&mut text, piece.as_bytes());
            text.push(DOT);
            i += 1;
        }
        assert(pieces.take(count as int) =~= pieces);
        let len = text.len();
        if len <= 1 {
            let root = FQDN::default();
            proof {
                assert(crate::wire::encode(root@) =~= seq![0u8]);
            }
            return Ok(root);
        }
        if text[len - 2] == DOT {
            text.pop();
            assert(text@ =~= dotted(pieces).drop_last());
        }
        FQDN::parse_bytes(text.as_slice(), cfg)
    }

    /// Makes a name of the bytes of a C string, without its terminator,
    /// that holds either an encoded name or dotted text.
    pub fn from_c_bytes(bytes: &[u8], cfg: Config) -> (r: Result<FQDN, Error>)
        ensures
            match r {
                Ok(name) => name_of_c_bytes(bytes@, cfg) == Ok::<Seq<Seq<u8>>, Error>(name@)
                    && valid_name(name@, cfg),
                Err(e) => name_of_c_bytes(bytes@, cfg) == Err::<Seq<Seq<u8>>, Error>(e),
            },
    {
        let n = bytes.len();
        let mut low: Vec<u8> = Vec::new();
        let mut i: usize = 0;
        while i < n
            invariant
                i <= n,
                n == bytes@.len(),
                low@ == lowered(bytes@).take(i as int),
            decreases n - i,
        {
            let c = bytes[i];
            let l: u8 = if 0x41 <= c && c <= 0x5a {
                c + 0x20
            } else {
                c
            };
            low.push(l);
            assert(low@ =~= lowered(bytes@).take(i + 1));
            i += 1;
        }
        assert(low@ =~= lowered(bytes@));
        low.push(0);
        match Fqdn::from_bytes(low.as_slice(), cfg) {
            Ok(name) => {
                return Ok(name.to_owned());
            },
            Err(_) => {},
        }
        low.pop();
        assert(low@ =~= lowered(bytes@));
        match str_from_utf8(low.as_slice()) {
            None => Err(Error::InvalidLabelChar),
            Some(_) => FQDN::parse_bytes(low.as_slice(), cfg),
        }
    }
}

impl core::str::FromStr for FQDN {
    type Err = Error;

    /// Reads a name from its dotted text in ASCII under the default policy.
    fn from_str(s: &str) -> (r: Result<FQDN, Error>)
        ensures
            match r {
                Ok(name) => parse_text(s.spec_bytes(), Config::relaxed()) == Ok::<
                    Seq<Seq<u8>>,
                    Error,
                >(name@),
                Err(e) => parse_text(s.spec_bytes(), Config::relaxed()) == Err::<
                    Seq<Seq<u8>>,
                    Error,
                >(e),
            },
    {
        FQDN::from_ascii_str(s, Config::relaxed())
    }
}

} // verus!
