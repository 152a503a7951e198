//! The owned name: a name that holds its encoded bytes itself.

use core::cmp::Ordering;
use vstd::prelude::*;
use vstd::slice::slice_to_vec;
use vstd::std_specs::cmp::{PartialEqSpecImpl, PartialOrdSpecImpl};
use vstd::string::StringSliceAdditionalSpecFns;
use crate::alphabet::check_and_lower_any_char;
use crate::ascii::ascii_chars;
use crate::check::{
    check_place, fold_label, label_fault, label_fault_from, lemma_folded_is_label_char,
    lemma_label_fault, scan,
};
use crate::config::Config;
use crate::error::Error;
use crate::fqdnref::Fqdn;
use crate::relations::{equivalent, is_subdomain, lex_sign, ordering_of};
use crate::text::{
    after, lemma_after_push, lemma_encode_last, lemma_label_appended, parse_text, render,
    text_denotes, text_to_wire,
};
use crate::wire::{
    encode, is_fqdn, labels_of, labels_ok, lemma_fqdn_relax, lemma_valid_name_encodes, valid_name,
};

verus! {

/// An owned domain name.
///
/// `FQDN` is to [`Fqdn`] as `String` is to `&str`. Its view is the sequence
/// of its labels; [`FQDN::as_bytes`] gives their encoding.
#[derive(Debug, Eq, Hash, Ord)]
pub struct FQDN {
    bytes: Vec<u8>,
}

impl View for FQDN {
    type V = Seq<Seq<u8>>;

    closed spec fn view(&self) -> Seq<Seq<u8>> {
        labels_of(self.bytes@)
    }
}

/// The bytes with a terminator behind them, unless their last byte is one.
pub open spec fn terminated(bytes: Seq<u8>) -> Seq<u8> {
    if bytes.len() > 0 && bytes.last() == 0 {
        bytes
    } else {
        bytes.push(0)
    }
}

/// The name that bytes stand for once they are terminated and their letters
/// folded to lower case, or why they stand for none: the limit on the whole
/// name comes first, then the labels in their order.
pub open spec fn name_of_bytes(bytes: Seq<u8>, cfg: Config) -> Result<Seq<Seq<u8>>, Error> {
    if terminated(bytes).len() > cfg.name_limit() {
        Err(Error::TooLongDomainName)
    } else {
        scan(terminated(bytes), cfg, true)
    }
}

/// Folds the `n` bytes of `bytes` from place `from` on where they stand, up
/// to the first fault of the folded label.
fn fold_label_in_place(bytes: &mut Vec<u8>, from: usize, n: usize, cfg: Config) -> (r: Result<
    (),
    Error,
>)
    requires
        from + n <= old(bytes)@.len(),
    ensures
        final(bytes)@.len() == old(bytes)@.len(),
        r is Ok <==> label_fault(fold_label(old(bytes)@.subrange(from as int, from + n), cfg), cfg)
            is None,
        r matches Err(e) ==> label_fault(
            fold_label(old(bytes)@.subrange(from as int, from + n), cfg),
            cfg,
        ) == Some(e),
        r is Ok ==> final(bytes)@ == old(bytes)@.take(from as int) + fold_label(
            old(bytes)@.subrange(from as int, from + n),
            cfg,
        ) + old(bytes)@.skip(from + n),
{
    let ghost raw = bytes@.subrange(from as int, from + n);
    let ghost label = fold_label(raw, cfg);
    let len = bytes.len();
    let mut j: usize = 0;
    assert(bytes@ =~= old(bytes)@.take(from as int) + label.take(0) + old(bytes)@.skip(
        from as int,
    ));
    while j < n
        invariant
            j <= n,
            from + n <= len,
            len == bytes@.len(),
            len == old(bytes)@.len(),
            raw == old(bytes)@.subrange(from as int, from + n),
            label == fold_label(raw, cfg),
            label_fault(label, cfg) == label_fault_from(label, j as int, cfg),
            bytes@ == old(bytes)@.take(from as int) + label.take(j as int) + old(bytes)@.skip(
                from + j,
            ),
        decreases n - j,
    {
        proof {
            assert(bytes@[from + j] == old(bytes)@[from + j]);
            assert(raw[j as int] == old(bytes)@[from + j]);
            lemma_folded_is_label_char(raw[j as int], cfg);
        }
        let c = match check_and_lower_any_char(bytes[from + j], cfg) {
            Err(e) => {
                return Err(e);
            },
            Ok(c) => c,
        };
        match check_place(c, j == 0, j == n - 1, cfg) {
            Err(e) => {
                return Err(e);
            },
            Ok(_) => {},
        }
        bytes.set(from + j, c);
        assert(bytes@ =~= old(bytes)@.take(from as int) + label.take(j + 1) + old(bytes)@.skip(
            from + j + 1,
        ));
        j += 1;
    }
    assert(label.take(n as int) =~= label);
    Ok(())
}

/// What a buffer holds once the label at place `pos` is folded where it
/// stands: up to the end of the label what was there before the label, its
/// length byte and the folded label; after it what was given.
proof fn lemma_folded_in_place(
    whole: Seq<u8>,
    before: Seq<u8>,
    now: Seq<u8>,
    label: Seq<u8>,
    pos: int,
    n: int,
)
    requires
        0 <= pos,
        0 < n < 256,
        pos + 1 + n <= whole.len(),
        before.len() == whole.len(),
        before.skip(pos) == whole.skip(pos),
        label.len() == n,
        whole[pos] == n,
        now == before.take(pos + 1) + label + before.skip(pos + 1 + n),
    ensures
        now.skip(pos + 1 + n) == whole.skip(pos + 1 + n),
        now.take(pos + 1 + n) == before.take(pos) + seq![n as u8] + label,
        whole.skip(pos).skip(1 + n) == whole.skip(pos + 1 + n),
{
    assert(before[pos] == before.skip(pos)[0]);
    assert(whole[pos] == whole.skip(pos)[0]);
    assert(before.skip(pos + 1 + n) =~= before.skip(pos).skip(1 + n));
    assert(whole.skip(pos + 1 + n) =~= whole.skip(pos).skip(1 + n));
    assert(now.skip(pos + 1 + n) =~= before.skip(pos + 1 + n));
    assert(now.take(pos + 1 + n) =~= before.take(pos) + seq![n as u8] + label);
}

impl FQDN {
    #[verifier::type_invariant]
    spec fn inv(self) -> bool {
        is_fqdn(self.bytes@, Config::relaxed())
    }

    /// Makes a name of its encoding, with or without the terminator.
    ///
    /// A terminator is added where the last byte is none. Letters of either
    /// case are taken and stored in lower case; apart from that the bytes
    /// must be the encoding of a name under the policy.
    pub fn from_vec(bytes: Vec<u8>, cfg: Config) -> (r: Result<FQDN, Error>)
        ensures
            match r {
                Ok(name) => name_of_bytes(bytes@, cfg) == Ok::<Seq<Seq<u8>>, Error>(name@)
                    && valid_name(name@, cfg),
                Err(e) => name_of_bytes(bytes@, cfg) == Err::<Seq<Seq<u8>>, Error>(e),
            },
    {
        let mut buf = bytes;
        let n0 = buf.len();
        if n0 == 0 || buf[n0 - 1] != 0 {
            buf.push(0);
        }
        let ghost whole = buf@;
        assert(whole == terminated(bytes@));
        let len = buf.len();
        if !cfg.name_fits(len) {
            return Err(Error::TooLongDomainName);
        }
        let mut pos: usize = 0;
        let ghost mut done: Seq<Seq<u8>> = Seq::empty();
        proof {
            assert(whole.skip(0) =~= whole);
            assert(encode(done).drop_last() =~= Seq::<u8>::empty());
            assert(buf@.take(0) =~= Seq::<u8>::empty());
            match scan(whole, cfg, true) {
                Ok(ls) => {
                    assert(done + ls =~= ls);
                },
                Err(_) => {},
            }
        }
        while pos < len - 1
            invariant
                len == buf@.len(),
                len == whole.len(),
                len > 0,
                len <= cfg.name_limit(),
                pos <= len - 1,
                whole.last() == 0,
                name_of_bytes(bytes@, cfg) == scan(whole, cfg, true),
                scan(whole, cfg, true) == after(done, scan(whole.skip(pos as int), cfg, true)),
                buf@.skip(pos as int) == whole.skip(pos as int),
                buf@.take(pos as int) == encode(done).drop_last(),
                labels_ok(done, cfg),
            decreases len - pos,
        {
            let ghost left = whole.skip(pos as int);
            assert(left[0] == whole[pos as int]);
            assert(buf@[pos as int] == buf@.skip(pos as int)[0]);
            let n = buf[pos] as usize;
            if n == 0 {
                return Err(Error::EmptyLabel);
            }
            if n >= len - 1 - pos {
                return Err(Error::InvalidStructure);
            }
            if n > cfg.max_label_len() {
                return Err(Error::TooLongLabel);
            }
            let ghost before = buf@;
            proof {
                assert(before.subrange(pos + 1, pos + 1 + n) =~= left.subrange(1, 1 + n));
            }
            match fold_label_in_place(&mut buf, pos + 1, n, cfg) {
                Err(e) => {
                    return Err(e);
                },
                Ok(_) => {},
            }
            proof {
                let label = fold_label(left.subrange(1, 1 + n), cfg);
                lemma_label_fault(label, cfg);
                lemma_label_appended(done, label, cfg);
                lemma_after_push(done, label, scan(left.skip(1 + n), cfg, true));
                lemma_folded_in_place(whole, before, buf@, label, pos as int, n as int);
                done = done.push(label);
            }
            pos += 1 + n;
        }
        proof {
            assert(whole.skip(pos as int).len() == 1);
            assert(done + Seq::<Seq<u8>>::empty() =~= done);
            lemma_encode_last(done);
            assert(buf@[len - 1] == buf@.skip(pos as int)[0]);
            assert(whole[len - 1] == whole.skip(pos as int)[0]);
            assert(buf@ =~= buf@.take(pos as int).push(0));
            assert(buf@ =~= encode(done));
            lemma_valid_name_encodes(done, cfg);
            lemma_fqdn_relax(buf@, cfg, Config::relaxed());
        }
        Ok(FQDN { bytes: buf })
    }

    /// Reads a name from its dotted text in ASCII.
    ///
    /// Labels are set apart by dots. Letters of either case are taken and
    /// stored in lower case.
    pub fn from_ascii_str(s: &str, cfg: Config) -> (r: Result<FQDN, Error>)
        ensures
            match r {
                Ok(name) => parse_text(s.spec_bytes(), cfg) == Ok::<Seq<Seq<u8>>, Error>(name@)
                    && valid_name(name@, cfg),
                Err(e) => parse_text(s.spec_bytes(), cfg) == Err::<Seq<Seq<u8>>, Error>(e),
            },
    {
        FQDN::from_text(s.as_bytes(), cfg)
    }

    /// Reads a name from the bytes of its dotted text.
    pub fn from_text(text: &[u8], cfg: Config) -> (r: Result<FQDN, Error>)
        ensures
            match r {
                Ok(name) => parse_text(text@, cfg) == Ok::<Seq<Seq<u8>>, Error>(name@)
                    && valid_name(name@, cfg),
                Err(e) => parse_text(text@, cfg) == Err::<Seq<Seq<u8>>, Error>(e),
            },
    {
        match text_to_wire(text, cfg) {
            Ok(bytes) => {
                proof {
                    let labels = parse_text(text@, cfg)->Ok_0;
                    lemma_valid_name_encodes(labels, cfg);
                    lemma_fqdn_relax(bytes@, cfg, Config::relaxed());
                }
                Ok(FQDN { bytes })
            },
            Err(e) => Err(e),
        }
    }

    /// This name as a borrowed name.
    pub fn as_ref(&self) -> (name: Fqdn<'_>)
        ensures
            name@ == self@,
    {
        proof {
            use_type_invariant(self);
        }
        Fqdn::from_bytes_unchecked(self.bytes.as_slice())
    }

    /// The encoded name, terminator included.
    pub fn as_bytes(&self) -> (bytes: &[u8])
        ensures
            bytes@ == encode(self@),
            labels_of(bytes@) == self@,
            is_fqdn(bytes@, Config::relaxed()),
    {
        self.as_ref().as_bytes()
    }

    /// Whether this is the root, the name without labels.
    pub fn is_root(&self) -> (r: bool)
        ensures
            r == (self@.len() == 0),
    {
        self.as_ref().is_root()
    }

    /// Whether this is a top-level domain: a name of exactly one label.
    pub fn is_tld(&self) -> (r: bool)
        ensures
            r == (self@.len() == 1),
    {
        self.as_ref().is_tld()
    }

    /// The number of labels; the root has none.
    pub fn depth(&self) -> (n: usize)
        ensures
            n == self@.len(),
    {
        self.as_ref().depth()
    }

    /// The name without its first label, or `None` for the root.
    pub fn parent(&self) -> (r: Option<Fqdn<'_>>)
        ensures
            r is None <==> self@.len() == 0,
            r matches Some(p) ==> p@ == self@.drop_first(),
    {
        self.as_ref().parent()
    }

    /// The top-level domain of this name, or `None` for the root.
    pub fn tld(&self) -> (r: Option<Fqdn<'_>>)
        ensures
            r is None <==> self@.len() == 0,
            r matches Some(t) ==> t@ == seq![self@.last()],
    {
        self.as_ref().tld()
    }

    /// This name and then each name above it, down to a top-level domain.
    pub fn hierarchy(&self) -> (r: Vec<Fqdn<'_>>)
        ensures
            r@.len() == self@.len(),
            forall|i: int| 0 <= i < r@.len() ==> (#[trigger] r@[i])@ == self@.skip(i),
    {
        self.as_ref().hierarchy()
    }

    /// The labels of this name as text, first label first.
    pub fn labels(&self) -> (r: Vec<&str>)
        ensures
            r@.len() == self@.len(),
            forall|i: int| 0 <= i < r@.len() ==> (#[trigger] r@[i])@ == ascii_chars(self@[i]),
            forall|i: int| 0 <= i < r@.len() ==> (#[trigger] r@[i]).spec_bytes() == self@[i],
    {
        self.as_ref().labels()
    }

    /// Whether this name lies under `parent`, or is `parent`.
    pub fn is_subdomain_of(&self, parent: &FQDN) -> (r: bool)
        ensures
            r == is_subdomain(encode(self@), encode(parent@)),
    {
        self.as_ref().is_subdomain_of(&parent.as_ref())
    }

    /// The dotted text of this name.
    pub fn to_string(&self, cfg: Config) -> (text: String)
        ensures
            text@ == ascii_chars(render(self@, cfg.name_should_have_trailing_dot)),
    {
        self.as_ref().to_string(cfg)
    }

    /// Whether `text` is a way of writing this name.
    pub fn eq_str(&self, text: &str, cfg: Config) -> (r: bool)
        ensures
            r == text_denotes(text.spec_bytes(), self@, cfg.name_should_have_trailing_dot),
    {
        self.as_ref().eq_str(text, cfg)
    }
}

impl Clone for FQDN {
    fn clone(&self) -> (name: FQDN)
        ensures
            name@ == self@,
    {
        self.as_ref().to_owned()
    }
}

impl Default for FQDN {
    /// The root.
    fn default() -> (name: FQDN)
        ensures
            name@ == Seq::<Seq<u8>>::empty(),
    {
        let mut bytes: Vec<u8> = Vec::new();
        bytes.push(0);
        proof {
            assert(bytes@ =~= seq![0u8]);
            assert(labels_of(bytes@) =~= Seq::<Seq<u8>>::empty());
        }
        FQDN { bytes }
    }
}

impl PartialEq for FQDN {
    /// Two names are equal when they are the same name.
    fn eq(&self, other: &FQDN) -> (r: bool) {
        self.as_ref() == other.as_ref()
    }
}

impl PartialEqSpecImpl for FQDN {
    open spec fn obeys_eq_spec() -> bool {
        true
    }

    open spec fn eq_spec(&self, other: &FQDN) -> bool {
        equivalent(self@, other@)
    }
}

impl<'a> PartialEq<Fqdn<'a>> for FQDN {
    fn eq(&self, other: &Fqdn<'a>) -> (r: bool) {
        self.as_ref() == *other
    }
}

impl<'a> PartialEqSpecImpl<Fqdn<'a>> for FQDN {
    open spec fn obeys_eq_spec() -> bool {
        true
    }

    open spec fn eq_spec(&self, other: &Fqdn<'a>) -> bool {
        equivalent(self@, other@)
    }
}

impl<'a> PartialEq<FQDN> for Fqdn<'a> {
    fn eq(&self, other: &FQDN) -> (r: bool) {
        *self == other.as_ref()
    }
}

impl<'a> PartialEqSpecImpl<FQDN> for Fqdn<'a> {
    open spec fn obeys_eq_spec() -> bool {
        true
    }

    open spec fn eq_spec(&self, other: &FQDN) -> bool {
        equivalent(self@, other@)
    }
}

impl<'b> PartialEq<&'b str> for FQDN {
    /// A name equals a text that is a way of writing it under the default
    /// policy.
    fn eq(&self, other: &&'b str) -> (r: bool) {
        self.eq_str(*other, Config::relaxed())
    }
}

impl<'b> PartialEqSpecImpl<&'b str> for FQDN {
    open spec fn obeys_eq_spec() -> bool {
        true
    }

    open spec fn eq_spec(&self, other: &&'b str) -> bool {
        text_denotes(other.spec_bytes(), self@, false)
    }
}

impl<'b> PartialEq<FQDN> for &'b str {
    fn eq(&self, other: &FQDN) -> (r: bool) {
        other.eq_str(*self, Config::relaxed())
    }
}

impl<'b> PartialEqSpecImpl<FQDN> for &'b str {
    open spec fn obeys_eq_spec() -> bool {
        true
    }

    open spec fn eq_spec(&self, other: &FQDN) -> bool {
        text_denotes(self.spec_bytes(), other@, false)
    }
}

impl<'a, 'b> PartialEq<Fqdn<'a>> for &'b str {
    fn eq(&self, other: &Fqdn<'a>) -> (r: bool) {
        other.eq_str(*self, Config::relaxed())
    }
}

impl<'a, 'b> PartialEqSpecImpl<Fqdn<'a>> for &'b str {
    open spec fn obeys_eq_spec() -> bool {
        true
    }

    open spec fn eq_spec(&self, other: &Fqdn<'a>) -> bool {
        text_denotes(self.spec_bytes(), other@, false)
    }
}

impl PartialOrd for FQDN {
    /// Names are ordered as their encodings are, byte by byte.
    fn partial_cmp(&self, other: &FQDN) -> (r: Option<Ordering>) {
        self.as_ref().partial_cmp(&other.as_ref())
    }
}

impl PartialOrdSpecImpl for FQDN {
    open spec fn obeys_partial_cmp_spec() -> bool {
        true
    }

    open spec fn partial_cmp_spec(&self, other: &FQDN) -> Option<Ordering> {
        Some(ordering_of(lex_sign(encode(self@), encode(other@))))
    }
}

impl<'a> PartialOrd<Fqdn<'a>> for FQDN {
    fn partial_cmp(&self, other: &Fqdn<'a>) -> (r: Option<Ordering>) {
        self.as_ref().partial_cmp(other)
    }
}

impl<'a> PartialOrdSpecImpl<Fqdn<'a>> for FQDN {
    open spec fn obeys_partial_cmp_spec() -> bool {
        true
    }

    open spec fn partial_cmp_spec(&self, other: &Fqdn<'a>) -> Option<Ordering> {
        Some(ordering_of(lex_sign(encode(self@), encode(other@))))
    }
}

impl<'a> PartialOrd<FQDN> for Fqdn<'a> {
    fn partial_cmp(&self, other: &FQDN) -> (r: Option<Ordering>) {
        self.partial_cmp(&other.as_ref())
    }
}

impl<'a> PartialOrdSpecImpl<FQDN> for Fqdn<'a> {
    open spec fn obeys_partial_cmp_spec() -> bool {
        true
    }

    open spec fn partial_cmp_spec(&self, other: &FQDN) -> Option<Ordering> {
        Some(ordering_of(lex_sign(encode(self@), encode(other@))))
    }
}

impl<'a> Fqdn<'a> {
    /// Copies the bytes of this name into a name of its own.
    pub fn to_owned(&self) -> (owned: FQDN)
        ensures
            owned@ == self@,
    {
        let bytes = slice_to_vec(self.as_bytes());
        FQDN { bytes }
    }
}

} // verus!
