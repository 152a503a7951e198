//! The borrowed name: a view of encoded bytes that are owned elsewhere.

use core::cmp::Ordering;
use vstd::prelude::*;
use vstd::slice::slice_subrange;
use vstd::std_specs::cmp::{PartialEqSpecImpl, PartialOrdSpecImpl};
use vstd::string::StringSliceAdditionalSpecFns;
use crate::ascii::{ascii_chars, ascii_str, ascii_string, is_ascii_bytes};
use crate::check::{check_byte_sequence, check_sequence};
use crate::config::Config;
use crate::error::Error;
use crate::relations::{
    are_equivalent, compare_bytes, equivalent, is_subdomain, lex_sign, ordering_of,
};
use crate::text::{lemma_render_ascii, render, text_denotes, wire_matches_text, wire_to_text};
use crate::wire::{
    encode, is_fqdn, label_ok, labels_of, lemma_encode_labels_of, lemma_first_label,
    lemma_fqdn_decodes, lemma_fqdn_parent, lemma_fqdn_relax, lemma_root, valid_name,
};

verus! {

/// A borrowed domain name.
///
/// `Fqdn` is to [`FQDN`](crate::FQDN) as `&str` is to `String`: it borrows
/// the encoded bytes of a name, or of the end of one, and never copies them.
/// Its view is the sequence of its labels.
#[derive(Debug, Clone, Copy, Eq, Hash, Ord)]
pub struct Fqdn<'a> {
    bytes: &'a [u8],
}

impl<'a> View for Fqdn<'a> {
    type V = Seq<Seq<u8>>;

    closed spec fn view(&self) -> Seq<Seq<u8>> {
        labels_of(self.bytes@)
    }
}

impl<'a> Fqdn<'a> {
    #[verifier::type_invariant]
    spec fn inv(self) -> bool {
        is_fqdn(self.bytes@, Config::relaxed())
    }

    /// Takes `bytes` as a name if they are the encoding of one under the
    /// policy, and says what is wrong where they are not.
    pub fn from_bytes(bytes: &'a [u8], cfg: Config) -> (r: Result<Fqdn<'a>, Error>)
        ensures
            match r {
                Ok(name) => {
                    &&& check_sequence(bytes@, cfg) is Ok
                    &&& is_fqdn(bytes@, cfg)
                    &&& name@ == labels_of(bytes@)
                    &&& valid_name(name@, cfg)
                    &&& encode(name@) == bytes@
                },
                Err(e) => check_sequence(bytes@, cfg) == Err::<(), Error>(e),
            },
    {
        match check_byte_sequence(bytes, cfg) {
            Ok(_) => {
                proof {
                    lemma_fqdn_decodes(bytes@, cfg);
                    lemma_fqdn_relax(bytes@, cfg, Config::relaxed());
                }
                Ok(Fqdn { bytes })
            },
            Err(e) => Err(e),
        }
    }

    /// Takes `bytes` as a name without looking at them.
    ///
    /// The caller answers for the bytes: they must be the encoding of a name
    /// under the most lenient policy, which every name is.
    pub fn from_bytes_unchecked(bytes: &'a [u8]) -> (name: Fqdn<'a>)
        requires
            is_fqdn(bytes@, Config::relaxed()),
        ensures
            name@ == labels_of(bytes@),
            encode(name@) == bytes@,
    {
        proof {
            lemma_encode_labels_of(bytes@);
        }
        Fqdn { bytes }
    }

    /// The encoded name, terminator included.
    pub fn as_bytes(&self) -> (bytes: &'a [u8])
        ensures
            bytes@ == encode(self@),
            labels_of(bytes@) == self@,
            is_fqdn(bytes@, Config::relaxed()),
    {
        proof {
            use_type_invariant(self);
            lemma_encode_labels_of(self.bytes@);
        }
        self.bytes
    }

    fn first_label_length(&self) -> (n: usize)
        ensures
            n == self.bytes@[0],
            n == 0 <==> self@.len() == 0,
            n > 0 ==> n == self@[0].len() && 1 + n < self.bytes@.len(),
    {
        proof {
            use_type_invariant(self);
            lemma_root(self.bytes@);
            if self.bytes@[0] != 0 {
                lemma_first_label(self.bytes@);
            }
        }
        self.bytes[0] as usize
    }

    /// Whether this is the root, the name without labels, written `.`.
    pub fn is_root(&self) -> (r: bool)
        ensures
            r == (self@.len() == 0),
    {
        self.first_label_length() == 0
    }

    /// Whether this is a top-level domain: a name of exactly one label.
    pub fn is_tld(&self) -> (r: bool)
        ensures
            r == (self@.len() == 1),
    {
        let n = self.first_label_length();
        proof {
            use_type_invariant(self);
            if n != 0 {
                lemma_first_label(self.bytes@);
                let rest = self.bytes@.skip(1 + n);
                lemma_root(rest);
                assert(rest[0] == self.bytes@[1 + n]);
            }
        }
        n != 0 && self.bytes[n + 1] == 0
    }

    /// The name without its first label, or `None` for the root.
    pub fn parent(&self) -> (r: Option<Fqdn<'a>>)
        ensures
            r is None <==> self@.len() == 0,
            r matches Some(p) ==> p@ == self@.drop_first(),
    {
        let n = self.first_label_length();
        if n == 0 {
            None
        } else {
            proof {
                use_type_invariant(self);
                lemma_first_label(self.bytes@);
                lemma_fqdn_parent(self.bytes@, Config::relaxed());
            }
            let rest = slice_subrange(self.bytes, 1 + n, self.bytes.len());
            assert(rest@ =~= self.bytes@.skip(1 + n));
            Some(Fqdn { bytes: rest })
        }
    }

    /// The number of labels; the root has none.
    pub fn depth(&self) -> (n: usize)
        ensures
            n == self@.len(),
    {
        proof {
            use_type_invariant(self);
        }
        let len = self.bytes.len();
        let mut pos: usize = 0;
        let mut count: usize = 0;
        assert(self.bytes@.skip(0) =~= self.bytes@);
        while self.bytes[pos] != 0
            invariant
                len == self.bytes@.len(),
                pos < len,
                count <= pos,
                is_fqdn(self.bytes@.skip(pos as int), Config::relaxed()),
                self@.len() == count + labels_of(self.bytes@.skip(pos as int)).len(),
            decreases len - pos,
        {
            let ghost left = self.bytes@.skip(pos as int);
            assert(left[0] == self.bytes@[pos as int]);
            proof {
                lemma_first_label(left);
                lemma_fqdn_parent(left, Config::relaxed());
                assert(left.skip(1 + left[0]) =~= self.bytes@.skip(pos + 1 + left[0]));
            }
            pos += 1 + self.bytes[pos] as usize;
            count += 1;
        }
        proof {
            let left = self.bytes@.skip(pos as int);
            assert(left[0] == self.bytes@[pos as int]);
            lemma_root(left);
        }
        count
    }

    /// This name and then each name above it, down to a top-level domain;
    /// the root has none.
    pub fn hierarchy(&self) -> (r: Vec<Fqdn<'a>>)
        ensures
            r@.len() == self@.len(),
            forall|i: int| 0 <= i < r@.len() ==> (#[trigger] r@[i])@ == self@.skip(i),
    {
        proof {
            use_type_invariant(self);
        }
        let len = self.bytes.len();
        let mut out: Vec<Fqdn<'a>> = Vec::new();
        let mut pos: usize = 0;
        assert(self.bytes@.skip(0) =~= self.bytes@);
        assert(self@.skip(0) =~= self@);
        while self.bytes[pos] != 0
            invariant
                len == self.bytes@.len(),
                pos < len,
                out@.len() <= self@.len(),
                is_fqdn(self.bytes@.skip(pos as int), Config::relaxed()),
                labels_of(self.bytes@.skip(pos as int)) == self@.skip(out@.len() as int),
                forall|i: int| 0 <= i < out@.len() ==> (#[trigger] out@[i])@ == self@.skip(i),
            decreases len - pos,
        {
            let ghost left = self.bytes@.skip(pos as int);
            let ghost k = out@.len() as int;
            assert(left[0] == self.bytes@[pos as int]);
            proof {
                lemma_first_label(left);
                lemma_fqdn_parent(left, Config::relaxed());
                assert(left.skip(1 + left[0]) =~= self.bytes@.skip(pos + 1 + left[0]));
                assert(self@.skip(k).drop_first() =~= self@.skip(k + 1));
            }
            let here = slice_subrange(self.bytes, pos, len);
            assert(here@ =~= left);
            out.push(Fqdn { bytes: here });
            pos += 1 + self.bytes[pos] as usize;
        }
        proof {
            let left = self.bytes@.skip(pos as int);
            assert(left[0] == self.bytes@[pos as int]);
            lemma_root(left);
        }
        out
    }

    /// The top-level domain of this name: its last label as a name of its
    /// own, or `None` for the root.
    pub fn tld(&self) -> (r: Option<Fqdn<'a>>)
        ensures
            r is None <==> self@.len() == 0,
            r matches Some(t) ==> t@ == seq![self@.last()],
    {
        proof {
            use_type_invariant(self);
        }
        let len = self.bytes.len();
        if self.bytes[0] == 0 {
            proof {
                lemma_root(self.bytes@);
            }
            return None;
        }
        let mut pos: usize = 0;
        let ghost mut k: int = 0;
        assert(self.bytes@.skip(0) =~= self.bytes@);
        assert(self@.skip(0) =~= self@);
        loop
            invariant_except_break
                len == self.bytes@.len(),
                pos < len,
                self.bytes@[pos as int] != 0,
                0 <= k < self@.len(),
                is_fqdn(self.bytes@.skip(pos as int), Config::relaxed()),
                labels_of(self.bytes@.skip(pos as int)) == self@.skip(k),
            ensures
                len == self.bytes@.len(),
                pos < len,
                is_fqdn(self.bytes@.skip(pos as int), Config::relaxed()),
                labels_of(self.bytes@.skip(pos as int)) == seq![self@.last()],
                self@.len() > 0,
            decreases len - pos,
        {
            let ghost left = self.bytes@.skip(pos as int);
            assert(left[0] == self.bytes@[pos as int]);
            proof {
                lemma_first_label(left);
                lemma_fqdn_parent(left, Config::relaxed());
                assert(left.skip(1 + left[0]) =~= self.bytes@.skip(pos + 1 + left[0]));
                assert(self@.skip(k).drop_first() =~= self@.skip(k + 1));
                lemma_root(left.skip(1 + left[0]));
                assert(left.skip(1 + left[0])[0] == self.bytes@[pos + 1 + left[0]]);
            }
            let next = pos + 1 + self.bytes[pos] as usize;
            if self.bytes[next] == 0 {
                proof {
                    assert(self@.skip(k + 1).len() == 0);
                    assert(self@.skip(k) =~= seq![self@.last()]);
                }
                break;
            }
            pos = next;
            proof {
                k = k + 1;
            }
        }
        let last = slice_subrange(self.bytes, pos, len);
        assert(last@ =~= self.bytes@.skip(pos as int));
        Some(Fqdn { bytes: last })
    }

    /// The labels of this name as text, first label first.
    pub fn labels(&self) -> (r: Vec<&'a str>)
        ensures
            r@.len() == self@.len(),
            forall|i: int| 0 <= i < r@.len() ==> (#[trigger] r@[i])@ == ascii_chars(self@[i]),
            forall|i: int| 0 <= i < r@.len() ==> (#[trigger] r@[i]).spec_bytes() == self@[i],
    {
        proof {
            use_type_invariant(self);
        }
        let len = self.bytes.len();
        let mut out: Vec<&'a str> = Vec::new();
        let mut pos: usize = 0;
        assert(self.bytes@.skip(0) =~= self.bytes@);
        assert(self@.skip(0) =~= self@);
        while self.bytes[pos] != 0
            invariant
                len == self.bytes@.len(),
                pos < len,
                out@.len() <= self@.len(),
                is_fqdn(self.bytes@.skip(pos as int), Config::relaxed()),
                labels_of(self.bytes@.skip(pos as int)) == self@.skip(out@.len() as int),
                forall|i: int|
                    0 <= i < out@.len() ==> (#[trigger] out@[i])@ == ascii_chars(self@[i]),
                forall|i: int|
                    0 <= i < out@.len() ==> (#[trigger] out@[i]).spec_bytes() == self@[i],
            decreases len - pos,
        {
            let ghost left = self.bytes@.skip(pos as int);
            let ghost k = out@.len() as int;
            assert(left[0] == self.bytes@[pos as int]);
            let n = self.bytes[pos] as usize;
            proof {
                lemma_first_label(left);
                lemma_fqdn_parent(left, Config::relaxed());
                assert(left.skip(1 + n) =~= self.bytes@.skip(pos + 1 + n));
                assert(self@.skip(k).drop_first() =~= self@.skip(k + 1));
                assert(self@.skip(k)[0] == self@[k]);
            }
            let label = slice_subrange(self.bytes, pos + 1, pos + 1 + n);
            proof {
                assert(label@ =~= left.subrange(1, 1 + n));
                assert(label_ok(label@, Config::relaxed()));
                assert forall|i: int| 0 <= i < label@.len() implies #[trigger] label@[i] < 0x80 by {
                    assert(crate::alphabet::is_label_char(label@[i], Config::relaxed()));
                }
            }
            out.push(ascii_str(label));
            pos += 1 + n;
        }
        proof {
            let left = self.bytes@.skip(pos as int);
            assert(left[0] == self.bytes@[pos as int]);
            lemma_root(left);
        }
        out
    }

    /// Whether this name lies under `parent`, or is `parent`: the end of
    /// its encoding, as long as the encoding of `parent`, holds the same name.
    pub fn is_subdomain_of(&self, parent: &Fqdn<'_>) -> (r: bool)
        ensures
            r == is_subdomain(encode(self@), encode(parent@)),
    {
        proof {
            use_type_invariant(self);
            use_type_invariant(parent);
            lemma_encode_labels_of(self.bytes@);
            lemma_encode_labels_of(parent.bytes@);
        }
        let len = self.bytes.len();
        let plen = parent.bytes.len();
        if len < plen {
            return false;
        }
        let end = slice_subrange(self.bytes, len - plen, len);
        assert(end@ =~= self.bytes@.skip(len - plen));
        are_equivalent(end, parent.bytes)
    }

    /// The dotted text of this name as ASCII bytes. The root is a single
    /// dot; any other name ends with a dot where the policy asks for one.
    pub fn to_text(&self, cfg: Config) -> (text: Vec<u8>)
        ensures
            text@ == render(self@, cfg.name_should_have_trailing_dot),
            is_ascii_bytes(text@),
    {
        proof {
            use_type_invariant(self);
            lemma_render_ascii(self@, cfg.name_should_have_trailing_dot);
        }
        wire_to_text(self.bytes, cfg.name_should_have_trailing_dot)
    }

    /// The dotted text of this name.
    pub fn to_string(&self, cfg: Config) -> (text: String)
        ensures
            text@ == ascii_chars(render(self@, cfg.name_should_have_trailing_dot)),
    {
        ascii_string(self.to_text(cfg))
    }

    /// Whether `text` is a way of writing this name: its dotted text in
    /// letters of either case, with the last dot or, where the policy does
    /// not ask for it, without.
    pub fn eq_str(&self, text: &str, cfg: Config) -> (r: bool)
        ensures
            r == text_denotes(text.spec_bytes(), self@, cfg.name_should_have_trailing_dot),
    {
        proof {
            use_type_invariant(self);
        }
        wire_matches_text(self.bytes, text.as_bytes(), cfg.name_should_have_trailing_dot)
    }
}

impl<'a> PartialEq for Fqdn<'a> {
    /// Two names are equal when they are the same name.
    fn eq(&self, other: &Fqdn<'a>) -> (r: bool) {
        proof {
            use_type_invariant(self);
            use_type_invariant(other);
        }
        are_equivalent(self.bytes, other.bytes)
    }
}

impl<'a> PartialEqSpecImpl for Fqdn<'a> {
    open spec fn obeys_eq_spec() -> bool {
        true
    }

    open spec fn eq_spec(&self, other: &Fqdn<'a>) -> bool {
        equivalent(self@, other@)
    }
}

impl<'a, 'b> PartialEq<&'b str> for Fqdn<'a> {
    /// A name equals a text that is a way of writing it under the default
    /// policy.
    fn eq(&self, other: &&'b str) -> (r: bool) {
        self.eq_str(*other, Config::relaxed())
    }
}

impl<'a, 'b> PartialEqSpecImpl<&'b str> for Fqdn<'a> {
    open spec fn obeys_eq_spec() -> bool {
        true
    }

    open spec fn eq_spec(&self, other: &&'b str) -> bool {
        text_denotes(other.spec_bytes(), self@, false)
    }
}

impl<'a> PartialOrd for Fqdn<'a> {
    /// Names are ordered as their encodings are, byte by byte.
    fn partial_cmp(&self, other: &Fqdn<'a>) -> (r: Option<Ordering>) {
        proof {
            use_type_invariant(self);
            use_type_invariant(other);
            lemma_encode_labels_of(self.bytes@);
            lemma_encode_labels_of(other.bytes@);
        }
        let sign: i8 = compare_bytes(self.bytes, other.bytes);
        if sign < 0 {
            Some(Ordering::Less)
        } else if sign == 0 {
            Some(Ordering::Equal)
        } else {
            Some(Ordering::Greater)
        }
    }
}

impl<'a> PartialOrdSpecImpl for Fqdn<'a> {
    open spec fn obeys_partial_cmp_spec() -> bool {
        true
    }

    open spec fn partial_cmp_spec(&self, other: &Fqdn<'a>) -> Option<Ordering> {
        Some(ordering_of(lex_sign(encode(self@), encode(other@))))
    }
}

} // verus!
