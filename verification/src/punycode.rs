//! Names in Unicode: labels that hold more than ASCII are stored in their
//! ASCII-compatible form, behind the tag `xn--`.

use vstd::prelude::*;
use vstd::slice::slice_subrange;
use vstd::string::{StrSliceExecFns, StringExecFns, StringSliceAdditionalSpecFns};
use vstd::utf8::{decode_utf8, encode_utf8, encode_utf8_decode_utf8, valid_utf8};
use crate::ascii::{ascii_chars, str_from_utf8};
use crate::check::check_sequence;
use crate::config::Config;
use crate::error::Error;
use crate::fqdn::FQDN;
use crate::fqdnref::Fqdn;
use crate::text::{
    after, append_bytes, first_dot, lemma_after_push, lemma_encode_last, lemma_encode_push,
    lemma_first_dot,
};
use crate::wire::{encode, label_ok, lemma_labels_of_encode, valid_name, DOT, HYPHEN};

verus! {

/// What `str::to_lowercase` makes of a text: its lower-case form by the
/// rules of Unicode.
pub uninterp spec fn unicode_lowercase(text: Seq<char>) -> Seq<char>;

/// What `punycode::encode` makes of a label: its Punycode form, without the
/// tag, or nothing where the label has none.
pub uninterp spec fn punycode_encoded(label: Seq<char>) -> Option<Seq<char>>;

/// What `punycode::decode` makes of a Punycode form without its tag: the
/// label that it stands for, or nothing where it stands for none.
pub uninterp spec fn punycode_decoded(code: Seq<char>) -> Option<Seq<char>>;

/// `str::to_lowercase`: the lower-case form of the text.
#[verifier::external_body]
fn to_lowercase(text: &str) -> (lower: String)
    ensures
        lower@ == unicode_lowercase(text@),
{
    text.to_lowercase()
}

/// `punycode::encode`: the Punycode form of the label, `None` where the
/// crate reports an overflow. Long labels are left out, for which its
/// arithmetic is not guarded throughout.
#[verifier::external_body]
fn puny_encode(label: &str) -> (code: Option<String>)
    requires
        label@.len() <= 255,
    ensures
        match code {
            Some(c) => punycode_encoded(label@) == Some(c@),
            None => punycode_encoded(label@) is None,
        },
{
    match punycode::encode(label) {
        Ok(c) => Some(c),
        Err(_) => None,
    }
}

/// `punycode::decode`: the label that the Punycode form stands for, `None`
/// where the crate refuses the form.
#[verifier::external_body]
fn puny_decode(code: &str) -> (label: Option<String>)
    requires
        code@.len() <= 255,
    ensures
        match label {
            Some(l) => punycode_decoded(code@) == Some(l@),
            None => punycode_decoded(code@) is None,
        },
{
    match punycode::decode(code) {
        Ok(l) => Some(l),
        Err(_) => None,
    }
}

/// The tag in front of a label in its ASCII-compatible form: `xn--`.
pub open spec fn tag() -> Seq<u8> {
    seq![0x78u8, 0x6eu8, 0x2du8, 0x2du8]
}

/// Whether a label begins with the tag.
pub open spec fn has_tag(label: Seq<u8>) -> bool {
    label.len() >= 4 && label.take(4) == tag()
}

/// The label to store for a piece of text, given the piece in lower case
/// and its Punycode form.
///
/// A form that ends with a hyphen says that the piece is all ASCII: the
/// piece is stored as it is. Any other form is stored behind the tag. A
/// piece without a form holds a character that cannot be stored.
pub open spec fn transcode(lower: Seq<u8>, code: Option<Seq<u8>>, cfg: Config) -> Result<
    Seq<u8>,
    Error,
> {
    match code {
        None => Err(Error::InvalidLabelChar),
        Some(c) => {
            let label = if c.len() > 0 && c.last() == HYPHEN {
                lower
            } else {
                tag() + c
            };
            if label.len() == 0 {
                Err(Error::EmptyLabel)
            } else if label.len() > cfg.label_limit() {
                Err(Error::TooLongLabel)
            } else {
                Ok(label)
            }
        },
    }
}

/// The UTF-8 bytes of a text that may be missing.
pub open spec fn bytes_of(text: Option<Seq<char>>) -> Option<Seq<u8>> {
    match text {
        Some(t) => Some(encode_utf8(t)),
        None => None,
    }
}

/// The label that a piece of Unicode text between two dots stands for, or
/// why it stands for none.
pub open spec fn puny_piece(piece: Seq<u8>, cfg: Config) -> Result<Seq<u8>, Error> {
    if piece.len() == 0 {
        Err(Error::EmptyLabel)
    } else if !valid_utf8(piece) {
        Err(Error::InvalidLabelChar)
    } else {
        let lower = unicode_lowercase(decode_utf8(piece));
        if lower.len() > 255 {
            Err(Error::TooLongLabel)
        } else {
            transcode(encode_utf8(lower), bytes_of(punycode_encoded(lower)), cfg)
        }
    }
}

/// The labels of a Unicode text whose pieces are set apart by dots, with no
/// dot after the last piece; or the error of the first piece that has one.
pub open spec fn puny_labels(text: Seq<u8>, cfg: Config) -> Result<Seq<Seq<u8>>, Error>
    decreases text.len(),
{
    let k = first_dot(text) as int;
    match puny_piece(text.take(k), cfg) {
        Err(e) => Err(e),
        Ok(label) => if k >= text.len() {
            Ok(seq![label])
        } else {
            after(seq![label], puny_labels(text.skip(k + 1), cfg))
        },
    }
}

/// The labels of a text held to the policy as a whole: the labels, if
/// their encoding is found to be a name, else the error of the encoding.
pub open spec fn validated(labels: Seq<Seq<u8>>, cfg: Config) -> Result<Seq<Seq<u8>>, Error> {
    match check_sequence(encode(labels), cfg) {
        Ok(_) => Ok(labels),
        Err(e) => Err(e),
    }
}

/// The name that a dotted Unicode text stands for under the policy, or why
/// it stands for none.
///
/// The root and the last dot are read as in ASCII text. Then every piece is
/// put in lower case and given its stored form, and the encoding of all of
/// them is validated as a byte sequence is.
pub open spec fn puny_text(text: Seq<u8>, cfg: Config) -> Result<Seq<Seq<u8>>, Error> {
    if text.len() == 0 {
        if cfg.name_should_have_trailing_dot {
            Err(Error::TrailingDotMissing)
        } else {
            Ok(Seq::empty())
        }
    } else if text.last() == DOT {
        if text.len() == 1 {
            Ok(Seq::empty())
        } else {
            match puny_labels(text.drop_last(), cfg) {
                Ok(labels) => validated(labels, cfg),
                Err(e) => Err(e),
            }
        }
    } else if cfg.name_should_have_trailing_dot {
        Err(Error::TrailingDotMissing)
    } else {
        match puny_labels(text, cfg) {
            Ok(labels) => validated(labels, cfg),
            Err(e) => Err(e),
        }
    }
}

/// Chooses the label to store for a piece of text from the piece in lower
/// case and its Punycode form.
pub fn transcoded_label(lower: &[u8], code: Option<&[u8]>, cfg: Config) -> (r: Result<
    Vec<u8>,
    Error,
>)
    ensures
        match r {
            Ok(label) => transcode(
                lower@,
                match code {
                    Some(c) => Some(c@),
                    None => None,
                },
                cfg,
            ) == Ok::<Seq<u8>, Error>(label@),
            Err(e) => transcode(
                lower@,
                match code {
                    Some(c) => Some(c@),
                    None => None,
                },
                cfg,
            ) == Err::<Seq<u8>, Error>(e),
        },
{
    let c = match code {
        None => {
            return Err(Error::InvalidLabelChar);
        },
        Some(c) => c,
    };
    let mut label: Vec<u8> = Vec::new();
    if c.len() > 0 && c[c.len() - 1] == HYPHEN {
        append_bytes(&mut label, lower);
        assert(label@ =~= lower@);
    } else {
        label.push(0x78);
        label.push(0x6e);
        label.push(0x2d);
        label.push(0x2d);
        append_bytes(&mut label, c);
        assert(label@ =~= tag() + c@);
    }
    if label.len() == 0 {
        Err(Error::EmptyLabel)
    } else if label.len() > cfg.max_label_len() {
        Err(Error::TooLongLabel)
    } else {
        Ok(label)
    }
}

/// Gives a piece of Unicode text its stored form.
fn puny_label(piece: &[u8], cfg: Config) -> (r: Result<Vec<u8>, Error>)
    ensures
        match r {
            Ok(label) => puny_piece(piece@, cfg) == Ok::<Seq<u8>, Error>(label@),
            Err(e) => puny_piece(piece@, cfg) == Err::<Seq<u8>, Error>(e),
        },
{
    if piece.len() == 0 {
        return Err(Error::EmptyLabel);
    }
    let text = match str_from_utf8(piece) {
        None => {
            return Err(Error::InvalidLabelChar);
        },
        Some(text) => text,
    };
    proof {
        encode_utf8_decode_utf8(text@);
    }
    let lower = to_lowercase(text);
    if lower.as_str().unicode_len() > 255 {
        return Err(Error::TooLongLabel);
    }
    let code = puny_encode(lower.as_str());
    match &code {
        Some(c) => transcoded_label(lower.as_str().as_bytes(), Some(c.as_str().as_bytes()), cfg),
        None => transcoded_label(lower.as_str().as_bytes(), None, cfg),
    }
}

/// Reads the pieces of a Unicode text, which holds no root and no last
/// dot, into the encoding of their labels.
fn puny_pieces(text: &[u8], cfg: Config) -> (r: Result<Vec<u8>, Error>)
    ensures
        match r {
            Ok(bytes) => puny_labels(text@, cfg) matches Ok(labels) && bytes@ == encode(labels),
            Err(e) => puny_labels(text@, cfg) == Err::<Seq<Seq<u8>>, Error>(e),
        },
{
    let n = text.len();
    let mut out: Vec<u8> = Vec::new();
    let mut start: usize = 0;
    let ghost mut done: Seq<Seq<u8>> = Seq::empty();
    proof {
        assert(text@.skip(0) =~= text@);
        assert(encode(done).drop_last() =~= Seq::<u8>::empty());
        match puny_labels(text@, cfg) {
            Ok(ls) => {
                assert(done + ls =~= ls);
            },
            Err(_) => {},
        }
    }
    loop
        invariant_except_break
            n == text@.len(),
            start <= n,
            puny_labels(text@, cfg) == after(done, puny_labels(text@.skip(start as int), cfg)),
            out@ == encode(done).drop_last(),
        ensures
            puny_labels(text@, cfg) == Ok::<Seq<Seq<u8>>, Error>(done),
            out@ == encode(done).drop_last(),
        decreases n - start,
    {
        let ghost left = text@.skip(start as int);
        let mut end: usize = start;
        while end < n && text[end] != DOT
            invariant
                n == text@.len(),
                start <= end <= n,
                forall|j: int| start <= j < end ==> text@[j] != DOT,
            decreases n - end,
        {
            end += 1;
        }
        let piece = slice_subrange(text, start, end);
        proof {
            lemma_first_dot(left, end - start);
            assert(piece@ =~= left.take(end - start));
        }
        let label = match puny_label(piece, cfg) {
            Err(e) => {
                return Err(e);
            },
            Ok(label) => label,
        };
        out.push(label.len() as u8);
        append_bytes(&mut out, label.as_slice());
        proof {
            lemma_encode_push(done, label@);
            assert(encode(done.push(label@)).drop_last() =~= encode(done).drop_last() + seq![
                label@.len() as u8,
            ] + label@);
            lemma_after_push(done, label@, puny_labels(text@.skip(end + 1), cfg));
            if end < n {
                assert(left.skip(end - start + 1) =~= text@.skip(end + 1));
            }
            done = done.push(label@);
        }
        if end >= n {
            break ;
        }
        start = end + 1;
    }
    out.push(0);
    proof {
        lemma_encode_last(done);
        assert(out@ =~= encode(done));
    }
    Ok(out)
}

/// The labels that [`puny_labels`] gives have between 1 and 255 bytes each.
proof fn lemma_puny_labels_len(text: Seq<u8>, cfg: Config)
    ensures
        puny_labels(text, cfg) matches Ok(labels) ==> forall|i: int|
            0 <= i < labels.len() ==> 1 <= (#[trigger] labels[i]).len() <= 255,
    decreases text.len(),
{
    if let Ok(labels) = puny_labels(text, cfg) {
        let k = first_dot(text) as int;
        if k < text.len() {
            lemma_puny_labels_len(text.skip(k + 1), cfg);
            let rest = puny_labels(text.skip(k + 1), cfg)->Ok_0;
            assert forall|i: int| 0 <= i < labels.len() implies 1 <= (#[trigger] labels[i]).len()
                <= 255 by {
                if i > 0 {
                    assert(labels[i] == rest[i - 1]);
                }
            }
        }
    }
}

impl FQDN {
    /// Reads a name from the bytes of its dotted text in Unicode.
    pub fn from_unicode_text(text: &[u8], cfg: Config) -> (r: Result<FQDN, Error>)
        ensures
            match r {
                Ok(name) => puny_text(text@, cfg) == Ok::<Seq<Seq<u8>>, Error>(name@)
                    && valid_name(name@, cfg),
                Err(e) => puny_text(text@, cfg) == Err::<Seq<Seq<u8>>, Error>(e),
            },
    {
        let n = text.len();
        if n == 0 || (n == 1 && text[0] == DOT) {
            if n == 0 && cfg.name_should_have_trailing_dot {
                return Err(Error::TrailingDotMissing);
            }
            let root = FQDN::default();
            proof {
                assert(encode(root@) =~= seq![0u8]);
            }
            return Ok(root);
        }
        let body = if text[n - 1] == DOT {
            slice_subrange(text, 0, n - 1)
        } else {
            if cfg.name_should_have_trailing_dot {
                return Err(Error::TrailingDotMissing);
            }
            text
        };
        assert(text@.last() == DOT ==> body@ =~= text@.drop_last());
        let bytes = match puny_pieces(body, cfg) {
            Err(e) => {
                return Err(e);
            },
            Ok(bytes) => bytes,
        };
        proof {
            lemma_puny_labels_len(body@, cfg);
            lemma_labels_of_encode(puny_labels(body@, cfg)->Ok_0);
        }
        match Fqdn::from_bytes(bytes.as_slice(), cfg) {
            Err(e) => Err(e),
            Ok(name) => Ok(name.to_owned()),
        }
    }

    /// Reads a name from its dotted text in Unicode.
    ///
    /// Every label is put in lower case. A label that holds more than ASCII
    /// is stored in its Punycode form behind the tag `xn--`; the name as a
    /// whole must then meet the policy.
    pub fn punyencode(s: &str, cfg: Config) -> (r: Result<FQDN, Error>)
        ensures
            match r {
                Ok(name) => puny_text(s.spec_bytes(), cfg) == Ok::<Seq<Seq<u8>>, Error>(name@)
                    && valid_name(name@, cfg),
                Err(e) => puny_text(s.spec_bytes(), cfg) == Err::<Seq<Seq<u8>>, Error>(e),
            },
    {
        FQDN::from_unicode_text(s.as_bytes(), cfg)
    }
}

/// The text that a stored label is shown as: what its Punycode form stands
/// for where the label has the tag, the label itself where it has none.
pub open spec fn decoded_label(label: Seq<u8>) -> Option<Seq<char>> {
    if has_tag(label) {
        punycode_decoded(ascii_chars(label.skip(4)))
    } else {
        Some(ascii_chars(label))
    }
}

/// The texts of the labels with a dot between each two of them; nothing
/// where a label with the tag stands for no text.
pub open spec fn decoded_joined(labels: Seq<Seq<u8>>) -> Option<Seq<char>>
    decreases labels.len(),
{
    if labels.len() == 0 {
        Some(Seq::empty())
    } else {
        match (decoded_joined(labels.drop_last()), decoded_label(labels.last())) {
            (Some(front), Some(last)) => Some(
                if labels.len() == 1 {
                    last
                } else {
                    front + seq!['.'] + last
                },
            ),
            _ => None,
        }
    }
}

/// The Unicode text of a name: the root is a single dot, any other name
/// the texts of its labels with dots between them and, where asked for, a
/// dot at the end.
pub open spec fn decoded_text(labels: Seq<Seq<u8>>, trailing_dot: bool) -> Option<Seq<char>> {
    if labels.len() == 0 {
        Some(seq!['.'])
    } else {
        match decoded_joined(labels) {
            Some(text) => Some(
                if trailing_dot {
                    text + seq!['.']
                } else {
                    text
                },
            ),
            None => None,
        }
    }
}

impl FQDN {
    /// The dotted text of this name in Unicode, or `None` where a label
    /// has the tag `xn--` and what follows it is no Punycode form.
    pub fn punydecode(&self, cfg: Config) -> (r: Option<String>)
        ensures
            match r {
                Some(text) => decoded_text(self@, cfg.name_should_have_trailing_dot) == Some(text@),
                None => decoded_text(self@, cfg.name_should_have_trailing_dot) is None,
            },
    {
        self.as_ref().punydecode(cfg)
    }
}

/// Where the first labels of a name have no text, the name has none.
proof fn lemma_joined_prefix(labels: Seq<Seq<u8>>, k: int)
    requires
        0 <= k <= labels.len(),
        decoded_joined(labels.take(k)) is None,
    ensures
        decoded_joined(labels) is None,
    decreases labels.len() - k,
{
    if k == labels.len() {
        assert(labels.take(k) =~= labels);
    } else {
        assert(labels.drop_last().take(k) =~= labels.take(k));
        lemma_joined_prefix(labels.drop_last(), k);
    }
}

impl<'a> Fqdn<'a> {
    /// The dotted text of this name in Unicode: every label with the tag
    /// `xn--` is shown as the text that its Punycode form stands for.
    ///
    /// Gives `None` where a label has the tag and what follows it is no
    /// Punycode form.
    pub fn punydecode(&self, cfg: Config) -> (r: Option<String>)
        ensures
            match r {
                Some(text) => decoded_text(self@, cfg.name_should_have_trailing_dot) == Some(text@),
                None => decoded_text(self@, cfg.name_should_have_trailing_dot) is None,
            },
    {
        let ghost names = self@;
        let bytes = self.as_bytes();
        let labels = self.labels();
        let count = labels.len();
        proof {
            reveal_strlit(".");
            assert("."@ =~= seq!['.']);
        }
        if count == 0 {
            return Some(String::from_str("."));
        }
        let mut out = String::new();
        let mut i: usize = 0;
        proof {
            assert(names.take(0) =~= Seq::<Seq<u8>>::empty());
        }
        while i < count
            invariant
                i <= count,
                count == labels@.len(),
                count == names.len(),
                names == self@,
                "."@ == seq!['.'],
                crate::wire::labels_ok(names, Config::relaxed()),
                forall|k: int| 0 <= k < count ==> (#[trigger] labels@[k])@ == ascii_chars(names[k]),
                forall|k: int| 0 <= k < count ==> (#[trigger] labels@[k]).spec_bytes() == names[k],
                decoded_joined(names.take(i as int)) == Some(out@),
            decreases count - i,
        {
            let label: &str = labels[i];
            let ghost front = out@;
            let ghost stored = names[i as int];
            proof {
                assert(names.take(i + 1).drop_last() =~= names.take(i as int));
                assert(names.take(i + 1).last() == stored);
                assert(label_ok(stored, Config::relaxed()));
                assert(label@ == ascii_chars(stored));
            }
            if i > 0 {
                out.append(".");
            }
            let raw = label.as_bytes();
            if raw.len() >= 4 && raw[0] == 0x78 && raw[1] == 0x6e && raw[2] == 0x2d && raw[3]
                == 0x2d {
                assert(stored.take(4) =~= tag());
                proof {
                    crate::ascii::lemma_ascii_label(stored, Config::relaxed());
                    crate::ascii::lemma_ascii_is_utf8(stored);
                }
                let code = label.substring_ascii(4, raw.len());
                assert(code@ =~= ascii_chars(stored.skip(4)));
                match puny_decode(code) {
                    None => {
                        proof {
                            lemma_joined_prefix(names, i + 1);
                        }
                        return None;
                    },
                    Some(text) => {
                        out.append(text.as_str());
                    },
                }
            } else {
                proof {
                    if has_tag(stored) {
                        assert(stored.take(4)[0] == stored[0]);
                        assert(stored.take(4)[1] == stored[1]);
                        assert(stored.take(4)[2] == stored[2]);
                        assert(stored.take(4)[3] == stored[3]);
                    }
                }
                out.append(label);
            }
            proof {
                if i == 0 {
                    assert(front + decoded_label(stored)->0 =~= decoded_label(stored)->0);
                }
            }
            i += 1;
        }
        assert(names.take(count as int) =~= names);
        if cfg.name_should_have_trailing_dot {
            out.append(".");
        }
        Some(out)
    }
}

} // verus!
