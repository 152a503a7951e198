//! Validation of byte sequences: which error a sequence earns, and why a
//! sequence that earns none is a name.

use vstd::prelude::*;
use vstd::slice::slice_subrange;
use crate::alphabet::{
    check_and_lower_any_char, check_any_char, folded, is_label_char, is_lower_letter,
};
use crate::config::Config;
use crate::error::Error;
use crate::wire::{is_fqdn, label_ok, labels_of, labels_ok, lemma_first_label, well_formed, HYPHEN};

verus! {

/// What is wrong with a byte that is in the alphabet, by its place in the
/// label: the rules on the first byte come before the rule on the last.
pub open spec fn place_fault(c: u8, first: bool, last: bool, cfg: Config) -> Option<Error> {
    if first && cfg.label_cannot_start_or_end_with_hyphen && c == HYPHEN {
        Some(Error::LabelCannotStartWithHyphen)
    } else if first && cfg.label_should_start_with_letter && !is_lower_letter(c) {
        Some(Error::LabelDoesNotStartWithLetter)
    } else if last && cfg.label_cannot_start_or_end_with_hyphen && c == HYPHEN {
        Some(Error::LabelCannotEndWithHyphen)
    } else {
        None
    }
}

/// What is wrong with a byte of a stored label, if anything: the byte
/// itself first, then its place in the label.
pub open spec fn char_fault(c: u8, first: bool, last: bool, cfg: Config) -> Option<Error> {
    if !is_label_char(c, cfg) {
        Some(Error::InvalidLabelChar)
    } else {
        place_fault(c, first, last, cfg)
    }
}

/// What is wrong with the byte at place `i` of a label, if anything.
pub open spec fn byte_fault(label: Seq<u8>, i: int, cfg: Config) -> Option<Error> {
    char_fault(label[i], i == 0, i == label.len() - 1, cfg)
}

/// The first fault among the bytes of a label from place `i` on.
pub open spec fn label_fault_from(label: Seq<u8>, i: int, cfg: Config) -> Option<Error>
    decreases label.len() - i,
{
    if i < 0 || i >= label.len() {
        None
    } else if byte_fault(label, i, cfg) is Some {
        byte_fault(label, i, cfg)
    } else {
        label_fault_from(label, i + 1, cfg)
    }
}

/// The first fault of a label, reading its bytes in order.
pub open spec fn label_fault(label: Seq<u8>, cfg: Config) -> Option<Error> {
    label_fault_from(label, 0, cfg)
}

/// A label with each byte replaced by its class under the policy: letters
/// in lower case, and zero for what the alphabet does not hold.
pub open spec fn fold_label(raw: Seq<u8>, cfg: Config) -> Seq<u8> {
    Seq::new(raw.len(), |i: int| folded(raw[i], cfg))
}

/// The label as it is stored: folded where folding is asked for, else as it
/// stands.
pub open spec fn stored_label(raw: Seq<u8>, cfg: Config, fold: bool) -> Seq<u8> {
    if fold {
        fold_label(raw, cfg)
    } else {
        raw
    }
}

/// Reads labels up to the terminator and gives them in their stored form,
/// or the first error met. `bytes` is what is left to read, terminator
/// included.
///
/// Without folding, letters must be in lower case already and a nul byte
/// before the end breaks the structure; with folding, letters of either case
/// are taken and such a nul byte is an empty label.
pub open spec fn scan(bytes: Seq<u8>, cfg: Config, fold: bool) -> Result<Seq<Seq<u8>>, Error>
    decreases bytes.len(),
{
    if bytes.len() <= 1 {
        Ok(Seq::empty())
    } else {
        let n = bytes[0];
        let label = stored_label(bytes.subrange(1, 1 + n), cfg, fold);
        if n == 0 {
            Err(
                if fold {
                    Error::EmptyLabel
                } else {
                    Error::InvalidStructure
                },
            )
        } else if n >= bytes.len() - 1 {
            Err(Error::InvalidStructure)
        } else if n > cfg.label_limit() {
            Err(Error::TooLongLabel)
        } else if label_fault(label, cfg) is Some {
            Err(label_fault(label, cfg)->0)
        } else {
            match scan(bytes.skip(1 + n), cfg, fold) {
                Ok(rest) => Ok(seq![label] + rest),
                Err(e) => Err(e),
            }
        }
    }
}

/// The verdict on a byte sequence that claims to be an encoded name.
pub open spec fn check_sequence(bytes: Seq<u8>, cfg: Config) -> Result<(), Error> {
    if bytes.len() == 0 || bytes.last() != 0 {
        Err(Error::TrailingNulCharMissing)
    } else if bytes.len() > cfg.name_limit() {
        Err(Error::TooLongDomainName)
    } else {
        verdict(scan(bytes, cfg, false))
    }
}

/// The outcome of a reading without the labels that it gave.
pub open spec fn verdict(r: Result<Seq<Seq<u8>>, Error>) -> Result<(), Error> {
    match r {
        Ok(_) => Ok(()),
        Err(e) => Err(e),
    }
}

/// A label without fault, and of a length that the policy allows, meets the
/// policy; and the other way round.
pub proof fn lemma_label_fault(label: Seq<u8>, cfg: Config)
    requires
        1 <= label.len() <= cfg.label_limit(),
    ensures
        label_fault(label, cfg) is None <==> label_ok(label, cfg),
{
    lemma_label_fault_from(label, 0, cfg);
    if label_fault(label, cfg) is None {
        assert(byte_fault(label, 0, cfg) is None);
        assert(byte_fault(label, label.len() - 1, cfg) is None);
        assert forall|i: int| 0 <= i < label.len() implies is_label_char(
            #[trigger] label[i],
            cfg,
        ) by {
            assert(byte_fault(label, i, cfg) is None);
        }
    }
}

proof fn lemma_label_fault_from(label: Seq<u8>, i: int, cfg: Config)
    requires
        0 <= i <= label.len(),
    ensures
        label_fault_from(label, i, cfg) is None <==> forall|k: int|
            i <= k < label.len() ==> (#[trigger] byte_fault(label, k, cfg)) is None,
    decreases label.len() - i,
{
    if i < label.len() {
        lemma_label_fault_from(label, i + 1, cfg);
    }
}

/// The class of a byte, where it is not zero, may stand in a stored label.
pub proof fn lemma_folded_is_label_char(c: u8, cfg: Config)
    ensures
        folded(c, cfg) != 0 <==> is_label_char(folded(c, cfg), cfg),
        is_label_char(c, cfg) ==> folded(c, cfg) == c,
{
}

/// What [`scan`] accepts: it gives the labels of the sequence in their
/// stored form, these meet the policy, and the sequence is well-formed.
pub proof fn lemma_scan_ok(bytes: Seq<u8>, cfg: Config, fold: bool)
    requires
        bytes.len() > 0,
        bytes.last() == 0,
    ensures
        scan(bytes, cfg, fold) matches Ok(labels) ==> {
            &&& well_formed(bytes)
            &&& labels_ok(labels, cfg)
            &&& labels.len() == labels_of(bytes).len()
            &&& forall|i: int|
                0 <= i < labels.len() ==> #[trigger] labels[i] == stored_label(
                    labels_of(bytes)[i],
                    cfg,
                    fold,
                )
        },
    decreases bytes.len(),
{
    if bytes.len() > 1 {
        if let Ok(labels) = scan(bytes, cfg, fold) {
            let n = bytes[0];
            let rest = bytes.skip(1 + n);
            assert(rest.last() == bytes.last());
            lemma_scan_ok(rest, cfg, fold);
            lemma_first_label(bytes);
            let label = stored_label(bytes.subrange(1, 1 + n), cfg, fold);
            lemma_label_fault(label, cfg);
            let tail = scan(rest, cfg, fold)->Ok_0;
            assert(labels == seq![label] + tail);
            assert forall|i: int| 0 <= i < labels.len() implies label_ok(
                #[trigger] labels[i],
                cfg,
            ) by {
                if i > 0 {
                    assert(labels[i] == tail[i - 1]);
                }
            }
            assert forall|i: int| 0 <= i < labels.len() implies #[trigger] labels[i]
                == stored_label(labels_of(bytes)[i], cfg, fold) by {
                if i > 0 {
                    assert(labels[i] == tail[i - 1]);
                    assert(labels_of(bytes)[i] == labels_of(bytes).drop_first()[i - 1]);
                }
            }
        }
    } else {
        assert(bytes[0] == bytes.last());
    }
}

/// What [`scan`] accepts without folding is exactly the well-formed
/// sequences whose labels meet the policy, and it gives their labels.
pub proof fn lemma_scan_exact(bytes: Seq<u8>, cfg: Config)
    requires
        bytes.len() > 0,
        bytes.last() == 0,
    ensures
        scan(bytes, cfg, false) is Ok <==> well_formed(bytes) && labels_ok(labels_of(bytes), cfg),
        scan(bytes, cfg, false) is Ok ==> scan(bytes, cfg, false) == Ok::<Seq<Seq<u8>>, Error>(
            labels_of(bytes),
        ),
    decreases bytes.len(),
{
    lemma_scan_ok(bytes, cfg, false);
    if let Ok(labels) = scan(bytes, cfg, false) {
        assert(labels =~= labels_of(bytes));
    } else if well_formed(bytes) && labels_ok(labels_of(bytes), cfg) {
        if bytes.len() > 1 {
            let n = bytes[0];
            let rest = bytes.skip(1 + n);
            lemma_first_label(bytes);
            assert(rest.last() == bytes.last());
            let label = bytes.subrange(1, 1 + n);
            assert(label_ok(labels_of(bytes)[0], cfg));
            lemma_label_fault(label, cfg);
            assert forall|i: int| 0 <= i < labels_of(rest).len() implies label_ok(
                #[trigger] labels_of(rest)[i],
                cfg,
            ) by {
                assert(labels_of(rest)[i] == labels_of(bytes).drop_first()[i]);
                assert(labels_of(rest)[i] == labels_of(bytes)[i + 1]);
            }
            lemma_scan_exact(rest, cfg);
        }
    }
}

/// The verdict is `Ok` exactly on the names of the policy.
pub proof fn lemma_check_sequence(bytes: Seq<u8>, cfg: Config)
    ensures
        check_sequence(bytes, cfg) is Ok <==> is_fqdn(bytes, cfg),
{
    if bytes.len() > 0 && bytes.last() == 0 {
        lemma_scan_exact(bytes, cfg);
    } else if well_formed(bytes) {
        crate::wire::lemma_root(bytes);
    }
}

/// Holds a byte of the alphabet to the rules on the first and the last byte
/// of a label.
pub fn check_place(c: u8, first: bool, last: bool, cfg: Config) -> (r: Result<(), Error>)
    ensures
        r is Ok <==> place_fault(c, first, last, cfg) is None,
        r matches Err(e) ==> place_fault(c, first, last, cfg) == Some(e),
{
    if first && cfg.label_cannot_start_or_end_with_hyphen && c == HYPHEN {
        Err(Error::LabelCannotStartWithHyphen)
    } else if first && cfg.label_should_start_with_letter && !(0x61 <= c && c <= 0x7a) {
        Err(Error::LabelDoesNotStartWithLetter)
    } else if last && cfg.label_cannot_start_or_end_with_hyphen && c == HYPHEN {
        Err(Error::LabelCannotEndWithHyphen)
    } else {
        Ok(())
    }
}

/// Looks for the first fault of a label whose bytes are stored as they
/// stand.
pub fn check_label(label: &[u8], cfg: Config) -> (r: Result<(), Error>)
    ensures
        r is Ok <==> label_fault(label@, cfg) is None,
        r matches Err(e) ==> label_fault(label@, cfg) == Some(e),
{
    let n = label.len();
    let mut i: usize = 0;
    while i < n
        invariant
            i <= n,
            n == label@.len(),
            label_fault(label@, cfg) == label_fault_from(label@, i as int, cfg),
        decreases n - i,
    {
        let c = label[i];
        match check_any_char(c, cfg) {
            Err(e) => {
                return Err(e);
            },
            Ok(_) => {},
        }
        match check_place(c, i == 0, i == n - 1, cfg) {
            Err(e) => {
                return Err(e);
            },
            Ok(_) => {},
        }
        i += 1;
    }
    Ok(())
}

/// Folds the bytes of `raw` and appends them to `out`, up to the first
/// fault of the folded label.
pub fn fold_label_into(raw: &[u8], cfg: Config, out: &mut Vec<u8>) -> (r: Result<(), Error>)
    ensures
        r is Ok <==> label_fault(fold_label(raw@, cfg), cfg) is None,
        r matches Err(e) ==> label_fault(fold_label(raw@, cfg), cfg) == Some(e),
        r is Ok ==> final(out)@ == old(out)@ + fold_label(raw@, cfg),
{
    let n = raw.len();
    let ghost label = fold_label(raw@, cfg);
    let mut i: usize = 0;
    while i < n
        invariant
            i <= n,
            n == raw@.len(),
            label == fold_label(raw@, cfg),
            label_fault(label, cfg) == label_fault_from(label, i as int, cfg),
            out@ == old(out)@ + label.take(i as int),
        decreases n - i,
    {
        proof {
            lemma_folded_is_label_char(raw@[i as int], cfg);
        }
        let c = match check_and_lower_any_char(raw[i], cfg) {
            Err(e) => {
                return Err(e);
            },
            Ok(c) => c,
        };
        match check_place(c, i == 0, i == n - 1, cfg) {
            Err(e) => {
                return Err(e);
            },
            Ok(_) => {},
        }
        out.push(c);
        assert(label.take(i + 1) =~= label.take(i as int).push(c));
        i += 1;
    }
    assert(label.take(n as int) =~= label);
    Ok(())
}

/// Decides whether `bytes` is the encoding of a name under the policy, and
/// says what is wrong where it is not.
///
/// The sequence must end with the terminator and be within the limit on
/// the whole name. Then each label is read in turn: its length byte must not
/// be nul nor reach to the terminator or beyond, the label must be within the limit on labels,
/// and each byte of it must be in the alphabet, in lower case, and in a
/// place where the policy allows it.
pub fn check_byte_sequence(bytes: &[u8], cfg: Config) -> (r: Result<(), Error>)
    ensures
        r == check_sequence(bytes@, cfg),
        r is Ok <==> is_fqdn(bytes@, cfg),
{
    proof {
        lemma_check_sequence(bytes@, cfg);
    }
    let len = bytes.len();
    if len == 0 || bytes[len - 1] != 0 {
        return Err(Error::TrailingNulCharMissing);
    }
    if !cfg.name_fits(len) {
        return Err(Error::TooLongDomainName);
    }
    let mut pos: usize = 0;
    assert(bytes@.skip(0) =~= bytes@);
    while pos < len - 1
        invariant
            len == bytes@.len(),
            len > 0,
            pos <= len - 1,
            check_sequence(bytes@, cfg) == verdict(scan(bytes@.skip(pos as int), cfg, false)),
            check_sequence(bytes@, cfg) is Ok <==> is_fqdn(bytes@, cfg),
        decreases len - pos,
    {
        let ghost left = bytes@.skip(pos as int);
        let n = bytes[pos] as usize;
        assert(left[0] == bytes@[pos as int]);
        if n == 0 || n >= len - 1 - pos {
            return Err(Error::InvalidStructure);
        }
        if n > cfg.max_label_len() {
            return Err(Error::TooLongLabel);
        }
        let label = slice_subrange(bytes, pos + 1, pos + 1 + n);
        assert(label@ =~= left.subrange(1, 1 + n));
        match check_label(label, cfg) {
            Err(e) => {
                return Err(e);
            },
            Ok(_) => {},
        }
        assert(left.skip(1 + n) =~= bytes@.skip(pos + 1 + n));
        pos += 1 + n;
    }
    assert(bytes@.skip(pos as int).len() == 1);
    Ok(())
}

} // verus!
