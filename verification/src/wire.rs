//! The model of a name and of its encoding.
//!
//! A name is the sequence of its labels, first label first; the root is the
//! empty sequence. Its encoding is each label behind a byte that holds the
//! label's length, and a nul byte at the end.

use vstd::prelude::*;
use crate::alphabet::{is_label_char, is_lower_letter};
use crate::config::Config;

verus! {

/// The byte `-`.
pub const HYPHEN: u8 = 0x2d;

/// The byte `.`.
pub const DOT: u8 = 0x2e;

/// The encoding of a sequence of labels.
pub open spec fn encode(labels: Seq<Seq<u8>>) -> Seq<u8>
    decreases labels.len(),
{
    if labels.len() == 0 {
        seq![0u8]
    } else {
        seq![labels[0].len() as u8] + labels[0] + encode(labels.drop_first())
    }
}

/// The labels that a byte sequence holds, read from its start for as long as
/// a length byte and the bytes it announces are there.
pub open spec fn labels_of(bytes: Seq<u8>) -> Seq<Seq<u8>>
    decreases bytes.len(),
{
    if bytes.len() == 0 || bytes[0] == 0 || bytes.len() < 1 + bytes[0] {
        Seq::empty()
    } else {
        seq![bytes.subrange(1, 1 + bytes[0])] + labels_of(bytes.skip(1 + bytes[0]))
    }
}

/// Whether reading labels from the start of `bytes` uses up the sequence and
/// ends on its last byte, the terminator.
pub open spec fn well_formed(bytes: Seq<u8>) -> bool
    decreases bytes.len(),
{
    if bytes.len() == 0 {
        false
    } else if bytes[0] == 0 {
        bytes.len() == 1
    } else {
        1 + bytes[0] < bytes.len() && well_formed(bytes.skip(1 + bytes[0]))
    }
}

/// Whether a label meets the policy: its length, its alphabet, and the rules
/// on its first and last character.
pub open spec fn label_ok(label: Seq<u8>, cfg: Config) -> bool {
    &&& 1 <= label.len() <= cfg.label_limit()
    &&& forall|i: int| 0 <= i < label.len() ==> is_label_char(#[trigger] label[i], cfg)
    &&& cfg.label_should_start_with_letter ==> is_lower_letter(label[0])
    &&& cfg.label_cannot_start_or_end_with_hyphen ==> label[0] != HYPHEN && label.last()
        != HYPHEN
}

/// Whether every label meets the policy.
pub open spec fn labels_ok(labels: Seq<Seq<u8>>, cfg: Config) -> bool {
    forall|i: int| 0 <= i < labels.len() ==> label_ok(#[trigger] labels[i], cfg)
}

/// Whether a sequence of labels is a name under the policy: every label
/// meets it, and the encoding is within the limit on the whole name.
pub open spec fn valid_name(labels: Seq<Seq<u8>>, cfg: Config) -> bool {
    &&& labels_ok(labels, cfg)
    &&& encode(labels).len() <= cfg.name_limit()
}

/// Whether a byte sequence is the encoding of a name under the policy.
pub open spec fn is_fqdn(bytes: Seq<u8>, cfg: Config) -> bool {
    &&& well_formed(bytes)
    &&& bytes.len() <= cfg.name_limit()
    &&& labels_ok(labels_of(bytes), cfg)
}

/// The first label of a well-formed sequence that is not the root, and what
/// follows it.
pub proof fn lemma_first_label(bytes: Seq<u8>)
    requires
        well_formed(bytes),
        bytes[0] != 0,
    ensures
        1 + bytes[0] < bytes.len(),
        well_formed(bytes.skip(1 + bytes[0])),
        labels_of(bytes).len() == 1 + labels_of(bytes.skip(1 + bytes[0])).len(),
        labels_of(bytes)[0] == bytes.subrange(1, 1 + bytes[0]),
        labels_of(bytes).drop_first() == labels_of(bytes.skip(1 + bytes[0])),
{
    let first = bytes.subrange(1, 1 + bytes[0]);
    let rest = labels_of(bytes.skip(1 + bytes[0]));
    assert((seq![first] + rest).drop_first() =~= rest);
}

/// A well-formed sequence is the root exactly when it holds no label.
pub proof fn lemma_root(bytes: Seq<u8>)
    requires
        well_formed(bytes),
    ensures
        bytes[0] == 0 <==> labels_of(bytes).len() == 0,
        bytes[0] == 0 <==> bytes == seq![0u8],
        bytes.last() == 0,
    decreases bytes.len(),
{
    if bytes[0] == 0 {
        assert(bytes =~= seq![0u8]);
    } else {
        lemma_first_label(bytes);
        let rest = bytes.skip(1 + bytes[0]);
        lemma_root(rest);
        assert(rest.last() == bytes.last());
    }
}

/// Encoding what was read from a well-formed sequence gives the sequence
/// back, and every label read has between 1 and 255 bytes.
pub proof fn lemma_encode_labels_of(bytes: Seq<u8>)
    requires
        well_formed(bytes),
    ensures
        encode(labels_of(bytes)) == bytes,
        forall|i: int|
            0 <= i < labels_of(bytes).len() ==> 1 <= (#[trigger] labels_of(bytes)[i]).len() <= 255,
    decreases bytes.len(),
{
    if bytes[0] == 0 {
        assert(bytes =~= seq![0u8]);
    } else {
        lemma_first_label(bytes);
        let rest = bytes.skip(1 + bytes[0]);
        lemma_encode_labels_of(rest);
        let labels = labels_of(bytes);
        assert(encode(labels) =~= bytes);
        assert forall|i: int| 0 <= i < labels.len() implies 1 <= (#[trigger] labels[i]).len()
            <= 255 by {
            if i > 0 {
                assert(labels[i] == labels.drop_first()[i - 1]);
            }
        }
    }
}

/// The encoding of labels of between 1 and 255 bytes each is well-formed,
/// and reading it gives the labels back.
pub proof fn lemma_labels_of_encode(labels: Seq<Seq<u8>>)
    requires
        forall|i: int| 0 <= i < labels.len() ==> 1 <= (#[trigger] labels[i]).len() <= 255,
    ensures
        well_formed(encode(labels)),
        labels_of(encode(labels)) == labels,
    decreases labels.len(),
{
    let bytes = encode(labels);
    if labels.len() == 0 {
        assert(labels_of(bytes) =~= labels);
    } else {
        let tail = labels.drop_first();
        assert forall|i: int| 0 <= i < tail.len() implies 1 <= (#[trigger] tail[i]).len()
            <= 255 by {
            assert(tail[i] == labels[i + 1]);
        }
        lemma_labels_of_encode(tail);
        assert(bytes[0] == labels[0].len());
        assert(bytes.skip(1 + bytes[0]) =~= encode(tail));
        assert(bytes.subrange(1, 1 + bytes[0]) =~= labels[0]);
        assert(labels_of(bytes) =~= labels);
    }
}

/// The length of an encoding: one byte for each label and for the
/// terminator, and the bytes of the labels.
pub proof fn lemma_encode_len(labels: Seq<Seq<u8>>)
    ensures
        encode(labels).len() >= 1 + labels.len(),
        labels.len() > 0 ==> encode(labels).len() == 1 + labels[0].len() + encode(
            labels.drop_first(),
        ).len(),
    decreases labels.len(),
{
    if labels.len() > 0 {
        lemma_encode_len(labels.drop_first());
    }
}

/// What follows the first label of a name is a name.
pub proof fn lemma_fqdn_parent(bytes: Seq<u8>, cfg: Config)
    requires
        is_fqdn(bytes, cfg),
        bytes[0] != 0,
    ensures
        is_fqdn(bytes.skip(1 + bytes[0]), cfg),
        label_ok(bytes.subrange(1, 1 + bytes[0]), cfg),
{
    lemma_first_label(bytes);
    let labels = labels_of(bytes);
    let rest = labels_of(bytes.skip(1 + bytes[0]));
    assert(label_ok(labels[0], cfg));
    assert forall|i: int| 0 <= i < rest.len() implies label_ok(#[trigger] rest[i], cfg) by {
        assert(rest[i] == labels.drop_first()[i]);
        assert(rest[i] == labels[i + 1]);
    }
}

/// A label that meets a policy meets every policy that is no stricter.
pub proof fn lemma_label_relax(label: Seq<u8>, strict: Config, lenient: Config)
    requires
        label_ok(label, strict),
        strict.at_least_as_strict_as(lenient),
    ensures
        label_ok(label, lenient),
{
    assert forall|i: int| 0 <= i < label.len() implies is_label_char(
        #[trigger] label[i],
        lenient,
    ) by {
        assert(is_label_char(label[i], strict));
    }
}

/// A name under a policy is a name under every policy that is no stricter;
/// so a name under any policy is one under the most lenient policy.
pub proof fn lemma_fqdn_relax(bytes: Seq<u8>, strict: Config, lenient: Config)
    requires
        is_fqdn(bytes, strict),
        strict.at_least_as_strict_as(lenient),
    ensures
        is_fqdn(bytes, lenient),
{
    let labels = labels_of(bytes);
    assert forall|i: int| 0 <= i < labels.len() implies label_ok(#[trigger] labels[i], lenient) by {
        lemma_label_relax(labels[i], strict, lenient);
    }
}

/// The two ways of saying that something is a name agree: the encoding of a
/// valid sequence of labels is a name, and it holds these labels.
pub proof fn lemma_valid_name_encodes(labels: Seq<Seq<u8>>, cfg: Config)
    requires
        valid_name(labels, cfg),
    ensures
        is_fqdn(encode(labels), cfg),
        labels_of(encode(labels)) == labels,
{
    assert forall|i: int| 0 <= i < labels.len() implies 1 <= (#[trigger] labels[i]).len()
        <= 255 by {
        assert(label_ok(labels[i], cfg));
    }
    lemma_labels_of_encode(labels);
}

/// The labels of a name are a valid sequence of labels, whose encoding is
/// the name.
pub proof fn lemma_fqdn_decodes(bytes: Seq<u8>, cfg: Config)
    requires
        is_fqdn(bytes, cfg),
    ensures
        valid_name(labels_of(bytes), cfg),
        encode(labels_of(bytes)) == bytes,
{
    lemma_encode_labels_of(bytes);
}

} // verus!
