//! What holds of reading and writing names, whatever the text and the
//! policy.

use vstd::prelude::*;
use crate::alphabet::{folded, is_label_char};
use crate::check::{
    byte_fault, check_sequence, fold_label, label_fault, label_fault_from, lemma_label_fault, scan,
};
use crate::config::Config;
use crate::error::Error;
use crate::text::{
    after, dotted, first_dot, lemma_dotted_len, lemma_first_dot, lemma_first_dot_bounds,
    lemma_text_label_ok, parse_labels, parse_text, render, same_text, text_class,
    text_denotes, text_label, with_dot, without_dot,
};
use crate::wire::{encode, label_ok, labels_ok, lemma_encode_len, valid_name, DOT};

verus! {

/// Two bytes of the same class in text fold to the same byte.
pub proof fn lemma_same_class_folds(a: u8, b: u8, cfg: Config)
    requires
        text_class(a) == text_class(b),
    ensures
        folded(a, cfg) == folded(b, cfg),
        a == DOT <==> b == DOT,
{
}

/// Texts that differ in the case of their letters only have their first dot
/// at the same place.
proof fn lemma_same_text_first_dot(s: Seq<u8>, t: Seq<u8>)
    requires
        same_text(s, t),
    ensures
        first_dot(s) == first_dot(t),
    decreases s.len(),
{
    if s.len() > 0 {
        assert(text_class(s[0]) == text_class(t[0]));
        lemma_same_class_folds(s[0], t[0], Config::relaxed());
        if s[0] != DOT {
            assert forall|i: int| 0 <= i < s.skip(1).len() implies text_class(
                #[trigger] s.skip(1)[i],
            ) == text_class(t.skip(1)[i]) by {
                assert(text_class(s[i + 1]) == text_class(t[i + 1]));
            }
            lemma_same_text_first_dot(s.skip(1), t.skip(1));
        }
    }
}

/// Texts that differ in the case of their letters only hold the same
/// labels, or fail in the same way.
proof fn lemma_same_text_labels(s: Seq<u8>, t: Seq<u8>, cfg: Config)
    requires
        same_text(s, t),
    ensures
        parse_labels(s, cfg) == parse_labels(t, cfg),
    decreases s.len(),
{
    lemma_same_text_first_dot(s, t);
    lemma_first_dot_bounds(s);
    let k = first_dot(s) as int;
    assert forall|i: int| 0 <= i < k implies folded(#[trigger] s.take(k)[i], cfg) == folded(
        t.take(k)[i],
        cfg,
    ) by {
        assert(text_class(s[i]) == text_class(t[i]));
        lemma_same_class_folds(s[i], t[i], cfg);
    }
    assert(fold_label(s.take(k), cfg) =~= fold_label(t.take(k), cfg));
    if k < s.len() {
        assert forall|i: int| 0 <= i < s.skip(k + 1).len() implies text_class(
            #[trigger] s.skip(k + 1)[i],
        ) == text_class(t.skip(k + 1)[i]) by {
            assert(text_class(s[i + k + 1]) == text_class(t[i + k + 1]));
        }
        lemma_same_text_labels(s.skip(k + 1), t.skip(k + 1), cfg);
    }
}

/// The case of letters makes no difference to what a text stands for: two
/// texts that differ in it only stand for the same name, or fail in the
/// same way.
pub proof fn lemma_parse_ignores_case(s: Seq<u8>, t: Seq<u8>, cfg: Config)
    requires
        same_text(s, t),
    ensures
        parse_text(s, cfg) == parse_text(t, cfg),
{
    if s.len() > 0 {
        assert(text_class(s[s.len() - 1]) == text_class(t[t.len() - 1]));
        lemma_same_class_folds(s.last(), t.last(), cfg);
        if s.last() == DOT {
            assert forall|i: int| 0 <= i < s.drop_last().len() implies text_class(
                #[trigger] s.drop_last()[i],
            ) == text_class(t.drop_last()[i]) by {
                assert(text_class(s[i]) == text_class(t[i]));
            }
            lemma_same_text_labels(s.drop_last(), t.drop_last(), cfg);
        } else {
            lemma_same_text_labels(s, t, cfg);
        }
    }
}

/// The labels read from a text meet the policy, and their encoding is two
/// bytes longer than the text.
proof fn lemma_parse_labels_valid(text: Seq<u8>, cfg: Config)
    ensures
        parse_labels(text, cfg) matches Ok(labels) ==> labels_ok(labels, cfg) && labels.len() > 0
            && encode(labels).len() == text.len() + 2,
    decreases text.len(),
{
    if let Ok(labels) = parse_labels(text, cfg) {
        lemma_first_dot_bounds(text);
        let k = first_dot(text) as int;
        lemma_text_label_ok(text.take(k), cfg);
        let label = text_label(text.take(k), cfg)->Ok_0;
        lemma_encode_len(labels);
        if k < text.len() {
            lemma_parse_labels_valid(text.skip(k + 1), cfg);
            let rest = parse_labels(text.skip(k + 1), cfg)->Ok_0;
            assert(labels == seq![label] + rest);
            assert(labels.drop_first() =~= rest);
            assert forall|i: int| 0 <= i < labels.len() implies label_ok(
                #[trigger] labels[i],
                cfg,
            ) by {
                if i > 0 {
                    assert(labels[i] == rest[i - 1]);
                }
            }
        } else {
            assert(labels.drop_first() =~= Seq::<Seq<u8>>::empty());
            assert(encode(labels.drop_first()) =~= seq![0u8]);
        }
    }
}

/// What a text stands for is a name under the policy.
pub proof fn lemma_parse_valid(text: Seq<u8>, cfg: Config)
    ensures
        parse_text(text, cfg) matches Ok(labels) ==> valid_name(labels, cfg),
{
    if let Ok(labels) = parse_text(text, cfg) {
        if labels.len() > 0 {
            if text.last() == DOT {
                lemma_parse_labels_valid(text.drop_last(), cfg);
            } else {
                lemma_parse_labels_valid(text, cfg);
            }
        } else {
            if text.len() > 1 {
                if text.last() == DOT {
                    lemma_parse_labels_valid(text.drop_last(), cfg);
                } else {
                    lemma_parse_labels_valid(text, cfg);
                }
            }
        }
    }
}

/// The labels of a name written with dots between them, and none at the
/// end, are read back as they are.
proof fn lemma_labels_round_trip(labels: Seq<Seq<u8>>, cfg: Config)
    requires
        labels.len() > 0,
        labels_ok(labels, cfg),
    ensures
        parse_labels(dotted(labels).drop_last(), cfg) == Ok::<Seq<Seq<u8>>, Error>(labels),
    decreases labels.len(),
{
    let text = dotted(labels).drop_last();
    let first = labels[0];
    let tail = labels.drop_first();
    let n = first.len() as int;
    lemma_dotted_len(labels);
    lemma_dotted_len(tail);
    assert(label_ok(first, cfg));
    assert(dotted(labels) =~= first + seq![DOT] + dotted(tail));
    assert forall|j: int| 0 <= j < n implies text[j] != DOT by {
        assert(text[j] == first[j]);
        assert(is_label_char(first[j], cfg));
    }
    lemma_first_dot(text, n);
    assert(text.take(n) =~= first);
    assert(fold_label(first, cfg) =~= first) by {
        assert forall|j: int| 0 <= j < n implies folded(first[j], cfg) == first[j] by {
            assert(is_label_char(first[j], cfg));
        }
    }
    lemma_label_fault(first, cfg);
    assert(text_label(first, cfg) == Ok::<Seq<u8>, Error>(first));
    if tail.len() == 0 {
        assert(dotted(tail) =~= Seq::<u8>::empty());
        assert(text =~= first);
        assert(labels =~= seq![first]);
    } else {
        assert forall|i: int| 0 <= i < tail.len() implies label_ok(#[trigger] tail[i], cfg) by {
            assert(tail[i] == labels[i + 1]);
        }
        lemma_labels_round_trip(tail, cfg);
        assert(text.skip(n + 1) =~= dotted(tail).drop_last());
        assert(labels =~= seq![first] + tail);
    }
}

/// Writing and reading give the name back: the text of a name, with its
/// last dot or, where the policy does not ask for it, without, stands for
/// that name. So what [`render`] writes under a policy is read back under it
/// as the same name.
pub proof fn lemma_render_parse(labels: Seq<Seq<u8>>, cfg: Config)
    requires
        valid_name(labels, cfg),
    ensures
        parse_text(with_dot(labels), cfg) == Ok::<Seq<Seq<u8>>, Error>(labels),
        !cfg.name_should_have_trailing_dot ==> parse_text(without_dot(labels), cfg) == Ok::<
            Seq<Seq<u8>>,
            Error,
        >(labels),
        parse_text(render(labels, cfg.name_should_have_trailing_dot), cfg) == Ok::<
            Seq<Seq<u8>>,
            Error,
        >(labels),
{
    if labels.len() == 0 {
        assert(labels =~= Seq::<Seq<u8>>::empty());
    } else {
        lemma_dotted_len(labels);
        lemma_labels_round_trip(labels, cfg);
        let bare = dotted(labels).drop_last();
        lemma_encode_len(labels);
        assert(label_ok(labels[0], cfg));
        assert(dotted(labels) =~= labels[0] + seq![DOT] + dotted(labels.drop_first()));
        assert(bare.len() >= 1);
        if bare.last() == DOT {
            // the last byte of the bare text is the last byte of the last label
            lemma_bare_last(labels, cfg);
        }
    }
}

/// The text of a name without its last dot ends with the last byte of the
/// last label, which is no dot.
proof fn lemma_bare_last(labels: Seq<Seq<u8>>, cfg: Config)
    requires
        labels.len() > 0,
        labels_ok(labels, cfg),
    ensures
        dotted(labels).drop_last().len() > 0,
        dotted(labels).drop_last().last() != DOT,
    decreases labels.len(),
{
    let first = labels[0];
    let tail = labels.drop_first();
    lemma_dotted_len(labels);
    lemma_dotted_len(tail);
    assert(label_ok(first, cfg));
    assert(dotted(labels) =~= first + seq![DOT] + dotted(tail));
    if tail.len() == 0 {
        assert(dotted(tail) =~= Seq::<u8>::empty());
        assert(dotted(labels).drop_last() =~= first);
        assert(is_label_char(first[first.len() - 1], cfg));
    } else {
        assert forall|i: int| 0 <= i < tail.len() implies label_ok(#[trigger] tail[i], cfg) by {
            assert(tail[i] == labels[i + 1]);
        }
        lemma_bare_last(tail, cfg);
        let bare = dotted(labels).drop_last();
        let tail_bare = dotted(tail).drop_last();
        assert(bare.last() == tail_bare.last());
    }
}

/// Reading, writing and reading again gives what the first reading gave:
/// the text that is written for the name of a text stands for that name.
pub proof fn lemma_parse_render(text: Seq<u8>, cfg: Config)
    ensures
        parse_text(text, cfg) matches Ok(labels) ==> parse_text(
            render(labels, cfg.name_should_have_trailing_dot),
            cfg,
        ) == Ok::<Seq<Seq<u8>>, Error>(labels),
{
    if let Ok(labels) = parse_text(text, cfg) {
        lemma_parse_valid(text, cfg);
        lemma_render_parse(labels, cfg);
    }
}

/// A text that is a way of writing a name stands for that name.
pub proof fn lemma_denoting_text_parses(text: Seq<u8>, labels: Seq<Seq<u8>>, cfg: Config)
    requires
        valid_name(labels, cfg),
        text_denotes(text, labels, cfg.name_should_have_trailing_dot),
    ensures
        parse_text(text, cfg) == Ok::<Seq<Seq<u8>>, Error>(labels),
{
    lemma_render_parse(labels, cfg);
    if same_text(text, with_dot(labels)) {
        lemma_parse_ignores_case(text, with_dot(labels), cfg);
    } else {
        lemma_parse_ignores_case(text, without_dot(labels), cfg);
    }
}

/// A stored label that meets the policy folds to itself.
pub proof fn lemma_fold_stored(label: Seq<u8>, cfg: Config)
    requires
        label_ok(label, cfg),
    ensures
        fold_label(label, cfg) == label,
        forall|j: int| 0 <= j < label.len() ==> label[j] != DOT && label[j] != 0,
{
    assert forall|j: int| 0 <= j < label.len() implies folded(label[j], cfg) == label[j]
        && label[j] != DOT && label[j] != 0 by {
        assert(is_label_char(label[j], cfg));
    }
    assert(fold_label(label, cfg) =~= label);
}

/// Labels that meet the policy, written in front of a text with a dot
/// after each of them, are read as they are, and the text after them as if
/// it stood alone.
pub proof fn lemma_parse_after_labels(front: Seq<Seq<u8>>, rest: Seq<u8>, cfg: Config)
    requires
        labels_ok(front, cfg),
    ensures
        parse_labels(dotted(front) + rest, cfg) == after(front, parse_labels(rest, cfg)),
    decreases front.len(),
{
    let text = dotted(front) + rest;
    if front.len() == 0 {
        assert(text =~= rest);
        match parse_labels(rest, cfg) {
            Ok(ls) => {
                assert(front + ls =~= ls);
            },
            Err(_) => {},
        }
    } else {
        let first = front[0];
        let tail = front.drop_first();
        let n = first.len() as int;
        assert(label_ok(first, cfg));
        lemma_fold_stored(first, cfg);
        lemma_label_fault(first, cfg);
        assert(text =~= first + seq![DOT] + (dotted(tail) + rest));
        assert forall|j: int| 0 <= j < n implies text[j] != DOT by {
            assert(text[j] == first[j]);
        }
        lemma_first_dot(text, n);
        assert(text.take(n) =~= first);
        assert(text.skip(n + 1) =~= dotted(tail) + rest);
        assert forall|i: int| 0 <= i < tail.len() implies label_ok(#[trigger] tail[i], cfg) by {
            assert(tail[i] == front[i + 1]);
        }
        lemma_parse_after_labels(tail, rest, cfg);
        match parse_labels(rest, cfg) {
            Ok(ls) => {
                assert(seq![first] + (tail + ls) =~= front + ls);
            },
            Err(_) => {},
        }
    }
}

/// An empty piece is an empty label: where, after labels that meet the
/// policy, the text goes on with a dot or ends, reading it fails with
/// [`Error::EmptyLabel`]. This is so for a dot at the start, for two dots
/// that follow each other, and for a second dot at the end; the text may
/// end with a dot of its own after that.
pub proof fn lemma_empty_piece(front: Seq<Seq<u8>>, rest: Seq<u8>, cfg: Config)
    requires
        labels_ok(front, cfg),
        rest.len() == 0 || rest[0] == DOT,
        dotted(front).len() + rest.len() + 2 <= cfg.name_limit(),
    ensures
        parse_labels(dotted(front) + rest, cfg) == Err::<Seq<Seq<u8>>, Error>(Error::EmptyLabel),
        dotted(front).len() + rest.len() > 0 ==> parse_text(
            dotted(front) + rest + seq![DOT],
            cfg,
        ) == Err::<Seq<Seq<u8>>, Error>(Error::EmptyLabel),
{
    lemma_parse_after_labels(front, rest, cfg);
    lemma_first_dot(rest, 0);
    assert(rest.take(0) =~= Seq::<u8>::empty());
    let body = dotted(front) + rest;
    assert((body + seq![DOT]).drop_last() =~= body);
}

/// A piece that is longer than a label may be is a label too long: where,
/// after labels that meet the policy, the text goes on with more bytes
/// without a dot than the policy allows in a label, reading it fails with
/// [`Error::TooLongLabel`], as far as the text is not too long for a name.
pub proof fn lemma_long_piece(front: Seq<Seq<u8>>, rest: Seq<u8>, k: int, cfg: Config)
    requires
        labels_ok(front, cfg),
        cfg.label_limit() < k <= rest.len(),
        forall|j: int| 0 <= j < k ==> rest[j] != DOT,
        dotted(front).len() + rest.len() + 2 <= cfg.name_limit(),
    ensures
        parse_labels(dotted(front) + rest, cfg) == Err::<Seq<Seq<u8>>, Error>(Error::TooLongLabel),
        parse_text(dotted(front) + rest + seq![DOT], cfg) == Err::<Seq<Seq<u8>>, Error>(
            Error::TooLongLabel,
        ),
{
    lemma_parse_after_labels(front, rest, cfg);
    lemma_first_dot_bounds(rest);
    if first_dot(rest) < k {
        assert(rest[first_dot(rest) as int] == DOT);
    }
    let body = dotted(front) + rest;
    assert((body + seq![DOT]).drop_last() =~= body);
}

/// A text too long for a name is refused for that, whatever it holds: a
/// text of more than one byte whose encoding would be longer than the
/// policy allows fails with [`Error::TooLongDomainName`], if it is not
/// refused for its missing last dot.
pub proof fn lemma_long_text(text: Seq<u8>, cfg: Config)
    requires
        text.len() > 1,
        text.last() == DOT || !cfg.name_should_have_trailing_dot,
        (if text.last() == DOT {
            text.len() + 1
        } else {
            text.len() + 2
        }) > cfg.name_limit(),
    ensures
        parse_text(text, cfg) == Err::<Seq<Seq<u8>>, Error>(Error::TooLongDomainName),
{
}

/// The root: a single dot stands for the name without labels under every
/// policy, and so does the empty text where the last dot may be left out.
pub proof fn lemma_root_text(cfg: Config)
    ensures
        parse_text(seq![DOT], cfg) == Ok::<Seq<Seq<u8>>, Error>(Seq::empty()),
        parse_text(Seq::empty(), cfg) == (if cfg.name_should_have_trailing_dot {
            Err::<Seq<Seq<u8>>, Error>(Error::TrailingDotMissing)
        } else {
            Ok::<Seq<Seq<u8>>, Error>(Seq::empty())
        }),
        render(Seq::empty(), cfg.name_should_have_trailing_dot) == seq![DOT],
        encode(Seq::empty()) == seq![0u8],
        valid_name(Seq::empty(), cfg),
{
    assert(encode(Seq::<Seq<u8>>::empty()) =~= seq![0u8]);
}

/// Labels that meet the policy, encoded in front of a byte sequence, are
/// read as they are, and the sequence after them as if it stood alone.
pub proof fn lemma_scan_after_labels(
    front: Seq<Seq<u8>>,
    rest: Seq<u8>,
    cfg: Config,
    fold: bool,
)
    requires
        labels_ok(front, cfg),
        rest.len() > 0,
    ensures
        scan(encode(front).drop_last() + rest, cfg, fold) == after(front, scan(rest, cfg, fold)),
    decreases front.len(),
{
    let bytes = encode(front).drop_last() + rest;
    if front.len() == 0 {
        assert(bytes =~= rest);
        match scan(rest, cfg, fold) {
            Ok(ls) => {
                assert(front + ls =~= ls);
            },
            Err(_) => {},
        }
    } else {
        let first = front[0];
        let tail = front.drop_first();
        let n = first.len() as int;
        assert(label_ok(first, cfg));
        lemma_fold_stored(first, cfg);
        lemma_label_fault(first, cfg);
        lemma_encode_len(tail);
        assert(bytes =~= seq![n as u8] + first + (encode(tail).drop_last() + rest));
        assert(bytes.subrange(1, 1 + n) =~= first);
        assert(bytes.skip(1 + n) =~= encode(tail).drop_last() + rest);
        assert forall|i: int| 0 <= i < tail.len() implies label_ok(#[trigger] tail[i], cfg) by {
            assert(tail[i] == front[i + 1]);
        }
        lemma_scan_after_labels(tail, rest, cfg, fold);
        match scan(rest, cfg, fold) {
            Ok(ls) => {
                assert(seq![first] + (tail + ls) =~= front + ls);
            },
            Err(_) => {},
        }
    }
}

/// A byte sequence without the terminator at its end is refused for that,
/// whatever it holds.
pub proof fn lemma_missing_terminator(bytes: Seq<u8>, cfg: Config)
    requires
        bytes.len() == 0 || bytes.last() != 0,
    ensures
        check_sequence(bytes, cfg) == Err::<(), Error>(Error::TrailingNulCharMissing),
{
}

/// A terminated byte sequence too long for a name is refused for that,
/// whatever it holds.
pub proof fn lemma_long_sequence(bytes: Seq<u8>, cfg: Config)
    requires
        bytes.len() > cfg.name_limit(),
        bytes.last() == 0,
    ensures
        check_sequence(bytes, cfg) == Err::<(), Error>(Error::TooLongDomainName),
{
}

/// A length byte that announces more bytes than are left before the
/// terminator breaks the structure: where it follows labels that meet the
/// policy, the sequence fails with [`Error::InvalidStructure`]. So does a
/// nul byte in the place of a length byte before the end.
pub proof fn lemma_length_byte_overruns(front: Seq<Seq<u8>>, rest: Seq<u8>, cfg: Config)
    requires
        labels_ok(front, cfg),
        rest.len() > 1,
        rest.last() == 0,
        rest[0] == 0 || rest[0] >= rest.len() - 1,
        encode(front).len() - 1 + rest.len() <= cfg.name_limit(),
    ensures
        check_sequence(encode(front).drop_last() + rest, cfg) == Err::<(), Error>(
            Error::InvalidStructure,
        ),
{
    lemma_scan_after_labels(front, rest, cfg, false);
    let bytes = encode(front).drop_last() + rest;
    assert(bytes.last() == rest.last());
}

/// A byte outside the alphabet makes a sequence fail with
/// [`Error::InvalidLabelChar`]: where, after labels that meet the policy, a
/// label of a length that the policy allows holds such a byte and no fault
/// before it.
pub proof fn lemma_bad_byte(front: Seq<Seq<u8>>, rest: Seq<u8>, j: int, cfg: Config)
    requires
        labels_ok(front, cfg),
        rest.len() > 1,
        rest.last() == 0,
        1 <= rest[0] <= cfg.label_limit(),
        rest[0] < rest.len() - 1,
        0 <= j < rest[0],
        !is_label_char(rest[1 + j], cfg),
        forall|i: int|
            0 <= i < j ==> (#[trigger] byte_fault(rest.subrange(1, 1 + rest[0]), i, cfg)) is None,
        encode(front).len() - 1 + rest.len() <= cfg.name_limit(),
    ensures
        check_sequence(encode(front).drop_last() + rest, cfg) == Err::<(), Error>(
            Error::InvalidLabelChar,
        ),
{
    lemma_scan_after_labels(front, rest, cfg, false);
    let bytes = encode(front).drop_last() + rest;
    assert(bytes.last() == rest.last());
    let label = rest.subrange(1, 1 + rest[0]);
    assert(label[j] == rest[1 + j]);
    lemma_first_fault(label, j, cfg);
}

/// The first fault of a label is that of its first faulty byte.
proof fn lemma_first_fault(label: Seq<u8>, j: int, cfg: Config)
    requires
        0 <= j < label.len(),
        byte_fault(label, j, cfg) is Some,
        forall|i: int| 0 <= i < j ==> (#[trigger] byte_fault(label, i, cfg)) is None,
    ensures
        label_fault(label, cfg) == byte_fault(label, j, cfg),
{
    lemma_fault_from(label, 0, j, cfg);
}

proof fn lemma_fault_from(label: Seq<u8>, i: int, j: int, cfg: Config)
    requires
        0 <= i <= j < label.len(),
        byte_fault(label, j, cfg) is Some,
        forall|k: int| i <= k < j ==> (#[trigger] byte_fault(label, k, cfg)) is None,
    ensures
        label_fault_from(label, i, cfg) == byte_fault(label, j, cfg),
    decreases j - i,
{
    if i < j {
        assert(byte_fault(label, i, cfg) is None);
        lemma_fault_from(label, i + 1, j, cfg);
    }
}

/// A piece that stands for a label under a policy stands for the same
/// label under every policy that is no stricter.
proof fn lemma_text_label_relax(piece: Seq<u8>, strict: Config, lenient: Config)
    requires
        strict.at_least_as_strict_as(lenient),
        text_label(piece, strict) is Ok,
    ensures
        text_label(piece, lenient) == text_label(piece, strict),
{
    let label = fold_label(piece, strict);
    lemma_label_fault(label, strict);
    assert forall|j: int| 0 <= j < piece.len() implies folded(piece[j], lenient) == folded(
        piece[j],
        strict,
    ) by {
        assert(is_label_char(label[j], strict));
    }
    assert(fold_label(piece, lenient) =~= label);
    crate::wire::lemma_label_relax(label, strict, lenient);
    lemma_label_fault(label, lenient);
}

proof fn lemma_parse_labels_relax(text: Seq<u8>, strict: Config, lenient: Config)
    requires
        strict.at_least_as_strict_as(lenient),
        parse_labels(text, strict) is Ok,
    ensures
        parse_labels(text, lenient) == parse_labels(text, strict),
    decreases text.len(),
{
    lemma_first_dot_bounds(text);
    let k = first_dot(text) as int;
    lemma_text_label_relax(text.take(k), strict, lenient);
    if k < text.len() {
        lemma_parse_labels_relax(text.skip(k + 1), strict, lenient);
    }
}

/// What a policy accepts, every policy that is no stricter accepts as the
/// same name: a text that stands for a name under a policy stands for that
/// name under any policy that is no stricter and asks for the last dot only
/// if the first one does.
pub proof fn lemma_parse_relax(text: Seq<u8>, strict: Config, lenient: Config)
    requires
        strict.at_least_as_strict_as(lenient),
        lenient.name_should_have_trailing_dot ==> strict.name_should_have_trailing_dot,
        parse_text(text, strict) is Ok,
    ensures
        parse_text(text, lenient) == parse_text(text, strict),
{
    if text.len() > 1 || (text.len() == 1 && text.last() != DOT) {
        if text.last() == DOT {
            lemma_parse_labels_relax(text.drop_last(), strict, lenient);
        } else {
            lemma_parse_labels_relax(text, strict, lenient);
        }
    }
}

/// A byte sequence that is a name under a policy is a name under every
/// policy that is no stricter.
pub proof fn lemma_check_relax(bytes: Seq<u8>, strict: Config, lenient: Config)
    requires
        strict.at_least_as_strict_as(lenient),
        check_sequence(bytes, strict) is Ok,
    ensures
        check_sequence(bytes, lenient) is Ok,
{
    crate::check::lemma_check_sequence(bytes, strict);
    crate::check::lemma_check_sequence(bytes, lenient);
    crate::wire::lemma_fqdn_relax(bytes, strict, lenient);
}

/// The encoding of a name is read back as that name, with its terminator
/// or without: by the validator, which finds no fault, and by the reading
/// that folds letters, which finds nothing to fold.
pub proof fn lemma_encode_round_trip(labels: Seq<Seq<u8>>, cfg: Config)
    requires
        valid_name(labels, cfg),
    ensures
        check_sequence(encode(labels), cfg) == Ok::<(), Error>(()),
        crate::fqdn::name_of_bytes(encode(labels), cfg) == Ok::<Seq<Seq<u8>>, Error>(labels),
        crate::fqdn::name_of_bytes(encode(labels).drop_last(), cfg) == Ok::<Seq<Seq<u8>>, Error>(
            labels,
        ),
{
    let bytes = encode(labels);
    let body = bytes.drop_last();
    crate::text::lemma_encode_last(labels);
    assert(body + seq![0u8] =~= bytes);
    assert(body.push(0) =~= bytes);
    lemma_scan_after_labels(labels, seq![0u8], cfg, true);
    lemma_scan_after_labels(labels, seq![0u8], cfg, false);
    assert(labels + Seq::<Seq<u8>>::empty() =~= labels);
    if body.len() > 0 && body.last() == 0 {
        lemma_body_last(labels, cfg);
    }
}

/// The encoding of a name without its terminator does not end with a nul
/// byte.
proof fn lemma_body_last(labels: Seq<Seq<u8>>, cfg: Config)
    requires
        labels_ok(labels, cfg),
        labels.len() > 0,
    ensures
        encode(labels).drop_last().len() > 0,
        encode(labels).drop_last().last() != 0,
    decreases labels.len(),
{
    let first = labels[0];
    let tail = labels.drop_first();
    assert(label_ok(first, cfg));
    lemma_fold_stored(first, cfg);
    lemma_encode_len(tail);
    crate::text::lemma_encode_last(tail);
    let body = encode(labels).drop_last();
    if tail.len() == 0 {
        assert(encode(tail) =~= seq![0u8]);
        assert(body =~= seq![first.len() as u8] + first);
        assert(body.last() == first[first.len() - 1]);
    } else {
        assert forall|i: int| 0 <= i < tail.len() implies label_ok(#[trigger] tail[i], cfg) by {
            assert(tail[i] == labels[i + 1]);
        }
        lemma_body_last(tail, cfg);
        assert(body.last() == encode(tail).drop_last().last());
    }
}

/// A text without its last dot is a way of writing the labels that are
/// read from it.
proof fn lemma_parse_labels_text(text: Seq<u8>, cfg: Config)
    ensures
        parse_labels(text, cfg) matches Ok(labels) ==> same_text(
            text,
            dotted(labels).drop_last(),
        ),
    decreases text.len(),
{
    if let Ok(labels) = parse_labels(text, cfg) {
        lemma_first_dot_bounds(text);
        lemma_parse_labels_valid(text, cfg);
        let k = first_dot(text) as int;
        let piece = text.take(k);
        lemma_text_label_ok(piece, cfg);
        let label = fold_label(piece, cfg);
        let tail = labels.drop_first();
        let written = dotted(labels).drop_last();
        lemma_dotted_len(labels);
        lemma_dotted_len(tail);
        assert(labels[0] == label);
        assert(dotted(labels) =~= label + seq![DOT] + dotted(tail));
        assert forall|j: int| 0 <= j < k implies text_class(text[j]) == text_class(label[j]) by {
            assert(is_label_char(label[j], cfg));
            assert(label[j] == folded(piece[j], cfg));
        }
        if k < text.len() {
            let after_dot = text.skip(k + 1);
            lemma_parse_labels_text(after_dot, cfg);
            lemma_parse_labels_valid(after_dot, cfg);
            let rest = parse_labels(after_dot, cfg)->Ok_0;
            assert(tail =~= rest);
            assert forall|i: int| 0 <= i < text.len() implies text_class(#[trigger] text[i])
                == text_class(written[i]) by {
                if i > k {
                    assert(text[i] == after_dot[i - k - 1]);
                    assert(written[i] == dotted(rest).drop_last()[i - k - 1]);
                    assert(text_class(after_dot[i - k - 1]) == text_class(
                        dotted(rest).drop_last()[i - k - 1],
                    ));
                }
            }
        } else {
            assert(tail =~= Seq::<Seq<u8>>::empty());
            assert(dotted(tail) =~= Seq::<u8>::empty());
            assert(written =~= label);
        }
    }
}

/// A text is a way of writing the name that it stands for.
pub proof fn lemma_parse_denotes(text: Seq<u8>, cfg: Config)
    ensures
        parse_text(text, cfg) matches Ok(labels) ==> text_denotes(
            text,
            labels,
            cfg.name_should_have_trailing_dot,
        ),
{
    if let Ok(labels) = parse_text(text, cfg) {
        if text.len() > 1 || (text.len() == 1 && text.last() != DOT) {
            if text.last() == DOT {
                let body = text.drop_last();
                lemma_parse_labels_text(body, cfg);
                lemma_parse_labels_valid(body, cfg);
                lemma_dotted_len(labels);
                let whole = dotted(labels);
                assert forall|i: int| 0 <= i < text.len() implies text_class(#[trigger] text[i])
                    == text_class(whole[i]) by {
                    if i < body.len() {
                        assert(text_class(body[i]) == text_class(whole.drop_last()[i]));
                    }
                }
            } else {
                lemma_parse_labels_text(text, cfg);
                lemma_parse_labels_valid(text, cfg);
            }
        }
    }
}

/// Comparing with a text and reading the text agree: a text is a way of
/// writing a name exactly when the name is what the text stands for.
pub proof fn lemma_denotes_iff_parses(text: Seq<u8>, labels: Seq<Seq<u8>>, cfg: Config)
    requires
        valid_name(labels, cfg),
    ensures
        text_denotes(text, labels, cfg.name_should_have_trailing_dot) <==> parse_text(text, cfg)
            == Ok::<Seq<Seq<u8>>, Error>(labels),
{
    if text_denotes(text, labels, cfg.name_should_have_trailing_dot) {
        lemma_denoting_text_parses(text, labels, cfg);
    }
    lemma_parse_denotes(text, cfg);
}

} // verus!
