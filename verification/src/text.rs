//! The dotted text of a name: how text is read into labels, and how labels
//! are written as text.

use vstd::prelude::*;
use vstd::slice::slice_subrange;
use crate::alphabet::{char_class, class_of, is_label_char};
use crate::check::{fold_label, fold_label_into, label_fault, lemma_label_fault};
use crate::config::Config;
use crate::error::Error;
use crate::wire::{
    encode, is_fqdn, label_ok, labels_of, labels_ok, lemma_first_label, lemma_fqdn_parent,
    lemma_root, valid_name, DOT,
};

verus! {

/// The number of bytes of `text` before its first dot; the whole length
/// where it has none.
pub open spec fn first_dot(text: Seq<u8>) -> nat
    decreases text.len(),
{
    if text.len() == 0 || text[0] == DOT {
        0
    } else {
        1 + first_dot(text.skip(1))
    }
}

/// The label that a piece of text between two dots stands for, or why it
/// stands for none.
pub open spec fn text_label(piece: Seq<u8>, cfg: Config) -> Result<Seq<u8>, Error> {
    if piece.len() > cfg.label_limit() {
        Err(Error::TooLongLabel)
    } else if piece.len() == 0 {
        Err(Error::EmptyLabel)
    } else if label_fault(fold_label(piece, cfg), cfg) is Some {
        Err(label_fault(fold_label(piece, cfg), cfg)->0)
    } else {
        Ok(fold_label(piece, cfg))
    }
}

/// `labels` in front of what a reading gave, or its error.
pub open spec fn after(labels: Seq<Seq<u8>>, r: Result<Seq<Seq<u8>>, Error>) -> Result<
    Seq<Seq<u8>>,
    Error,
> {
    match r {
        Ok(rest) => Ok(labels + rest),
        Err(e) => Err(e),
    }
}

/// The labels of a text whose pieces are set apart by dots, with no dot
/// after the last piece; or the error of the first piece that has one.
pub open spec fn parse_labels(text: Seq<u8>, cfg: Config) -> Result<Seq<Seq<u8>>, Error>
    decreases text.len(),
{
    let k = first_dot(text) as int;
    match text_label(text.take(k), cfg) {
        Err(e) => Err(e),
        Ok(label) => if k >= text.len() {
            Ok(seq![label])
        } else {
            after(seq![label], parse_labels(text.skip(k + 1), cfg))
        },
    }
}

/// The labels of a text that is not the root and has lost its last dot, if
/// it had one: the limit on the whole name comes before the pieces.
pub open spec fn parse_body(text: Seq<u8>, cfg: Config) -> Result<Seq<Seq<u8>>, Error> {
    if text.len() + 2 > cfg.name_limit() {
        Err(Error::TooLongDomainName)
    } else {
        parse_labels(text, cfg)
    }
}

/// The name that a dotted text stands for under the policy, or why it
/// stands for none.
///
/// A single dot is the root, and so is the empty text where the last dot may
/// be left out. Any other text loses its last dot, which must be there where
/// the policy asks for it, and is then read piece by piece.
pub open spec fn parse_text(text: Seq<u8>, cfg: Config) -> Result<Seq<Seq<u8>>, Error> {
    if text.len() == 0 {
        if cfg.name_should_have_trailing_dot {
            Err(Error::TrailingDotMissing)
        } else {
            Ok(Seq::empty())
        }
    } else if text.last() == DOT {
        if text.len() == 1 {
            Ok(Seq::empty())
        } else {
            parse_body(text.drop_last(), cfg)
        }
    } else if cfg.name_should_have_trailing_dot {
        Err(Error::TrailingDotMissing)
    } else {
        parse_body(text, cfg)
    }
}

/// Every label followed by a dot.
pub open spec fn dotted(labels: Seq<Seq<u8>>) -> Seq<u8>
    decreases labels.len(),
{
    if labels.len() == 0 {
        Seq::empty()
    } else {
        labels[0] + seq![DOT] + dotted(labels.drop_first())
    }
}

/// The text of a name with its last dot; the root is a single dot.
pub open spec fn with_dot(labels: Seq<Seq<u8>>) -> Seq<u8> {
    if labels.len() == 0 {
        seq![DOT]
    } else {
        dotted(labels)
    }
}

/// The text of a name without its last dot; the root is the empty text.
pub open spec fn without_dot(labels: Seq<Seq<u8>>) -> Seq<u8> {
    if labels.len() == 0 {
        Seq::empty()
    } else {
        dotted(labels).drop_last()
    }
}

/// The text that a name is printed as: the root always as a single dot,
/// any other name with or without its last dot.
pub open spec fn render(labels: Seq<Seq<u8>>, trailing_dot: bool) -> Seq<u8> {
    if labels.len() == 0 || trailing_dot {
        with_dot(labels)
    } else {
        without_dot(labels)
    }
}

/// The class of a byte of text: the dot stands for itself, any other byte
/// for its class in the alphabet.
pub open spec fn text_class(c: u8) -> u8 {
    if c == DOT {
        DOT
    } else {
        char_class(c)
    }
}

/// Whether two texts have the same length and, place by place, bytes of the
/// same class: they differ at most in the case of their letters, as far as
/// they hold nothing but dots and bytes of the alphabet.
pub open spec fn same_text(a: Seq<u8>, b: Seq<u8>) -> bool {
    &&& a.len() == b.len()
    &&& forall|i: int| 0 <= i < a.len() ==> text_class(#[trigger] a[i]) == text_class(b[i])
}

/// Whether `text` is a way of writing the name: the name's text with its
/// last dot, or without it where the dot is not asked for, in letters of
/// either case.
pub open spec fn text_denotes(text: Seq<u8>, labels: Seq<Seq<u8>>, dot_required: bool) -> bool {
    same_text(text, with_dot(labels)) || (!dot_required && same_text(text, without_dot(labels)))
}

/// Where the first dot is: after `k` bytes that are no dots.
pub proof fn lemma_first_dot(text: Seq<u8>, k: int)
    requires
        0 <= k <= text.len(),
        forall|j: int| 0 <= j < k ==> text[j] != DOT,
        k == text.len() || text[k] == DOT,
    ensures
        first_dot(text) == k,
    decreases k,
{
    if k > 0 {
        lemma_first_dot(text.skip(1), k - 1);
    }
}

/// The first dot lies within the text, and no dot comes before it.
pub proof fn lemma_first_dot_bounds(text: Seq<u8>)
    ensures
        first_dot(text) <= text.len(),
        forall|j: int| 0 <= j < first_dot(text) ==> text[j] != DOT,
        first_dot(text) < text.len() ==> text[first_dot(text) as int] == DOT,
    decreases text.len(),
{
    if text.len() > 0 && text[0] != DOT {
        let tail = text.skip(1);
        lemma_first_dot_bounds(tail);
        assert forall|j: int| 0 <= j < first_dot(text) implies text[j] != DOT by {
            if j > 0 {
                assert(text[j] == tail[j - 1]);
            }
        }
        if first_dot(text) < text.len() {
            assert(text[first_dot(text) as int] == tail[first_dot(tail) as int]);
        }
    }
}

/// The encoding ends with the terminator.
pub proof fn lemma_encode_last(labels: Seq<Seq<u8>>)
    ensures
        encode(labels).len() > 0,
        encode(labels).last() == 0,
    decreases labels.len(),
{
    if labels.len() > 0 {
        lemma_encode_last(labels.drop_first());
    }
}

/// A label more at the end: it goes, behind its length, where the
/// terminator was, and the terminator comes after it.
pub proof fn lemma_encode_push(labels: Seq<Seq<u8>>, label: Seq<u8>)
    ensures
        encode(labels.push(label)) == encode(labels).drop_last() + seq![label.len() as u8] + label
            + seq![0u8],
    decreases labels.len(),
{
    let more = labels.push(label);
    if labels.len() == 0 {
        assert(more.drop_first() =~= Seq::<Seq<u8>>::empty());
        assert(encode(more.drop_first()) =~= seq![0u8]);
        assert(more[0] == label);
        assert(encode(more) =~= encode(labels).drop_last() + seq![label.len() as u8] + label
            + seq![0u8]);
    } else {
        lemma_encode_push(labels.drop_first(), label);
        lemma_encode_last(labels.drop_first());
        assert(more.drop_first() =~= labels.drop_first().push(label));
        assert(encode(more) =~= encode(labels).drop_last() + seq![label.len() as u8] + label
            + seq![0u8]);
    }
}

/// A label that meets the policy, put behind labels that meet it: all of
/// them meet it, and the label stands in the encoding where
/// [`lemma_encode_push`] says.
pub proof fn lemma_label_appended(done: Seq<Seq<u8>>, label: Seq<u8>, cfg: Config)
    requires
        labels_ok(done, cfg),
        label_ok(label, cfg),
    ensures
        labels_ok(done.push(label), cfg),
        encode(done.push(label)).drop_last() == encode(done).drop_last() + seq![
            label.len() as u8,
        ] + label,
{
    lemma_encode_push(done, label);
    assert(encode(done.push(label)).drop_last() =~= encode(done).drop_last() + seq![
        label.len() as u8,
    ] + label);
    assert forall|i: int| 0 <= i < done.push(label).len() implies label_ok(
        #[trigger] done.push(label)[i],
        cfg,
    ) by {
        if i < done.len() {
            assert(done.push(label)[i] == done[i]);
        }
    }
}

/// A label in front of what a reading gave comes behind the labels that
/// were read before it.
pub proof fn lemma_after_push(
    done: Seq<Seq<u8>>,
    label: Seq<u8>,
    r: Result<Seq<Seq<u8>>, Error>,
)
    ensures
        after(done, after(seq![label], r)) == after(done.push(label), r),
        after(done, Ok(seq![label])) == Ok::<Seq<Seq<u8>>, Error>(done.push(label)),
{
    match r {
        Ok(rest) => {
            assert(done + (seq![label] + rest) =~= done.push(label) + rest);
        },
        Err(_) => {},
    }
    assert(done + seq![label] =~= done.push(label));
}

/// A label more at the end of a text: it goes behind the text, with its
/// dot.
pub proof fn lemma_dotted_push(labels: Seq<Seq<u8>>, label: Seq<u8>)
    ensures
        dotted(labels.push(label)) == dotted(labels) + label + seq![DOT],
    decreases labels.len(),
{
    let more = labels.push(label);
    if labels.len() == 0 {
        assert(more.drop_first() =~= Seq::<Seq<u8>>::empty());
        assert(dotted(more.drop_first()) =~= Seq::<u8>::empty());
        assert(more[0] == label);
        assert(dotted(more) =~= dotted(labels) + label + seq![DOT]);
    } else {
        lemma_dotted_push(labels.drop_first(), label);
        assert(more.drop_first() =~= labels.drop_first().push(label));
        assert(dotted(more) =~= dotted(labels) + label + seq![DOT]);
    }
}

/// A piece that stands for a label stands for one that meets the policy:
/// the piece itself, folded.
pub proof fn lemma_text_label_ok(piece: Seq<u8>, cfg: Config)
    ensures
        text_label(piece, cfg) matches Ok(label) ==> label_ok(label, cfg) && label.len()
            == piece.len() && label == fold_label(piece, cfg),
{
    if let Ok(label) = text_label(piece, cfg) {
        lemma_label_fault(label, cfg);
    }
}

/// Reads the pieces of `text`, which holds no root and no last dot, into
/// the encoding of their labels.
fn parse_pieces(text: &[u8], cfg: Config) -> (r: Result<Vec<u8>, Error>)
    requires
        text@.len() + 2 <= cfg.name_limit(),
    ensures
        match r {
            Ok(bytes) => parse_labels(text@, cfg) matches Ok(labels) && bytes@ == encode(labels)
                && valid_name(labels, cfg),
            Err(e) => parse_labels(text@, cfg) == Err::<Seq<Seq<u8>>, Error>(e),
        },
{
    let n = text.len();
    let mut out: Vec<u8> = Vec::new();
    let mut start: usize = 0;
    let ghost mut done: Seq<Seq<u8>> = Seq::empty();
    proof {
        assert(text@.skip(0) =~= text@);
        assert(encode(done).drop_last() =~= Seq::<u8>::empty());
        match parse_labels(text@, cfg) {
            Ok(ls) => {
                assert(done + ls =~= ls);
            },
            Err(_) => {},
        }
    }
    loop
        invariant_except_break
            n == text@.len(),
            start <= n,
            n + 2 <= cfg.name_limit(),
            parse_labels(text@, cfg) == after(done, parse_labels(text@.skip(start as int), cfg)),
            out@ == encode(done).drop_last(),
            out@.len() == start,
            labels_ok(done, cfg),
        ensures
            n == text@.len(),
            n + 2 <= cfg.name_limit(),
            parse_labels(text@, cfg) == Ok::<Seq<Seq<u8>>, Error>(done),
            out@ == encode(done).drop_last(),
            out@.len() == n + 1,
            labels_ok(done, cfg),
        decreases n - start,
    {
        let ghost left = text@.skip(start as int);
        let mut end: usize = start;
        while end < n && text[end] != DOT
            invariant
                n == text@.len(),
                start <= end <= n,
                forall|j: int| start <= j < end ==> text@[j] != DOT,
            decreases n - end,
        {
            end += 1;
        }
        let piece = slice_subrange(text, start, end);
        proof {
            lemma_first_dot(left, end - start);
            assert(piece@ =~= left.take(end - start));
            lemma_text_label_ok(piece@, cfg);
        }
        if piece.len() > cfg.max_label_len() {
            return Err(Error::TooLongLabel);
        }
        if piece.len() == 0 {
            return Err(Error::EmptyLabel);
        }
        out.push(piece.len() as u8);
        match fold_label_into(piece, cfg, &mut out) {
            Err(e) => {
                return Err(e);
            },
            Ok(_) => {},
        }
        proof {
            let label = fold_label(piece@, cfg);
            lemma_label_appended(done, label, cfg);
            lemma_after_push(done, label, parse_labels(text@.skip(end + 1), cfg));
            if end < n {
                assert(left.skip(end - start + 1) =~= text@.skip(end + 1));
            }
            done = done.push(label);
        }
        if end >= n {
            break ;
        }
        start = end + 1;
    }
    out.push(0);
    proof {
        lemma_encode_last(done);
        assert(out@ =~= encode(done));
    }
    Ok(out)
}

/// Reads a dotted text into the encoding of the name that it stands for.
pub fn text_to_wire(text: &[u8], cfg: Config) -> (r: Result<Vec<u8>, Error>)
    ensures
        match r {
            Ok(bytes) => parse_text(text@, cfg) matches Ok(labels) && bytes@ == encode(labels)
                && valid_name(labels, cfg),
            Err(e) => parse_text(text@, cfg) == Err::<Seq<Seq<u8>>, Error>(e),
        },
{
    let n = text.len();
    if n == 0 || (n == 1 && text[0] == DOT) {
        if n == 0 && cfg.name_should_have_trailing_dot {
            return Err(Error::TrailingDotMissing);
        }
        let mut root: Vec<u8> = Vec::new();
        root.push(0);
        assert(root@ =~= encode(Seq::<Seq<u8>>::empty()));
        return Ok(root);
    }
    let body = if text[n - 1] == DOT {
        slice_subrange(text, 0, n - 1)
    } else {
        if cfg.name_should_have_trailing_dot {
            return Err(Error::TrailingDotMissing);
        }
        text
    };
    assert(text@.last() == DOT ==> body@ =~= text@.drop_last());
    if body.len() > usize::MAX - 2 || !cfg.name_fits(body.len() + 2) {
        return Err(Error::TooLongDomainName);
    }
    parse_pieces(body, cfg)
}

/// The text with all its dots is one byte shorter than the encoding.
pub proof fn lemma_dotted_len(labels: Seq<Seq<u8>>)
    ensures
        dotted(labels).len() + 1 == encode(labels).len(),
        labels.len() > 0 ==> dotted(labels).len() > 0 && dotted(labels).last() == DOT,
    decreases labels.len(),
{
    if labels.len() > 0 {
        lemma_dotted_len(labels.drop_first());
        if labels.len() == 1 {
            assert(dotted(labels.drop_first()) =~= Seq::<u8>::empty());
        }
    }
}

/// How the question whether a text writes some labels comes down to the
/// first label, its dot, and what follows.
pub proof fn lemma_same_text_step(text: Seq<u8>, labels: Seq<Seq<u8>>)
    requires
        labels.len() > 0,
        text.len() == dotted(labels).len(),
    ensures
        same_text(text, dotted(labels)) <==> {
            &&& same_text(text.take(labels[0].len() as int), labels[0])
            &&& text[labels[0].len() as int] == DOT
            &&& same_text(text.skip(labels[0].len() as int + 1), dotted(labels.drop_first()))
        },
{
    let n = labels[0].len() as int;
    let whole = dotted(labels);
    let rest = dotted(labels.drop_first());
    let head = text.take(n);
    let tail = text.skip(n + 1);
    assert(whole =~= labels[0] + seq![DOT] + rest);
    if same_text(text, whole) {
        assert forall|i: int| 0 <= i < head.len() implies text_class(#[trigger] head[i])
            == text_class(labels[0][i]) by {
            assert(text_class(text[i]) == text_class(whole[i]));
        }
        assert(text_class(text[n]) == text_class(whole[n]));
        assert forall|i: int| 0 <= i < tail.len() implies text_class(#[trigger] tail[i])
            == text_class(rest[i]) by {
            assert(text_class(text[n + 1 + i]) == text_class(whole[n + 1 + i]));
        }
    }
    if same_text(head, labels[0]) && text[n] == DOT && same_text(tail, rest) {
        assert forall|i: int| 0 <= i < text.len() implies text_class(#[trigger] text[i])
            == text_class(whole[i]) by {
            if i < n {
                assert(text_class(head[i]) == text_class(labels[0][i]));
            } else if i > n {
                assert(text_class(tail[i - n - 1]) == text_class(rest[i - n - 1]));
            }
        }
    }
}

/// The text of a name holds ASCII characters only.
pub proof fn lemma_render_ascii(labels: Seq<Seq<u8>>, trailing_dot: bool)
    requires
        labels_ok(labels, Config::relaxed()),
    ensures
        crate::ascii::is_ascii_bytes(render(labels, trailing_dot)),
        crate::ascii::is_ascii_bytes(dotted(labels)),
    decreases labels.len(),
{
    if labels.len() > 0 {
        let tail = labels.drop_first();
        assert forall|i: int| 0 <= i < tail.len() implies label_ok(
            #[trigger] tail[i],
            Config::relaxed(),
        ) by {
            assert(tail[i] == labels[i + 1]);
        }
        lemma_render_ascii(tail, true);
        let whole = dotted(labels);
        assert(label_ok(labels[0], Config::relaxed()));
        assert forall|i: int| 0 <= i < whole.len() implies #[trigger] whole[i] < 0x80 by {
            if i < labels[0].len() {
                assert(is_label_char(labels[0][i], Config::relaxed()));
            } else if i > labels[0].len() {
                assert(whole[i] == dotted(tail)[i - labels[0].len() - 1]);
            }
        }
        let bare = whole.drop_last();
        assert forall|i: int| 0 <= i < bare.len() implies #[trigger] bare[i] < 0x80 by {
            assert(bare[i] == whole[i]);
        }
    }
}

/// Appends the bytes of `more` to `out`.
pub fn append_bytes(out: &mut Vec<u8>, more: &[u8])
    ensures
        final(out)@ == old(out)@ + more@,
{
    let n = more.len();
    let mut i: usize = 0;
    while i < n
        invariant
            n == more@.len(),
            i <= n,
            out@ == old(out)@ + more@.take(i as int),
        decreases n - i,
    {
        out.push(more[i]);
        assert(more@.take(i + 1) =~= more@.take(i as int).push(more@[i as int]));
        i += 1;
    }
    assert(more@.take(n as int) =~= more@);
}

/// Writes an encoded name as dotted text.
pub(crate) fn wire_to_text(bytes: &[u8], trailing_dot: bool) -> (text: Vec<u8>)
    requires
        is_fqdn(bytes@, Config::relaxed()),
    ensures
        text@ == render(labels_of(bytes@), trailing_dot),
{
    let len = bytes.len();
    let mut out: Vec<u8> = Vec::new();
    proof {
        lemma_root(bytes@);
    }
    if bytes[0] == 0 {
        out.push(DOT);
        assert(out@ =~= seq![DOT]);
        return out;
    }
    let mut pos: usize = 0;
    let ghost labels = labels_of(bytes@);
    let ghost mut done: Seq<Seq<u8>> = Seq::empty();
    proof {
        assert(bytes@.skip(0) =~= bytes@);
        assert(done + labels =~= labels);
    }
    while bytes[pos] != 0
        invariant
            len == bytes@.len(),
            pos < len,
            is_fqdn(bytes@.skip(pos as int), Config::relaxed()),
            labels == done + labels_of(bytes@.skip(pos as int)),
            out@ == dotted(done),
        decreases len - pos,
    {
        let ghost left = bytes@.skip(pos as int);
        assert(left[0] == bytes@[pos as int]);
        proof {
            lemma_first_label(left);
            lemma_fqdn_parent(left, Config::relaxed());
        }
        let n = bytes[pos] as usize;
        let label = slice_subrange(bytes, pos + 1, pos + 1 + n);
        append_bytes(&mut out, label);
        out.push(DOT);
        proof {
            assert(label@ =~= left.subrange(1, 1 + n));
            assert(left.skip(1 + n) =~= bytes@.skip(pos + 1 + n));
            lemma_dotted_push(done, label@);
            let rest = labels_of(left.skip(1 + n));
            assert(labels_of(left) =~= seq![label@] + rest);
            assert(done + (seq![label@] + rest) =~= done.push(label@) + rest);
            done = done.push(label@);
        }
        pos += 1 + n;
    }
    proof {
        let left = bytes@.skip(pos as int);
        assert(left[0] == bytes@[pos as int]);
        lemma_root(left);
        assert(done + labels_of(left) =~= done);
        lemma_dotted_len(labels);
    }
    if !trailing_dot {
        out.pop();
        assert(out@ =~= dotted(labels).drop_last());
    }
    out
}

/// Decides whether `n` bytes of text are, place by place, of the class of
/// `n` bytes of a stored label.
fn label_matches(text: &[u8], at: usize, bytes: &[u8], from: usize, n: usize) -> (same: bool)
    requires
        at + n <= text@.len(),
        from + n <= bytes@.len(),
        forall|k: int|
            from <= k < from + n ==> is_label_char(#[trigger] bytes@[k], Config::relaxed()),
    ensures
        same == same_text(
            text@.subrange(at as int, at + n),
            bytes@.subrange(from as int, from + n),
        ),
{
    let ghost piece = text@.subrange(at as int, at + n);
    let ghost label = bytes@.subrange(from as int, from + n);
    let tlen = text.len();
    let blen = bytes.len();
    let mut j: usize = 0;
    while j < n
        invariant
            at + n <= tlen,
            tlen == text@.len(),
            from + n <= blen,
            blen == bytes@.len(),
            j <= n,
            piece == text@.subrange(at as int, at + n),
            label == bytes@.subrange(from as int, from + n),
            forall|k: int|
                from <= k < from + n ==> is_label_char(#[trigger] bytes@[k], Config::relaxed()),
            forall|k: int| 0 <= k < j ==> text_class(#[trigger] piece[k]) == text_class(label[k]),
        decreases n - j,
    {
        assert(piece[j as int] == text@[at + j]);
        assert(label[j as int] == bytes@[from + j]);
        assert(is_label_char(bytes@[from + j], Config::relaxed()));
        if class_of(text[at + j]) != bytes[from + j] {
            return false;
        }
        j += 1;
    }
    true
}

/// Decides whether `text` is a way of writing the encoded name.
pub(crate) fn wire_matches_text(bytes: &[u8], text: &[u8], dot_required: bool) -> (same: bool)
    requires
        is_fqdn(bytes@, Config::relaxed()),
    ensures
        same == text_denotes(text@, labels_of(bytes@), dot_required),
{
    let len = bytes.len();
    let tlen = text.len();
    let ghost labels = labels_of(bytes@);
    proof {
        lemma_root(bytes@);
        crate::wire::lemma_encode_labels_of(bytes@);
        lemma_dotted_len(labels);
    }
    if bytes[0] == 0 {
        return (tlen == 1 && text[0] == DOT) || (tlen == 0 && !dot_required);
    }
    let full = tlen == len - 1;
    if !full && (dot_required || tlen != len - 2) {
        return false;
    }
    let ghost whole = dotted(labels);
    let ghost padded = if full {
        text@
    } else {
        text@.push(DOT)
    };
    proof {
        if !full {
            let bare = whole.drop_last();
            if same_text(text@, bare) {
                assert forall|i: int| 0 <= i < padded.len() implies text_class(
                    #[trigger] padded[i],
                ) == text_class(whole[i]) by {
                    if i < bare.len() {
                        assert(text_class(text@[i]) == text_class(bare[i]));
                    }
                }
            }
            if same_text(padded, whole) {
                assert forall|i: int| 0 <= i < text@.len() implies text_class(
                    #[trigger] text@[i],
                ) == text_class(bare[i]) by {
                    assert(text_class(padded[i]) == text_class(whole[i]));
                }
            }
        }
        assert(text_denotes(text@, labels, dot_required) == same_text(padded, whole));
        assert(bytes@.skip(0) =~= bytes@);
        assert(padded.skip(0) =~= padded);
    }
    let mut pos: usize = 0;
    while bytes[pos] != 0
        invariant
            len == bytes@.len(),
            tlen == text@.len(),
            pos < len,
            tlen == len - 1 || tlen == len - 2,
            labels == labels_of(bytes@),
            padded.len() == len - 1,
            padded == (if tlen == len - 1 {
                text@
            } else {
                text@.push(DOT)
            }),
            is_fqdn(bytes@.skip(pos as int), Config::relaxed()),
            same_text(padded, whole) == same_text(
                padded.skip(pos as int),
                dotted(labels_of(bytes@.skip(pos as int))),
            ),
            text_denotes(text@, labels, dot_required) == same_text(padded, whole),
        decreases len - pos,
    {
        let ghost left = bytes@.skip(pos as int);
        let ghost rest_text = padded.skip(pos as int);
        let n = bytes[pos] as usize;
        proof {
            assert(left[0] == bytes@[pos as int]);
            lemma_first_label(left);
            lemma_fqdn_parent(left, Config::relaxed());
            crate::wire::lemma_encode_labels_of(left);
            lemma_dotted_len(labels_of(left));
            lemma_same_text_step(rest_text, labels_of(left));
            assert(left.subrange(1, 1 + n) =~= bytes@.subrange(pos + 1, pos + 1 + n));
            assert(rest_text.take(n as int) =~= text@.subrange(pos as int, pos + n));
            assert(rest_text.skip(n + 1) =~= padded.skip(pos + 1 + n));
            assert(left.skip(1 + n) =~= bytes@.skip(pos + 1 + n));
            assert(rest_text[n as int] == padded[pos + n]);
            let label = left.subrange(1, 1 + n);
            assert(label_ok(label, Config::relaxed()));
            assert forall|k: int| pos + 1 <= k < pos + 1 + n implies is_label_char(
                #[trigger] bytes@[k],
                Config::relaxed(),
            ) by {
                assert(bytes@[k] == label[k - pos - 1]);
            }
        }
        if !label_matches(text, pos, bytes, pos + 1, n) {
            return false;
        }
        if pos + n < tlen && text[pos + n] != DOT {
            return false;
        }
        pos += 1 + n;
    }
    proof {
        let left = bytes@.skip(pos as int);
        assert(left[0] == bytes@[pos as int]);
        lemma_root(left);
        assert(dotted(labels_of(left)) =~= Seq::<u8>::empty());
        assert(left.len() == 1);
    }
    true
}

} // verus!
