//! When two names are the same name, and which of two names comes first.
//!
//! Names are the same without regard to the case of their letters. As every
//! stored name holds its letters in lower case, two stored names are the
//! same exactly when their labels are equal, and the order of names is the
//! order of their encodings, byte by byte.

use core::cmp::Ordering;
use vstd::prelude::*;
use crate::alphabet::{char_class, class_of};
use crate::config::Config;
use crate::wire::{
    encode, is_fqdn, labels_of, labels_ok, lemma_first_label, lemma_labels_of_encode, lemma_root,
    valid_name, well_formed,
};

verus! {

/// Whether two labels have the same length and, place by place, bytes of
/// the same class.
pub open spec fn same_label(a: Seq<u8>, b: Seq<u8>) -> bool {
    &&& a.len() == b.len()
    &&& forall|j: int| 0 <= j < a.len() ==> char_class(#[trigger] a[j]) == char_class(b[j])
}

/// Whether two names have the same number of labels and, place by place,
/// the same label.
pub open spec fn equivalent(a: Seq<Seq<u8>>, b: Seq<Seq<u8>>) -> bool {
    &&& a.len() == b.len()
    &&& forall|i: int| 0 <= i < a.len() ==> same_label(#[trigger] a[i], b[i])
}

/// Whether two byte sequences are well-formed and hold the same name.
pub open spec fn equivalent_bytes(a: Seq<u8>, b: Seq<u8>) -> bool {
    &&& well_formed(a)
    &&& well_formed(b)
    &&& equivalent(labels_of(a), labels_of(b))
}

/// Whether `a` comes before `b` in the order of byte sequences: at the
/// first place where they differ `a` has the smaller byte, or `a` ends
/// there and `b` does not.
pub open spec fn lex_less(a: Seq<u8>, b: Seq<u8>) -> bool
    decreases a.len(),
{
    if b.len() == 0 {
        false
    } else if a.len() == 0 {
        true
    } else if a[0] != b[0] {
        a[0] < b[0]
    } else {
        lex_less(a.skip(1), b.skip(1))
    }
}

/// `-1`, `0` or `1` as `a` comes before `b`, is `b`, or comes after it.
pub open spec fn lex_sign(a: Seq<u8>, b: Seq<u8>) -> int {
    if a == b {
        0
    } else if lex_less(a, b) {
        -1
    } else {
        1
    }
}

/// The place in the order that a sign stands for.
pub open spec fn ordering_of(sign: int) -> Ordering {
    if sign < 0 {
        Ordering::Less
    } else if sign == 0 {
        Ordering::Equal
    } else {
        Ordering::Greater
    }
}

/// Whether the name encoded in `a` lies under the name encoded in `b`, or
/// is that name: the end of `a`, as long as `b`, holds the same name as `b`.
pub open spec fn is_subdomain(a: Seq<u8>, b: Seq<u8>) -> bool {
    a.len() >= b.len() && equivalent_bytes(a.skip(a.len() - b.len()), b)
}

/// Being the same name is reflexive.
pub proof fn lemma_equivalent_reflexive(a: Seq<Seq<u8>>)
    ensures
        equivalent(a, a),
{
}

/// Being the same name is symmetric.
pub proof fn lemma_equivalent_symmetric(a: Seq<Seq<u8>>, b: Seq<Seq<u8>>)
    requires
        equivalent(a, b),
    ensures
        equivalent(b, a),
{
    assert forall|i: int| 0 <= i < b.len() implies same_label(#[trigger] b[i], a[i]) by {
        assert(same_label(a[i], b[i]));
    }
}

/// Being the same name is transitive.
pub proof fn lemma_equivalent_transitive(a: Seq<Seq<u8>>, b: Seq<Seq<u8>>, c: Seq<Seq<u8>>)
    requires
        equivalent(a, b),
        equivalent(b, c),
    ensures
        equivalent(a, c),
{
    assert forall|i: int| 0 <= i < a.len() implies same_label(#[trigger] a[i], c[i]) by {
        assert(same_label(a[i], b[i]));
        assert(same_label(b[i], c[i]));
        assert forall|j: int| 0 <= j < a[i].len() implies char_class(#[trigger] a[i][j])
            == char_class(c[i][j]) by {
            assert(char_class(a[i][j]) == char_class(b[i][j]));
            assert(char_class(b[i][j]) == char_class(c[i][j]));
        }
    }
}

/// Two names whose labels meet a policy, be it not the same one, are the
/// same name exactly when their labels are equal.
pub proof fn lemma_equivalent_is_equal(
    a: Seq<Seq<u8>>,
    b: Seq<Seq<u8>>,
    cfg_a: Config,
    cfg_b: Config,
)
    requires
        labels_ok(a, cfg_a),
        labels_ok(b, cfg_b),
    ensures
        equivalent(a, b) <==> a == b,
{
    if equivalent(a, b) {
        assert forall|i: int| 0 <= i < a.len() implies a[i] == b[i] by {
            assert(same_label(a[i], b[i]));
            assert(crate::wire::label_ok(a[i], cfg_a));
            assert(crate::wire::label_ok(b[i], cfg_b));
            assert forall|j: int| 0 <= j < a[i].len() implies a[i][j] == b[i][j] by {
                assert(char_class(a[i][j]) == char_class(b[i][j]));
                assert(crate::alphabet::is_label_char(a[i][j], cfg_a));
                assert(crate::alphabet::is_label_char(b[i][j], cfg_b));
            }
            assert(a[i] =~= b[i]);
        }
        assert(a =~= b);
    }
}

/// Two encoded names hold the same name exactly when they are equal byte
/// for byte. So whatever is computed from the bytes alone, as the hash of a
/// name is, is the same for names that are equal.
pub proof fn lemma_equivalent_bytes_is_equal(a: Seq<u8>, b: Seq<u8>, cfg_a: Config, cfg_b: Config)
    requires
        is_fqdn(a, cfg_a),
        is_fqdn(b, cfg_b),
    ensures
        equivalent_bytes(a, b) <==> a == b,
{
    lemma_equivalent_is_equal(labels_of(a), labels_of(b), cfg_a, cfg_b);
    crate::wire::lemma_encode_labels_of(a);
    crate::wire::lemma_encode_labels_of(b);
}

/// How the question of two sequences of one length comes down to their
/// first labels and to what follows them.
pub proof fn lemma_equivalent_step(s: Seq<u8>, t: Seq<u8>)
    requires
        s.len() == t.len(),
        s.len() > 0,
    ensures
        equivalent_bytes(s, t) <==> s[0] == t[0] && if s[0] == 0 {
            s.len() == 1
        } else {
            &&& 1 + s[0] < s.len()
            &&& same_label(s.subrange(1, 1 + s[0]), t.subrange(1, 1 + s[0]))
            &&& equivalent_bytes(s.skip(1 + s[0]), t.skip(1 + s[0]))
        },
{
    let n = s[0] as int;
    if equivalent_bytes(s, t) {
        lemma_root(s);
        lemma_root(t);
        if s[0] != 0 {
            lemma_first_label(s);
            lemma_first_label(t);
            let ls = labels_of(s);
            let lt = labels_of(t);
            assert(same_label(ls[0], lt[0]));
            assert forall|i: int| 0 <= i < ls.drop_first().len() implies same_label(
                #[trigger] ls.drop_first()[i],
                lt.drop_first()[i],
            ) by {
                assert(same_label(ls[i + 1], lt[i + 1]));
            }
        }
    }
    if s[0] == t[0] && s[0] != 0 && 1 + n < s.len() && same_label(
        s.subrange(1, 1 + n),
        t.subrange(1, 1 + n),
    ) && equivalent_bytes(s.skip(1 + n), t.skip(1 + n)) {
        lemma_first_label(s);
        lemma_first_label(t);
        let ls = labels_of(s);
        let lt = labels_of(t);
        assert forall|i: int| 0 <= i < ls.len() implies same_label(#[trigger] ls[i], lt[i]) by {
            if i > 0 {
                assert(ls[i] == ls.drop_first()[i - 1]);
                assert(lt[i] == lt.drop_first()[i - 1]);
                assert(same_label(ls.drop_first()[i - 1], lt.drop_first()[i - 1]));
            }
        }
    }
}

/// Sequences that hold the same name have the same length.
pub proof fn lemma_equivalent_len(s: Seq<u8>, t: Seq<u8>)
    requires
        equivalent_bytes(s, t),
    ensures
        s.len() == t.len(),
    decreases s.len(),
{
    lemma_root(s);
    lemma_root(t);
    if s[0] != 0 {
        lemma_first_label(s);
        lemma_first_label(t);
        let ls = labels_of(s);
        let lt = labels_of(t);
        assert(same_label(ls[0], lt[0]));
        assert forall|i: int| 0 <= i < ls.drop_first().len() implies same_label(
            #[trigger] ls.drop_first()[i],
            lt.drop_first()[i],
        ) by {
            assert(same_label(ls[i + 1], lt[i + 1]));
        }
        lemma_equivalent_len(s.skip(1 + s[0]), t.skip(1 + t[0]));
    }
}

/// No sequence comes before itself.
pub proof fn lemma_lex_irreflexive(a: Seq<u8>)
    ensures
        !lex_less(a, a),
    decreases a.len(),
{
    if a.len() > 0 {
        lemma_lex_irreflexive(a.skip(1));
    }
}

/// Of two sequences exactly one holds: the first comes before the second,
/// they are equal, or the second comes before the first.
pub proof fn lemma_lex_total(a: Seq<u8>, b: Seq<u8>)
    ensures
        lex_less(a, b) || a == b || lex_less(b, a),
        !(lex_less(a, b) && lex_less(b, a)),
        !(lex_less(a, b) && a == b),
    decreases a.len(),
{
    lemma_lex_irreflexive(a);
    if a.len() > 0 && b.len() > 0 && a[0] == b[0] {
        lemma_lex_total(a.skip(1), b.skip(1));
        if a.skip(1) == b.skip(1) {
            assert(a =~= seq![a[0]] + a.skip(1));
            assert(b =~= seq![b[0]] + b.skip(1));
        }
    } else if a.len() == 0 && b.len() == 0 {
        assert(a =~= b);
    }
}

/// What comes before something that comes before a third comes before the
/// third.
pub proof fn lemma_lex_transitive(a: Seq<u8>, b: Seq<u8>, c: Seq<u8>)
    requires
        lex_less(a, b),
        lex_less(b, c),
    ensures
        lex_less(a, c),
    decreases a.len(),
{
    if a.len() > 0 && b.len() > 0 && c.len() > 0 && a[0] == b[0] && b[0] == c[0] {
        lemma_lex_transitive(a.skip(1), b.skip(1), c.skip(1));
    }
}

/// The order agrees with being the same name: two names under a policy are
/// at the same place of the order exactly when they are the same name.
pub proof fn lemma_order_consistent(a: Seq<Seq<u8>>, b: Seq<Seq<u8>>, cfg_a: Config, cfg_b: Config)
    requires
        valid_name(a, cfg_a),
        valid_name(b, cfg_b),
    ensures
        lex_sign(encode(a), encode(b)) == 0 <==> equivalent(a, b),
        lex_sign(encode(a), encode(b)) == -lex_sign(encode(b), encode(a)),
{
    lemma_equivalent_is_equal(a, b, cfg_a, cfg_b);
    crate::wire::lemma_valid_name_encodes(a, cfg_a);
    crate::wire::lemma_valid_name_encodes(b, cfg_b);
    lemma_lex_total(encode(a), encode(b));
}

/// Labels in front of a name: their encoding, without its terminator, comes
/// in front of the encoding of the name.
pub proof fn lemma_encode_concat(front: Seq<Seq<u8>>, name: Seq<Seq<u8>>)
    ensures
        encode(front + name) == encode(front).drop_last() + encode(name),
    decreases front.len(),
{
    if front.len() == 0 {
        assert(front + name =~= name);
        assert(encode(front).drop_last() + encode(name) =~= encode(name));
    } else {
        let whole = front + name;
        assert(whole.drop_first() =~= front.drop_first() + name);
        assert(whole[0] == front[0]);
        lemma_encode_concat(front.drop_first(), name);
        crate::wire::lemma_encode_len(front.drop_first());
        assert(encode(whole) =~= encode(front).drop_last() + encode(name));
    }
}

/// Every name is a subdomain of itself.
pub proof fn lemma_subdomain_reflexive(name: Seq<Seq<u8>>, cfg: Config)
    requires
        valid_name(name, cfg),
    ensures
        is_subdomain(encode(name), encode(name)),
{
    crate::wire::lemma_valid_name_encodes(name, cfg);
    assert(encode(name).skip(0) =~= encode(name));
}

/// A name is a subdomain of every name that it ends with.
pub proof fn lemma_subdomain_of_suffix(front: Seq<Seq<u8>>, name: Seq<Seq<u8>>, cfg: Config)
    requires
        valid_name(front + name, cfg),
    ensures
        is_subdomain(encode(front + name), encode(name)),
{
    let whole = front + name;
    lemma_encode_concat(front, name);
    crate::wire::lemma_encode_len(front);
    assert forall|i: int| 0 <= i < name.len() implies 1 <= (#[trigger] name[i]).len() <= 255 by {
        assert(name[i] == whole[front.len() + i]);
        assert(crate::wire::label_ok(whole[front.len() + i], cfg));
    }
    lemma_labels_of_encode(name);
    assert(encode(whole).skip(encode(whole).len() - encode(name).len()) =~= encode(name));
}

/// Decides whether the `n` bytes from place `from` on are, in both
/// sequences, bytes of the same class.
fn same_label_at(a: &[u8], b: &[u8], from: usize, n: usize) -> (same: bool)
    requires
        from + n <= a@.len(),
        a@.len() == b@.len(),
    ensures
        same == same_label(
            a@.subrange(from as int, from + n),
            b@.subrange(from as int, from + n),
        ),
{
    let ghost la = a@.subrange(from as int, from + n);
    let ghost lb = b@.subrange(from as int, from + n);
    let len = a.len();
    let mut j: usize = 0;
    while j < n
        invariant
            from + n <= len,
            len == a@.len(),
            len == b@.len(),
            j <= n,
            la == a@.subrange(from as int, from + n),
            lb == b@.subrange(from as int, from + n),
            forall|k: int| 0 <= k < j ==> char_class(#[trigger] la[k]) == char_class(lb[k]),
        decreases n - j,
    {
        assert(la[j as int] == a@[from + j]);
        assert(lb[j as int] == b@[from + j]);
        if class_of(a[from + j]) != class_of(b[from + j]) {
            return false;
        }
        j += 1;
    }
    true
}

/// Decides whether two byte sequences are well-formed and hold the same
/// name, comparing length bytes as they are and the bytes of labels by
/// their class.
pub fn are_equivalent(a: &[u8], b: &[u8]) -> (same: bool)
    ensures
        same == equivalent_bytes(a@, b@),
{
    let len = a.len();
    if len != b.len() {
        proof {
            if equivalent_bytes(a@, b@) {
                lemma_equivalent_len(a@, b@);
            }
        }
        return false;
    }
    let mut pos: usize = 0;
    assert(a@.skip(0) =~= a@);
    assert(b@.skip(0) =~= b@);
    loop
        invariant
            len == a@.len(),
            len == b@.len(),
            pos <= len,
            equivalent_bytes(a@, b@) == equivalent_bytes(a@.skip(pos as int), b@.skip(pos as int)),
        decreases len - pos,
    {
        if pos >= len {
            return false;
        }
        let ghost s = a@.skip(pos as int);
        let ghost t = b@.skip(pos as int);
        proof {
            lemma_equivalent_step(s, t);
            assert(s[0] == a@[pos as int]);
            assert(t[0] == b@[pos as int]);
        }
        let n = a[pos] as usize;
        if b[pos] as usize != n {
            return false;
        }
        if n == 0 {
            return pos == len - 1;
        }
        if n >= len - 1 - pos {
            return false;
        }
        assert(a@.subrange(pos + 1, pos + 1 + n) =~= s.subrange(1, 1 + n));
        assert(b@.subrange(pos + 1, pos + 1 + n) =~= t.subrange(1, 1 + n));
        if !same_label_at(a, b, pos + 1, n) {
            return false;
        }
        proof {
            assert(s.skip(1 + n) =~= a@.skip(pos + 1 + n));
            assert(t.skip(1 + n) =~= b@.skip(pos + 1 + n));
        }
        pos += 1 + n;
    }
}

/// Says which of two byte sequences comes first: `-1` for the first, `1`
/// for the second, `0` where they are equal.
pub fn compare_bytes(a: &[u8], b: &[u8]) -> (sign: i8)
    ensures
        sign == lex_sign(a@, b@),
{
    let mut i: usize = 0;
    assert(a@.skip(0) =~= a@);
    assert(b@.skip(0) =~= b@);
    while i < a.len() && i < b.len()
        invariant
            i <= a@.len(),
            i <= b@.len(),
            forall|k: int| 0 <= k < i ==> a@[k] == b@[k],
            lex_less(a@, b@) == lex_less(a@.skip(i as int), b@.skip(i as int)),
        decreases a@.len() - i,
    {
        let ghost s = a@.skip(i as int);
        let ghost t = b@.skip(i as int);
        assert(s[0] == a@[i as int]);
        assert(t[0] == b@[i as int]);
        if a[i] < b[i] {
            return -1;
        }
        if a[i] > b[i] {
            return 1;
        }
        assert(s.skip(1) =~= a@.skip(i + 1));
        assert(t.skip(1) =~= b@.skip(i + 1));
        i += 1;
    }
    if i < b.len() {
        -1
    } else if i < a.len() {
        1
    } else {
        assert(a@ =~= b@);
        proof {
            lemma_lex_irreflexive(a@);
        }
        0
    }
}

} // verus!
