//! The bytes that are hashed into a series id tell series apart.

use vstd::prelude::*;
use vstd::utf8::{encode_scalar, encode_utf8, encode_utf8_decode_utf8};
use crate::ingest::validate::{label_bytes, name_part, series_bytes, valid_name};
use crate::labels::Pairs;

verus! {

/// Whether a text is free of NUL characters.
pub open spec fn without_nul(s: Seq<char>) -> bool {
    forall|i: int| 0 <= i < s.len() ==> #[trigger] s[i] as u32 != 0
}

/// Whether the labels have valid names, and values free of NUL characters.
pub open spec fn plain_labels(labels: Pairs) -> bool {
    forall|i: int|
        0 <= i < labels.len() ==> valid_name((#[trigger] labels[i]).0) && without_nul(labels[i].1)
}

/// Whether a byte does not occur.
spec fn free_of(bytes: Seq<u8>, b: u8) -> bool {
    forall|i: int| 0 <= i < bytes.len() ==> #[trigger] bytes[i] != b
}

proof fn lemma_scalar_bytes(c: u32, b: u8)
    requires
        b < 128,
        c != b,
    ensures
        free_of(encode_scalar(c), b),
{
    assert(c <= 0x7F ==> (c & 0x7F) as u8 == c) by (bit_vector);
    assert(0xC0 | ((c >> 6) & 0x1F) as u8 >= 128) by (bit_vector);
    assert(0xE0 | ((c >> 12) & 0x0F) as u8 >= 128) by (bit_vector);
    assert(0xF0 | ((c >> 18) & 0x7) as u8 >= 128) by (bit_vector);
    assert(0x80 | (c & 0x3F) as u8 >= 128) by (bit_vector);
    assert(0x80 | ((c >> 6) & 0x3F) as u8 >= 128) by (bit_vector);
    assert(0x80 | ((c >> 12) & 0x3F) as u8 >= 128) by (bit_vector);
}

/// A text without an ASCII character is encoded without that byte.
proof fn lemma_free_of(s: Seq<char>, b: u8)
    requires
        b < 128,
        forall|i: int| 0 <= i < s.len() ==> #[trigger] s[i] as u32 != b as u32,
    ensures
        free_of(encode_utf8(s), b),
    decreases s.len(),
{
    if s.len() > 0 {
        let rest = s.drop_first();
        assert(s[0] as u32 != b as u32);
        lemma_scalar_bytes(s[0] as u32, b);
        assert forall|i: int| 0 <= i < rest.len() implies #[trigger] rest[i] as u32 != b as u32 by {
            assert(rest[i] == s[i + 1]);
        }
        lemma_free_of(rest, b);
    }
}

proof fn lemma_name_bytes(s: Seq<char>)
    requires
        valid_name(s),
    ensures
        free_of(encode_utf8(s), 0),
        free_of(encode_utf8(s), 61),
{
    assert forall|i: int| 0 <= i < s.len() implies #[trigger] s[i] as u32 != 0 && s[i] as u32
        != 61 by {
        assert(name_part(s[i]));
    }
    lemma_free_of(s, 0);
    lemma_free_of(s, 61);
}

proof fn lemma_value_bytes(s: Seq<char>)
    requires
        without_nul(s),
    ensures
        free_of(encode_utf8(s), 0),
{
    lemma_free_of(s, 0);
}

/// What stands before the first occurrence of a byte, and what after it, is
/// fixed.
proof fn lemma_split(a: Seq<u8>, u: Seq<u8>, b: Seq<u8>, v: Seq<u8>, mark: u8)
    requires
        a + seq![mark] + u == b + seq![mark] + v,
        free_of(a, mark),
        free_of(b, mark),
    ensures
        a == b,
        u == v,
{
    let x = a + seq![mark] + u;
    let y = b + seq![mark] + v;
    if a.len() < b.len() {
        assert(x[a.len() as int] == mark);
        assert(y[a.len() as int] == b[a.len() as int]);
    }
    if b.len() < a.len() {
        assert(y[b.len() as int] == mark);
        assert(x[b.len() as int] == a[b.len() as int]);
    }
    assert forall|i: int| 0 <= i < a.len() implies a[i] == b[i] by {
        assert(x[i] == a[i]);
        assert(y[i] == b[i]);
    }
    assert(a =~= b);
    assert(x.skip(a.len() as int + 1) =~= u);
    assert(y.skip(b.len() as int + 1) =~= v);
}

proof fn lemma_same_text(a: Seq<char>, b: Seq<char>)
    requires
        encode_utf8(a) == encode_utf8(b),
    ensures
        a == b,
{
    encode_utf8_decode_utf8(a);
    encode_utf8_decode_utf8(b);
}

/// The bytes of a list of labels are those of its first, and then of the others.
proof fn lemma_first_label(labels: Pairs)
    requires
        labels.len() > 0,
    ensures
        label_bytes(labels) == encode_utf8(labels[0].0) + seq![61u8] + (encode_utf8(labels[0].1)
            + seq![0u8] + label_bytes(labels.skip(1))),
    decreases labels.len(),
{
    let front = encode_utf8(labels[0].0) + seq![61u8] + encode_utf8(labels[0].1) + seq![0u8];
    let last = encode_utf8(labels.last().0) + seq![61u8] + encode_utf8(labels.last().1)
        + seq![0u8];
    assert(label_bytes(labels) =~= label_bytes(labels.drop_last()) + last);
    if labels.len() == 1 {
        assert(labels.skip(1) =~= Seq::empty());
        assert(labels.drop_last() =~= Seq::empty());
    } else {
        let rest = labels.drop_last();
        lemma_first_label(rest);
        assert(rest.skip(1) =~= labels.skip(1).drop_last());
        assert(label_bytes(labels.skip(1)) =~= label_bytes(labels.skip(1).drop_last()) + last);
    }
    assert(label_bytes(labels) =~= front + label_bytes(labels.skip(1)));
    assert(label_bytes(labels) =~= encode_utf8(labels[0].0) + seq![61u8] + (encode_utf8(labels[0].1)
        + seq![0u8] + label_bytes(labels.skip(1))));
}

proof fn lemma_same_labels(a: Pairs, b: Pairs)
    requires
        plain_labels(a),
        plain_labels(b),
        label_bytes(a) == label_bytes(b),
    ensures
        a == b,
    decreases a.len(),
{
    if a.len() > 0 {
        lemma_first_label(a);
    }
    if b.len() > 0 {
        lemma_first_label(b);
    }
    if a.len() == 0 || b.len() == 0 {
        assert(a.len() == 0 && b.len() == 0);
        assert(a =~= b);
    } else {
        let (an, av) = a[0];
        let (bn, bv) = b[0];
        let at = encode_utf8(av) + seq![0u8] + label_bytes(a.skip(1));
        let bt = encode_utf8(bv) + seq![0u8] + label_bytes(b.skip(1));
        lemma_name_bytes(an);
        lemma_name_bytes(bn);
        lemma_split(encode_utf8(an), at, encode_utf8(bn), bt, 61);
        lemma_value_bytes(av);
        lemma_value_bytes(bv);
        lemma_split(
            encode_utf8(av),
            label_bytes(a.skip(1)),
            encode_utf8(bv),
            label_bytes(b.skip(1)),
            0,
        );
        lemma_same_text(an, bn);
        lemma_same_text(av, bv);
        lemma_same_labels(a.skip(1), b.skip(1));
        assert(a =~= seq![a[0]] + a.skip(1));
        assert(b =~= seq![b[0]] + b.skip(1));
    }
}

/// Two different series are hashed from different bytes, as long as no label
/// value holds a NUL character.
pub proof fn law_bytes_tell_series_apart(m: Seq<char>, a: Pairs, n: Seq<char>, b: Pairs)
    requires
        valid_name(m),
        valid_name(n),
        plain_labels(a),
        plain_labels(b),
        m != n || a != b,
    ensures
        series_bytes(m, a) != series_bytes(n, b),
{
    if series_bytes(m, a) == series_bytes(n, b) {
        lemma_name_bytes(m);
        lemma_name_bytes(n);
        lemma_split(encode_utf8(m), label_bytes(a), encode_utf8(n), label_bytes(b), 0);
        lemma_same_text(m, n);
        lemma_same_labels(a, b);
    }
}

} // verus!
