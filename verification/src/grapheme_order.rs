//! The order of graphemes: the order of their text.
use core::cmp::Ordering;
use vstd::prelude::*;
use vstd::utf8::encode_utf8;

use crate::grapheme::lemma_encode_utf8_injective;
use crate::grapheme::Grapheme;

verus! {

/// Lexicographic order of byte sequences, the order of `str`.
pub open spec fn byte_order(a: Seq<u8>, b: Seq<u8>) -> Ordering
    decreases a.len(),
{
    if a.len() == 0 {
        if b.len() == 0 {
            Ordering::Equal
        } else {
            Ordering::Less
        }
    } else if b.len() == 0 {
        Ordering::Greater
    } else if a[0] < b[0] {
        Ordering::Less
    } else if a[0] > b[0] {
        Ordering::Greater
    } else {
        byte_order(a.drop_first(), b.drop_first())
    }
}

/// Byte order only calls equal sequences equal, and it is antisymmetric.
pub proof fn lemma_byte_order(a: Seq<u8>, b: Seq<u8>)
    ensures
        (byte_order(a, b) == Ordering::Equal) == (a == b),
        (byte_order(a, b) == Ordering::Less) == (byte_order(b, a) == Ordering::Greater),
    decreases a.len(),
{
    if a.len() > 0 && b.len() > 0 && a[0] == b[0] {
        lemma_byte_order(a.drop_first(), b.drop_first());
        if a.drop_first() == b.drop_first() {
            assert(a =~= seq![a[0]] + a.drop_first());
            assert(b =~= seq![b[0]] + b.drop_first());
        }
    }
    if a.len() == 0 && b.len() == 0 {
        assert(a =~= b);
    }
}

/// Graphemes compare as their text does, and they compare equal exactly when
/// they hold the same codepoints.
pub proof fn lemma_grapheme_order(a: Grapheme, b: Grapheme)
    ensures
        (byte_order(encode_utf8(a@), encode_utf8(b@)) == Ordering::Equal) == (a@ == b@),
        (byte_order(encode_utf8(a@), encode_utf8(b@)) == Ordering::Less) == (byte_order(
            encode_utf8(b@),
            encode_utf8(a@),
        ) == Ordering::Greater),
{
    lemma_byte_order(encode_utf8(a@), encode_utf8(b@));
    if encode_utf8(a@) == encode_utf8(b@) {
        lemma_encode_utf8_injective(a@, b@);
    }
}

/// The bytes of `a` from index `i` on.
pub open spec fn rest_bytes(a: Seq<u8>, i: usize) -> Seq<u8> {
    a.skip(i as int)
}

proof fn lemma_rest_bytes_step(a: Seq<u8>, i: usize)
    requires
        i < a.len(),
    ensures
        rest_bytes(a, i)[0] == a[i as int],
        rest_bytes(a, i).drop_first() == a.skip(i + 1),
        rest_bytes(a, 0) == a,
{
    assert(rest_bytes(a, i).drop_first() =~= a.skip(i + 1));
    assert(a.skip(0) =~= a);
}

fn compare_bytes(a: &[u8], b: &[u8]) -> (res: Ordering)
    ensures
        res == byte_order(a@, b@),
{
    let mut i: usize = 0;
    assert(rest_bytes(a@, 0) =~= a@);
    assert(rest_bytes(b@, 0) =~= b@);
    while i < a.len() && i < b.len()
        invariant
            i <= a@.len(),
            i <= b@.len(),
            byte_order(a@, b@) == byte_order(rest_bytes(a@, i), rest_bytes(b@, i)),
        decreases a@.len() - i,
    {
        proof {
            lemma_rest_bytes_step(a@, i);
            lemma_rest_bytes_step(b@, i);
        }
        if a[i] < b[i] {
            return Ordering::Less;
        }
        if a[i] > b[i] {
            return Ordering::Greater;
        }
        i = i + 1;
    }
    if a.len() == b.len() {
        Ordering::Equal
    } else if i == a.len() {
        Ordering::Less
    } else {
        Ordering::Greater
    }
}

impl PartialOrd for Grapheme {
    fn partial_cmp(&self, other: &Grapheme) -> (res: Option<Ordering>) {
        Some(compare_bytes(self.bytes(), other.bytes()))
    }
}

impl vstd::std_specs::cmp::PartialOrdSpecImpl for Grapheme {
    open spec fn obeys_partial_cmp_spec() -> bool {
        true
    }

    open spec fn partial_cmp_spec(&self, other: &Grapheme) -> Option<Ordering> {
        Some(byte_order(encode_utf8(self@), encode_utf8(other@)))
    }
}

} // verus!
