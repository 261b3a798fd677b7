//! Lexicographic order on byte strings and on text, the order of `str` in std.

use vstd::prelude::*;
use vstd::relations::total_ordering;
use vstd::utf8::{encode_utf8, encode_utf8_decode_utf8};
use std::cmp::Ordering;

verus! {

/// `a` precedes or equals `b` in lexicographic byte order.
pub open spec fn bytes_le(a: Seq<u8>, b: Seq<u8>) -> bool
    decreases a.len(),
{
    if a.len() == 0 {
        true
    } else if b.len() == 0 {
        false
    } else if a[0] != b[0] {
        a[0] < b[0]
    } else {
        bytes_le(a.drop_first(), b.drop_first())
    }
}

/// Text order: the byte order of the UTF-8 encodings.
pub open spec fn text_le(a: Seq<char>, b: Seq<char>) -> bool {
    bytes_le(encode_utf8(a), encode_utf8(b))
}

/// The order of a comparison result between `a` and `b` under `le`.
pub open spec fn ordering_of(le: bool, ge: bool) -> Ordering {
    if le && ge {
        Ordering::Equal
    } else if le {
        Ordering::Less
    } else {
        Ordering::Greater
    }
}

pub proof fn lemma_bytes_le_refl(a: Seq<u8>)
    ensures
        bytes_le(a, a),
    decreases a.len(),
{
    if a.len() > 0 {
        lemma_bytes_le_refl(a.drop_first());
    }
}

pub proof fn lemma_bytes_le_antisym(a: Seq<u8>, b: Seq<u8>)
    requires
        bytes_le(a, b),
        bytes_le(b, a),
    ensures
        a == b,
    decreases a.len(),
{
    if a.len() > 0 && b.len() > 0 {
        lemma_bytes_le_antisym(a.drop_first(), b.drop_first());
        assert(a == seq![a[0]] + a.drop_first());
        assert(b == seq![b[0]] + b.drop_first());
    } else {
        assert(a.len() == 0 && b.len() == 0);
        assert(a =~= b);
    }
}

pub proof fn lemma_bytes_le_trans(a: Seq<u8>, b: Seq<u8>, c: Seq<u8>)
    requires
        bytes_le(a, b),
        bytes_le(b, c),
    ensures
        bytes_le(a, c),
    decreases a.len(),
{
    if a.len() > 0 && b.len() > 0 && c.len() > 0 && a[0] == b[0] && b[0] == c[0] {
        lemma_bytes_le_trans(a.drop_first(), b.drop_first(), c.drop_first());
    }
}

pub proof fn lemma_bytes_le_total(a: Seq<u8>, b: Seq<u8>)
    ensures
        bytes_le(a, b) || bytes_le(b, a),
    decreases a.len(),
{
    if a.len() > 0 && b.len() > 0 && a[0] == b[0] {
        lemma_bytes_le_total(a.drop_first(), b.drop_first());
    }
}

pub proof fn lemma_text_le_total(a: Seq<char>, b: Seq<char>)
    ensures
        text_le(a, b) || text_le(b, a),
{
    lemma_bytes_le_total(encode_utf8(a), encode_utf8(b));
}

pub proof fn lemma_text_le_trans(a: Seq<char>, b: Seq<char>, c: Seq<char>)
    requires
        text_le(a, b),
        text_le(b, c),
    ensures
        text_le(a, c),
{
    lemma_bytes_le_trans(encode_utf8(a), encode_utf8(b), encode_utf8(c));
}

pub proof fn lemma_text_le_antisym(a: Seq<char>, b: Seq<char>)
    requires
        text_le(a, b),
        text_le(b, a),
    ensures
        a == b,
{
    lemma_bytes_le_antisym(encode_utf8(a), encode_utf8(b));
    encode_utf8_decode_utf8(a);
    encode_utf8_decode_utf8(b);
}

pub proof fn lemma_text_le_refl(a: Seq<char>)
    ensures
        text_le(a, a),
{
    lemma_bytes_le_refl(encode_utf8(a));
}

/// Byte order is a total order.
pub proof fn lemma_bytes_order()
    ensures
        total_ordering(|a: Seq<u8>, b: Seq<u8>| bytes_le(a, b)),
{
    assert forall|a: Seq<u8>| bytes_le(a, a) by {
        lemma_bytes_le_refl(a);
    }
    assert forall|a: Seq<u8>, b: Seq<u8>| bytes_le(a, b) && bytes_le(b, a) implies a == b by {
        lemma_bytes_le_antisym(a, b);
    }
    assert forall|a: Seq<u8>, b: Seq<u8>, c: Seq<u8>| bytes_le(a, b) && bytes_le(b, c) implies bytes_le(a, c) by {
        lemma_bytes_le_trans(a, b, c);
    }
    assert forall|a: Seq<u8>, b: Seq<u8>| bytes_le(a, b) || bytes_le(b, a) by {
        lemma_bytes_le_total(a, b);
    }
}

/// Text order is a total order.
pub proof fn lemma_text_order()
    ensures
        total_ordering(|a: Seq<char>, b: Seq<char>| text_le(a, b)),
{
    assert forall|a: Seq<char>| text_le(a, a) by {
        lemma_bytes_le_refl(encode_utf8(a));
    }
    assert forall|a: Seq<char>, b: Seq<char>| text_le(a, b) && text_le(b, a) implies a == b by {
        lemma_bytes_le_antisym(encode_utf8(a), encode_utf8(b));
        encode_utf8_decode_utf8(a);
        encode_utf8_decode_utf8(b);
    }
    assert forall|a: Seq<char>, b: Seq<char>, c: Seq<char>| text_le(a, b) && text_le(b, c) implies text_le(a, c) by {
        lemma_bytes_le_trans(encode_utf8(a), encode_utf8(b), encode_utf8(c));
    }
    assert forall|a: Seq<char>, b: Seq<char>| text_le(a, b) || text_le(b, a) by {
        lemma_bytes_le_total(encode_utf8(a), encode_utf8(b));
    }
}

proof fn lemma_bytes_le_skip(a: Seq<u8>, b: Seq<u8>, i: int)
    requires
        0 <= i <= a.len(),
        i <= b.len(),
        a.take(i) == b.take(i),
    ensures
        bytes_le(a, b) == bytes_le(a.skip(i), b.skip(i)),
    decreases i,
{
    if i > 0 {
        assert(a[0] == a.take(i)[0]);
        assert(b[0] == b.take(i)[0]);
        assert(a.drop_first().take(i - 1) =~= a.take(i).drop_first());
        assert(b.drop_first().take(i - 1) =~= b.take(i).drop_first());
        lemma_bytes_le_skip(a.drop_first(), b.drop_first(), i - 1);
        assert(a.drop_first().skip(i - 1) =~= a.skip(i));
        assert(b.drop_first().skip(i - 1) =~= b.skip(i));
    } else {
        assert(a.skip(0) == a);
        assert(b.skip(0) == b);
    }
}

/// Length of the longest common prefix of `a` and `b`.
fn common_prefix(a: &[u8], b: &[u8]) -> (i: usize)
    ensures
        i <= a@.len(),
        i <= b@.len(),
        a@.take(i as int) == b@.take(i as int),
        i < a@.len() && i < b@.len() ==> a@[i as int] != b@[i as int],
        bytes_le(a@, b@) == if i < a@.len() && i < b@.len() {
            a@[i as int] < b@[i as int]
        } else {
            a@.len() <= b@.len()
        },
        bytes_le(b@, a@) == if i < a@.len() && i < b@.len() {
            b@[i as int] < a@[i as int]
        } else {
            b@.len() <= a@.len()
        },
        (a@ == b@) == (i == a@.len() && i == b@.len()),
{
    let mut i: usize = 0;
    while i < a.len() && i < b.len() && a[i] == b[i]
        invariant
            i <= a@.len(),
            i <= b@.len(),
            a@.take(i as int) == b@.take(i as int),
        decreases a@.len() - i,
    {
        i += 1;
        assert(a@.take(i as int) =~= b@.take(i as int)) by {
            assert(a@.take(i as int) =~= a@.take(i as int - 1).push(a@[i as int - 1]));
            assert(b@.take(i as int) =~= b@.take(i as int - 1).push(b@[i as int - 1]));
        }
    }
    proof {
        lemma_bytes_le_skip(a@, b@, i as int);
        lemma_bytes_le_skip(b@, a@, i as int);
        if i < a@.len() && i < b@.len() {
            assert(a@.skip(i as int)[0] == a@[i as int]);
            assert(b@.skip(i as int)[0] == b@[i as int]);
            if a@ == b@ {
                assert(a@[i as int] == b@[i as int]);
            }
        } else {
            if i == a@.len() {
                assert(a@.skip(i as int) =~= seq![]);
                assert(a@ =~= a@.take(i as int));
            }
            if i == b@.len() {
                assert(b@.skip(i as int) =~= seq![]);
                assert(b@ =~= b@.take(i as int));
            }
            if i < a@.len() {
                assert(a@.skip(i as int).len() > 0);
            }
            if i < b@.len() {
                assert(b@.skip(i as int).len() > 0);
            }
        }
    }
    i
}

/// Three-way comparison of byte strings in lexicographic order.
pub fn compare_bytes(a: &[u8], b: &[u8]) -> (r: Ordering)
    ensures
        r == ordering_of(bytes_le(a@, b@), bytes_le(b@, a@)),
        (r == Ordering::Equal) == (a@ == b@),
{
    let i = common_prefix(a, b);
    if i < a.len() && i < b.len() {
        if a[i] < b[i] {
            Ordering::Less
        } else {
            Ordering::Greater
        }
    } else if a.len() == b.len() {
        Ordering::Equal
    } else if a.len() < b.len() {
        Ordering::Less
    } else {
        Ordering::Greater
    }
}

/// Three-way comparison of texts in the order of `str`.
pub fn compare_text(a: &str, b: &str) -> (r: Ordering)
    ensures
        r == ordering_of(text_le(a@, b@), text_le(b@, a@)),
        (r == Ordering::Equal) == (a@ == b@),
{
    let r = compare_bytes(a.as_bytes(), b.as_bytes());
    proof {
        encode_utf8_decode_utf8(a@);
        encode_utf8_decode_utf8(b@);
    }
    r
}

/// `a` comes strictly before `b` in the order of `str`.
pub fn text_less(a: &str, b: &str) -> (r: bool)
    ensures
        r == (text_le(a@, b@) && a@ != b@),
{
    proof {
        lemma_text_order();
    }
    match compare_text(a, b) {
        Ordering::Less => true,
        _ => false,
    }
}

} // verus!
