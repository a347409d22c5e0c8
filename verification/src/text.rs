//! The order of names.
use vstd::prelude::*;
use vstd::utf8::{encode_utf8, encode_utf8_decode_utf8};

verus! {

/// Lexicographic order on bytes.
pub open spec fn bytes_before(a: Seq<u8>, b: Seq<u8>) -> bool
    decreases a.len(),
{
    if b.len() == 0 {
        false
    } else if a.len() == 0 {
        true
    } else if a[0] != b[0] {
        a[0] < b[0]
    } else {
        bytes_before(a.drop_first(), b.drop_first())
    }
}

/// The order of `str`: lexicographic on the UTF-8 encoding, which is the order of code points.
pub open spec fn text_before(a: Seq<char>, b: Seq<char>) -> bool {
    bytes_before(encode_utf8(a), encode_utf8(b))
}

proof fn lemma_bytes_order(a: Seq<u8>, b: Seq<u8>, c: Seq<u8>)
    ensures
        !bytes_before(a, a),
        a == b || bytes_before(a, b) || bytes_before(b, a),
        bytes_before(a, b) && bytes_before(b, c) ==> bytes_before(a, c),
    decreases a.len() + b.len() + c.len(),
{
    if a.len() > 0 && b.len() > 0 {
        if c.len() > 0 {
            lemma_bytes_order(a.drop_first(), b.drop_first(), c.drop_first());
        } else {
            lemma_bytes_order(a.drop_first(), b.drop_first(), c);
        }
        if a[0] == b[0] && a.drop_first() == b.drop_first() {
            assert(a =~= seq![a[0]] + a.drop_first());
            assert(b =~= seq![b[0]] + b.drop_first());
        }
    } else {
        if a.len() == 0 && b.len() == 0 {
            assert(a =~= b);
        }
        if a.len() > 0 {
            lemma_bytes_order(a.drop_first(), b, c);
        }
    }
}

/// The order of names is a strict total order.
pub proof fn lemma_text_order(a: Seq<char>, b: Seq<char>, c: Seq<char>)
    ensures
        !text_before(a, a),
        a == b || text_before(a, b) || text_before(b, a),
        text_before(a, b) && text_before(b, c) ==> text_before(a, c),
{
    lemma_bytes_order(encode_utf8(a), encode_utf8(b), encode_utf8(c));
    if encode_utf8(a) == encode_utf8(b) {
        encode_utf8_decode_utf8(a);
        encode_utf8_decode_utf8(b);
    }
}

/// Whether one name comes before another.
pub fn is_text_before(a: &str, b: &str) -> (earlier: bool)
    ensures
        earlier == text_before(a@, b@),
{
    let left: &[u8] = a.as_bytes();
    let right: &[u8] = b.as_bytes();
    let mut at: usize = 0;
    assert(left@.skip(0) =~= left@);
    assert(right@.skip(0) =~= right@);
    while at < left.len() && at < right.len() && left[at] == right[at]
        invariant
            at <= left@.len(),
            at <= right@.len(),
            bytes_before(left@.skip(at as int), right@.skip(at as int)) == bytes_before(
                left@,
                right@,
            ),
        decreases left@.len() - at,
    {
        assert(left@.skip(at as int).drop_first() =~= left@.skip(at + 1));
        assert(right@.skip(at as int).drop_first() =~= right@.skip(at + 1));
        at = at + 1;
    }
    if at == right.len() {
        false
    } else if at == left.len() {
        true
    } else {
        left[at] < right[at]
    }
}

/// Where two byte strings first differ the smaller byte decides, and a string comes after its
/// prefixes.
proof fn lemma_first_difference(a: Seq<u8>, b: Seq<u8>, at: int)
    requires
        0 <= at <= a.len(),
        at < b.len(),
        forall|k: int| 0 <= k < at ==> a[k] == #[trigger] b[k],
    ensures
        at == a.len() ==> bytes_before(a, b),
        at < a.len() && a[at] < b[at] ==> bytes_before(a, b),
        at < a.len() && a[at] > b[at] ==> !bytes_before(a, b),
    decreases at,
{
    if at > 0 {
        assert(a[0] == b[0]);
        let left = a.drop_first();
        let right = b.drop_first();
        assert forall|k: int| 0 <= k < at - 1 implies left[k] == #[trigger] right[k] by {
            assert(a[k + 1] == b[k + 1]);
        }
        lemma_first_difference(left, right, at - 1);
    }
}

/// Of two names the one with the smaller byte where their encodings first differ comes first, and a
/// name comes before its continuations.
pub proof fn lemma_first_byte_decides(a: Seq<char>, b: Seq<char>, at: int)
    requires
        0 <= at <= encode_utf8(a).len(),
        at < encode_utf8(b).len(),
        forall|k: int| 0 <= k < at ==> encode_utf8(a)[k] == #[trigger] encode_utf8(b)[k],
    ensures
        at == encode_utf8(a).len() ==> text_before(a, b),
        at < encode_utf8(a).len() && encode_utf8(a)[at] < encode_utf8(b)[at] ==> text_before(a, b),
        at < encode_utf8(a).len() && encode_utf8(a)[at] > encode_utf8(b)[at] ==> !text_before(
            a,
            b,
        ),
{
    lemma_first_difference(encode_utf8(a), encode_utf8(b), at);
}

} // verus!
