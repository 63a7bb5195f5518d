//! The order of texts by their bytes.
use vstd::prelude::*;
use vstd::utf8::encode_utf8;

verus! {

/// How many bytes a text takes.
pub open spec fn byte_len(text: Seq<char>) -> nat {
    encode_utf8(text).len()
}

/// A text takes as many bytes as its parts.
pub proof fn lemma_byte_len_add(a: Seq<char>, b: Seq<char>)
    ensures
        byte_len(a + b) == byte_len(a) + byte_len(b),
    decreases a.len(),
{
    if a.len() == 0 {
        assert(a + b =~= b);
    } else {
        lemma_byte_len_add(a.drop_first(), b);
        assert((a + b).drop_first() =~= a.drop_first() + b);
    }
}

/// A text of characters that take one byte each takes as many bytes as it has characters.
pub proof fn lemma_byte_len_narrow(text: Seq<char>)
    requires
        forall|i: int| 0 <= i < text.len() ==> (#[trigger] text[i]) as u32 <= 0x7f,
    ensures
        byte_len(text) == text.len(),
    decreases text.len(),
{
    if text.len() > 0 {
        let rest = text.drop_first();
        assert forall|i: int| 0 <= i < rest.len() implies (#[trigger] rest[i]) as u32 <= 0x7f by {
            assert(rest[i] == text[i + 1]);
        }
        lemma_byte_len_narrow(rest);
        assert(text[0] as u32 <= 0x7f);
    }
}

/// `a` comes before `b` when both are compared byte by byte from the front, where a text comes
/// before all that it is the beginning of.
pub open spec fn bytes_less(a: Seq<u8>, b: Seq<u8>) -> bool
    decreases b.len(),
{
    if b.len() == 0 {
        false
    } else if a.len() == 0 {
        true
    } else {
        a[0] < b[0] || (a[0] == b[0] && bytes_less(a.drop_first(), b.drop_first()))
    }
}

/// `a` comes before `b` in the order of texts.
pub open spec fn text_less(a: Seq<char>, b: Seq<char>) -> bool {
    bytes_less(encode_utf8(a), encode_utf8(b))
}

proof fn lemma_bytes_less_transitive(a: Seq<u8>, b: Seq<u8>, c: Seq<u8>)
    ensures
        !bytes_less(b, a) && !bytes_less(c, b) ==> !bytes_less(c, a),
        bytes_less(a, b) ==> !bytes_less(b, a),
        bytes_less(a, b) && !bytes_less(c, b) ==> bytes_less(a, c),
    decreases a.len() + b.len() + c.len(),
{
    if a.len() > 0 && b.len() > 0 && c.len() > 0 {
        lemma_bytes_less_transitive(a.drop_first(), b.drop_first(), c.drop_first());
    } else if a.len() > 0 && b.len() > 0 {
        lemma_bytes_less_transitive(a.drop_first(), b.drop_first(), c);
    }
}

/// A text that comes no later than a second, which comes no later than a third, comes no later than
/// the third; and of two texts at most one comes before the other.
pub proof fn lemma_text_less_transitive(a: Seq<char>, b: Seq<char>, c: Seq<char>)
    ensures
        !text_less(b, a) && !text_less(c, b) ==> !text_less(c, a),
        text_less(a, b) ==> !text_less(b, a),
        text_less(a, b) && !text_less(c, b) ==> text_less(a, c),
{
    lemma_bytes_less_transitive(encode_utf8(a), encode_utf8(b), encode_utf8(c));
}

proof fn lemma_bytes_less_total(a: Seq<u8>, b: Seq<u8>)
    ensures
        a == b || bytes_less(a, b) || bytes_less(b, a),
    decreases a.len(),
{
    if a.len() > 0 && b.len() > 0 {
        lemma_bytes_less_total(a.drop_first(), b.drop_first());
        if a[0] == b[0] && a.drop_first() == b.drop_first() {
            assert(a =~= seq![a[0]] + a.drop_first());
            assert(b =~= seq![b[0]] + b.drop_first());
        }
    } else if a.len() == 0 && b.len() == 0 {
        assert(a =~= b);
    }
}

/// Of two different texts one comes before the other.
pub proof fn lemma_text_less_total(a: Seq<char>, b: Seq<char>)
    ensures
        a == b || text_less(a, b) || text_less(b, a),
{
    lemma_bytes_less_total(encode_utf8(a), encode_utf8(b));
    vstd::utf8::encode_utf8_decode_utf8(a);
    vstd::utf8::encode_utf8_decode_utf8(b);
}

/// Whether `a` comes before `b` in the order of texts.
pub fn is_text_less(a: &str, b: &str) -> (less: bool)
    ensures
        less == text_less(a@, b@),
{
    let x: &[u8] = a.as_bytes();
    let y: &[u8] = b.as_bytes();
    let mut i: usize = 0;
    assert(x@.skip(0) =~= x@);
    assert(y@.skip(0) =~= y@);
    while i < x.len() && i < y.len()
        invariant
            x@ == encode_utf8(a@),
            y@ == encode_utf8(b@),
            i <= x@.len(),
            i <= y@.len(),
            bytes_less(x@, y@) == bytes_less(x@.skip(i as int), y@.skip(i as int)),
        decreases x@.len() - i,
    {
        assert(x@.skip(i as int).drop_first() =~= x@.skip(i + 1));
        assert(y@.skip(i as int).drop_first() =~= y@.skip(i + 1));
        if x[i] != y[i] {
            return x[i] < y[i];
        }
        i = i + 1;
    }
    i < y.len()
}

/// How many bytes a text takes.
pub fn text_len(text: &str) -> (len: usize)
    ensures
        len == byte_len(text@),
{
    text.as_bytes().len()
}

/// Up to this place the two are the same, and there the first ends or has the smaller byte.
pub open spec fn is_less_at(a: Seq<u8>, b: Seq<u8>, k: int) -> bool {
    &&& 0 <= k <= a.len()
    &&& k < b.len()
    &&& forall|i: int| 0 <= i < k ==> #[trigger] a[i] == b[i]
    &&& k == a.len() || a[k] < b[k]
}

/// A text comes before another exactly where, in the first byte in which the two differ, it has the
/// smaller one or is at its end.
pub proof fn law_text_order(a: Seq<char>, b: Seq<char>)
    ensures
        text_less(a, b) <==> exists|k: int| #[trigger]
            is_less_at(encode_utf8(a), encode_utf8(b), k),
{
    lemma_bytes_order(encode_utf8(a), encode_utf8(b));
}

proof fn lemma_bytes_order(a: Seq<u8>, b: Seq<u8>)
    ensures
        bytes_less(a, b) <==> exists|k: int| #[trigger] is_less_at(a, b, k),
    decreases b.len(),
{
    if b.len() > 0 {
        if a.len() == 0 {
            assert(is_less_at(a, b, 0));
        } else {
            let x = a.drop_first();
            let y = b.drop_first();
            lemma_bytes_order(x, y);
            if a[0] < b[0] {
                assert(is_less_at(a, b, 0));
            }
            if a[0] == b[0] && bytes_less(x, y) {
                let k = choose|k: int| #[trigger] is_less_at(x, y, k);
                assert forall|i: int| 0 <= i < k + 1 implies #[trigger] a[i] == b[i] by {
                    if i > 0 {
                        assert(x[i - 1] == y[i - 1]);
                    }
                }
                assert(is_less_at(a, b, k + 1));
            }
            if exists|k: int| #[trigger] is_less_at(a, b, k) {
                let k = choose|k: int| #[trigger] is_less_at(a, b, k);
                if k > 0 {
                    assert(a[0] == b[0]);
                    assert forall|i: int| 0 <= i < k - 1 implies #[trigger] x[i] == y[i] by {
                        assert(a[i + 1] == b[i + 1]);
                    }
                    assert(is_less_at(x, y, k - 1));
                }
            }
        }
    }
}

} // verus!
