//! The byte-wise lexicographic order of keys.

use vstd::prelude::*;

verus! {

/// Whether `a` sorts strictly before `b`.
pub open spec fn lex_lt(a: Seq<u8>, b: Seq<u8>) -> bool
    decreases a.len(),
{
    if b.len() == 0 {
        false
    } else if a.len() == 0 {
        true
    } else {
        a[0] < b[0] || (a[0] == b[0] && lex_lt(a.skip(1), b.skip(1)))
    }
}

/// Whether `a` sorts before `b` or equals it.
pub open spec fn lex_le(a: Seq<u8>, b: Seq<u8>) -> bool {
    a == b || lex_lt(a, b)
}

/// No key sorts before itself.
pub proof fn lex_irreflexive(a: Seq<u8>)
    ensures
        !lex_lt(a, a),
    decreases a.len(),
{
    if a.len() > 0 {
        lex_irreflexive(a.skip(1));
    }
}

/// The key order is transitive.
pub proof fn lex_transitive(a: Seq<u8>, b: Seq<u8>, c: Seq<u8>)
    requires
        lex_lt(a, b),
        lex_lt(b, c),
    ensures
        lex_lt(a, c),
    decreases a.len(),
{
    if a.len() > 0 {
        if a[0] == b[0] && b[0] == c[0] {
            lex_transitive(a.skip(1), b.skip(1), c.skip(1));
        }
    }
}

/// Two distinct keys are ordered one way or the other.
pub proof fn lex_total(a: Seq<u8>, b: Seq<u8>)
    ensures
        a == b || lex_lt(a, b) || lex_lt(b, a),
    decreases a.len(),
{
    if a.len() > 0 && b.len() > 0 {
        if a[0] == b[0] {
            lex_total(a.skip(1), b.skip(1));
            if a.skip(1) == b.skip(1) {
                assert(a =~= seq![a[0]] + a.skip(1));
                assert(b =~= seq![b[0]] + b.skip(1));
            }
        }
    } else if a.len() == 0 && b.len() == 0 {
        assert(a =~= b);
    }
}

/// No two keys sort before each other.
pub proof fn lex_asymmetric(a: Seq<u8>, b: Seq<u8>)
    ensures
        !(lex_lt(a, b) && lex_lt(b, a)),
{
    if lex_lt(a, b) && lex_lt(b, a) {
        lex_transitive(a, b, a);
        lex_irreflexive(a);
    }
}

/// Exactly one of before, equal and after holds of two keys, and the order
/// chains: the facts that the searches and merges use.
pub proof fn lex_facts()
    ensures
        forall|a: Seq<u8>| !#[trigger] lex_lt(a, a),
        forall|a: Seq<u8>, b: Seq<u8>| #[trigger] lex_lt(a, b) ==> !lex_lt(b, a) && a != b,
        forall|a: Seq<u8>, b: Seq<u8>| !#[trigger] lex_lt(a, b) && a != b ==> lex_lt(b, a),
        forall|a: Seq<u8>, b: Seq<u8>, c: Seq<u8>|
            #[trigger] lex_lt(a, b) && #[trigger] lex_lt(b, c) ==> lex_lt(a, c),
{
    assert forall|a: Seq<u8>| !#[trigger] lex_lt(a, a) by {
        lex_irreflexive(a);
    }
    assert forall|a: Seq<u8>, b: Seq<u8>| #[trigger] lex_lt(a, b) implies !lex_lt(b, a)
        && a != b by {
        lex_asymmetric(a, b);
        lex_irreflexive(a);
    }
    assert forall|a: Seq<u8>, b: Seq<u8>| !#[trigger] lex_lt(a, b) && a != b implies lex_lt(
        b,
        a,
    ) by {
        lex_total(a, b);
    }
    assert forall|a: Seq<u8>, b: Seq<u8>, c: Seq<u8>|
        #[trigger] lex_lt(a, b) && #[trigger] lex_lt(b, c) implies lex_lt(a, c) by {
        lex_transitive(a, b, c);
    }
}

/// Whether `a` and `b` agree on the bytes before position `i`, and `a` has the
/// smaller byte there, a byte being a number from 0 to 255.
pub open spec fn smaller_at(a: Seq<u8>, b: Seq<u8>, i: int) -> bool {
    &&& 0 <= i < a.len()
    &&& i < b.len()
    &&& (a[i] as int) < (b[i] as int)
    &&& forall|j: int| 0 <= j < i ==> #[trigger] a[j] == b[j]
}

/// Whether `a` is the start of `b` and shorter.
pub open spec fn proper_prefix(a: Seq<u8>, b: Seq<u8>) -> bool {
    &&& a.len() < b.len()
    &&& forall|j: int| 0 <= j < a.len() ==> #[trigger] a[j] == b[j]
}

/// Keys are ordered as unsigned bytes: one sorts before another exactly if it is a
/// proper prefix of it, or has the smaller number at the first byte on which the two
/// differ.
pub proof fn order_is_unsigned_bytewise(a: Seq<u8>, b: Seq<u8>)
    ensures
        lex_lt(a, b) <==> (proper_prefix(a, b) || exists|i: int| smaller_at(a, b, i)),
    decreases a.len(),
{
    if a.len() > 0 && b.len() > 0 {
        let x = a.skip(1);
        let y = b.skip(1);
        order_is_unsigned_bytewise(x, y);
        if lex_lt(a, b) {
            if a[0] < b[0] {
                assert(smaller_at(a, b, 0));
            } else if proper_prefix(x, y) {
                assert forall|j: int| 0 <= j < a.len() implies #[trigger] a[j] == b[j] by {
                    if j > 0 {
                        assert(x[j - 1] == y[j - 1]);
                    }
                }
            } else {
                let i = choose|i: int| smaller_at(x, y, i);
                assert forall|j: int| 0 <= j < i + 1 implies #[trigger] a[j] == b[j] by {
                    if j > 0 {
                        assert(x[j - 1] == y[j - 1]);
                    }
                }
                assert(smaller_at(a, b, i + 1));
            }
        }
        if proper_prefix(a, b) {
            assert(a[0] == b[0]);
            assert forall|j: int| 0 <= j < x.len() implies #[trigger] x[j] == y[j] by {
                assert(a[j + 1] == b[j + 1]);
            }
        }
        if exists|i: int| smaller_at(a, b, i) {
            let i = choose|i: int| smaller_at(a, b, i);
            if i > 0 {
                assert(a[0] == b[0]);
                assert forall|j: int| 0 <= j < i - 1 implies #[trigger] x[j] == y[j] by {
                    assert(a[j + 1] == b[j + 1]);
                }
                assert(smaller_at(x, y, i - 1));
            }
        }
    }
}

/// Bytes put before two keys alike, and bytes put after keys that already differ, do
/// not change how the keys are ordered.
pub proof fn order_of_extended_keys(
    head: Seq<u8>,
    a: Seq<u8>,
    b: Seq<u8>,
    tail_a: Seq<u8>,
    tail_b: Seq<u8>,
)
    ensures
        lex_lt(head + a, head + b) == lex_lt(a, b),
        lex_lt(a, b) && !proper_prefix(a, b) ==> lex_lt(a + tail_a, b + tail_b),
        tail_a.len() > 0 ==> lex_lt(a, a + tail_a),
    decreases head.len(),
{
    if head.len() == 0 {
        assert(head + a =~= a);
        assert(head + b =~= b);
    } else {
        let rest = head.skip(1);
        order_of_extended_keys(rest, a, b, tail_a, tail_b);
        assert((head + a).skip(1) =~= rest + a);
        assert((head + b).skip(1) =~= rest + b);
    }
    order_is_unsigned_bytewise(a, b);
    order_is_unsigned_bytewise(a + tail_a, b + tail_b);
    order_is_unsigned_bytewise(a, a + tail_a);
    if lex_lt(a, b) && !proper_prefix(a, b) {
        let i = choose|i: int| smaller_at(a, b, i);
        assert(smaller_at(a + tail_a, b + tail_b, i));
    }
}

/// How one key stands to another.
#[derive(Clone, Copy, Debug, PartialEq, Eq, Structural)]
pub enum KeyOrder {
    Less,
    Equal,
    Greater,
}

/// Orders two keys byte by byte; a proper prefix sorts first.
pub fn key_order(a: &[u8], b: &[u8]) -> (order: KeyOrder)
    ensures
        order is Less <==> lex_lt(a@, b@),
        order is Equal <==> a@ == b@,
        order is Greater <==> lex_lt(b@, a@),
        order is Less <==> (proper_prefix(a@, b@) || exists|i: int| smaller_at(a@, b@, i)),
        order is Greater <==> (proper_prefix(b@, a@) || exists|i: int| smaller_at(b@, a@, i)),
{
    let mut i: usize = 0;
    proof {
        order_is_unsigned_bytewise(a@, b@);
        order_is_unsigned_bytewise(b@, a@);
        lex_facts();
        assert(a@.skip(0) =~= a@);
        assert(b@.skip(0) =~= b@);
    }
    while i < a.len() && i < b.len()
        invariant
            i <= a.len(),
            i <= b.len(),
            a@.subrange(0, i as int) == b@.subrange(0, i as int),
            lex_lt(a@, b@) == lex_lt(a@.skip(i as int), b@.skip(i as int)),
            lex_lt(b@, a@) == lex_lt(b@.skip(i as int), a@.skip(i as int)),
            lex_lt(a@, b@) <==> (proper_prefix(a@, b@) || exists|i: int| smaller_at(a@, b@, i)),
            lex_lt(b@, a@) <==> (proper_prefix(b@, a@) || exists|i: int| smaller_at(b@, a@, i)),
        decreases a.len() - i,
    {
        proof {
            assert(a@.skip(i as int).skip(1) =~= a@.skip(i + 1));
            assert(b@.skip(i as int).skip(1) =~= b@.skip(i + 1));
            lex_facts();
            assert(a@.subrange(0, i + 1) =~= a@.subrange(0, i as int).push(a@[i as int]));
            assert(b@.subrange(0, i + 1) =~= b@.subrange(0, i as int).push(b@[i as int]));
        }
        if a[i] < b[i] {
            return KeyOrder::Less;
        }
        if a[i] > b[i] {
            return KeyOrder::Greater;
        }
        i = i + 1;
    }
    proof {
        lex_facts();
    }
    if i < b.len() {
        return KeyOrder::Less;
    }
    if i < a.len() {
        return KeyOrder::Greater;
    }
    proof {
        assert(a@ =~= a@.subrange(0, i as int));
        assert(b@ =~= b@.subrange(0, i as int));
    }
    KeyOrder::Equal
}

} // verus!
