//! The order of names.
//!
//! Systems, commands, game logics and render graphs are all registered under a
//! name and visited in the order of their names. That order is the order of
//! `str`: lexicographic by the bytes of the UTF-8 encoding.

use vstd::prelude::*;
use vstd::string::*;
use vstd::utf8::*;

verus! {

/// Lexicographic order on byte strings.
pub open spec fn lex_less(a: Seq<u8>, b: Seq<u8>) -> bool
    decreases a.len(),
{
    if b.len() == 0 {
        false
    } else if a.len() == 0 {
        true
    } else if a[0] != b[0] {
        a[0] < b[0]
    } else {
        lex_less(a.drop_first(), b.drop_first())
    }
}

/// The bytes by which a name is ordered.
pub open spec fn name_key(name: Seq<char>) -> Seq<u8> {
    encode_utf8(name)
}

/// `a` comes strictly before `b` in the order of names.
pub open spec fn name_less(a: Seq<char>, b: Seq<char>) -> bool {
    lex_less(name_key(a), name_key(b))
}

/// How one name stands to another.
#[derive(Clone, Copy, Debug, PartialEq, Eq, Structural)]
pub enum NameOrder {
    /// The first name comes before the second
    Before,
    /// The two names are the same
    Same,
    /// The first name comes after the second
    After,
}

/// What `compare_names` returns for two names.
pub open spec fn name_order(a: Seq<char>, b: Seq<char>) -> NameOrder {
    if name_less(a, b) {
        NameOrder::Before
    } else if a == b {
        NameOrder::Same
    } else {
        NameOrder::After
    }
}

/// No byte string comes before itself.
pub proof fn lemma_lex_irreflexive(a: Seq<u8>)
    ensures
        !lex_less(a, a),
    decreases a.len(),
{
    if a.len() > 0 {
        lemma_lex_irreflexive(a.drop_first());
    }
}

/// The order is transitive.
pub proof fn lemma_lex_transitive(a: Seq<u8>, b: Seq<u8>, c: Seq<u8>)
    requires
        lex_less(a, b),
        lex_less(b, c),
    ensures
        lex_less(a, c),
    decreases a.len(),
{
    if a.len() > 0 && a[0] == b[0] && b[0] == c[0] {
        lemma_lex_transitive(a.drop_first(), b.drop_first(), c.drop_first());
    }
}

/// Of two different byte strings one comes before the other.
pub proof fn lemma_lex_total(a: Seq<u8>, b: Seq<u8>)
    ensures
        lex_less(a, b) || a == b || lex_less(b, a),
    decreases a.len(),
{
    if a.len() == 0 || b.len() == 0 {
        if a.len() == 0 && b.len() == 0 {
            assert(a =~= b);
        }
    } else if a[0] == b[0] {
        lemma_lex_total(a.drop_first(), b.drop_first());
        if a.drop_first() == b.drop_first() {
            assert(a =~= seq![a[0]] + a.drop_first());
            assert(b =~= seq![b[0]] + b.drop_first());
        }
    }
}

/// Two byte strings never stand before each other.
pub proof fn lemma_lex_asymmetric(a: Seq<u8>, b: Seq<u8>)
    requires
        lex_less(a, b),
    ensures
        !lex_less(b, a),
{
    if lex_less(b, a) {
        lemma_lex_transitive(a, b, a);
        lemma_lex_irreflexive(a);
    }
}

/// Two names with the same bytes are the same name.
pub proof fn lemma_name_key_injective(a: Seq<char>, b: Seq<char>)
    requires
        name_key(a) == name_key(b),
    ensures
        a == b,
{
    encode_utf8_decode_utf8(a);
    encode_utf8_decode_utf8(b);
}

/// Names are strictly and totally ordered: exactly one of "before", "same" and
/// "after" holds of any two, and "before" is transitive.
pub proof fn lemma_name_order(a: Seq<char>, b: Seq<char>, c: Seq<char>)
    ensures
        !name_less(a, a),
        name_less(a, b) ==> !name_less(b, a),
        name_less(a, b) || a == b || name_less(b, a),
        name_less(a, b) && name_less(b, c) ==> name_less(a, c),
        name_order(a, b) is After <==> name_less(b, a),
{
    lemma_lex_irreflexive(name_key(a));
    if name_less(a, b) {
        lemma_lex_asymmetric(name_key(a), name_key(b));
        if name_less(b, c) {
            lemma_lex_transitive(name_key(a), name_key(b), name_key(c));
        }
    }
    lemma_lex_total(name_key(a), name_key(b));
    if name_key(a) == name_key(b) {
        lemma_name_key_injective(a, b);
    }
    lemma_lex_irreflexive(name_key(b));
}

/// Once two byte strings agree on their first `i` bytes, the rest decides.
proof fn lemma_lex_skip(a: Seq<u8>, b: Seq<u8>, i: int)
    requires
        0 <= i <= a.len(),
        i <= b.len(),
        a.take(i) == b.take(i),
    ensures
        lex_less(a, b) == lex_less(a.skip(i), b.skip(i)),
    decreases i,
{
    if i == 0 {
        assert(a.skip(0) =~= a);
        assert(b.skip(0) =~= b);
    } else {
        assert(a.take(i)[0] == a[0]);
        assert(b.take(i)[0] == b[0]);
        assert(a[0] == b[0]);
        assert(a.drop_first().take(i - 1) =~= a.take(i).drop_first());
        assert(b.drop_first().take(i - 1) =~= b.take(i).drop_first());
        lemma_lex_skip(a.drop_first(), b.drop_first(), i - 1);
        assert(a.drop_first().skip(i - 1) =~= a.skip(i));
        assert(b.drop_first().skip(i - 1) =~= b.skip(i));
    }
}

/// Compares two names as `str` orders them.
pub fn compare_names(a: &str, b: &str) -> (order: NameOrder)
    ensures
        order == name_order(a@, b@),
{
    let x = a.as_bytes();
    let y = b.as_bytes();
    let mut i: usize = 0;
    while i < x.len() && i < y.len()
        invariant
            i <= x@.len(),
            i <= y@.len(),
            x@.take(i as int) == y@.take(i as int),
            x@ == name_key(a@),
            y@ == name_key(b@),
        decreases x@.len() - i,
    {
        if x[i] != y[i] {
            proof {
                lemma_lex_skip(x@, y@, i as int);
                lemma_lex_skip(y@, x@, i as int);
                lemma_name_order(a@, b@, a@);
                assert(x@.skip(i as int)[0] == x@[i as int]);
                assert(y@.skip(i as int)[0] == y@[i as int]);
            }
            if x[i] < y[i] {
                return NameOrder::Before;
            } else {
                return NameOrder::After;
            }
        }
        proof {
            assert(x@.take(i + 1) =~= x@.take(i as int).push(x@[i as int]));
            assert(y@.take(i + 1) =~= y@.take(i as int).push(y@[i as int]));
        }
        i += 1;
    }
    proof {
        lemma_lex_skip(x@, y@, i as int);
        lemma_lex_skip(y@, x@, i as int);
        lemma_name_order(a@, b@, a@);
    }
    if i < y.len() {
        NameOrder::Before
    } else if i < x.len() {
        NameOrder::After
    } else {
        proof {
            assert(x@ =~= x@.take(i as int));
            assert(y@ =~= y@.take(i as int));
            lemma_name_key_injective(a@, b@);
        }
        NameOrder::Same
    }
}

} // verus!
