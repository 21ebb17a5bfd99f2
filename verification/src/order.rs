//! Lexicographic order on sequences, and the order of names.
//!
//! Names are ordered as Rust orders `str`: by their UTF-8 bytes.

use vstd::prelude::*;
use vstd::utf8::encode_utf8;

verus! {

/// How the first of two values stands to the second.
#[derive(Clone, Copy, Debug, PartialEq, Eq, Structural)]
pub enum Relation {
    Less,
    Equal,
    Greater,
}

/// `lt` is irreflexive, transitive, and decides every pair of distinct values.
pub open spec fn strict_total<T>(lt: spec_fn(T, T) -> bool) -> bool {
    &&& forall|a: T| !#[trigger] lt(a, a)
    &&& forall|a: T, b: T, c: T| #[trigger] lt(a, b) && #[trigger] lt(b, c) ==> lt(a, c)
    &&& forall|a: T, b: T| a != b ==> #[trigger] lt(a, b) || lt(b, a)
}

/// `a` comes before `b` in the lexicographic order that `lt` induces: at the
/// first position where they differ `a` is smaller, or `a` is a proper prefix
/// of `b`.
pub open spec fn lex_lt<T>(lt: spec_fn(T, T) -> bool, a: Seq<T>, b: Seq<T>) -> bool
    decreases a.len(),
{
    if b.len() == 0 {
        false
    } else if a.len() == 0 {
        true
    } else if a[0] == b[0] {
        lex_lt(lt, a.drop_first(), b.drop_first())
    } else {
        lt(a[0], b[0])
    }
}

/// The relation that `lt` induces on sequences.
pub open spec fn lex_relation<T>(lt: spec_fn(T, T) -> bool, a: Seq<T>, b: Seq<T>) -> Relation {
    if a == b {
        Relation::Equal
    } else if lex_lt(lt, a, b) {
        Relation::Less
    } else {
        Relation::Greater
    }
}

/// No sequence comes before itself.
pub proof fn lemma_lex_irreflexive<T>(lt: spec_fn(T, T) -> bool, a: Seq<T>)
    requires
        strict_total(lt),
    ensures
        !lex_lt(lt, a, a),
    decreases a.len(),
{
    if a.len() > 0 {
        lemma_lex_irreflexive(lt, a.drop_first());
    }
}

/// The lexicographic order is transitive.
pub proof fn lemma_lex_transitive<T>(lt: spec_fn(T, T) -> bool, a: Seq<T>, b: Seq<T>, c: Seq<T>)
    requires
        strict_total(lt),
        lex_lt(lt, a, b),
        lex_lt(lt, b, c),
    ensures
        lex_lt(lt, a, c),
    decreases a.len(),
{
    if a.len() > 0 {
        if a[0] == b[0] && b[0] == c[0] {
            lemma_lex_transitive(lt, a.drop_first(), b.drop_first(), c.drop_first());
        } else if a[0] != b[0] && b[0] != c[0] {
            assert(lt(a[0], b[0]) && lt(b[0], c[0]));
            assert(lt(a[0], c[0]));
            assert(!lt(a[0], a[0]));
        }
    }
}

/// Of two distinct sequences one comes before the other.
pub proof fn lemma_lex_total<T>(lt: spec_fn(T, T) -> bool, a: Seq<T>, b: Seq<T>)
    requires
        strict_total(lt),
        a != b,
    ensures
        lex_lt(lt, a, b) || lex_lt(lt, b, a),
    decreases a.len(),
{
    if a.len() > 0 && b.len() > 0 {
        if a[0] == b[0] {
            assert(a.drop_first() != b.drop_first()) by {
                if a.drop_first() == b.drop_first() {
                    assert(a =~= seq![a[0]] + a.drop_first());
                    assert(b =~= seq![b[0]] + b.drop_first());
                }
            }
            lemma_lex_total(lt, a.drop_first(), b.drop_first());
        }
    } else {
        assert(a.len() == 0 && b.len() == 0 ==> a =~= b);
    }
}

/// No two sequences come before each other.
pub proof fn lemma_lex_asymmetric<T>(lt: spec_fn(T, T) -> bool, a: Seq<T>, b: Seq<T>)
    requires
        strict_total(lt),
        lex_lt(lt, a, b),
    ensures
        !lex_lt(lt, b, a),
{
    if lex_lt(lt, b, a) {
        lemma_lex_transitive(lt, a, b, a);
        lemma_lex_irreflexive(lt, a);
    }
}

/// The order of bytes.
pub open spec fn byte_lt() -> spec_fn(u8, u8) -> bool {
    |x: u8, y: u8| x < y
}

/// The order of bytes is a strict total order.
pub proof fn lemma_byte_lt_strict_total()
    ensures
        strict_total(byte_lt()),
{
}

/// `a` comes before `b` in the order of names.
pub open spec fn name_lt(a: Seq<char>, b: Seq<char>) -> bool {
    lex_lt(byte_lt(), encode_utf8(a), encode_utf8(b))
}

/// The order of names, as a relation on them.
pub open spec fn name_order() -> spec_fn(Seq<char>, Seq<char>) -> bool {
    |a: Seq<char>, b: Seq<char>| name_lt(a, b)
}

/// How name `a` stands to name `b`.
pub open spec fn name_relation(a: Seq<char>, b: Seq<char>) -> Relation {
    if a == b {
        Relation::Equal
    } else if name_lt(a, b) {
        Relation::Less
    } else {
        Relation::Greater
    }
}

/// Two names with the same bytes are the same name.
pub proof fn lemma_name_bytes_injective(a: Seq<char>, b: Seq<char>)
    requires
        encode_utf8(a) == encode_utf8(b),
    ensures
        a == b,
{
    vstd::utf8::encode_utf8_decode_utf8(a);
    vstd::utf8::encode_utf8_decode_utf8(b);
}

/// The order of names is a strict total order.
pub proof fn lemma_name_order_strict_total()
    ensures
        strict_total(name_order()),
{
    lemma_byte_lt_strict_total();
    assert forall|a: Seq<char>| !#[trigger] name_order()(a, a) by {
        lemma_lex_irreflexive(byte_lt(), encode_utf8(a));
    }
    assert forall|a: Seq<char>, b: Seq<char>, c: Seq<char>|
        #[trigger] name_order()(a, b) && #[trigger] name_order()(b, c) implies name_order()(
        a,
        c,
    ) by {
        lemma_lex_transitive(byte_lt(), encode_utf8(a), encode_utf8(b), encode_utf8(c));
    }
    assert forall|a: Seq<char>, b: Seq<char>| a != b implies #[trigger] name_order()(a, b)
        || name_order()(b, a) by {
        if encode_utf8(a) == encode_utf8(b) {
            lemma_name_bytes_injective(a, b);
        }
        lemma_lex_total(byte_lt(), encode_utf8(a), encode_utf8(b));
    }
}

/// Compares two byte strings lexicographically.
pub fn compare_bytes(a: &[u8], b: &[u8]) -> (r: Relation)
    ensures
        r == lex_relation(byte_lt(), a@, b@),
{
    let mut i: usize = 0;
    proof {
        assert(a@.skip(0) =~= a@);
        assert(b@.skip(0) =~= b@);
        assert(a@.take(0) =~= b@.take(0));
    }
    while i < a.len() && i < b.len()
        invariant
            i <= a.len(),
            i <= b.len(),
            a@.take(i as int) == b@.take(i as int),
            lex_lt(byte_lt(), a@, b@) == lex_lt(byte_lt(), a@.skip(i as int), b@.skip(i as int)),
            lex_lt(byte_lt(), b@, a@) == lex_lt(byte_lt(), b@.skip(i as int), a@.skip(i as int)),
        decreases a.len() - i,
    {
        let x = a[i];
        let y = b[i];
        proof {
            assert(a@.skip(i as int)[0] == x);
            assert(b@.skip(i as int)[0] == y);
            assert(a@.skip(i as int).drop_first() =~= a@.skip(i + 1));
            assert(b@.skip(i as int).drop_first() =~= b@.skip(i + 1));
        }
        if x < y {
            assert(a@ != b@);
            return Relation::Less;
        }
        if y < x {
            assert(a@ != b@);
            return Relation::Greater;
        }
        proof {
            assert(a@.take(i + 1) =~= a@.take(i as int).push(x));
            assert(b@.take(i + 1) =~= b@.take(i as int).push(y));
        }
        i = i + 1;
    }
    proof {
        assert(a@.take(a@.len() as int) =~= a@);
        assert(b@.take(b@.len() as int) =~= b@);
    }
    if i < b.len() {
        assert(a@ != b@);
        Relation::Less
    } else if i < a.len() {
        assert(a@ != b@);
        Relation::Greater
    } else {
        Relation::Equal
    }
}

/// Compares two names in the order of names.
pub fn compare_names(a: &str, b: &str) -> (r: Relation)
    ensures
        r == name_relation(a@, b@),
{
    let r = compare_bytes(a.as_bytes(), b.as_bytes());
    proof {
        if encode_utf8(a@) == encode_utf8(b@) {
            lemma_name_bytes_injective(a@, b@);
        }
    }
    r
}

} // verus!
