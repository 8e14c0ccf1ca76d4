//! The order of names in a tree.

use vstd::prelude::*;

verus! {

/// The byte that is put behind a name before names are compared.
pub const SENTINEL: u8 = 0xff;

/// Whether `a` comes before `b`, or is `b`, where byte strings are compared
/// byte by byte and a string comes before those that it starts.
pub open spec fn lex_le(a: Seq<u8>, b: Seq<u8>) -> bool
    decreases a.len(),
{
    if a.len() == 0 {
        true
    } else if b.len() == 0 {
        false
    } else if a[0] != b[0] {
        a[0] < b[0]
    } else {
        lex_le(a.skip(1), b.skip(1))
    }
}

/// What a name is compared by: the name with the sentinel behind it.
pub open spec fn sort_key(name: Seq<u8>) -> Seq<u8> {
    name.push(SENTINEL)
}

/// Whether the name `a` stands before the name `b` in a tree, or is `b`.
pub open spec fn name_le(a: Seq<u8>, b: Seq<u8>) -> bool {
    lex_le(sort_key(a), sort_key(b))
}

/// Every string comes before itself or is itself.
pub proof fn lemma_lex_le_reflexive(a: Seq<u8>)
    ensures
        lex_le(a, a),
    decreases a.len(),
{
    if a.len() > 0 {
        lemma_lex_le_reflexive(a.skip(1));
    }
}

/// Of two strings one comes before the other, or they are the same.
pub proof fn lemma_lex_le_total(a: Seq<u8>, b: Seq<u8>)
    ensures
        lex_le(a, b) || lex_le(b, a),
    decreases a.len(),
{
    if a.len() > 0 && b.len() > 0 && a[0] == b[0] {
        lemma_lex_le_total(a.skip(1), b.skip(1));
    }
}

/// What comes before a string comes before all that the string comes
/// before.
pub proof fn lemma_lex_le_transitive(a: Seq<u8>, b: Seq<u8>, c: Seq<u8>)
    requires
        lex_le(a, b),
        lex_le(b, c),
    ensures
        lex_le(a, c),
    decreases a.len(),
{
    if a.len() > 0 && b.len() > 0 && c.len() > 0 && a[0] == b[0] && b[0] == c[0] {
        lemma_lex_le_transitive(a.skip(1), b.skip(1), c.skip(1));
    }
}

/// Strings that come before each other are the same string.
pub proof fn lemma_lex_le_antisymmetric(a: Seq<u8>, b: Seq<u8>)
    requires
        lex_le(a, b),
        lex_le(b, a),
    ensures
        a == b,
    decreases a.len(),
{
    if a.len() > 0 && b.len() > 0 {
        lemma_lex_le_antisymmetric(a.skip(1), b.skip(1));
        assert(a =~= seq![a[0]] + a.skip(1));
        assert(b =~= seq![b[0]] + b.skip(1));
    } else {
        assert(a =~= b);
    }
}

/// Strings that agree in their first `i` bytes compare as what follows
/// those bytes.
pub proof fn lemma_lex_le_after_common_prefix(a: Seq<u8>, b: Seq<u8>, i: int)
    requires
        0 <= i <= a.len(),
        i <= b.len(),
        a.take(i) == b.take(i),
    ensures
        lex_le(a, b) == lex_le(a.skip(i), b.skip(i)),
    decreases i,
{
    if i == 0 {
        assert(a.skip(0) =~= a);
        assert(b.skip(0) =~= b);
    } else {
        assert(a[0] == a.take(i)[0]);
        assert(b[0] == b.take(i)[0]);
        assert(a.skip(1).take(i - 1) =~= a.take(i).skip(1));
        assert(b.skip(1).take(i - 1) =~= b.take(i).skip(1));
        lemma_lex_le_after_common_prefix(a.skip(1), b.skip(1), i - 1);
        assert(a.skip(1).skip(i - 1) =~= a.skip(i));
        assert(b.skip(1).skip(i - 1) =~= b.skip(i));
    }
}

/// The order of names in a tree is total.
pub proof fn lemma_name_le_total(a: Seq<u8>, b: Seq<u8>)
    ensures
        name_le(a, b) || name_le(b, a),
{
    lemma_lex_le_total(sort_key(a), sort_key(b));
}

/// The order of names in a tree is transitive.
pub proof fn lemma_name_le_transitive(a: Seq<u8>, b: Seq<u8>, c: Seq<u8>)
    requires
        name_le(a, b),
        name_le(b, c),
    ensures
        name_le(a, c),
{
    lemma_lex_le_transitive(sort_key(a), sort_key(b), sort_key(c));
}

/// Names that stand before each other are the same name.
pub proof fn lemma_name_le_antisymmetric(a: Seq<u8>, b: Seq<u8>)
    requires
        name_le(a, b),
        name_le(b, a),
    ensures
        a == b,
{
    lemma_lex_le_antisymmetric(sort_key(a), sort_key(b));
    assert(a =~= sort_key(a).drop_last());
    assert(b =~= sort_key(b).drop_last());
}

/// Tells whether the name `a` stands before the name `b` in a tree, or is
/// `b`: whether `a` with the sentinel behind it comes before `b` with the
/// sentinel behind it, byte by byte.
pub fn precedes(a: &[u8], b: &[u8]) -> (r: bool)
    ensures
        r == name_le(a@, b@),
{
    let ghost ka = sort_key(a@);
    let ghost kb = sort_key(b@);
    let mut i: usize = 0;
    while i < a.len() && i < b.len()
        invariant
            i <= a.len(),
            i <= b.len(),
            ka == sort_key(a@),
            kb == sort_key(b@),
            ka.take(i as int) == kb.take(i as int),
        decreases a.len() - i,
    {
        if a[i] != b[i] {
            proof {
                lemma_lex_le_after_common_prefix(ka, kb, i as int);
                assert(ka.skip(i as int)[0] == a@[i as int]);
                assert(kb.skip(i as int)[0] == b@[i as int]);
            }
            return a[i] < b[i];
        }
        assert(ka.take(i + 1) =~= ka.take(i as int).push(a@[i as int]));
        assert(kb.take(i + 1) =~= kb.take(i as int).push(b@[i as int]));
        i = i + 1;
    }
    proof {
        lemma_lex_le_after_common_prefix(ka, kb, i as int);
    }
    let ghost ra = ka.skip(i as int);
    let ghost rb = kb.skip(i as int);
    if a.len() == b.len() {
        proof {
            assert(ra =~= rb);
            lemma_lex_le_reflexive(ra);
        }
        true
    } else if i == a.len() {
        proof {
            assert(ra =~= seq![SENTINEL]);
            assert(rb[0] == b@[i as int]);
            assert(ra.skip(1).len() == 0);
            assert(lex_le(ra.skip(1), rb.skip(1)));
            assert(ra[0] == SENTINEL);
        }
        b[i] == SENTINEL
    } else {
        proof {
            assert(rb =~= seq![SENTINEL]);
            assert(ra[0] == a@[i as int]);
            assert(rb.skip(1).len() == 0);
            assert(ra.skip(1).len() > 0);
            assert(!lex_le(ra.skip(1), rb.skip(1)));
            assert(rb[0] == SENTINEL);
        }
        a[i] != SENTINEL
    }
}

} // verus!
