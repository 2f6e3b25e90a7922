//! Lexicographic ordering on character sequences.
//!
//! Child directories are kept sorted by name under this order, which compares
//! characters by their code points (for UTF-8 text this agrees with byte
//! order). The order is strict and total, which is what makes the sorted
//! child list of a node a canonical representation of its set of children.

use vstd::prelude::*;

verus! {

/// `a` comes strictly before `b` in lexicographic order by code point.
pub open spec fn lex_lt(a: Seq<char>, b: Seq<char>) -> bool
    decreases a.len(),
{
    &&& b.len() > 0
    &&& {
        ||| a.len() == 0
        ||| (a[0] as int) < (b[0] as int)
        ||| (a[0] == b[0] && lex_lt(a.drop_first(), b.drop_first()))
    }
}

/// `lex_lt` is irreflexive.
pub proof fn lemma_lex_irreflexive(a: Seq<char>)
    ensures
        !lex_lt(a, a),
    decreases a.len(),
{
    if a.len() > 0 {
        lemma_lex_irreflexive(a.drop_first());
    }
}

/// Of two distinct sequences, exactly one comes before the other.
pub proof fn lemma_lex_total(a: Seq<char>, b: Seq<char>)
    ensures
        lex_lt(a, b) || lex_lt(b, a) || a == b,
    decreases a.len(),
{
    if a.len() == 0 {
        if b.len() == 0 {
            assert(a =~= b);
        } else {
            assert(lex_lt(a, b));
        }
    } else if b.len() == 0 {
        assert(lex_lt(b, a));
    } else if (a[0] as int) < (b[0] as int) {
        assert(lex_lt(a, b));
    } else if (b[0] as int) < (a[0] as int) {
        assert(lex_lt(b, a));
    } else {
        assert(a[0] == b[0]);
        lemma_lex_total(a.drop_first(), b.drop_first());
        if lex_lt(a.drop_first(), b.drop_first()) {
            assert(lex_lt(a, b));
        } else if lex_lt(b.drop_first(), a.drop_first()) {
            assert(lex_lt(b, a));
        } else {
            assert(a.drop_first().len() == a.len() - 1);
            assert(b.drop_first().len() == b.len() - 1);
            assert(forall|i: int|
                1 <= i < a.len() ==> #[trigger] a[i] == a.drop_first()[i - 1]);
            assert(forall|i: int|
                1 <= i < b.len() ==> #[trigger] b[i] == b.drop_first()[i - 1]);
            assert(a =~= b);
        }
    }
}

/// `lex_lt` is transitive.
pub proof fn lemma_lex_transitive(a: Seq<char>, b: Seq<char>, c: Seq<char>)
    requires
        lex_lt(a, b),
        lex_lt(b, c),
    ensures
        lex_lt(a, c),
    decreases a.len(),
{
    if a.len() > 0 && a[0] == b[0] && b[0] == c[0] {
        lemma_lex_transitive(a.drop_first(), b.drop_first(), c.drop_first());
    }
}

/// Whether `c` comes strictly before `d` by code point.
fn char_lt(c: char, d: char) -> (r: bool)
    ensures
        r == ((c as int) < (d as int)),
{
    (c as u32) < (d as u32)
}

/// Decides the lexicographic order on two strings, character by character.
pub fn str_lt(a: &str, b: &str) -> (r: bool)
    ensures
        r == lex_lt(a@, b@),
{
    let a_len = a.unicode_len();
    let b_len = b.unicode_len();
    let mut i: usize = 0;
    proof {
        assert(a@.skip(0) =~= a@);
        assert(b@.skip(0) =~= b@);
    }
    loop
        invariant
            i <= a_len,
            i <= b_len,
            a_len == a@.len(),
            b_len == b@.len(),
            lex_lt(a@, b@) == lex_lt(a@.skip(i as int), b@.skip(i as int)),
        decreases a_len - i,
    {
        if i == a_len || i == b_len {
            return i == a_len && i < b_len;
        }
        let ca = a.get_char(i);
        let cb = b.get_char(i);
        if ca == cb {
            proof {
                assert(a@.skip(i as int).drop_first() =~= a@.skip(i + 1));
                assert(b@.skip(i as int).drop_first() =~= b@.skip(i + 1));
            }
            i = i + 1;
        } else {
            return char_lt(ca, cb);
        }
    }
}

} // verus!
