//! The laws of the parser and the renderer.
//!
//! These proof functions state, once and for all inputs, what the
//! contracts of `parse_item` and `render` together promise: tokens are
//! idempotent and commute, trailing separators are insignificant, a bare
//! name creates exactly one child of the root, and the rendered diagram is
//! a function of the set of paths alone.

use vstd::prelude::*;

use crate::grammar::{
    first_invalid_index, inserted_count, is_prefix_of, is_sep, sib_path, split_commas_from,
    strip_trailing_seps, token_inserted_paths, token_ok, token_parent, token_siblings,
    valid_segment,
};
use crate::order::{lemma_lex_irreflexive, lemma_lex_total, lemma_lex_transitive, lex_lt};
use crate::render::{spec_render, spec_render_sub};
use crate::tree::{
    find_child, lemma_find_child, node_has_path, node_paths, node_wf, DirectoryNode, VirtualTree,
};

verus! {

/// Parsing a token twice grows the tree exactly as parsing it once: the
/// paths a token inserts do not depend on the tree they are inserted into.
pub proof fn lemma_parse_idempotent(t: Set<Seq<Seq<char>>>, input: Seq<char>)
    ensures
        t.union(token_inserted_paths(input)).union(token_inserted_paths(input)) == t.union(
            token_inserted_paths(input),
        ),
{
    assert(t.union(token_inserted_paths(input)).union(token_inserted_paths(input)) =~= t.union(
        token_inserted_paths(input),
    ));
}

/// Two tokens grow the tree to the same set of paths in either order.
pub proof fn lemma_parse_commutes(t: Set<Seq<Seq<char>>>, a: Seq<char>, b: Seq<char>)
    ensures
        t.union(token_inserted_paths(a)).union(token_inserted_paths(b)) == t.union(
            token_inserted_paths(b),
        ).union(token_inserted_paths(a)),
{
    assert(t.union(token_inserted_paths(a)).union(token_inserted_paths(b)) =~= t.union(
        token_inserted_paths(b),
    ).union(token_inserted_paths(a)));
}

/// One more trailing separator changes nothing: the token still parses the
/// same way and inserts the same paths.
pub proof fn lemma_trailing_sep_insignificant(s: Seq<char>, c: char)
    requires
        is_sep(c),
    ensures
        token_ok(s.push(c)) == token_ok(s),
        token_inserted_paths(s.push(c)) == token_inserted_paths(s),
{
    let x = s.push(c);
    assert(x.drop_last() =~= s);
    assert(strip_trailing_seps(x) == strip_trailing_seps(s));
    assert(token_parent(x) == token_parent(s));
    assert(token_siblings(x) == token_siblings(s));
    assert(inserted_count(x) == inserted_count(s));
    assert forall|q: Seq<Seq<char>>|
        token_inserted_paths(x).contains(q) == token_inserted_paths(s).contains(q) by {
        if token_inserted_paths(x).contains(q) {
            let w = choose|w: int|
                0 <= w < inserted_count(x) && is_prefix_of(q, #[trigger] sib_path(x, w));
            assert(sib_path(s, w) == sib_path(x, w));
            assert(is_prefix_of(q, sib_path(s, w)));
        }
        if token_inserted_paths(s).contains(q) {
            let w = choose|w: int|
                0 <= w < inserted_count(s) && is_prefix_of(q, #[trigger] sib_path(s, w));
            assert(sib_path(x, w) == sib_path(s, w));
            assert(is_prefix_of(q, sib_path(x, w)));
        }
    }
    assert(token_inserted_paths(x) =~= token_inserted_paths(s));
}

/// Splitting a string without commas yields it whole.
proof fn lemma_split_commas_no_comma(s: Seq<char>, cur: Seq<char>)
    requires
        forall|i: int| 0 <= i < s.len() ==> s[i] != ',',
    ensures
        split_commas_from(s, cur) == seq![cur + s],
    decreases s.len(),
{
    if s.len() == 0 {
        assert(cur + s =~= cur);
    } else {
        assert(forall|i: int|
            0 <= i < s.len() - 1 ==> #[trigger] s.drop_first()[i] == s[i + 1]);
        lemma_split_commas_no_comma(s.drop_first(), cur.push(s[0]));
        assert(cur.push(s[0]) + s.drop_first() =~= cur + s);
    }
}

/// A bare name — non-empty, without separators, commas, NUL, and not
/// reserved — is one whole token, and inserts exactly one child of the
/// root, named by it.
pub proof fn lemma_single_name_token(s: Seq<char>)
    requires
        s.len() > 0,
        forall|i: int| 0 <= i < s.len() ==> !is_sep(#[trigger] s[i]) && s[i] != ',' && s[i] != '\0',
        s != seq!['.'],
        s != seq!['.', '.'],
    ensures
        token_ok(s),
        token_inserted_paths(s) == set![Seq::<Seq<char>>::empty(), seq![s]],
{
    assert(s.last() == s[s.len() - 1]);
    assert(strip_trailing_seps(s) == s);
    assert(!crate::grammar::has_sep(s));
    lemma_split_commas_no_comma(s, Seq::empty());
    assert(Seq::empty() + s =~= s);
    assert(token_siblings(s) == seq![s]);
    assert(token_parent(s) =~= Seq::<Seq<char>>::empty());
    assert(valid_segment(s));
    assert(token_siblings(s).drop_first() =~= Seq::<Seq<char>>::empty());
    assert(first_invalid_index(Seq::<Seq<char>>::empty()) == 0);
    assert(first_invalid_index(token_siblings(s)) == 1);
    assert(token_ok(s)) by {
        assert(forall|i: int|
            0 <= i < token_siblings(s).len() ==> valid_segment(#[trigger] token_siblings(s)[i]));
    }
    assert(inserted_count(s) == 1);
    let p = sib_path(s, 0);
    assert(p =~= seq![s]);
    assert forall|q: Seq<Seq<char>>|
        token_inserted_paths(s).contains(q) == set![Seq::<Seq<char>>::empty(), seq![s]].contains(
            q,
        ) by {
        if token_inserted_paths(s).contains(q) {
            assert(is_prefix_of(q, sib_path(s, 0)));
            if q.len() == 0 {
                assert(q =~= Seq::<Seq<char>>::empty());
            } else {
                assert(q.len() == 1);
                assert(q =~= p.subrange(0, 1));
                assert(q =~= seq![s]);
            }
        }
        if q == Seq::<Seq<char>>::empty() {
            assert(q =~= p.subrange(0, 0));
            assert(is_prefix_of(q, sib_path(s, 0)));
        }
        if q == seq![s] {
            assert(q =~= p.subrange(0, 1));
            assert(is_prefix_of(q, sib_path(s, 0)));
        }
    }
    assert(token_inserted_paths(s) =~= set![Seq::<Seq<char>>::empty(), seq![s]]);
}

/// Children strictly sorted by name.
pub open spec fn sorted_kids(kids: Seq<DirectoryNode>) -> bool {
    forall|i: int, j: int|
        0 <= i < j < kids.len() ==> #[trigger] lex_lt(kids[i].name@, kids[j].name@)
}

/// In a strictly sorted child list, a child's name is first found at the
/// child itself.
proof fn lemma_find_child_sorted(kids: Seq<DirectoryNode>, i: int)
    requires
        sorted_kids(kids),
        0 <= i < kids.len(),
    ensures
        find_child(kids, kids[i].name@) == i,
{
    let s = kids[i].name@;
    lemma_find_child(kids, s);
    lemma_lex_irreflexive(s);
    let f = find_child(kids, s);
    if f < i {
        assert(kids[f].name@ == s);
        assert(lex_lt(kids[f].name@, kids[i].name@));
        assert(false);
    }
    if f > i {
        assert((kids[i]).name@ != s);
        assert(false);
    }
}

/// Two strictly sorted child lists that carry the same names carry them at
/// the same positions.
proof fn lemma_sorted_names_match(x: Seq<DirectoryNode>, y: Seq<DirectoryNode>)
    requires
        sorted_kids(x),
        sorted_kids(y),
        forall|s: Seq<char>|
            (find_child(x, s) < x.len()) == (#[trigger] find_child(y, s) < y.len()),
    ensures
        x.len() == y.len(),
        forall|i: int| 0 <= i < x.len() ==> (#[trigger] x[i]).name@ == y[i].name@,
    decreases x.len(),
{
    if x.len() == 0 {
        if y.len() > 0 {
            lemma_find_child_sorted(y, 0);
            lemma_find_child(x, y[0].name@);
            assert(find_child(x, y[0].name@) < x.len());
            assert(false);
        }
    } else if y.len() == 0 {
        lemma_find_child_sorted(x, 0);
        lemma_find_child(y, x[0].name@);
        assert(find_child(y, x[0].name@) < y.len());
        assert(false);
    } else {
        let a = x[0].name@;
        let b = y[0].name@;
        // the two head names must agree: the smaller one would otherwise
        // be missing from the other list.
        if a != b {
            lemma_lex_total(a, b);
            lemma_lex_irreflexive(a);
            lemma_lex_irreflexive(b);
            if lex_lt(a, b) {
                lemma_find_child_sorted(x, 0);
                assert(find_child(x, a) < x.len());
                lemma_find_child(y, a);
                let j = find_child(y, a);
                assert(j < y.len());
                assert(y[j].name@ == a);
                assert(j != 0);
                assert(lex_lt(b, y[j].name@));
                lemma_lex_transitive(a, b, a);
                assert(false);
            } else {
                lemma_find_child_sorted(y, 0);
                assert(find_child(y, b) < y.len());
                lemma_find_child(x, b);
                let j = find_child(x, b);
                assert(j < x.len());
                assert(x[j].name@ == b);
                assert(j != 0);
                assert(lex_lt(a, x[j].name@));
                lemma_lex_transitive(b, a, b);
                assert(false);
            }
        }
        assert(a == b);
        let xd = x.drop_first();
        let yd = y.drop_first();
        assert(xd.len() == x.len() - 1);
        assert(yd.len() == y.len() - 1);
        assert(forall|k: int| 1 <= k < x.len() ==> #[trigger] x[k] == xd[k - 1]);
        assert(forall|k: int| 1 <= k < y.len() ==> #[trigger] y[k] == yd[k - 1]);
        assert(sorted_kids(xd));
        assert(sorted_kids(yd));
        assert forall|s: Seq<char>|
            (find_child(xd, s) < xd.len()) == (#[trigger] find_child(yd, s) < yd.len()) by {
            lemma_find_child(xd, s);
            lemma_find_child(yd, s);
            lemma_lex_irreflexive(a);
            if s == a {
                if find_child(xd, s) < xd.len() {
                    assert(xd[find_child(xd, s)].name@ == s);
                    assert(lex_lt(x[0].name@, x[find_child(xd, s) + 1].name@));
                    assert(false);
                }
                if find_child(yd, s) < yd.len() {
                    assert(yd[find_child(yd, s)].name@ == s);
                    assert(lex_lt(y[0].name@, y[find_child(yd, s) + 1].name@));
                    assert(false);
                }
            } else {
                assert(find_child(x, s) == 1 + find_child(xd, s));
                assert(find_child(y, s) == 1 + find_child(yd, s));
            }
        }
        lemma_sorted_names_match(xd, yd);
    }
}

/// A singleton path leads into a tree exactly when some child carries its
/// name.
proof fn lemma_has_name(n: DirectoryNode, s: Seq<char>)
    ensures
        node_has_path(n, seq![s]) == (find_child(n.children@, s) < n.children@.len()),
{
    lemma_find_child(n.children@, s);
    assert(seq![s][0] == s);
    assert(seq![s].drop_first().len() == 0);
    let f = find_child(n.children@, s);
    if 0 <= f < n.children@.len() {
        assert(node_has_path(n.children@[f], seq![s].drop_first()));
    }
}

/// Extending a path by one leading name steps into the child of that name.
proof fn lemma_step_down(n: DirectoryNode, i: int, q: Seq<Seq<char>>)
    requires
        sorted_kids(n.children@),
        0 <= i < n.children@.len(),
    ensures
        node_has_path(n, seq![n.children@[i].name@] + q) == node_has_path(n.children@[i], q),
{
    lemma_find_child_sorted(n.children@, i);
    let p = seq![n.children@[i].name@] + q;
    assert(p[0] == n.children@[i].name@);
    assert(p.drop_first() =~= q);
}

/// Two well-formed nodes holding the same paths have children that match
/// pairwise: same names in the same order, holding the same paths.
proof fn lemma_children_match(a: DirectoryNode, b: DirectoryNode)
    requires
        node_wf(a),
        node_wf(b),
        node_paths(a) == node_paths(b),
    ensures
        a.children@.len() == b.children@.len(),
        forall|i: int|
            0 <= i < a.children@.len() ==> (#[trigger] a.children@[i]).name@
                == b.children@[i].name@,
        forall|i: int|
            0 <= i < a.children@.len() ==> node_paths(#[trigger] a.children@[i]) == node_paths(
                b.children@[i],
            ),
{
    assert forall|s: Seq<char>|
        (find_child(a.children@, s) < a.children@.len()) == (#[trigger] find_child(b.children@, s)
            < b.children@.len()) by {
        lemma_has_name(a, s);
        lemma_has_name(b, s);
        let p = seq![s];
        assert(node_paths(a).contains(p) == node_has_path(a, p));
        assert(node_paths(b).contains(p) == node_has_path(b, p));
        assert(node_paths(a).contains(p) == node_paths(b).contains(p));
    }
    lemma_sorted_names_match(a.children@, b.children@);
    assert forall|i: int|
        0 <= i < a.children@.len() implies node_paths(#[trigger] a.children@[i]) == node_paths(
        b.children@[i],
    ) by {
        assert forall|q: Seq<Seq<char>>|
            #![trigger node_has_path(a.children@[i], q)]
            node_paths(a.children@[i]).contains(q) == node_paths(b.children@[i]).contains(
                q,
            ) by {
            lemma_step_down(a, i, q);
            lemma_step_down(b, i, q);
            let p = seq![a.children@[i].name@] + q;
            assert(node_paths(a).contains(p) == node_has_path(a, p));
            assert(node_paths(b).contains(p) == node_has_path(b, p));
            assert(node_paths(a).contains(p) == node_paths(b).contains(p));
            assert(node_paths(a.children@[i]).contains(q) == node_has_path(a.children@[i], q));
            assert(node_paths(b.children@[i]).contains(q) == node_has_path(b.children@[i], q));
        }
        assert(node_paths(a.children@[i]) =~= node_paths(b.children@[i]));
    }
}

/// Two well-formed nodes holding the same paths render to the same lines,
/// child for child.
proof fn lemma_render_sub_canonical(a: DirectoryNode, b: DirectoryNode, prefix: Seq<char>, i: int)
    requires
        node_wf(a),
        node_wf(b),
        node_paths(a) == node_paths(b),
    ensures
        spec_render_sub(a, prefix, i) == spec_render_sub(b, prefix, i),
    decreases a, a.children@.len() - i,
{
    lemma_children_match(a, b);
    if 0 <= i < a.children@.len() {
        let cp = prefix + (if i == a.children@.len() - 1 {
            crate::render::glyph_blank()
        } else {
            crate::render::glyph_bar()
        });
        lemma_render_sub_canonical(a.children@[i], b.children@[i], cp, 0);
        lemma_render_sub_canonical(a, b, prefix, i + 1);
    }
}

/// Render order is deterministic and independent of insertion order: two
/// well-formed trees that hold the same set of paths — however and in
/// whatever order those paths were inserted — render to the same diagram.
pub proof fn lemma_render_deterministic(a: VirtualTree, b: VirtualTree)
    requires
        a.wf(),
        b.wf(),
        a@ == b@,
    ensures
        spec_render(a) == spec_render(b),
{
    lemma_render_sub_canonical(a.root, b.root, Seq::empty(), 0);
}

} // verus!
