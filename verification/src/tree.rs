//! The virtual directory tree.
//!
//! A tree is a root [`DirectoryNode`] whose name is empty; every other node
//! carries a valid segment as its name. The children of each node are kept
//! strictly sorted by name, so no two children of one parent share a name
//! and the structure of a well-formed tree is determined by the set of paths
//! it holds. That set — every path from the root to some node, written as a
//! sequence of segment names — is the tree's abstract view.

use vstd::prelude::*;

use crate::grammar::{is_prefix_of, prefixes_of, segment_valid, valid_segment};
use crate::order::{lemma_lex_irreflexive, lemma_lex_total, lemma_lex_transitive, lex_lt, str_lt};

verus! {

/// One directory. `name` is a single path segment; `children` are the
/// subdirectories, sorted strictly by name.
pub struct DirectoryNode {
    pub name: String,
    pub children: Vec<DirectoryNode>,
}

/// The index of the first node of `kids` named `s`, or `kids.len()` if no
/// node of `kids` carries that name.
pub open spec fn find_child(kids: Seq<DirectoryNode>, s: Seq<char>) -> int
    decreases kids.len(),
{
    if kids.len() == 0 {
        0
    } else if kids[0].name@ == s {
        0
    } else {
        1 + find_child(kids.drop_first(), s)
    }
}

/// `find_child` points at the first child named `s`, if any.
pub proof fn lemma_find_child(kids: Seq<DirectoryNode>, s: Seq<char>)
    ensures
        0 <= find_child(kids, s) <= kids.len(),
        find_child(kids, s) < kids.len() ==> kids[find_child(kids, s)].name@ == s,
        forall|k: int| 0 <= k < find_child(kids, s) ==> (#[trigger] kids[k]).name@ != s,
    decreases kids.len(),
{
    if kids.len() > 0 && kids[0].name@ != s {
        lemma_find_child(kids.drop_first(), s);
        assert(kids.drop_first().len() == kids.len() - 1);
        assert(forall|k: int|
            1 <= k < kids.len() ==> #[trigger] kids[k] == kids.drop_first()[k - 1]);
    }
}

/// Two child sequences with the same names at the same positions agree on
/// where a name is found.
pub proof fn lemma_find_child_same_names(a: Seq<DirectoryNode>, b: Seq<DirectoryNode>, s: Seq<char>)
    requires
        a.len() == b.len(),
        forall|k: int| 0 <= k < a.len() ==> (#[trigger] a[k]).name@ == b[k].name@,
    ensures
        find_child(a, s) == find_child(b, s),
    decreases a.len(),
{
    if a.len() > 0 && a[0].name@ != s {
        assert(a.drop_first().len() == a.len() - 1);
        assert(b.drop_first().len() == b.len() - 1);
        assert(forall|k: int| 1 <= k < a.len() ==> #[trigger] a[k] == a.drop_first()[k - 1]);
        assert(forall|k: int| 1 <= k < b.len() ==> #[trigger] b[k] == b.drop_first()[k - 1]);
        assert(forall|k: int|
            0 <= k < a.drop_first().len() ==> (#[trigger] a.drop_first()[k]).name@
                == b.drop_first()[k].name@);
        lemma_find_child_same_names(a.drop_first(), b.drop_first(), s);
    }
}

/// How inserting a node whose name is not `s` shifts where `s` is found.
pub proof fn lemma_find_child_insert(
    kids: Seq<DirectoryNode>,
    idx: int,
    c: DirectoryNode,
    s: Seq<char>,
)
    requires
        0 <= idx <= kids.len(),
        c.name@ != s,
    ensures
        find_child(kids.insert(idx, c), s) == if find_child(kids, s) < idx {
            find_child(kids, s)
        } else {
            find_child(kids, s) + 1
        },
    decreases idx,
{
    let new = kids.insert(idx, c);
    kids.insert_ensures(idx, c);
    lemma_find_child(kids, s);
    if idx == 0 {
        assert(new[0] == c);
        assert(new.drop_first() =~= kids);
        assert(find_child(new, s) == 1 + find_child(kids, s));
    } else {
        assert(new[0] == kids[0]);
        if kids[0].name@ == s {
        } else {
            let kd = kids.drop_first();
            kd.insert_ensures(idx - 1, c);
            assert(kids.drop_first().len() == kids.len() - 1);
            assert(forall|k: int|
                1 <= k < kids.len() ==> #[trigger] kids[k] == kids.drop_first()[k - 1]);
            assert(new.drop_first() =~= kd.insert(idx - 1, c));
            lemma_find_child_insert(kd, idx - 1, c, s);
        }
    }
}

/// The path `p` leads from `n` to one of its descendants. The empty path
/// names `n` itself; otherwise the first segment must name a child and the
/// rest of the path leads on from there.
pub open spec fn node_has_path(n: DirectoryNode, p: Seq<Seq<char>>) -> bool
    decreases n,
{
    if p.len() == 0 {
        true
    } else {
        let k = find_child(n.children@, p[0]);
        if 0 <= k < n.children@.len() {
            node_has_path(n.children@[k], p.drop_first())
        } else {
            false
        }
    }
}

/// The set of all paths from `n` to one of its descendants (including the
/// empty path, which names `n` itself), each path a sequence of names.
#[verifier::inline]
pub open spec fn node_paths(n: DirectoryNode) -> Set<Seq<Seq<char>>> {
    Set::new(|p: Seq<Seq<char>>| node_has_path(n, p))
}

/// Well-formedness of a node: every child has a valid segment for a name,
/// the children are strictly sorted by name, and each child is itself
/// well-formed.
pub open spec fn node_wf(n: DirectoryNode) -> bool
    decreases n,
{
    &&& forall|i: int|
        0 <= i < n.children@.len() ==> valid_segment((#[trigger] n.children@[i]).name@)
    &&& forall|i: int| 0 <= i < n.children@.len() ==> node_wf(#[trigger] n.children@[i])
    &&& forall|i: int, j: int|
        0 <= i < j < n.children@.len() ==> #[trigger] lex_lt(
            n.children@[i].name@,
            n.children@[j].name@,
        )
}

/// The views of a sequence of strings.
pub open spec fn str_views(segs: Seq<String>) -> Seq<Seq<char>> {
    segs.map_values(|s: String| s@)
}

/// Every path of `s`, extended downward through a directory named `name`.
pub open spec fn cons_all(name: Seq<char>, s: Set<Seq<Seq<char>>>) -> Set<Seq<Seq<char>>> {
    Set::new(|q: Seq<Seq<char>>| q.len() >= 1 && q[0] == name && s.contains(q.drop_first()))
}

/// The prefixes of a path decompose into the empty path and the prefixes of
/// its tail, each extended by its first segment.
pub proof fn lemma_prefixes_decompose(p: Seq<Seq<char>>)
    requires
        p.len() > 0,
    ensures
        prefixes_of(p) =~= set![Seq::<Seq<char>>::empty()].union(
            cons_all(p[0], prefixes_of(p.drop_first())),
        ),
{
    let rhs = set![Seq::<Seq<char>>::empty()].union(cons_all(p[0], prefixes_of(p.drop_first())));
    assert forall|q: Seq<Seq<char>>| prefixes_of(p).contains(q) == rhs.contains(q) by {
        if q.len() == 0 {
            assert(q =~= Seq::<Seq<char>>::empty());
            assert(q =~= p.subrange(0, 0));
            assert(is_prefix_of(q, p));
            assert(rhs.contains(q));
        } else {
            if prefixes_of(p).contains(q) {
                assert(q == p.subrange(0, q.len() as int));
                assert(q[0] == p[0]);
                assert(q.drop_first() =~= p.drop_first().subrange(0, q.len() - 1));
                assert(is_prefix_of(q.drop_first(), p.drop_first()));
                assert(rhs.contains(q));
            }
            if rhs.contains(q) {
                assert(cons_all(p[0], prefixes_of(p.drop_first())).contains(q));
                assert(q.drop_first() == p.drop_first().subrange(0, q.len() - 1));
                assert forall|k: int| 0 <= k < q.len() implies q[k] == p.subrange(
                    0,
                    q.len() as int,
                )[k] by {
                    if k > 0 {
                        assert(q[k] == q.drop_first()[k - 1]);
                        assert(p.drop_first()[k - 1] == p[k]);
                    }
                }
                assert(q =~= p.subrange(0, q.len() as int));
                assert(is_prefix_of(q, p));
            }
        }
    }
    assert(prefixes_of(p) =~= rhs);
}

/// The prefixes of the empty path are exactly the empty path.
pub proof fn lemma_prefixes_of_empty()
    ensures
        prefixes_of(Seq::<Seq<char>>::empty()) =~= set![Seq::<Seq<char>>::empty()],
{
    assert forall|q: Seq<Seq<char>>|
        prefixes_of(Seq::<Seq<char>>::empty()).contains(q) == set![
            Seq::<Seq<char>>::empty(),
        ].contains(q) by {
        if q.len() == 0 {
            assert(q =~= Seq::<Seq<char>>::empty());
            assert(q =~= Seq::<Seq<char>>::empty().subrange(0, 0));
            assert(is_prefix_of(q, Seq::<Seq<char>>::empty()));
        }
    }
    assert(prefixes_of(Seq::<Seq<char>>::empty()) =~= set![Seq::<Seq<char>>::empty()]);
}

/// Builds the straight chain of directories named by `segs[i..]`: a node
/// named `segs[i]` holding a single-child chain of the remaining segments.
fn make_chain(segs: &Vec<String>, i: usize) -> (r: DirectoryNode)
    requires
        i < segs@.len(),
        forall|k: int| i <= k < segs@.len() ==> valid_segment((#[trigger] segs@[k])@),
    ensures
        node_wf(r),
        r.name@ == segs@[i as int]@,
        node_paths(r) =~= prefixes_of(str_views(segs@).skip(i + 1)),
    decreases segs@.len() - i,
{
    let n = segs.len();
    let name = segs[i].clone();
    assert(name@ == segs@[i as int]@);
    if i + 1 == n {
        let r = DirectoryNode { name, children: Vec::new() };
        proof {
            lemma_prefixes_of_empty();
            assert(str_views(segs@).skip(i + 1) =~= Seq::<Seq<char>>::empty());
            assert forall|q: Seq<Seq<char>>| node_paths(r).contains(q) == set![
                Seq::<Seq<char>>::empty(),
            ].contains(q) by {
                if q.len() == 0 {
                    assert(q =~= Seq::<Seq<char>>::empty());
                } else {
                    assert(!node_has_path(r, q));
                }
            }
            assert(node_paths(r) =~= set![Seq::<Seq<char>>::empty()]);
        }
        r
    } else {
        let child = make_chain(segs, i + 1);
        let mut children: Vec<DirectoryNode> = Vec::new();
        children.push(child);
        let r = DirectoryNode { name, children };
        proof {
            let rest = str_views(segs@).skip(i as int + 1);
            assert(rest.len() > 0);
            assert(rest[0] == segs@[i + 1]@);
            assert(rest.drop_first() =~= str_views(segs@).skip(i + 2));
            lemma_prefixes_decompose(rest);
            assert(r.children@.len() == 1);
            assert(r.children@[0] == child);
            assert(r.children@[0].name@ == rest[0]);
            let rhs = set![Seq::<Seq<char>>::empty()].union(
                cons_all(rest[0], node_paths(r.children@[0])),
            );
            assert forall|q: Seq<Seq<char>>| node_paths(r).contains(q) == rhs.contains(q) by {
                if q.len() == 0 {
                    assert(q =~= Seq::<Seq<char>>::empty());
                    assert(node_has_path(r, q));
                    assert(rhs.contains(q));
                } else {
                    lemma_find_child(r.children@, q[0]);
                    if q[0] == rest[0] {
                        assert(find_child(r.children@, q[0]) == 0);
                    } else {
                        assert(find_child(r.children@, q[0]) == 1);
                    }
                }
            }
            assert(node_paths(r) =~= rhs);
            assert(cons_all(rest[0], node_paths(r.children@[0])) =~= cons_all(
                rest[0],
                prefixes_of(rest.drop_first()),
            ));
        }
        r
    }
}

/// Inserts the directories named by `segs[i..]` below `n`, creating the
/// nodes that are missing and leaving those already present untouched. The
/// paths of `n` grow by exactly the prefixes of `segs[i..]`.
fn node_insert(n: &mut DirectoryNode, segs: &Vec<String>, i: usize)
    requires
        node_wf(*old(n)),
        i <= segs@.len(),
        forall|k: int| i <= k < segs@.len() ==> valid_segment((#[trigger] segs@[k])@),
    ensures
        node_wf(*final(n)),
        final(n).name == old(n).name,
        node_paths(*final(n)) == node_paths(*old(n)).union(
            prefixes_of(str_views(segs@).skip(i as int)),
        ),
    decreases segs@.len() - i,
{
    if i == segs.len() {
        proof {
            lemma_prefixes_of_empty();
            assert(str_views(segs@).skip(i as int) =~= Seq::<Seq<char>>::empty());
            let u = node_paths(*n).union(prefixes_of(str_views(segs@).skip(i as int)));
            assert forall|q: Seq<Seq<char>>| #![trigger u.contains(q)]
                node_paths(*n).contains(q) == u.contains(q) by {
                if q.len() == 0 {
                    assert(node_has_path(*n, q));
                }
            }
            assert(node_paths(*n) =~= node_paths(*n).union(
                prefixes_of(str_views(segs@).skip(i as int)),
            ));
        }
        return ;
    }
    let ghost s = segs@[i as int]@;
    let ghost rest = str_views(segs@).skip(i as int);
    let ghost old_kids = n.children@;
    proof {
        assert(rest.len() == segs@.len() - i);
        assert(rest[0] == s);
        assert(rest.drop_first() =~= str_views(segs@).skip(i as int + 1));
        lemma_prefixes_decompose(rest);
        lemma_lex_irreflexive(s);
    }
    let mut idx: usize = 0;
    while idx < n.children.len() && str_lt(n.children[idx].name.as_str(), segs[i].as_str())
        invariant
            node_wf(*n),
            n.children@ == old_kids,
            i < segs@.len(),
            s == segs@[i as int]@,
            idx <= n.children@.len(),
            forall|k: int| 0 <= k < idx ==> lex_lt((#[trigger] n.children@[k]).name@, s),
        decreases n.children@.len() - idx,
    {
        idx = idx + 1;
    }
    let found = idx < n.children.len() && !str_lt(segs[i].as_str(), n.children[idx].name.as_str());
    proof {
        assert(forall|k: int| 0 <= k < idx ==> (#[trigger] old_kids[k]).name@ != s);
        if found {
            lemma_lex_total(old_kids[idx as int].name@, s);
            assert(old_kids[idx as int].name@ == s);
        }
    }
    if found {
        let mut child = n.children.remove(idx);
        node_insert(&mut child, segs, i + 1);
        n.children.insert(idx, child);
        proof {
            let child0 = old_kids[idx as int];
            let child2 = n.children@[idx as int];
            old_kids.remove_ensures(idx as int);
            old_kids.remove(idx as int).insert_ensures(idx as int, child2);
            assert(n.children@.len() == old_kids.len());
            assert(forall|k: int|
                0 <= k < idx ==> #[trigger] n.children@[k] == old_kids[k]);
            assert forall|k: int| idx < k < old_kids.len() implies #[trigger] n.children@[k]
                == old_kids[k] by {
                assert(n.children@[k] == old_kids.remove(idx as int)[k - 1]);
                assert(old_kids.remove(idx as int)[k - 1] == old_kids[k]);
            }
            assert(n.children@[idx as int] == child2);
            assert(child2.name@ == s);
            // well-formedness: names and order are unchanged, the updated
            // child is well-formed.
            assert(node_wf(*n)) by {
                assert(forall|k: int|
                    0 <= k < n.children@.len() ==> (#[trigger] n.children@[k]).name@
                        == old_kids[k].name@);
            }
            // where each name is found is unchanged
            assert(find_child(old_kids, s) == idx) by {
                lemma_find_child(old_kids, s);
            }
            // membership: the new paths are the old ones plus the prefixes
            // of the inserted chain.
            let u = node_paths(*old(n)).union(prefixes_of(rest));
            assert forall|q: Seq<Seq<char>>| #![trigger u.contains(q)]
                node_paths(*n).contains(q) == u.contains(q) by {
                if q.len() == 0 {
                    assert(node_has_path(*n, q));
                    assert(node_has_path(*old(n), q));
                } else {
                    lemma_find_child(old_kids, q[0]);
                    lemma_find_child_same_names(old_kids, n.children@, q[0]);
                    let f = find_child(old_kids, q[0]);
                    if q[0] == s {
                        assert(f == idx);
                        assert(node_has_path(*n, q) == node_has_path(child2, q.drop_first()));
                        assert(node_has_path(*old(n), q) == node_has_path(
                            child0,
                            q.drop_first(),
                        ));
                        assert(node_paths(child2).contains(q.drop_first()) == node_paths(
                            child0,
                        ).union(prefixes_of(rest.drop_first())).contains(q.drop_first()));
                        assert(prefixes_of(rest).contains(q) == cons_all(
                            s,
                            prefixes_of(rest.drop_first()),
                        ).contains(q));
                    } else {
                        assert(!cons_all(s, prefixes_of(rest.drop_first())).contains(q));
                        assert(!prefixes_of(rest).contains(q));
                        if 0 <= f < old_kids.len() {
                            assert(f != idx);
                            assert(n.children@[f] == old_kids[f]);
                            assert(node_has_path(*n, q) == node_has_path(
                                old_kids[f],
                                q.drop_first(),
                            ));
                        } else {
                            assert(!node_has_path(*n, q));
                            assert(!node_has_path(*old(n), q));
                        }
                    }
                }
            }
            assert(node_paths(*n) =~= node_paths(*old(n)).union(prefixes_of(rest)));
        }
    } else {
        let child = make_chain(segs, i);
        n.children.insert(idx, child);
        proof {
            let chain = n.children@[idx as int];
            old_kids.insert_ensures(idx as int, chain);
            assert(n.children@ == old_kids.insert(idx as int, chain));
            assert(n.children@[idx as int] == chain);
            assert(chain.name@ == s);
            assert(n.children@.len() == old_kids.len() + 1);
            assert(forall|k: int|
                0 <= k < idx ==> #[trigger] n.children@[k] == old_kids[k]);
            assert(forall|k: int|
                idx < k < n.children@.len() ==> #[trigger] n.children@[k] == old_kids[k - 1]);
            if idx < old_kids.len() {
                assert(lex_lt(s, old_kids[idx as int].name@));
            }
            // no child of the old node is named s
            assert forall|k: int| 0 <= k < old_kids.len() implies (#[trigger] old_kids[k]).name@
                != s by {
                if k >= idx {
                    if k > idx {
                        lemma_lex_transitive(s, old_kids[idx as int].name@, old_kids[k].name@);
                    }
                    if old_kids[k].name@ == s {
                        assert(lex_lt(s, s));
                    }
                }
            }
            assert(find_child(old_kids, s) == old_kids.len()) by {
                lemma_find_child(old_kids, s);
            }
            // well-formedness: the new child slots in between names below
            // and above it.
            assert(node_wf(*n)) by {
                assert forall|a: int, b: int|
                    0 <= a < b < n.children@.len() implies #[trigger] lex_lt(
                    n.children@[a].name@,
                    n.children@[b].name@,
                ) by {
                    if a < idx && b > idx {
                        if b - 1 > a {
                        }
                    } else if a == idx && b > idx {
                        if b - 1 > idx {
                            lemma_lex_transitive(
                                s,
                                old_kids[idx as int].name@,
                                old_kids[b - 1].name@,
                            );
                        }
                    }
                }
            }
            let u = node_paths(*old(n)).union(prefixes_of(rest));
            assert forall|q: Seq<Seq<char>>| #![trigger u.contains(q)]
                node_paths(*n).contains(q) == u.contains(q) by {
                if q.len() == 0 {
                    assert(node_has_path(*n, q));
                    assert(node_has_path(*old(n), q));
                } else {
                    lemma_find_child(old_kids, q[0]);
                    lemma_find_child(n.children@, q[0]);
                    if q[0] == s {
                        assert(find_child(n.children@, q[0]) == idx) by {
                            lemma_find_child(n.children@, q[0]);
                        }
                        assert(node_has_path(*n, q) == node_has_path(chain, q.drop_first()));
                        assert(node_paths(chain).contains(q.drop_first()) == prefixes_of(
                            rest.drop_first(),
                        ).contains(q.drop_first()));
                        assert(prefixes_of(rest).contains(q) == cons_all(
                            s,
                            prefixes_of(rest.drop_first()),
                        ).contains(q));
                        assert(!node_has_path(*old(n), q));
                    } else {
                        assert(!cons_all(s, prefixes_of(rest.drop_first())).contains(q));
                        assert(!prefixes_of(rest).contains(q));
                        lemma_find_child_insert(old_kids, idx as int, chain, q[0]);
                        let f = find_child(old_kids, q[0]);
                        if 0 <= f < old_kids.len() {
                            if f < idx {
                                assert(n.children@[f] == old_kids[f]);
                            } else {
                                assert(n.children@[f + 1] == old_kids[f]);
                            }
                        } else {
                            assert(find_child(n.children@, q[0]) == old_kids.len() + 1);
                            assert(!node_has_path(*n, q));
                            assert(!node_has_path(*old(n), q));
                        }
                    }
                }
            }
            assert(node_paths(*n) =~= node_paths(*old(n)).union(prefixes_of(rest)));
        }
    }
}

/// The names of the children of the node `segs[i..]` leads to from `n`,
/// sorted, or `None` when no such node exists.
fn node_children_of(n: &DirectoryNode, segs: &Vec<String>, i: usize) -> (r: Option<Vec<String>>)
    requires
        node_wf(*n),
        i <= segs@.len(),
    ensures
        match r {
            Some(names) => node_has_path(*n, str_views(segs@).skip(i as int)) && (forall|
                a: int,
                b: int,
            |
                0 <= a < b < names@.len() ==> #[trigger] lex_lt(
                    names@[a]@,
                    names@[b]@,
                )) && forall|s: Seq<char>|
                str_views(names@).contains(s) <==> node_has_path(
                    *n,
                    str_views(segs@).skip(i as int).push(s),
                ),
            None => !node_has_path(*n, str_views(segs@).skip(i as int)),
        },
    decreases segs@.len() - i,
{
    let ghost rest = str_views(segs@).skip(i as int);
    if i == segs.len() {
        let mut names: Vec<String> = Vec::new();
        let mut k: usize = 0;
        while k < n.children.len()
            invariant
                k <= n.children@.len(),
                node_wf(*n),
                names@.len() == k,
                forall|j: int| 0 <= j < k ==> (#[trigger] names@[j])@ == n.children@[j].name@,
            decreases n.children@.len() - k,
        {
            names.push(n.children[k].name.clone());
            k = k + 1;
        }
        proof {
            assert(rest.len() == 0);
            assert(node_has_path(*n, rest));
            assert forall|s: Seq<char>|
                str_views(names@).contains(s) <==> node_has_path(*n, rest.push(s)) by {
                lemma_find_child(n.children@, s);
                let f = find_child(n.children@, s);
                assert(rest.push(s)[0] == s);
                assert(rest.push(s).drop_first() =~= rest);
                if str_views(names@).contains(s) {
                    let j = choose|j: int|
                        0 <= j < str_views(names@).len() && str_views(names@)[j] == s;
                    assert(n.children@[j].name@ == s);
                    assert(f < n.children@.len());
                    assert(rest.push(s).drop_first().len() == 0);
                    assert(node_has_path(n.children@[f], rest.push(s).drop_first()));
                    assert(node_has_path(*n, rest.push(s)));
                }
                if node_has_path(*n, rest.push(s)) {
                    assert(0 <= f < n.children@.len());
                    assert(str_views(names@)[f] == s);
                }
            }
        }
        return Some(names);
    }
    let ghost s = segs@[i as int]@;
    proof {
        assert(rest.len() > 0);
        assert(rest[0] == s);
        assert(rest.drop_first() =~= str_views(segs@).skip(i as int + 1));
        lemma_lex_irreflexive(s);
        lemma_find_child(n.children@, s);
    }
    let mut k: usize = 0;
    while k < n.children.len()
        invariant
            k <= n.children@.len(),
            node_wf(*n),
            i < segs@.len(),
            segs@.len() <= usize::MAX,
            s == segs@[i as int]@,
            rest == str_views(segs@).skip(i as int),
            rest.len() == segs@.len() - i,
            rest[0] == s,
            rest.drop_first() == str_views(segs@).skip(i as int + 1),
            forall|j: int| 0 <= j < k ==> (#[trigger] n.children@[j]).name@ != s,
        decreases n.children@.len() - k,
    {
        let before = str_lt(n.children[k].name.as_str(), segs[i].as_str());
        let after = str_lt(segs[i].as_str(), n.children[k].name.as_str());
        if !before && !after {
            proof {
                lemma_lex_total(n.children@[k as int].name@, s);
                assert(n.children@[k as int].name@ == s);
                lemma_find_child(n.children@, s);
                assert(find_child(n.children@, s) == k);
            }
            let r = node_children_of(&n.children[k], segs, i + 1);
            proof {
                assert(node_has_path(*n, rest) == node_has_path(
                    n.children@[k as int],
                    rest.drop_first(),
                ));
                assert forall|t: Seq<char>|
                    node_has_path(*n, rest.push(t)) == node_has_path(
                        n.children@[k as int],
                        rest.drop_first().push(t),
                    ) by {
                    assert(rest.push(t)[0] == s);
                    assert(rest.push(t).drop_first() =~= rest.drop_first().push(t));
                }
            }
            return r;
        }
        proof {
            if n.children@[k as int].name@ == s {
                lemma_lex_irreflexive(s);
                assert(false);
            }
        }
        k = k + 1;
    }
    proof {
        lemma_find_child(n.children@, s);
        assert(find_child(n.children@, s) == n.children@.len());
        assert(!node_has_path(*n, rest));
    }
    None
}

/// Failure of a tree-level path operation.
#[derive(Debug)]
pub enum PathError {
    /// A segment reaching the tree is empty, reserved (`.` or `..`), or
    /// still contains a separator or NUL: the caller broke the tree's
    /// segmentation contract.
    InvalidSegment,
}

/// A rooted virtual directory tree. The root's name is the empty string.
pub struct VirtualTree {
    pub root: DirectoryNode,
}

impl View for VirtualTree {
    type V = Set<Seq<Seq<char>>>;

    open spec fn view(&self) -> Set<Seq<Seq<char>>> {
        node_paths(self.root)
    }
}

impl VirtualTree {
    /// The root is unnamed and the node structure is well-formed.
    pub open spec fn wf(&self) -> bool {
        node_wf(self.root) && self.root.name@ == Seq::<char>::empty()
    }

    /// Creates an empty tree: it holds only the root.
    pub fn new() -> (t: Self)
        ensures
            t.wf(),
            t@ == set![Seq::<Seq<char>>::empty()],
    {
        let t = VirtualTree { root: DirectoryNode { name: String::new(), children: Vec::new() } };
        proof {
            assert forall|q: Seq<Seq<char>>| t@.contains(q) == set![
                Seq::<Seq<char>>::empty(),
            ].contains(q) by {
                if q.len() == 0 {
                    assert(q =~= Seq::<Seq<char>>::empty());
                } else {
                    assert(!node_has_path(t.root, q));
                }
            }
            assert(t@ =~= set![Seq::<Seq<char>>::empty()]);
        }
        t
    }

    /// Walks and creates directories along `segs`, from the root down.
    /// Creating a directory that already exists is a no-op, so afterwards
    /// the tree holds exactly its old paths plus every prefix of `segs`.
    /// A segment that may not stand as a directory name is rejected whole:
    /// the tree is left unchanged.
    pub fn ensure_path_exists(&mut self, segs: &Vec<String>) -> (r: Result<(), PathError>)
        requires
            old(self).wf(),
        ensures
            final(self).wf(),
            match r {
                Ok(()) => crate::grammar::path_ok(str_views(segs@)) && final(self)@ == old(
                    self,
                )@.union(prefixes_of(str_views(segs@))),
                Err(e) => e == PathError::InvalidSegment && !crate::grammar::path_ok(
                    str_views(segs@),
                ) && *final(self) == *old(self),
            },
    {
        let mut k: usize = 0;
        while k < segs.len()
            invariant
                k <= segs@.len(),
                *self == *old(self),
                old(self).wf(),
                forall|j: int| 0 <= j < k ==> valid_segment((#[trigger] segs@[j])@),
            decreases segs@.len() - k,
        {
            if !segment_valid(segs[k].as_str()) {
                proof {
                    assert(str_views(segs@)[k as int] == segs@[k as int]@);
                }
                return Err(PathError::InvalidSegment);
            }
            k = k + 1;
        }
        proof {
            assert(forall|j: int|
                0 <= j < segs@.len() ==> (#[trigger] str_views(segs@)[j]) == segs@[j]@);
        }
        node_insert(&mut self.root, segs, 0);
        proof {
            assert(str_views(segs@).skip(0) =~= str_views(segs@));
        }
        Ok(())
    }

    /// The names of the children of the directory at `path`, sorted by
    /// name, or `None` when the tree does not hold that path. The empty
    /// path names the root.
    pub fn children_of(&self, path: &Vec<String>) -> (r: Option<Vec<String>>)
        requires
            self.wf(),
        ensures
            match r {
                Some(names) => self@.contains(str_views(path@)) && (forall|a: int, b: int|
                    0 <= a < b < names@.len() ==> #[trigger] lex_lt(
                        names@[a]@,
                        names@[b]@,
                    )) && forall|s: Seq<char>|
                    str_views(names@).contains(s) <==> self@.contains(str_views(path@).push(s)),
                None => !self@.contains(str_views(path@)),
            },
    {
        let r = node_children_of(&self.root, path, 0);
        proof {
            assert(str_views(path@).skip(0) =~= str_views(path@));
        }
        r
    }
}

} // verus!
