//! The shorthand token parser.
//!
//! [`VfsParser::parse_item`] consumes one token at a time and grows the
//! shared [`VirtualTree`]: the token names one or more sibling directories
//! under a common parent path, and each of them is inserted together with
//! all its ancestors. Siblings are processed left to right; the first
//! invalid name aborts the token, and what earlier siblings of the same
//! token already inserted stays (partial application).

use vstd::prelude::*;

use crate::grammar::{
    first_invalid_index, first_invalid_segment, has_sep, inserted_count, inserted_upto,
    is_path_separator, is_prefix_of, last_sep_index, lemma_first_invalid_index,
    lemma_last_sep_index, path_ok, prefixes_of, segment_valid, sib_path, split_commas,
    split_commas_from, split_seps, split_seps_from, strip_trailing_seps, token_inserted_paths,
    token_ok, token_parent, token_siblings, valid_segment,
};
use crate::tree::{str_views, PathError, VirtualTree};

verus! {

/// Failure to parse one shorthand token. Both variants carry the raw token,
/// so the caller can report it and go on with the next one.
#[derive(Debug)]
pub enum ParseError {
    /// Some directory name of the token resolved to the empty string — a
    /// trailing comma, an empty sibling, or an empty parent segment.
    EmptySegment { input: String },
    /// Path construction rejected a segment of the token: a reserved name
    /// (`.` or `..`) or an invalid character.
    JoinFailed { input: String, reason: String },
}

/// The index at which the trailing run of separators of `s` begins.
fn stripped_end(s: &str) -> (e: usize)
    ensures
        e <= s@.len(),
        s@.subrange(0, e as int) == strip_trailing_seps(s@),
{
    let n = s.unicode_len();
    let mut e = n;
    proof {
        assert(s@.subrange(0, n as int) =~= s@);
    }
    while e > 0 && is_path_separator(s.get_char(e - 1))
        invariant
            e <= n,
            n == s@.len(),
            strip_trailing_seps(s@) == strip_trailing_seps(s@.subrange(0, e as int)),
        decreases e,
    {
        proof {
            let t = s@.subrange(0, e as int);
            assert(t.last() == s@[e - 1]);
            assert(t.drop_last() =~= s@.subrange(0, e - 1));
        }
        e = e - 1;
    }
    proof {
        let t = s@.subrange(0, e as int);
        if e > 0 {
            assert(t.last() == s@[e - 1]);
        }
        assert(strip_trailing_seps(t) == t);
    }
    e
}

/// The position of the last separator of `t`, if `t` has one.
fn find_last_sep(t: &str) -> (r: Option<usize>)
    ensures
        match r {
            Some(j) => has_sep(t@) && j == last_sep_index(t@),
            None => !has_sep(t@),
        },
{
    let n = t.unicode_len();
    let mut e = n;
    proof {
        assert(t@.subrange(0, n as int) =~= t@);
        lemma_last_sep_index(t@);
    }
    while e > 0
        invariant
            e <= n,
            n == t@.len(),
            last_sep_index(t@) == last_sep_index(t@.subrange(0, e as int)),
            has_sep(t@) <==> 0 <= last_sep_index(t@),
        decreases e,
    {
        let c = t.get_char(e - 1);
        proof {
            let u = t@.subrange(0, e as int);
            assert(u.last() == t@[e - 1]);
            assert(u.drop_last() =~= t@.subrange(0, e - 1));
        }
        if is_path_separator(c) {
            return Some(e - 1);
        }
        e = e - 1;
    }
    proof {
        assert(t@.subrange(0, 0) =~= Seq::<char>::empty());
    }
    None
}

/// Splits `s` at every separator, keeping empty pieces.
fn split_on_seps(s: &str) -> (r: Vec<String>)
    ensures
        str_views(r@) == split_seps(s@),
{
    let n = s.unicode_len();
    let mut r: Vec<String> = Vec::new();
    let mut start: usize = 0;
    let mut i: usize = 0;
    proof {
        assert(s@.skip(0) =~= s@);
        assert(s@.subrange(0, 0) =~= Seq::<char>::empty());
        assert(str_views(r@) =~= Seq::<Seq<char>>::empty());
    }
    while i < n
        invariant
            start <= i <= n,
            n == s@.len(),
            split_seps(s@) == str_views(r@) + split_seps_from(
                s@.skip(i as int),
                s@.subrange(start as int, i as int),
            ),
        decreases n - i,
    {
        let ghost prev = r@;
        let ghost cur = s@.subrange(start as int, i as int);
        proof {
            assert(s@.skip(i as int)[0] == s@[i as int]);
            assert(s@.skip(i as int).drop_first() =~= s@.skip(i + 1));
        }
        let c = s.get_char(i);
        if is_path_separator(c) {
            let piece = String::from_str(s.substring_char(start, i));
            r.push(piece);
            proof {
                assert(str_views(r@) =~= str_views(prev).push(cur));
                assert(str_views(prev) + (seq![cur] + split_seps_from(
                    s@.skip(i + 1),
                    Seq::empty(),
                )) =~= str_views(r@) + split_seps_from(s@.skip(i + 1), Seq::empty()));
                assert(s@.subrange(i + 1, i + 1) =~= Seq::<char>::empty());
            }
            i = i + 1;
            start = i;
        } else {
            proof {
                assert(cur.push(s@[i as int]) =~= s@.subrange(start as int, i + 1));
            }
            i = i + 1;
        }
    }
    let piece = String::from_str(s.substring_char(start, n));
    r.push(piece);
    proof {
        let ghost cur = s@.subrange(start as int, n as int);
        assert(s@.skip(n as int).len() == 0);
        assert(split_seps_from(s@.skip(n as int), cur) =~= seq![cur]);
        assert(str_views(r@) =~= str_views(r@.drop_last()).push(cur));
        assert(str_views(r@.drop_last()) + seq![cur] =~= str_views(r@));
    }
    r
}

/// Splits `s` at every comma, keeping empty pieces.
fn split_on_commas(s: &str) -> (r: Vec<String>)
    ensures
        str_views(r@) == split_commas(s@),
{
    let n = s.unicode_len();
    let mut r: Vec<String> = Vec::new();
    let mut start: usize = 0;
    let mut i: usize = 0;
    proof {
        assert(s@.skip(0) =~= s@);
        assert(s@.subrange(0, 0) =~= Seq::<char>::empty());
        assert(str_views(r@) =~= Seq::<Seq<char>>::empty());
    }
    while i < n
        invariant
            start <= i <= n,
            n == s@.len(),
            split_commas(s@) == str_views(r@) + split_commas_from(
                s@.skip(i as int),
                s@.subrange(start as int, i as int),
            ),
        decreases n - i,
    {
        let ghost prev = r@;
        let ghost cur = s@.subrange(start as int, i as int);
        proof {
            assert(s@.skip(i as int)[0] == s@[i as int]);
            assert(s@.skip(i as int).drop_first() =~= s@.skip(i + 1));
        }
        let c = s.get_char(i);
        if c == ',' {
            let piece = String::from_str(s.substring_char(start, i));
            r.push(piece);
            proof {
                assert(str_views(r@) =~= str_views(prev).push(cur));
                assert(str_views(prev) + (seq![cur] + split_commas_from(
                    s@.skip(i + 1),
                    Seq::empty(),
                )) =~= str_views(r@) + split_commas_from(s@.skip(i + 1), Seq::empty()));
                assert(s@.subrange(i + 1, i + 1) =~= Seq::<char>::empty());
            }
            i = i + 1;
            start = i;
        } else {
            proof {
                assert(cur.push(s@[i as int]) =~= s@.subrange(start as int, i + 1));
            }
            i = i + 1;
        }
    }
    let piece = String::from_str(s.substring_char(start, n));
    r.push(piece);
    proof {
        let ghost cur = s@.subrange(start as int, n as int);
        assert(s@.skip(n as int).len() == 0);
        assert(split_commas_from(s@.skip(n as int), cur) =~= seq![cur]);
        assert(str_views(r@) =~= str_views(r@.drop_last()).push(cur));
        assert(str_views(r@.drop_last()) + seq![cur] =~= str_views(r@));
    }
    r
}

/// A copy of a segment list, name for name.
fn clone_segments(v: &Vec<String>) -> (r: Vec<String>)
    ensures
        str_views(r@) == str_views(v@),
{
    let mut r: Vec<String> = Vec::new();
    let mut k: usize = 0;
    while k < v.len()
        invariant
            k <= v@.len(),
            r@.len() == k,
            forall|j: int| 0 <= j < k ==> (#[trigger] r@[j])@ == v@[j]@,
        decreases v@.len() - k,
    {
        r.push(v[k].clone());
        k = k + 1;
    }
    proof {
        assert forall|j: int| 0 <= j < v@.len() implies (#[trigger] str_views(r@)[j]) == str_views(
            v@,
        )[j] by {
            assert(r@[j]@ == v@[j]@);
        }
        assert(str_views(r@) =~= str_views(v@));
    }
    r
}

/// The parser and the virtual tree it grows.
pub struct VfsParser {
    pub tree: VirtualTree,
}

impl View for VfsParser {
    type V = Set<Seq<Seq<char>>>;

    open spec fn view(&self) -> Set<Seq<Seq<char>>> {
        self.tree@
    }
}

impl VfsParser {
    /// The underlying tree is well-formed.
    pub open spec fn wf(&self) -> bool {
        self.tree.wf()
    }

    /// A parser over a fresh tree holding only the root.
    pub fn new() -> (p: Self)
        ensures
            p.wf(),
            p@ == set![Seq::<Seq<char>>::empty()],
    {
        VfsParser { tree: VirtualTree::new() }
    }

    /// Parses one shorthand token and inserts the directories it names.
    ///
    /// The tree grows by exactly the paths of the token's siblings that
    /// precede its first invalid name, ancestors included. The token as a
    /// whole succeeds exactly when every segment it names is a valid
    /// directory name; an empty name is reported as `EmptySegment`, any
    /// other invalid segment as `JoinFailed`, either way with the raw
    /// token attached.
    pub fn parse_item(&mut self, input: String) -> (r: Result<(), ParseError>)
        requires
            old(self).wf(),
        ensures
            final(self).wf(),
            final(self)@ == old(self)@.union(token_inserted_paths(input@)),
            match r {
                Ok(()) => token_ok(input@),
                Err(ParseError::EmptySegment { input: raw }) => !token_ok(input@) && raw@
                    == input@ && first_invalid_segment(input@).len() == 0,
                Err(ParseError::JoinFailed { input: raw, reason: _ }) => !token_ok(input@) && raw@
                    == input@ && first_invalid_segment(input@).len() != 0,
            },
    {
        let e = stripped_end(input.as_str());
        let stripped = input.as_str().substring_char(0, e);
        assert(stripped@ == strip_trailing_seps(input@));
        if e == 0 {
            proof {
                assert(token_siblings(input@).len() == 0);
                assert(inserted_count(input@) == 0);
                assert(token_inserted_paths(input@) =~= Set::<Seq<Seq<char>>>::empty());
                assert(self@ =~= self@.union(token_inserted_paths(input@)));
            }
            return Ok(());
        }
        let sep = find_last_sep(stripped);
        let mut parent: Vec<String> = Vec::new();
        let mut sibs: Vec<String>;
        match sep {
            Option::None => {
                sibs = split_on_commas(stripped);
                proof {
                    assert(str_views(parent@) =~= token_parent(input@));
                    assert(str_views(sibs@) == token_siblings(input@));
                }
            },
            Option::Some(j) => {
                proof {
                    assert(stripped@.len() == e);
                    lemma_last_sep_index(stripped@);
                }
                let tail = stripped.substring_char(j + 1, e);
                sibs = split_on_commas(tail);
                proof {
                    assert(tail@ == stripped@.subrange(j + 1, stripped@.len() as int));
                    assert(str_views(sibs@) == token_siblings(input@));
                }
                if j > 0 {
                    let parent_str = stripped.substring_char(0, j);
                    parent = split_on_seps(parent_str);
                    proof {
                        assert(parent_str@ == stripped@.subrange(0, j as int));
                        assert(str_views(parent@) == token_parent(input@));
                    }
                } else {
                    proof {
                        assert(str_views(parent@) =~= token_parent(input@));
                    }
                }
            },
        }
        let ghost pv = token_parent(input@);
        let ghost sv = token_siblings(input@);
        // validate the parent path first: if any of its segments is
        // invalid, no sibling can be inserted.
        let mut k: usize = 0;
        while k < parent.len()
            invariant
                k <= parent@.len(),
                str_views(parent@) == pv,
                pv == token_parent(input@),
                sv == token_siblings(input@),
                *self == *old(self),
                old(self).wf(),
                forall|j: int| 0 <= j < k ==> valid_segment(#[trigger] pv[j]),
            decreases parent@.len() - k,
        {
            if !segment_valid(parent[k].as_str()) {
                proof {
                    assert(pv[k as int] == parent@[k as int]@);
                    lemma_first_invalid_index(pv);
                    assert(first_invalid_index(pv) == k);
                    assert(!path_ok(pv));
                    assert(!token_ok(input@));
                    assert(first_invalid_segment(input@) == pv[k as int]);
                    assert(inserted_count(input@) == 0);
                    assert(token_inserted_paths(input@) =~= Set::<Seq<Seq<char>>>::empty());
                    assert(self@ =~= self@.union(token_inserted_paths(input@)));
                }
                if parent[k].as_str().unicode_len() == 0 {
                    return Err(ParseError::EmptySegment { input });
                } else {
                    let reason = String::from_str("segment rejected by path join");
                    return Err(ParseError::JoinFailed { input, reason });
                }
            }
            k = k + 1;
        }
        proof {
            assert(path_ok(pv));
        }
        // insert the path named by each sibling in turn; the first invalid
        // name aborts the token, keeping what was already inserted.
        let mut si: usize = 0;
        while si < sibs.len()
            invariant
                si <= sibs@.len(),
                self.wf(),
                str_views(parent@) == pv,
                str_views(sibs@) == sv,
                pv == token_parent(input@),
                sv == token_siblings(input@),
                path_ok(pv),
                forall|j: int| 0 <= j < si ==> valid_segment(#[trigger] sv[j]),
                self@ == old(self)@.union(inserted_upto(input@, si as int)),
                old(self).wf(),
            decreases sibs@.len() - si,
        {
            if !segment_valid(sibs[si].as_str()) {
                proof {
                    assert(sv[si as int] == sibs@[si as int]@);
                    lemma_first_invalid_index(sv);
                    assert(first_invalid_index(sv) == si);
                    assert(!path_ok(sv)) by {
                        assert(!valid_segment(sv[si as int]));
                    }
                    assert(!token_ok(input@));
                    assert(first_invalid_segment(input@) == sv[si as int]);
                    assert(inserted_count(input@) == si);
                }
                if sibs[si].as_str().unicode_len() == 0 {
                    return Err(ParseError::EmptySegment { input });
                } else {
                    let reason = String::from_str("segment rejected by path join");
                    return Err(ParseError::JoinFailed { input, reason });
                }
            }
            let mut path = clone_segments(&parent);
            path.push(sibs[si].clone());
            proof {
                assert forall|j: int| 0 <= j < path@.len() implies (#[trigger] str_views(
                    path@,
                )[j]) == pv.push(sv[si as int])[j] by {
                    if j < pv.len() {
                        assert(path@[j] == path@.subrange(0, path@.len() - 1)[j]);
                        assert(str_views(path@.subrange(0, path@.len() - 1))[j] == pv[j]);
                        assert(path@.subrange(0, path@.len() - 1)[j]@ == pv[j]);
                    } else {
                        assert(path@[j]@ == sibs@[si as int]@);
                    }
                }
                assert(str_views(path@) =~= pv.push(sv[si as int]));
                assert(str_views(path@) == sib_path(input@, si as int));
                assert(path_ok(str_views(path@))) by {
                    assert forall|j: int| 0 <= j < str_views(path@).len() implies valid_segment(
                        #[trigger] str_views(path@)[j],
                    ) by {
                        if j < pv.len() {
                            assert(str_views(path@)[j] == pv[j]);
                        } else {
                            assert(str_views(path@)[j] == sv[si as int]);
                        }
                    }
                }
            }
            let ghost before = self@;
            match self.tree.ensure_path_exists(&path) {
                Result::Ok(()) => {},
                Result::Err(_) => {
                    proof {
                        assert(false);
                    }
                },
            }
            proof {
                assert(self@ == before.union(prefixes_of(sib_path(input@, si as int))));
                assert forall|q: Seq<Seq<char>>|
                    self@.contains(q) == old(self)@.union(
                        inserted_upto(input@, si + 1),
                    ).contains(q) by {
                    if self@.contains(q) {
                        if before.contains(q) {
                            if !old(self)@.contains(q) {
                                assert(inserted_upto(input@, si as int).contains(q));
                                let w = choose|w: int|
                                    0 <= w < si && is_prefix_of(
                                        q,
                                        #[trigger] sib_path(input@, w),
                                    );
                                assert(is_prefix_of(q, sib_path(input@, w)));
                                assert(inserted_upto(input@, si + 1).contains(q));
                            }
                        } else {
                            assert(is_prefix_of(q, sib_path(input@, si as int)));
                            assert(inserted_upto(input@, si + 1).contains(q));
                        }
                    }
                    if old(self)@.union(inserted_upto(input@, si + 1)).contains(q)
                        && !old(self)@.contains(q) {
                        let w = choose|w: int|
                            0 <= w < si + 1 && is_prefix_of(q, #[trigger] sib_path(input@, w));
                        if w < si {
                            assert(inserted_upto(input@, si as int).contains(q));
                        } else {
                            assert(prefixes_of(sib_path(input@, si as int)).contains(q));
                        }
                    }
                }
                assert(self@ =~= old(self)@.union(inserted_upto(input@, si + 1)));
            }
            si = si + 1;
        }
        proof {
            lemma_first_invalid_index(sv);
            assert(first_invalid_index(sv) == sv.len());
            assert(inserted_count(input@) == sv.len());
            assert(token_ok(input@));
        }
        Ok(())
    }
}

} // verus!
