//! The shorthand token grammar, as specification functions.
//!
//! A token is any string. Runs of trailing path separators (`/` or `\`) are
//! stripped first; if nothing remains the token is a no-op. Otherwise the
//! last remaining separator splits the token into a parent path and a tail;
//! the parent splits on separators into segments, and the tail splits on
//! commas into sibling names. Each sibling names one full directory path:
//! the parent segments followed by that sibling. There is no escaping for
//! `/`, `\` or `,` inside names.

use vstd::prelude::*;

verus! {

/// The two path separator characters of the shorthand grammar.
pub open spec fn is_sep(c: char) -> bool {
    c == '/' || c == '\\'
}

/// Whether `c` is a path separator.
pub fn is_path_separator(c: char) -> (r: bool)
    ensures
        r == is_sep(c),
{
    c == '/' || c == '\\'
}

/// Decides whether `s` may stand as a directory name.
pub fn segment_valid(s: &str) -> (r: bool)
    ensures
        r == valid_segment(s@),
{
    let n = s.unicode_len();
    if n == 0 {
        return false;
    }
    let mut i: usize = 0;
    while i < n
        invariant
            n == s@.len(),
            i <= n,
            forall|j: int| 0 <= j < i ==> !is_sep(#[trigger] s@[j]) && s@[j] != '\0',
        decreases n - i,
    {
        let c = s.get_char(i);
        if is_path_separator(c) || c == '\0' {
            return false;
        }
        i = i + 1;
    }
    if n == 1 && s.get_char(0) == '.' {
        proof {
            assert(s@ =~= seq!['.']);
        }
        return false;
    }
    if n == 2 && s.get_char(0) == '.' {
        if s.get_char(1) == '.' {
            proof {
                assert(s@ =~= seq!['.', '.']);
            }
            return false;
        }
    }
    true
}

/// A segment may stand as a directory name: it is non-empty, contains no
/// separator and no NUL character, and is not one of the reserved names
/// `.` and `..`.
pub open spec fn valid_segment(s: Seq<char>) -> bool {
    &&& s.len() > 0
    &&& forall|i: int| 0 <= i < s.len() ==> !is_sep(#[trigger] s[i]) && s[i] != '\0'
    &&& s != seq!['.']
    &&& s != seq!['.', '.']
}

/// `input` with its trailing run of separators removed.
pub open spec fn strip_trailing_seps(s: Seq<char>) -> Seq<char>
    decreases s.len(),
{
    if s.len() > 0 && is_sep(s.last()) {
        strip_trailing_seps(s.drop_last())
    } else {
        s
    }
}

/// Some character of `s` is a separator.
pub open spec fn has_sep(s: Seq<char>) -> bool {
    exists|i: int| 0 <= i < s.len() && is_sep(s[i])
}

/// The index of the last separator in `s`, or `-1` if there is none.
pub open spec fn last_sep_index(s: Seq<char>) -> int
    decreases s.len(),
{
    if s.len() == 0 {
        -1
    } else if is_sep(s.last()) {
        s.len() - 1
    } else {
        last_sep_index(s.drop_last())
    }
}

/// Where `last_sep_index` points: at the last separator, with none after it.
pub proof fn lemma_last_sep_index(s: Seq<char>)
    ensures
        has_sep(s) <==> 0 <= last_sep_index(s),
        -1 <= last_sep_index(s) < s.len(),
        0 <= last_sep_index(s) ==> is_sep(s[last_sep_index(s)]),
        forall|i: int| last_sep_index(s) < i < s.len() ==> !is_sep(#[trigger] s[i]),
    decreases s.len(),
{
    if s.len() > 0 && !is_sep(s.last()) {
        lemma_last_sep_index(s.drop_last());
        assert(s.drop_last().len() == s.len() - 1);
        assert(forall|i: int|
            0 <= i < s.len() - 1 ==> #[trigger] s[i] == s.drop_last()[i]);
        assert forall|i: int| last_sep_index(s) < i < s.len() implies !is_sep(s[i]) by {
            if i == s.len() - 1 {
                assert(s[i] == s.last());
            } else {
                assert(!is_sep(s.drop_last()[i]));
            }
        }
        if has_sep(s) {
            let j = choose|j: int| 0 <= j < s.len() && is_sep(s[j]);
            assert(j < s.len() - 1);
            assert(is_sep(s.drop_last()[j]));
            assert(has_sep(s.drop_last()));
        }
        if has_sep(s.drop_last()) {
            let j = choose|j: int| 0 <= j < s.drop_last().len() && is_sep(s.drop_last()[j]);
            assert(is_sep(s[j]));
        }
    }
}

/// Splits `s` on separators, accumulating the segment built so far in `cur`.
pub open spec fn split_seps_from(s: Seq<char>, cur: Seq<char>) -> Seq<Seq<char>>
    decreases s.len(),
{
    if s.len() == 0 {
        seq![cur]
    } else if is_sep(s[0]) {
        seq![cur] + split_seps_from(s.drop_first(), Seq::empty())
    } else {
        split_seps_from(s.drop_first(), cur.push(s[0]))
    }
}

/// The segments of `s`, split on separators. Splitting keeps empty pieces:
/// `a//b` yields `a`, an empty segment, and `b`.
pub open spec fn split_seps(s: Seq<char>) -> Seq<Seq<char>> {
    split_seps_from(s, Seq::empty())
}

/// Splits `s` on commas, accumulating the name built so far in `cur`.
pub open spec fn split_commas_from(s: Seq<char>, cur: Seq<char>) -> Seq<Seq<char>>
    decreases s.len(),
{
    if s.len() == 0 {
        seq![cur]
    } else if s[0] == ',' {
        seq![cur] + split_commas_from(s.drop_first(), Seq::empty())
    } else {
        split_commas_from(s.drop_first(), cur.push(s[0]))
    }
}

/// The names of `s`, split on commas. Splitting keeps empty pieces: a
/// trailing comma yields an empty final name.
pub open spec fn split_commas(s: Seq<char>) -> Seq<Seq<char>> {
    split_commas_from(s, Seq::empty())
}

/// The parent path of a token, as a sequence of segments. With no separator
/// (or a separator only in first position) the parent is the root: no
/// segments at all.
pub open spec fn token_parent(input: Seq<char>) -> Seq<Seq<char>> {
    let t = strip_trailing_seps(input);
    if !has_sep(t) {
        Seq::empty()
    } else {
        let j = last_sep_index(t);
        if j == 0 {
            Seq::empty()
        } else {
            split_seps(t.subrange(0, j))
        }
    }
}

/// The sibling names of a token: the tail after the last separator, split
/// on commas. A token that strips to nothing has no siblings.
pub open spec fn token_siblings(input: Seq<char>) -> Seq<Seq<char>> {
    let t = strip_trailing_seps(input);
    if t.len() == 0 {
        Seq::empty()
    } else if !has_sep(t) {
        split_commas(t)
    } else {
        split_commas(t.subrange(last_sep_index(t) + 1, t.len() as int))
    }
}

/// The full directory path named by the `i`-th sibling of a token.
pub open spec fn sib_path(input: Seq<char>, i: int) -> Seq<Seq<char>> {
    token_parent(input).push(token_siblings(input)[i])
}

/// Every segment of `p` may stand as a directory name.
pub open spec fn path_ok(p: Seq<Seq<char>>) -> bool {
    forall|i: int| 0 <= i < p.len() ==> valid_segment(#[trigger] p[i])
}

/// The index of the first invalid segment of `names`, or `names.len()` if
/// all are valid.
pub open spec fn first_invalid_index(names: Seq<Seq<char>>) -> int
    decreases names.len(),
{
    if names.len() == 0 {
        0
    } else if !valid_segment(names[0]) {
        0
    } else {
        1 + first_invalid_index(names.drop_first())
    }
}

/// Everything before `first_invalid_index` is valid; what it points at is not.
pub proof fn lemma_first_invalid_index(names: Seq<Seq<char>>)
    ensures
        0 <= first_invalid_index(names) <= names.len(),
        forall|i: int|
            0 <= i < first_invalid_index(names) ==> valid_segment(#[trigger] names[i]),
        first_invalid_index(names) < names.len() ==> !valid_segment(
            names[first_invalid_index(names)],
        ),
    decreases names.len(),
{
    if names.len() > 0 && valid_segment(names[0]) {
        lemma_first_invalid_index(names.drop_first());
        assert(forall|i: int|
            1 <= i < names.len() ==> #[trigger] names[i] == names.drop_first()[i - 1]);
    }
}

/// The whole token parses without error: its parent segments are all valid
/// and so is every sibling name.
pub open spec fn token_ok(input: Seq<char>) -> bool {
    path_ok(token_parent(input)) && path_ok(token_siblings(input))
}

/// How many siblings of the token are inserted: all of them when the token
/// is error-free; none when the parent is invalid; and with a valid parent,
/// exactly those before the first invalid sibling name.
pub open spec fn inserted_count(input: Seq<char>) -> int {
    if !path_ok(token_parent(input)) {
        0
    } else {
        first_invalid_index(token_siblings(input))
    }
}

/// `q` is a (not necessarily proper) prefix of `p`.
pub open spec fn is_prefix_of(q: Seq<Seq<char>>, p: Seq<Seq<char>>) -> bool {
    q.len() <= p.len() && q == p.subrange(0, q.len() as int)
}

/// The set of all prefixes of `p`, the empty path and `p` itself included.
pub open spec fn prefixes_of(p: Seq<Seq<char>>) -> Set<Seq<Seq<char>>> {
    Set::new(|q: Seq<Seq<char>>| is_prefix_of(q, p))
}

/// The directory paths inserted by the first `m` siblings of a token:
/// every prefix of every full path they name.
pub open spec fn inserted_upto(input: Seq<char>, m: int) -> Set<Seq<Seq<char>>> {
    Set::new(
        |q: Seq<Seq<char>>|
            exists|i: int| 0 <= i < m && is_prefix_of(q, #[trigger] sib_path(input, i)),
    )
}

/// Exactly the directory paths a token inserts: every prefix of every full
/// path named by a sibling that is processed before the first failure.
pub open spec fn token_inserted_paths(input: Seq<char>) -> Set<Seq<Seq<char>>> {
    inserted_upto(input, inserted_count(input))
}

/// The segment whose rejection the token's error reports: the first invalid
/// parent segment if the parent is invalid, else the first invalid sibling.
pub open spec fn first_invalid_segment(input: Seq<char>) -> Seq<char> {
    let parent = token_parent(input);
    if !path_ok(parent) {
        parent[first_invalid_index(parent)]
    } else {
        token_siblings(input)[first_invalid_index(token_siblings(input))]
    }
}

} // verus!
