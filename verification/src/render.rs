//! Rendering the virtual tree as a textual diagram.
//!
//! The traversal is depth-first and pre-order, visiting the children of
//! each node in their sorted order, so the output depends only on which
//! paths the tree holds, never on the order they were inserted in. The
//! root is printed first as `.`; every other node gets one line whose
//! glyphs encode its depth and whether it is the last child of its parent.

use vstd::prelude::*;

use crate::parser::VfsParser;
use crate::tree::{str_views, DirectoryNode, VirtualTree};

verus! {

/// Connector before a child that has later siblings.
pub open spec fn glyph_tee() -> Seq<char> {
    "├── "@
}

/// Connector before the last child of its parent.
pub open spec fn glyph_corner() -> Seq<char> {
    "└── "@
}

/// Column carried below a child that has later siblings.
pub open spec fn glyph_bar() -> Seq<char> {
    "│   "@
}

/// Column carried below a last child.
pub open spec fn glyph_blank() -> Seq<char> {
    "    "@
}

/// The lines for the subtree below `n`, starting at its `i`-th child:
/// each child contributes its own line — the ancestors' columns in
/// `prefix`, a connector, its name — followed by the lines of its subtree.
pub open spec fn spec_render_sub(n: DirectoryNode, prefix: Seq<char>, i: int) -> Seq<Seq<char>>
    decreases n, n.children@.len() - i,
{
    if i < 0 || i >= n.children@.len() {
        Seq::empty()
    } else {
        let c = n.children@[i];
        let last = i == n.children@.len() - 1;
        let line = prefix + (if last {
            glyph_corner()
        } else {
            glyph_tee()
        }) + c.name@;
        let child_prefix = prefix + (if last {
            glyph_blank()
        } else {
            glyph_bar()
        });
        seq![line] + spec_render_sub(c, child_prefix, 0) + spec_render_sub(n, prefix, i + 1)
    }
}

/// The whole diagram: the root as `.`, then its subtree.
pub open spec fn spec_render(t: VirtualTree) -> Seq<Seq<char>> {
    seq!["."@] + spec_render_sub(t.root, Seq::empty(), 0)
}

/// Appends the lines for the subtree below `n` to `out`.
fn render_sub(n: &DirectoryNode, prefix: &String, out: &mut Vec<String>)
    ensures
        str_views(final(out)@) == str_views(old(out)@) + spec_render_sub(*n, prefix@, 0),
    decreases *n,
{
    let ghost base = out@;
    let mut i: usize = 0;
    while i < n.children.len()
        invariant
            i <= n.children@.len(),
            str_views(base) + spec_render_sub(*n, prefix@, 0) == str_views(out@)
                + spec_render_sub(*n, prefix@, i as int),
        decreases n.children@.len() - i,
    {
        let ghost mid = out@;
        let child = &n.children[i];
        let last = i + 1 == n.children.len();
        let mut line = String::new();
        line.append(prefix.as_str());
        if last {
            line.append("└── ");
        } else {
            line.append("├── ");
        }
        line.append(child.name.as_str());
        let ghost lv = line@;
        out.push(line);
        let ghost pushed = out@;
        let mut child_prefix = String::new();
        child_prefix.append(prefix.as_str());
        if last {
            child_prefix.append("    ");
        } else {
            child_prefix.append("│   ");
        }
        render_sub(child, &child_prefix, out);
        proof {
            let lineview = prefix@ + (if last {
                glyph_corner()
            } else {
                glyph_tee()
            }) + child.name@;
            let cpv = prefix@ + (if last {
                glyph_blank()
            } else {
                glyph_bar()
            });
            assert(lv =~= lineview);
            assert(child_prefix@ =~= cpv);
            assert(str_views(pushed) =~= str_views(mid).push(lv));
            assert(str_views(out@) == str_views(pushed) + spec_render_sub(*child, child_prefix@, 0));
            assert(spec_render_sub(*n, prefix@, i as int) == seq![lineview] + spec_render_sub(
                *child,
                cpv,
                0,
            ) + spec_render_sub(*n, prefix@, i + 1));
            assert(str_views(mid) + (seq![lineview] + spec_render_sub(*child, cpv, 0)
                + spec_render_sub(*n, prefix@, i + 1)) =~= (str_views(mid).push(lv)
                + spec_render_sub(*child, cpv, 0)) + spec_render_sub(*n, prefix@, i + 1));
            assert(str_views(base) + spec_render_sub(*n, prefix@, 0) =~= str_views(out@)
                + spec_render_sub(*n, prefix@, i + 1));
        }
        i = i + 1;
    }
}

impl VfsParser {
    /// Renders the tree: the root line `.`, then one line per directory,
    /// depth-first, children in sorted name order.
    pub fn render(&self) -> (lines: Vec<String>)
        ensures
            str_views(lines@) == spec_render(self.tree),
    {
        let mut out: Vec<String> = Vec::new();
        out.push(String::from_str("."));
        let ghost first = out@;
        proof {
            assert(str_views(first) =~= seq!["."@]);
        }
        let empty_prefix = String::new();
        render_sub(&self.tree.root, &empty_prefix, &mut out);
        proof {
            assert(str_views(out@) == str_views(first) + spec_render_sub(
                self.tree.root,
                empty_prefix@,
                0,
            ));
            assert(empty_prefix@ =~= Seq::<char>::empty());
            assert(str_views(out@) =~= spec_render(self.tree));
        }
        out
    }
}

} // verus!
