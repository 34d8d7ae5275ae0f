//! The tree renderer: a depth-first, pre-order walk that emits one line per
//! node, prefixed with indent units and a connector glyph computed from the
//! ancestors' last-child flags.

use vstd::prelude::*;
use vstd::string::StrSliceExecFns;
use crate::chars::{is_control_char, is_ctrl, push_char};
use crate::split::string_views;
use crate::tree::{forest_model, lemma_forest_model, FileTree, TreeModel};

verus! {

/// A display name: every control character is replaced by the placeholder,
/// all other characters pass through unchanged.
pub open spec fn sanitize(name: Seq<char>) -> Seq<char> {
    name.map_values(|c: char| if is_ctrl(c) { '?' } else { c })
}

/// The four-character indent unit drawn for one ancestor: a vertical guide
/// while that ancestor still has siblings below it, blank space once it was
/// the last.
pub open spec fn indent_unit(last: bool) -> Seq<char> {
    if last {
        seq![' ', ' ', ' ', ' ']
    } else {
        seq!['│', ' ', ' ', ' ']
    }
}

/// The connector drawn directly before a node's name: a tee while siblings
/// follow, an elbow for the last child.
pub open spec fn connector(last: bool) -> Seq<char> {
    if last {
        seq!['└', '─', '─', ' ']
    } else {
        seq!['├', '─', '─', ' ']
    }
}

/// The indent units for the ancestors `lasts[i..]`, one unit each.
pub open spec fn indent_units_from(lasts: Seq<bool>, i: int) -> Seq<char>
    decreases lasts.len() - i,
{
    if i < 0 || i >= lasts.len() {
        Seq::empty()
    } else {
        indent_unit(lasts[i]) + indent_units_from(lasts, i + 1)
    }
}

/// The whole prefix of a node's line: nothing for a root; otherwise one
/// indent unit per ancestor above the parent, then the connector chosen by
/// the node's own last-child flag.
pub open spec fn line_prefix(lasts: Seq<bool>) -> Seq<char> {
    if lasts.len() == 0 {
        Seq::empty()
    } else {
        indent_units_from(lasts.drop_last(), 0) + connector(lasts.last())
    }
}

/// One rendered line: prefix, sanitized name, line break.
pub open spec fn render_line(lasts: Seq<bool>, name: Seq<char>) -> Seq<char> {
    line_prefix(lasts) + sanitize(name) + seq!['\n']
}

/// The lines of a node and its whole subtree, pre-order, where `lasts` holds
/// the ancestors' last-child flags.
pub open spec fn render_tree(t: TreeModel, lasts: Seq<bool>) -> Seq<Seq<char>>
    decreases t, 0int,
{
    seq![render_line(lasts, t.name)] + render_children_from(t.childs, 0, lasts)
}

/// The lines of the subtrees `f[i..]`, each child's flag sequence extending
/// `lasts` by whether that child is the final one.
pub open spec fn render_children_from(f: Seq<TreeModel>, i: int, lasts: Seq<bool>) -> Seq<Seq<char>>
    decreases f, f.len() - i,
{
    if i < 0 || i >= f.len() {
        Seq::empty()
    } else {
        render_tree(f[i], lasts.push(i == f.len() - 1)) + render_children_from(f, i + 1, lasts)
    }
}

/// The lines of the whole forest `f[i..]`: every root starts with no
/// ancestor flags.
pub open spec fn render_forest_from(f: Seq<TreeModel>, i: int) -> Seq<Seq<char>>
    decreases f, f.len() - i,
{
    if i < 0 || i >= f.len() {
        Seq::empty()
    } else {
        render_tree(f[i], Seq::empty()) + render_forest_from(f, i + 1)
    }
}

/// The lines of a whole forest, pre-order, root by root.
pub open spec fn render_forest(f: Seq<TreeModel>) -> Seq<Seq<char>> {
    render_forest_from(f, 0)
}

/// A root node's line is its sanitized name followed by the line break and
/// nothing else: no connector glyphs, no indent.
pub proof fn lemma_root_line_has_no_prefix(name: Seq<char>)
    ensures
        render_line(Seq::empty(), name) == sanitize(name).push('\n'),
{
    assert(render_line(Seq::empty(), name) =~= sanitize(name).push('\n'));
}

/// Sanitizing keeps the length and leaves no control character behind: every
/// control character becomes the placeholder, everything else stays.
pub proof fn lemma_sanitize_no_ctrl(name: Seq<char>)
    ensures
        sanitize(name).len() == name.len(),
        forall|i: int| 0 <= i < name.len() ==> !is_ctrl(#[trigger] sanitize(name)[i]),
        forall|i: int|
            0 <= i < name.len() ==> #[trigger] sanitize(name)[i] == if is_ctrl(name[i]) {
                '?'
            } else {
                name[i]
            },
{
    assert forall|i: int| 0 <= i < name.len() implies !is_ctrl(#[trigger] sanitize(name)[i]) by {
        assert(('?' as u32) == 0x3f);
    }
}

proof fn lemma_indent_units_no_break(lasts: Seq<bool>, i: int)
    requires
        0 <= i <= lasts.len(),
    ensures
        forall|k: int|
            0 <= k < indent_units_from(lasts, i).len() ==> #[trigger] indent_units_from(lasts, i)[k]
                != '\n',
    decreases lasts.len() - i,
{
    if i < lasts.len() {
        lemma_indent_units_no_break(lasts, i + 1);
        let u = indent_unit(lasts[i]);
        let rest = indent_units_from(lasts, i + 1);
        assert(indent_units_from(lasts, i) == u + rest);
        assert forall|k: int| 0 <= k < indent_units_from(lasts, i).len() implies #[trigger]
        indent_units_from(lasts, i)[k] != '\n' by {
            if k < 4 {
                assert(indent_units_from(lasts, i)[k] == u[k]);
            } else {
                assert(indent_units_from(lasts, i)[k] == rest[k - 4]);
            }
        }
    }
}

/// A name holding a line-break character still renders as one line: the
/// rendered line ends with exactly one line break and holds no other, the
/// one in the name having been replaced by the placeholder.
pub proof fn lemma_line_single_break(lasts: Seq<bool>, name: Seq<char>)
    ensures
        render_line(lasts, name).len() >= 1,
        render_line(lasts, name).last() == '\n',
        forall|i: int|
            0 <= i < render_line(lasts, name).len() - 1 ==> #[trigger] render_line(lasts, name)[i]
                != '\n',
{
    let line = render_line(lasts, name);
    let pre = line_prefix(lasts);
    let body = sanitize(name);
    lemma_sanitize_no_ctrl(name);
    assert(is_ctrl('\n'));
    if lasts.len() > 0 {
        lemma_indent_units_no_break(lasts.drop_last(), 0);
    }
    assert forall|i: int| 0 <= i < line.len() - 1 implies #[trigger] line[i] != '\n' by {
        if i < pre.len() {
            assert(line[i] == pre[i]);
        } else {
            assert(line[i] == body[i - pre.len()]);
            assert(!is_ctrl(body[i - pre.len()]));
        }
    }
}

/// Formats one node's line from the ancestors' last-child flags and the raw
/// name.
pub fn print_line(lasts: &Vec<bool>, name: &str) -> (line: String)
    ensures
        line@ == render_line(lasts@, name@),
{
    let mut line = String::new();
    let n = lasts.len();
    if n > 0 {
        let ghost head = lasts@.drop_last();
        let mut j: usize = 0;
        while j < n - 1
            invariant
                n == lasts@.len(),
                n >= 1,
                j <= n - 1,
                head == lasts@.drop_last(),
                line@ + indent_units_from(head, j as int) == indent_units_from(head, 0),
            decreases n - 1 - j,
        {
            let ghost before = line@;
            if lasts[j] {
                push_char(&mut line, ' ');
            } else {
                push_char(&mut line, '│');
            }
            push_char(&mut line, ' ');
            push_char(&mut line, ' ');
            push_char(&mut line, ' ');
            proof {
                assert(head[j as int] == lasts@[j as int]);
                assert(line@ =~= before + indent_unit(head[j as int]));
                assert(indent_units_from(head, j as int) == indent_unit(head[j as int])
                    + indent_units_from(head, j + 1));
                assert(line@ + indent_units_from(head, j + 1) =~= before + indent_units_from(
                    head,
                    j as int,
                ));
            }
            j += 1;
        }
        proof {
            assert(indent_units_from(head, n - 1) =~= Seq::<char>::empty());
            assert(line@ =~= indent_units_from(head, 0));
        }
        let ghost before = line@;
        if lasts[n - 1] {
            push_char(&mut line, '└');
        } else {
            push_char(&mut line, '├');
        }
        push_char(&mut line, '─');
        push_char(&mut line, '─');
        push_char(&mut line, ' ');
        proof {
            assert(lasts@.last() == lasts@[n - 1]);
            assert(line@ =~= before + connector(lasts@.last()));
            assert(line@ =~= line_prefix(lasts@));
        }
    } else {
        proof {
            assert(line@ =~= line_prefix(lasts@));
        }
    }
    let ghost prefix = line@;
    let m = name.unicode_len();
    let mut i: usize = 0;
    while i < m
        invariant
            m == name@.len(),
            i <= m,
            prefix == line_prefix(lasts@),
            line@ == prefix + sanitize(name@.take(i as int)),
        decreases m - i,
    {
        let c = name.get_char(i);
        let ghost before = line@;
        if is_control_char(c) {
            push_char(&mut line, '?');
        } else {
            push_char(&mut line, c);
        }
        proof {
            assert(name@.take(i + 1) =~= name@.take(i as int).push(name@[i as int]));
            assert(sanitize(name@.take(i + 1)) =~= sanitize(name@.take(i as int)).push(
                if is_ctrl(name@[i as int]) {
                    '?'
                } else {
                    name@[i as int]
                },
            ));
            assert(line@ =~= prefix + sanitize(name@.take(i + 1)));
        }
        i += 1;
    }
    proof {
        assert(name@.take(m as int) =~= name@);
    }
    push_char(&mut line, '\n');
    proof {
        assert(line@ =~= render_line(lasts@, name@));
    }
    line
}

impl FileTree {
    /// Emits this node's line and then, depth first and in order, the lines
    /// of its children; `lasts` holds the ancestors' last-child flags and is
    /// handed back unchanged.
    pub fn print(&self, out: &mut Vec<String>, lasts: &mut Vec<bool>)
        ensures
            final(lasts)@ == old(lasts)@,
            string_views(final(out)@) == string_views(old(out)@) + render_tree(
                self@,
                old(lasts)@,
            ),
        decreases *self,
    {
        let ghost l0 = old(lasts)@;
        let line = print_line(lasts, self.name.as_str());
        out.push(line);
        let ghost fm = self@.childs;
        proof {
            lemma_forest_model(self.childs);
            assert(string_views(out@) =~= string_views(old(out)@) + seq![
                render_line(l0, self@.name),
            ]);
        }
        let n = self.childs.len();
        let mut i: usize = 0;
        while i < n
            invariant
                n == self.childs@.len(),
                i <= n,
                lasts@ == l0,
                fm == self@.childs,
                fm.len() == n,
                forall|k: int| 0 <= k < n ==> fm[k] == self.childs@[k]@,
                string_views(out@) + render_children_from(fm, i as int, l0) == string_views(
                    old(out)@,
                ) + render_tree(self@, l0),
            decreases n - i,
        {
            let is_last = i + 1 == n;
            lasts.push(is_last);
            let ghost mid = out@;
            let child = &self.childs[i];
            child.print(out, lasts);
            lasts.pop();
            proof {
                assert(lasts@ =~= l0);
                assert(child@ == fm[i as int]);
                assert(render_children_from(fm, i as int, l0) == render_tree(
                    fm[i as int],
                    l0.push(i == n - 1),
                ) + render_children_from(fm, i + 1, l0));
                assert(string_views(out@) + render_children_from(fm, i + 1, l0) =~= (
                string_views(mid) + render_tree(child@, l0.push(is_last)))
                    + render_children_from(fm, i + 1, l0));
                assert((string_views(mid) + render_tree(child@, l0.push(is_last)))
                    + render_children_from(fm, i + 1, l0) =~= string_views(mid) + (render_tree(
                    fm[i as int],
                    l0.push(i == n - 1),
                ) + render_children_from(fm, i + 1, l0)));
            }
            i += 1;
        }
        proof {
            assert(render_children_from(fm, n as int, l0) =~= Seq::<Seq<char>>::empty());
            assert(string_views(out@) + render_children_from(fm, n as int, l0) =~= string_views(
                out@,
            ));
        }
    }
}

/// Renders a whole forest: the lines of every root's subtree, in forest
/// order, each root starting with no ancestor flags.
pub fn render_trees(forest: &Vec<FileTree>) -> (lines: Vec<String>)
    ensures
        string_views(lines@) == render_forest(forest_model(*forest)),
{
    let mut lines: Vec<String> = Vec::new();
    let mut lasts: Vec<bool> = Vec::new();
    let ghost fm = forest_model(*forest);
    proof {
        lemma_forest_model(*forest);
        assert(string_views(lines@) + render_forest_from(fm, 0) =~= render_forest(fm));
    }
    let n = forest.len();
    let mut i: usize = 0;
    while i < n
        invariant
            n == forest@.len(),
            i <= n,
            lasts@.len() == 0,
            fm == forest_model(*forest),
            fm.len() == n,
            forall|k: int| 0 <= k < n ==> fm[k] == forest@[k]@,
            string_views(lines@) + render_forest_from(fm, i as int) == render_forest(fm),
        decreases n - i,
    {
        let ghost mid = lines@;
        let tree = &forest[i];
        tree.print(&mut lines, &mut lasts);
        proof {
            assert(lasts@ =~= Seq::<bool>::empty());
            assert(tree@ == fm[i as int]);
            assert(render_forest_from(fm, i as int) == render_tree(fm[i as int], Seq::empty())
                + render_forest_from(fm, i + 1));
            assert(string_views(lines@) + render_forest_from(fm, i + 1) =~= (string_views(mid)
                + render_tree(fm[i as int], Seq::empty())) + render_forest_from(fm, i + 1));
            assert((string_views(mid) + render_tree(fm[i as int], Seq::empty()))
                + render_forest_from(fm, i + 1) =~= string_views(mid) + (render_tree(
                fm[i as int],
                Seq::empty(),
            ) + render_forest_from(fm, i + 1)));
        }
        i += 1;
    }
    proof {
        assert(render_forest_from(fm, n as int) =~= Seq::<Seq<char>>::empty());
        assert(string_views(lines@) + render_forest_from(fm, n as int) =~= string_views(lines@));
    }
    lines
}

} // verus!
