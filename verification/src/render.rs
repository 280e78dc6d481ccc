//! The report: which nodes of a tree are listed, in what order, and the text
//! of each line.

use crate::node::{lemma_views, total_size, views, DirStat, Kind, Tree};
use crate::text::{
    decimal, decimal_padded, decimal_text, indent, indent_text, left_aligned, pad_left,
    pad_right, size_column, size_text,
};
use vstd::prelude::*;
use vstd::string::*;

verus! {

/// The share of `size` in `parent`, in whole percent, rounded down; 0 where
/// `parent` is 0, and the largest `u32` where the share is beyond it.
pub open spec fn percent_of(size: u64, parent: u64) -> u32 {
    if parent == 0 {
        0
    } else if 100 * size / (parent as int) > u32::MAX {
        u32::MAX
    } else {
        (100 * size / (parent as int)) as u32
    }
}

/// Computes `percent_of` in integers.
pub fn percent(size: u64, parent: u64) -> (p: u32)
    ensures
        p == percent_of(size, parent),
{
    if parent == 0 {
        0
    } else {
        let share: u128 = (size as u128) * 100 / (parent as u128);
        if share > u32::MAX as u128 {
            u32::MAX
        } else {
            share as u32
        }
    }
}

/// One line of the report: a node, and the size of the node that it is
/// listed under.
pub struct Row {
    pub node: Tree,
    pub parent_size: u64,
}

impl Row {
    /// The percentage that the line gives: 100 for a node at depth 0, else
    /// the node's share of its parent.
    pub open spec fn percent(self) -> u32 {
        if self.node.depth == 0 {
            100
        } else {
            percent_of(self.node.size, self.parent_size)
        }
    }

    /// The text of the line.
    pub open spec fn text(self) -> Seq<char> {
        line_text(self.node, self.percent(), size_column(self.node.size))
    }
}

/// The lines for `t` and below when `t` is listed under a node of
/// `parent_size` bytes: nothing where `t` lies deeper than `show_depth`; else
/// `t`, then what `shown_from` gives for its children.
pub open spec fn shown(t: Tree, show_depth: u32, threshold: u32, parent_size: u64) -> Seq<Row>
    decreases t, t.children.len() + 1,
{
    if t.depth > show_depth {
        Seq::empty()
    } else {
        Seq::empty().push(Row { node: t, parent_size }) + shown_from(t, 0, show_depth, threshold)
    }
}

/// The lines for the children of `t` from the `k`-th on, in their order: a
/// child whose share of `t` is below `threshold` gives nothing, any other
/// what `shown` gives for it under `t`.
pub open spec fn shown_from(t: Tree, k: nat, show_depth: u32, threshold: u32) -> Seq<Row>
    decreases t, t.children.len() - k,
{
    if k >= t.children.len() {
        Seq::empty()
    } else {
        let child = t.children[k as int];
        let first = if percent_of(child.size, t.size) >= threshold {
            shown(child, show_depth, threshold, t.size)
        } else {
            Seq::empty()
        };
        first + shown_from(t, k + 1, show_depth, threshold)
    }
}

/// The texts of `rows`.
pub open spec fn texts(rows: Seq<Row>) -> Seq<Seq<char>> {
    Seq::new(rows.len(), |i: int| rows[i].text())
}

/// The views of `lines`.
pub open spec fn line_views(lines: Seq<String>) -> Seq<Seq<char>> {
    Seq::new(lines.len(), |i: int| lines[i]@)
}

/// The one-letter tag of a kind.
pub open spec fn tag_text(kind: Kind) -> Seq<char> {
    match kind {
        Kind::File => "F"@,
        Kind::Directory => "D"@,
    }
}

/// The text of the line for `t` with `percent` and the size column `size`.
/// At depth 0: depth, tag, the fixed label `100%`, size and path. Below:
/// two blanks per level, then depth and percentage right aligned in three
/// characters, the size column filled up to ten, and the path.
pub open spec fn line_text(t: Tree, percent: u32, size: Seq<char>) -> Seq<char> {
    if t.depth == 0 {
        decimal_text(0) + ":"@ + tag_text(t.kind) + ":"@ + "100%"@ + ":"@ + size + " "@ + t.path
    } else {
        indent_text(t.depth as nat) + pad_left(decimal_text(t.depth as nat), 3) + ":"@ + tag_text(
            t.kind,
        ) + ":"@ + pad_left(decimal_text(percent as nat), 3) + "%:"@ + pad_right(size, 10) + " "@
            + t.path
    }
}

fn tag(kind: Kind) -> (out: &'static str)
    ensures
        out@ == tag_text(kind),
{
    match kind {
        Kind::File => "F",
        Kind::Directory => "D",
    }
}

/// The line for `node` with `percent` and an already formatted size.
pub fn line_with(node: &DirStat, percent: u32, size: &str) -> (out: String)
    ensures
        out@ == line_text(node@, percent, size@),
{
    if node.depth == 0 {
        let mut out = decimal(0);
        out.append(":");
        out.append(tag(node.kind));
        out.append(":");
        out.append("100%");
        out.append(":");
        out.append(size);
        out.append(" ");
        out.append(node.path.as_str());
        out
    } else {
        let mut out = indent(node.depth);
        let depth = decimal_padded(node.depth, 3);
        out.append(depth.as_str());
        out.append(":");
        out.append(tag(node.kind));
        out.append(":");
        let share = decimal_padded(percent, 3);
        out.append(share.as_str());
        out.append("%:");
        let column = left_aligned(size, 10);
        out.append(column.as_str());
        out.append(" ");
        out.append(node.path.as_str());
        out
    }
}

/// The line for `node` when it is listed under a node of `parent_size` bytes.
pub fn line_for(node: &DirStat, parent_size: u64) -> (out: String)
    ensures
        out@ == (Row { node: node@, parent_size }).text(),
{
    let share = if node.depth == 0 {
        100
    } else {
        percent(node.size, parent_size)
    };
    let size = size_text(node.size);
    line_with(node, share, size.as_str())
}

fn render_into(
    node: &DirStat,
    show_depth: u32,
    threshold: u32,
    parent_size: u64,
    out: &mut Vec<String>,
)
    ensures
        line_views(final(out)@) == line_views(old(out)@) + texts(
            shown(node@, show_depth, threshold, parent_size),
        ),
    decreases node,
{
    let ghost before = line_views(out@);
    let ghost goal = before + texts(shown(node@, show_depth, threshold, parent_size));
    if node.depth > show_depth {
        assert(goal =~= before);
        return ;
    }
    let first = line_for(node, parent_size);
    out.push(first);
    let mut k: usize = 0;
    proof {
        node.lemma_view();
        lemma_views(node.children@);
        assert(line_views(out@) + texts(shown_from(node@, 0, show_depth, threshold)) =~= goal);
    }
    while k < node.children.len()
        invariant
            k <= node.children.len(),
            node@.children == views(node.children@),
            node@.size == node.size,
            views(node.children@).len() == node.children@.len(),
            forall|i: int|
                0 <= i < node.children@.len() ==> (#[trigger] views(node.children@)[i])
                    == node.children@[i]@,
            line_views(out@) + texts(shown_from(node@, k as nat, show_depth, threshold)) == goal,
        decreases node.children.len() - k,
    {
        let child = &node.children[k];
        let ghost sofar = line_views(out@);
        let ghost rest = shown_from(node@, (k + 1) as nat, show_depth, threshold);
        assert(child@ == node@.children[k as int]);
        if percent(child.size, node.size) >= threshold {
            render_into(child, show_depth, threshold, node.size, out);
            proof {
                let here = shown(child@, show_depth, threshold, node.size);
                assert(texts(here + rest) =~= texts(here) + texts(rest));
                assert(line_views(out@) + texts(rest) =~= sofar + texts(here + rest));
            }
        } else {
            assert(Seq::<Row>::empty() + rest =~= rest);
        }
        k += 1;
    }
    proof {
        assert(texts(shown_from(node@, k as nat, show_depth, threshold)) =~= Seq::empty());
        assert(line_views(out@) =~= goal);
    }
}

/// The report for `node`: depth first, a node before its children, children
/// in their order. A node deeper than `show_depth` is left out with all below
/// it, and so is a child whose share of its parent is below `threshold`.
pub fn render(node: &DirStat, show_depth: u32, threshold: u32, parent_size: u64) -> (out: Vec<
    String,
>)
    ensures
        line_views(out@) == texts(shown(node@, show_depth, threshold, parent_size)),
        out@.len() == shown(node@, show_depth, threshold, parent_size).len(),
        forall|i: int|
            0 <= i < out@.len() ==> (#[trigger] out@[i])@ == shown(
                node@,
                show_depth,
                threshold,
                parent_size,
            )[i].text(),
{
    let mut out: Vec<String> = Vec::new();
    render_into(node, show_depth, threshold, parent_size, &mut out);
    proof {
        assert(line_views(Seq::<String>::empty()) =~= Seq::empty());
        assert(Seq::<Seq<char>>::empty() + texts(
            shown(node@, show_depth, threshold, parent_size),
        ) =~= texts(shown(node@, show_depth, threshold, parent_size)));
        assert(line_views(out@).len() == out@.len());
        assert forall|i: int| 0 <= i < out@.len() implies (#[trigger] out@[i])@ == shown(
            node@,
            show_depth,
            threshold,
            parent_size,
        )[i].text() by {
            assert(line_views(out@)[i] == out@[i]@);
        }
    }
    out
}

/// No line of a report is for a node deeper than `show_depth`; a node that
/// lies deeper yields no line at all, for itself or for anything below it.
pub proof fn lemma_shown_within_depth(t: Tree, show_depth: u32, threshold: u32, parent_size: u64)
    ensures
        t.depth > show_depth ==> shown(t, show_depth, threshold, parent_size).len() == 0,
        forall|i: int|
            0 <= i < shown(t, show_depth, threshold, parent_size).len() ==> (#[trigger] shown(
                t,
                show_depth,
                threshold,
                parent_size,
            )[i]).node.depth <= show_depth,
    decreases t, t.children.len() + 1,
{
    if t.depth <= show_depth {
        lemma_shown_from_within_depth(t, 0, show_depth, threshold);
    }
}

/// The lines for the children of a node hold no node deeper than
/// `show_depth`.
pub proof fn lemma_shown_from_within_depth(t: Tree, k: nat, show_depth: u32, threshold: u32)
    ensures
        forall|i: int|
            0 <= i < shown_from(t, k, show_depth, threshold).len() ==> (#[trigger] shown_from(
                t,
                k,
                show_depth,
                threshold,
            )[i]).node.depth <= show_depth,
    decreases t, t.children.len() - k,
{
    if k < t.children.len() {
        lemma_shown_within_depth(t.children[k as int], show_depth, threshold, t.size);
        lemma_shown_from_within_depth(t, k + 1, show_depth, threshold);
    }
}

/// Every line of a report but the first is for a node whose share of the
/// node it is listed under reaches `threshold`.
pub proof fn lemma_shown_meets_threshold(
    t: Tree,
    show_depth: u32,
    threshold: u32,
    parent_size: u64,
)
    ensures
        forall|i: int|
            1 <= i < shown(t, show_depth, threshold, parent_size).len() ==> percent_of(
                (#[trigger] shown(t, show_depth, threshold, parent_size)[i]).node.size,
                shown(t, show_depth, threshold, parent_size)[i].parent_size,
            ) >= threshold,
    decreases t, t.children.len() + 1,
{
    if t.depth <= show_depth {
        lemma_shown_from_meets_threshold(t, 0, show_depth, threshold);
    }
}

/// Every line for the children of a node, and for what lies below them, is
/// for a node whose share of the node it is listed under reaches `threshold`.
pub proof fn lemma_shown_from_meets_threshold(t: Tree, k: nat, show_depth: u32, threshold: u32)
    ensures
        forall|i: int|
            0 <= i < shown_from(t, k, show_depth, threshold).len() ==> percent_of(
                (#[trigger] shown_from(t, k, show_depth, threshold)[i]).node.size,
                shown_from(t, k, show_depth, threshold)[i].parent_size,
            ) >= threshold,
    decreases t, t.children.len() - k,
{
    if k < t.children.len() {
        lemma_shown_meets_threshold(t.children[k as int], show_depth, threshold, t.size);
        lemma_shown_from_meets_threshold(t, k + 1, show_depth, threshold);
    }
}

/// A child whose share of its parent is below `threshold` adds no line to
/// the report, whatever lies below it.
pub proof fn lemma_pruned_child_adds_nothing(t: Tree, k: nat, show_depth: u32, threshold: u32)
    requires
        k < t.children.len(),
        percent_of(t.children[k as int].size, t.size) < threshold,
    ensures
        shown_from(t, k, show_depth, threshold) == shown_from(t, k + 1, show_depth, threshold),
{
    assert(Seq::<Row>::empty() + shown_from(t, k + 1, show_depth, threshold) =~= shown_from(
        t,
        k + 1,
        show_depth,
        threshold,
    ));
}

/// A node at depth 0 heads its report whatever the depth limit, the
/// threshold and the parent size are, and its line carries the label `100%`.
pub proof fn lemma_root_always_shown(t: Tree, show_depth: u32, threshold: u32, parent_size: u64)
    requires
        t.depth == 0,
    ensures
        shown(t, show_depth, threshold, parent_size).len() >= 1,
        shown(t, show_depth, threshold, parent_size)[0].node == t,
        shown(t, show_depth, threshold, parent_size)[0].text() == "0"@ + ":"@ + tag_text(t.kind)
            + ":"@ + "100%"@ + ":"@ + size_column(t.size) + " "@ + t.path,
{
}

/// No node of a sequence is larger than the sequence's total.
pub proof fn lemma_total_bounds_each(nodes: Seq<Tree>, i: int)
    requires
        0 <= i < nodes.len(),
    ensures
        nodes[i].size <= total_size(nodes),
    decreases nodes.len(),
{
    if i < nodes.len() - 1 {
        lemma_total_bounds_each(nodes.drop_last(), i);
    }
}

/// In a well-formed tree no child has a share of more than 100 percent.
pub proof fn lemma_share_at_most_hundred(t: Tree, i: int)
    requires
        t.wf(),
        0 <= i < t.children.len(),
    ensures
        percent_of(t.children[i].size, t.size) <= 100,
{
    lemma_total_bounds_each(t.children, i);
    let size = t.children[i].size as int;
    let parent = t.size as int;
    if parent > 0 {
        assert(100 * size / parent <= 100) by (nonlinear_arith)
            requires
                0 <= size <= parent,
                parent > 0,
        ;
    }
}

} // verus!
