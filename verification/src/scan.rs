//! Assembling a directory node from what a listing of the directory gave.

use crate::node::{largest_first, lemma_views, total_size, views, DirStat, Kind, Tree};
use vstd::prelude::*;

verus! {

/// What to do with an entry of a directory, by its type.
#[derive(Clone, Copy, Debug, PartialEq, Eq, Structural)]
pub enum Step {
    /// A directory: scan it one level deeper.
    Descend,
    /// A regular file: read its length.
    Measure,
    /// A symbolic link: leave it out.
    SkipSymlink,
    /// Anything else: leave it out.
    SkipOther,
}

/// The step for an entry whose type answers `is_dir`, `is_file` and
/// `is_symlink`: a directory is descended into, a regular file measured, and
/// a symbolic link is never followed or sized.
pub open spec fn step_for(is_dir: bool, is_file: bool, is_symlink: bool) -> Step {
    if is_dir {
        Step::Descend
    } else if is_file {
        Step::Measure
    } else if is_symlink {
        Step::SkipSymlink
    } else {
        Step::SkipOther
    }
}

/// Computes `step_for`.
pub fn next_step(is_dir: bool, is_file: bool, is_symlink: bool) -> (step: Step)
    ensures
        step == step_for(is_dir, is_file, is_symlink),
{
    if is_dir {
        Step::Descend
    } else if is_file {
        Step::Measure
    } else if is_symlink {
        Step::SkipSymlink
    } else {
        Step::SkipOther
    }
}

/// What came of looking at one entry of a directory.
#[derive(Debug)]
pub enum Scanned {
    /// The entry, its type or its metadata could not be read.
    Unreadable,
    /// A symbolic link: never followed, never sized.
    Symlink,
    /// Neither a regular file, a directory nor a symbolic link.
    Other,
    /// A regular file and its length in bytes.
    File { path: String, len: u64 },
    /// A directory and the outcome of scanning it; `None` where it could not
    /// be listed.
    Directory { subtree: Option<DirStat> },
}

impl Scanned {
    /// The node that this entry adds to a directory at `depth`, if any.
    pub open spec fn contribution(self, depth: u32) -> Option<Tree> {
        match self {
            Scanned::File { path, len } => Some(
                Tree {
                    size: len,
                    kind: Kind::File,
                    depth: (depth + 1) as u32,
                    path: path@,
                    children: Seq::empty(),
                },
            ),
            Scanned::Directory { subtree: Some(d) } => Some(d@),
            _ => None,
        }
    }

    /// A scanned subdirectory is a well-formed tree one level below `depth`.
    pub open spec fn fits_under(self, depth: u32) -> bool {
        match self {
            Scanned::Directory { subtree: Some(d) } => d@.wf() && d@.depth as int == depth as int
                + 1,
            _ => true,
        }
    }
}

/// Every scanned subdirectory among `items` is a well-formed tree one level
/// below `depth`.
pub open spec fn all_fit_under(items: Seq<Scanned>, depth: u32) -> bool {
    forall|i: int| 0 <= i < items.len() ==> (#[trigger] items[i]).fits_under(depth)
}

/// The nodes that `items` add to a directory at `depth`, in the order of
/// `items`.
pub open spec fn contributions(items: Seq<Scanned>, depth: u32) -> Seq<Tree>
    decreases items.len(),
{
    if items.len() == 0 {
        Seq::empty()
    } else {
        let before = contributions(items.drop_last(), depth);
        match items.last().contribution(depth) {
            Some(t) => before.push(t),
            None => before,
        }
    }
}

/// The nodes of `nodes` whose size is `v`, in their order.
pub open spec fn of_size(nodes: Seq<Tree>, v: u64) -> Seq<Tree> {
    nodes.filter(|t: Tree| t.size == v)
}

/// `out` holds the nodes of `input` largest first, and nodes of one size in
/// the order in which `input` has them.
pub open spec fn stably_ordered(out: Seq<Tree>, input: Seq<Tree>) -> bool {
    &&& largest_first(out)
    &&& forall|v: u64| #[trigger] of_size(out, v) == of_size(input, v)
}

/// A node more at the end adds its size to the total.
pub proof fn lemma_total_push(s: Seq<Tree>, t: Tree)
    ensures
        total_size(s.push(t)) == total_size(s) + t.size,
{
    assert(s.push(t).drop_last() =~= s);
}

/// A node more at any place adds its size to the total.
pub proof fn lemma_total_insert(s: Seq<Tree>, pos: int, t: Tree)
    requires
        0 <= pos <= s.len(),
    ensures
        total_size(s.insert(pos, t)) == total_size(s) + t.size,
    decreases s.len(),
{
    if pos == s.len() {
        assert(s.insert(pos, t) =~= s.push(t));
        lemma_total_push(s, t);
    } else {
        assert(s.insert(pos, t).drop_last() =~= s.drop_last().insert(pos, t));
        assert(s.insert(pos, t).last() == s.last());
        lemma_total_insert(s.drop_last(), pos, t);
    }
}

/// The first `k` entries contribute no more bytes than all of them.
pub proof fn lemma_prefix_total(items: Seq<Scanned>, depth: u32, k: int)
    requires
        0 <= k <= items.len(),
    ensures
        total_size(contributions(items.take(k), depth)) <= total_size(
            contributions(items, depth),
        ),
    decreases items.len(),
{
    if k == items.len() {
        assert(items.take(k) =~= items);
    } else {
        assert(items.drop_last().take(k) =~= items.take(k));
        lemma_prefix_total(items.drop_last(), depth, k);
        match items.last().contribution(depth) {
            Some(t) => lemma_total_push(contributions(items.drop_last(), depth), t),
            None => {},
        }
    }
}

/// Where no node has size `v`, none is picked.
proof fn lemma_none_of_size(s: Seq<Tree>, v: u64)
    requires
        forall|i: int| 0 <= i < s.len() ==> s[i].size != v,
    ensures
        of_size(s, v) =~= Seq::empty(),
    decreases s.len(),
{
    reveal(Seq::filter);
    if s.len() > 0 {
        lemma_none_of_size(s.drop_last(), v);
    }
}

/// Putting `t` behind the nodes that are at least as large and before the
/// smaller ones keeps the order, and among nodes of its size `t` comes last.
pub proof fn lemma_insert_ordered(s: Seq<Tree>, pos: int, t: Tree)
    requires
        largest_first(s),
        0 <= pos <= s.len(),
        forall|i: int| 0 <= i < pos ==> s[i].size >= t.size,
        forall|i: int| pos <= i < s.len() ==> s[i].size < t.size,
    ensures
        largest_first(s.insert(pos, t)),
        forall|v: u64| #[trigger] of_size(s.insert(pos, t), v) == of_size(s.push(t), v),
{
    let head = s.take(pos);
    let tail = s.skip(pos);
    let one = Seq::<Tree>::empty().push(t);
    assert(s.insert(pos, t) =~= head + one + tail);
    assert(s.push(t) =~= head + tail + one);
    assert forall|v: u64| #[trigger] of_size(s.insert(pos, t), v) == of_size(s.push(t), v) by {
        let p = |t: Tree| t.size == v;
        Seq::filter_distributes_over_add(head + one, tail, p);
        Seq::filter_distributes_over_add(head, one, p);
        Seq::filter_distributes_over_add(head + tail, one, p);
        Seq::filter_distributes_over_add(head, tail, p);
        if t.size == v {
            lemma_none_of_size(tail, v);
        } else {
            lemma_none_of_size(one, v);
        }
    }
}

/// A directory at `depth` can hold what `items` contribute: a file entry
/// becomes a node one level deeper, so where there is one, that level must
/// exist.
pub open spec fn depth_allows(items: Seq<Scanned>, depth: u32) -> bool {
    depth < u32::MAX || forall|i: int| 0 <= i < items.len() ==> !((#[trigger] items[i]) is File)
}

/// `node` is the node of a directory at `depth` with the given path whose
/// listing gave `items`.
pub open spec fn is_directory_of(
    node: Tree,
    depth: u32,
    path: Seq<char>,
    items: Seq<Scanned>,
) -> bool {
    &&& node.kind == Kind::Directory
    &&& node.depth == depth
    &&& node.path == path
    &&& node.size as nat == total_size(contributions(items, depth))
    &&& stably_ordered(node.children, contributions(items, depth))
    &&& node.size as nat == total_size(node.children)
    &&& (all_fit_under(items, depth) ==> node.wf())
}

/// Whether `DirStat::directory` can take `items` at `depth`: the file nodes
/// to be made lie at a depth that exists, and the sizes together fit in 64
/// bits.
pub fn addable(depth: u32, items: &Vec<Scanned>) -> (ok: bool)
    ensures
        ok == (depth_allows(items@, depth) && total_size(contributions(items@, depth))
            <= u64::MAX),
{
    let mut sum: u64 = 0;
    let mut i: usize = 0;
    proof {
        assert(items@.take(0) =~= Seq::empty());
    }
    while i < items.len()
        invariant
            i <= items@.len(),
            sum as nat == total_size(contributions(items@.take(i as int), depth)),
            depth < u32::MAX || forall|j: int| 0 <= j < i ==> !((#[trigger] items@[j]) is File),
        decreases items@.len() - i,
    {
        let ghost done = contributions(items@.take(i as int), depth);
        let size: u64 = match &items[i] {
            Scanned::File { len, .. } => {
                if depth == u32::MAX {
                    return false;
                }
                *len
            },
            Scanned::Directory { subtree: Some(d) } => {
                proof {
                    d.lemma_view();
                }
                d.size
            },
            _ => 0,
        };
        proof {
            assert(items@.take(i + 1).drop_last() =~= items@.take(i as int));
            assert(items@.take(i + 1).last() == items@[i as int]);
            match items@[i as int].contribution(depth) {
                Some(t) => lemma_total_push(done, t),
                None => {},
            }
            lemma_prefix_total(items@, depth, i + 1);
        }
        if size > u64::MAX - sum {
            return false;
        }
        sum = sum + size;
        i += 1;
    }
    proof {
        assert(items@.take(items@.len() as int) =~= items@);
    }
    true
}

impl DirStat {
    /// The node of a directory at `depth` whose listing gave `items`: its
    /// children are the nodes that the entries contribute, largest first and
    /// equal sizes in listing order, and its size is their sum. Entries that
    /// could not be read, symbolic links and subdirectories that could not be
    /// listed contribute nothing. Where the scanned subdirectories are well
    /// formed and one level deeper, so is the node. A directory at the
    /// deepest level there is can hold no file, but it can be empty.
    pub fn directory(depth: u32, path: String, items: Vec<Scanned>) -> (node: DirStat)
        requires
            depth_allows(items@, depth),
            total_size(contributions(items@, depth)) <= u64::MAX,
        ensures
            is_directory_of(node@, depth, path@, items@),
    {
        let ghost all = items@;
        let mut children: Vec<DirStat> = Vec::new();
        let mut sum: u64 = 0;
        proof {
            assert(all.take(0) =~= Seq::empty());
            assert(views(children@) =~= Seq::empty());
            assert(contributions(all.take(0), depth) =~= Seq::empty());
        }
        for item in it: items
            invariant
                it.seq() == all,
                depth_allows(all, depth),
                total_size(contributions(all, depth)) <= u64::MAX,
                sum as nat == total_size(contributions(all.take(it.index() as int), depth)),
                sum as nat == total_size(views(children@)),
                stably_ordered(
                    views(children@),
                    contributions(all.take(it.index() as int), depth),
                ),
                all_fit_under(all, depth) ==> forall|i: int|
                    0 <= i < children@.len() ==> {
                        &&& (#[trigger] children@[i])@.depth as int == depth as int + 1
                        &&& children@[i]@.wf()
                    },
        {
            let ghost k = it.index() as int;
            let ghost done = contributions(all.take(k), depth);
            proof {
                assert(all.take(k + 1).drop_last() =~= all.take(k));
                assert(all.take(k + 1).last() == item);
                assert(all[k] == item);
                lemma_prefix_total(all, depth, k + 1);
            }
            let found: Option<DirStat> = match item {
                Scanned::File { path, len } => Some(DirStat::file(depth + 1, path, len)),
                Scanned::Directory { subtree } => subtree,
                _ => None,
            };
            if let Some(child) = found {
                assert(item.contribution(depth) == Some(child@));
                proof {
                    lemma_total_push(done, child@);
                }
                let mut pos: usize = 0;
                while pos < children.len() && children[pos].size >= child.size
                    invariant
                        pos <= children@.len(),
                        forall|i: int| 0 <= i < pos ==> children@[i]@.size >= child@.size,
                    decreases children@.len() - pos,
                {
                    pos += 1;
                }
                let ghost before = views(children@);
                let ghost kids = children@;
                proof {
                    lemma_views(kids);
                    assert forall|i: int| pos <= i < before.len() implies before[i].size
                        < child@.size by {
                        assert(before[pos as int].size >= before[i].size || i == pos);
                    }
                    lemma_insert_ordered(before, pos as int, child@);
                    lemma_total_insert(before, pos as int, child@);
                    assert forall|v: u64| #[trigger]
                        of_size(before.insert(pos as int, child@), v) == of_size(
                            done.push(child@),
                            v,
                        ) by {
                        let p = |t: Tree| t.size == v;
                        before.lemma_filter_push(child@, p);
                        done.lemma_filter_push(child@, p);
                        assert(of_size(before, v) == of_size(done, v));
                    }
                }
                sum = sum + child.size;
                children.insert(pos, child);
                proof {
                    lemma_views(children@);
                    assert(views(children@) =~= before.insert(pos as int, child@));
                }
            }
        }
        proof {
            assert(all.take(all.len() as int) =~= all);
        }
        let node = DirStat { size: sum, kind: Kind::Directory, depth, path, children };
        proof {
            lemma_views(node.children@);
        }
        node
    }

    /// `DirStat::directory` where the entries are `addable` at `depth`, else
    /// `None`: a node is owed whenever the depths and the sizes fit.
    pub fn checked_directory(depth: u32, path: String, items: Vec<Scanned>) -> (found: Option<
        DirStat,
    >)
        ensures
            found is Some <==> (depth_allows(items@, depth) && total_size(
                contributions(items@, depth),
            ) <= u64::MAX),
            found matches Some(node) ==> is_directory_of(node@, depth, path@, items@),
    {
        if addable(depth, &items) {
            Some(DirStat::directory(depth, path, items))
        } else {
            None
        }
    }
}

/// An entry that contributes no node may as well be absent: the nodes that
/// the other entries contribute stay the same.
pub proof fn lemma_skipped_adds_nothing(items: Seq<Scanned>, depth: u32, i: int)
    requires
        0 <= i < items.len(),
        items[i].contribution(depth) is None,
    ensures
        contributions(items, depth) == contributions(items.remove(i), depth),
    decreases items.len(),
{
    if i == items.len() - 1 {
        assert(items.remove(i) =~= items.drop_last());
    } else {
        assert(items.remove(i).drop_last() =~= items.drop_last().remove(i));
        assert(items.remove(i).last() == items.last());
        lemma_skipped_adds_nothing(items.drop_last(), depth, i);
    }
}

/// A symbolic link among the entries adds no node and no bytes.
pub proof fn lemma_symlink_adds_nothing(items: Seq<Scanned>, depth: u32, i: int)
    requires
        0 <= i < items.len(),
        items[i] is Symlink,
    ensures
        contributions(items, depth) == contributions(items.remove(i), depth),
        total_size(contributions(items, depth)) == total_size(
            contributions(items.remove(i), depth),
        ),
{
    lemma_skipped_adds_nothing(items, depth, i);
}

/// No contributed node is a symbolic link's: each is the file node of a file
/// entry or the subtree of a directory entry.
pub proof fn lemma_contributions_from_files_and_directories(
    items: Seq<Scanned>,
    depth: u32,
    j: int,
)
    requires
        0 <= j < contributions(items, depth).len(),
    ensures
        exists|i: int|
            0 <= i < items.len() && (items[i] is File || items[i] is Directory)
                && #[trigger] items[i].contribution(depth) == Some(
                contributions(items, depth)[j],
            ),
    decreases items.len(),
{
    let before = contributions(items.drop_last(), depth);
    if j < before.len() {
        lemma_contributions_from_files_and_directories(items.drop_last(), depth, j);
        let i = choose|i: int|
            0 <= i < items.drop_last().len() && (items.drop_last()[i] is File
                || items.drop_last()[i] is Directory)
                && #[trigger] items.drop_last()[i].contribution(depth) == Some(before[j]);
        assert(items[i] == items.drop_last()[i]);
    } else {
        let i = items.len() - 1;
        assert(items[i].contribution(depth) == Some(contributions(items, depth)[j]));
    }
}

} // verus!
