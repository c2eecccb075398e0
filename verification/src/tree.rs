//! A directory tree as the file system shows it at one moment, and what a walk
//! over it yields.
//!
//! The tree holds exactly what a walker can learn: for each entry its path
//! text and whether its metadata could be read, and for each directory
//! whether it could be opened, the entries that its listing gave, and whether
//! the listing broke off.

use crate::error::IoErrorKind;
use crate::text::is_substring;
use crate::walker::{EventView, OutcomeView};
use vstd::prelude::*;

verus! {

/// One entry of a directory tree.
#[derive(Debug)]
pub struct Node {
    /// The path text of the entry.
    pub path: String,
    pub kind: NodeKind,
}

/// What the file system tells of an entry.
#[derive(Debug)]
pub enum NodeKind {
    /// The metadata can be read and the entry is no directory.
    File,
    /// The metadata cannot be read.
    Unknown(IoErrorKind),
    /// A directory that cannot be opened for listing.
    Denied(IoErrorKind),
    /// A directory whose listing gives `entries`, in this order. Where `cut` is
    /// set, the listing fails with that error once it has given them.
    Dir { entries: Vec<Node>, cut: Option<IoErrorKind> },
}

/// The mathematical value of a [`Node`].
pub struct NodeView {
    pub path: Seq<char>,
    pub kind: KindView,
}

/// The mathematical value of a [`NodeKind`].
pub enum KindView {
    File,
    Unknown(IoErrorKind),
    Denied(IoErrorKind),
    Dir { entries: Seq<NodeView>, cut: Option<IoErrorKind> },
}

/// The value of a node.
pub open spec fn node_view(node: Node) -> NodeView
    decreases node,
{
    NodeView {
        path: node.path@,
        kind: match node.kind {
            NodeKind::File => KindView::File,
            NodeKind::Unknown(kind) => KindView::Unknown(kind),
            NodeKind::Denied(kind) => KindView::Denied(kind),
            NodeKind::Dir { entries, cut } => KindView::Dir { entries: node_views(entries@), cut },
        },
    }
}

/// The values of a sequence of nodes.
pub open spec fn node_views(nodes: Seq<Node>) -> Seq<NodeView>
    decreases nodes,
{
    if nodes.len() == 0 {
        Seq::empty()
    } else {
        node_views(nodes.drop_last()).push(node_view(nodes.last()))
    }
}

impl View for Node {
    type V = NodeView;

    open spec fn view(&self) -> NodeView {
        node_view(*self)
    }
}

impl NodeView {
    /// The entry is a directory, whether or not it can be opened.
    pub open spec fn is_directory(self) -> bool {
        self.kind is Denied || self.kind is Dir
    }

    /// The entries that the listing of the node gives.
    pub open spec fn entries(self) -> Seq<NodeView> {
        match self.kind {
            KindView::Dir { entries, cut } => entries,
            _ => Seq::empty(),
        }
    }

    /// The outcomes that come of reading the node as an entry of a listing:
    /// a match where its path text contains the pattern, then an error where
    /// its metadata cannot be read.
    pub open spec fn seen(self, pattern: Seq<char>) -> Seq<OutcomeView> {
        let found = if is_substring(pattern, self.path) {
            seq![OutcomeView::Match(self.path)]
        } else {
            Seq::empty()
        };
        match self.kind {
            KindView::Unknown(kind) => found.push(OutcomeView::DirError(self.path, kind)),
            _ => found,
        }
    }

    /// The outcomes that come of expanding the node as a directory: those of
    /// its entries in listing order, then an error where the listing fails.
    /// A node that is no directory is never expanded.
    pub open spec fn expanded(self, pattern: Seq<char>) -> Seq<OutcomeView> {
        match self.kind {
            KindView::Denied(kind) => seq![OutcomeView::DirError(self.path, kind)],
            KindView::Dir { entries, cut } => match cut {
                Some(kind) => listed(entries, pattern).push(OutcomeView::DirError(self.path, kind)),
                None => listed(entries, pattern),
            },
            _ => Seq::empty(),
        }
    }

    /// The directories that expanding the node adds to those that wait.
    pub open spec fn children(self) -> Seq<NodeView> {
        subdirs(self.entries())
    }

    /// The answer to a request for the metadata of the entry.
    pub open spec fn metadata(self) -> EventView {
        match self.kind {
            KindView::File => EventView::IsDirectory(false),
            KindView::Unknown(kind) => EventView::Failed(kind),
            _ => EventView::IsDirectory(true),
        }
    }
}

/// The path texts of `nodes`, in their order.
pub open spec fn paths(nodes: Seq<NodeView>) -> Seq<Seq<char>> {
    nodes.map_values(|node: NodeView| node.path)
}

/// The outcomes that come of reading `entries` one after the other.
pub open spec fn listed(entries: Seq<NodeView>, pattern: Seq<char>) -> Seq<OutcomeView>
    decreases entries.len(),
{
    if entries.len() == 0 {
        Seq::empty()
    } else {
        listed(entries.drop_last(), pattern) + entries.last().seen(pattern)
    }
}

/// The directories among `entries`, in their order.
pub open spec fn subdirs(entries: Seq<NodeView>) -> Seq<NodeView>
    decreases entries.len(),
{
    if entries.len() == 0 {
        Seq::empty()
    } else if entries.last().is_directory() {
        subdirs(entries.drop_last()).push(entries.last())
    } else {
        subdirs(entries.drop_last())
    }
}

/// The number of nodes in the tree below and including `node`.
pub open spec fn weight(node: NodeView) -> nat
    decreases node,
{
    match node.kind {
        KindView::Dir { entries, cut } => 1 + weights(entries),
        _ => 1,
    }
}

/// The number of nodes in the trees of `nodes`.
pub open spec fn weights(nodes: Seq<NodeView>) -> nat
    decreases nodes,
{
    if nodes.len() == 0 {
        0
    } else {
        weights(nodes.drop_last()) + weight(nodes.last())
    }
}

/// The outcomes of a walk, in the order in which they are produced, when the
/// directories in `queue` wait to be expanded, the next one first. Expanding a
/// directory puts its own directories at the end of the queue, so the walk
/// goes through the tree level by level.
pub open spec fn walk(queue: Seq<NodeView>, pattern: Seq<char>) -> Seq<OutcomeView>
    decreases weights(queue),
{
    if queue.len() == 0 {
        Seq::empty()
    } else {
        proof {
            lemma_walk_shrinks(queue);
        }
        queue[0].expanded(pattern) + walk(queue.skip(1) + queue[0].children(), pattern)
    }
}

/// The outcomes that a walk started at `root` produces.
pub open spec fn walk_from(root: NodeView, pattern: Seq<char>) -> Seq<OutcomeView> {
    walk(seq![root], pattern)
}

/// The weight of a concatenation is the sum of the weights.
pub proof fn lemma_weights_concat(a: Seq<NodeView>, b: Seq<NodeView>)
    ensures
        weights(a + b) == weights(a) + weights(b),
    decreases b.len(),
{
    if b.len() == 0 {
        assert(a + b =~= a);
    } else {
        lemma_weights_concat(a, b.drop_last());
        assert((a + b).drop_last() =~= a + b.drop_last());
        assert((a + b).last() == b.last());
    }
}

/// The directories among some entries weigh no more than the entries.
pub proof fn lemma_subdirs_weigh_less(entries: Seq<NodeView>)
    ensures
        weights(subdirs(entries)) <= weights(entries),
    decreases entries.len(),
{
    if entries.len() > 0 {
        lemma_subdirs_weigh_less(entries.drop_last());
        if entries.last().is_directory() {
            let kept = subdirs(entries.drop_last()).push(entries.last());
            assert(kept.drop_last() =~= subdirs(entries.drop_last()));
            assert(kept.last() == entries.last());
        }
    }
}

/// The values of a sequence of nodes are the values of its nodes.
pub proof fn lemma_node_views(nodes: Seq<Node>)
    ensures
        node_views(nodes).len() == nodes.len(),
        forall|i: int| 0 <= i < nodes.len() ==> node_views(nodes)[i] == (#[trigger] nodes[i])@,
    decreases nodes.len(),
{
    if nodes.len() > 0 {
        let front = nodes.drop_last();
        lemma_node_views(front);
        assert forall|i: int| 0 <= i < nodes.len() implies node_views(nodes)[i] == (
        #[trigger] nodes[i])@ by {
            if i < front.len() {
                assert(front[i] == nodes[i]);
            }
        }
    }
}

/// What is kept as a directory is one.
pub proof fn lemma_subdirs_are_directories(entries: Seq<NodeView>)
    ensures
        forall|i: int|
            0 <= i < subdirs(entries).len() ==> (#[trigger] subdirs(entries)[i]).is_directory(),
    decreases entries.len(),
{
    if entries.len() > 0 {
        let front = subdirs(entries.drop_last());
        lemma_subdirs_are_directories(entries.drop_last());
        assert forall|i: int| 0 <= i < subdirs(entries).len() implies (#[trigger] subdirs(
            entries,
        )[i]).is_directory() by {
            if i < front.len() {
                assert(subdirs(entries)[i] == front[i]);
            }
        }
    }
}

/// A single node weighs what its tree weighs.
pub proof fn lemma_weights_single(node: NodeView)
    ensures
        weights(seq![node]) == weight(node),
{
    assert(weights(Seq::<NodeView>::empty()) == 0);
    assert(seq![node].drop_last() =~= Seq::<NodeView>::empty());
    assert(seq![node].last() == node);
}

/// Expanding the first directory of a queue leaves a lighter queue.
pub proof fn lemma_walk_shrinks(queue: Seq<NodeView>)
    requires
        queue.len() > 0,
    ensures
        weights(queue.skip(1) + queue[0].children()) < weights(queue),
{
    let first = queue[0];
    assert(queue =~= seq![first] + queue.skip(1));
    lemma_weights_concat(seq![first], queue.skip(1));
    lemma_weights_concat(queue.skip(1), first.children());
    lemma_weights_single(first);
    lemma_subdirs_weigh_less(first.entries());
}

} // verus!
