//! Driving a walker over a directory tree that is held in memory.
//!
//! The driver answers each request of the walker from the tree and collects
//! what the walker sends. Nothing of the walk is decided here.

use crate::seqs::{lemma_views_push, views};
use crate::text::owned;
use crate::tree::{
    lemma_node_views, lemma_subdirs_are_directories, listed, node_views, paths, subdirs, walk,
    walk_from, weight, weights, Node, NodeKind, NodeView,
};
use crate::walker::{Action, ActionView, Event, EventView, PhaseView, WalkOutcome, Walker, WalkerView};
use std::collections::VecDeque;
use vstd::prelude::*;

verus! {

impl Node {
    /// Whether the entry is a directory, be it one that cannot be opened.
    pub fn is_directory(&self) -> (yes: bool)
        ensures
            yes == self@.is_directory(),
    {
        match &self.kind {
            NodeKind::Denied(_) => true,
            NodeKind::Dir { .. } => true,
            _ => false,
        }
    }

    /// What the file system answers when the metadata of the entry is asked
    /// for.
    pub fn metadata(&self) -> (event: Event)
        ensures
            event@ == self@.metadata(),
    {
        match &self.kind {
            NodeKind::File => Event::IsDirectory(false),
            NodeKind::Unknown(kind) => Event::Failed(*kind),
            _ => Event::IsDirectory(true),
        }
    }
}

/// Performs `action` where it is a send: the outcome is put at the end of
/// `sent` and the walker learns that it was delivered. Any other action is
/// handed back untouched.
fn deliver(walker: &mut Walker, action: Action, sent: &mut Vec<WalkOutcome>) -> (next: Action)
    ensures
        action@ matches ActionView::Send(outcome) ==> {
            &&& views(final(sent)@) == views(old(sent)@).push(outcome)
            &&& final(walker)@ == old(walker)@.next(EventView::Delivered)
            &&& next@ == final(walker)@.action()
        },
        !(action@ is Send) ==> {
            &&& final(sent)@ == old(sent)@
            &&& final(walker)@ == old(walker)@
            &&& next@ == action@
        },
{
    match action {
        Action::Send(outcome) => {
            proof {
                lemma_views_push(sent@, outcome);
            }
            sent.push(outcome);
            walker.step(Event::Delivered)
        },
        other => other,
    }
}

/// Expands one directory: answers the walker's requests from the listing of
/// `dir` until the walker turns to the next directory.
fn expand<'a>(
    dir: &'a Node,
    walker: &mut Walker,
    waiting: &mut VecDeque<&'a Node>,
    sent: &mut Vec<WalkOutcome>,
)
    requires
        dir@.is_directory(),
        old(walker)@.phase == (PhaseView::Opening { dir: dir@.path }),
        old(walker)@.pending == paths(views(old(waiting)@)),
    ensures
        views(final(sent)@) == views(old(sent)@) + dir@.expanded(old(walker)@.pattern),
        views(final(waiting)@) == views(old(waiting)@) + dir@.children(),
        final(walker)@ == (WalkerView {
            pending: paths(views(final(waiting)@)),
            ..old(walker)@
        }).advance(),
{
    let ghost pattern = walker@.pattern;
    let ghost waited = views(waiting@);
    let ghost before = views(sent@);
    match &dir.kind {
        NodeKind::Denied(kind) => {
            let action = walker.step(Event::Failed(*kind));
            let _ = deliver(walker, action, sent);
            assert(dir@.children() =~= Seq::<NodeView>::empty());
            assert(views(waiting@) =~= waited + dir@.children());
            assert(views(sent@) =~= before + dir@.expanded(pattern));
        },
        NodeKind::Dir { entries, cut } => {
            let ghost shown = node_views(entries@);
            proof {
                lemma_node_views(entries@);
            }
            let _ = walker.step(Event::Opened);
            let mut i: usize = 0;
            assert(shown.take(0) =~= Seq::<NodeView>::empty());
            assert(views(waiting@) =~= waited + subdirs(shown.take(0)));
            assert(views(sent@) =~= before + listed(shown.take(0), pattern));
            while i < entries.len()
                invariant
                    0 <= i <= entries.len(),
                    shown == node_views(entries@),
                    shown.len() == entries.len(),
                    forall|j: int| 0 <= j < entries.len() ==> shown[j] == (#[trigger] entries[j])@,
                    views(waiting@) == waited + subdirs(shown.take(i as int)),
                    views(sent@) == before + listed(shown.take(i as int), pattern),
                    walker@ == (WalkerView {
                        pattern,
                        pending: paths(views(waiting@)),
                        phase: PhaseView::Listing { dir: dir@.path },
                    }),
                decreases entries.len() - i,
            {
                let entry = &entries[i];
                let ghost seen_before = shown.take(i as int);
                let ghost seen_now = shown.take(i + 1);
                assert(seen_now.drop_last() =~= seen_before);
                assert(seen_now.last() == entry@);
                let ghost sent_before = views(sent@);
                let ghost waiting_before = views(waiting@);

                let action = walker.step(Event::Entry(entry.path.clone()));
                let _ = deliver(walker, action, sent);
                let action = walker.step(entry.metadata());
                let _ = deliver(walker, action, sent);
                if entry.is_directory() {
                    proof {
                        lemma_views_push(waiting@, entry);
                    }
                    waiting.push_back(entry);
                    assert(paths(views(waiting@)) =~= paths(waiting_before).push(entry@.path));
                }
                assert(views(sent@) =~= sent_before + entry@.seen(pattern));
                assert(views(sent@) =~= before + listed(seen_now, pattern));
                assert(views(waiting@) =~= waited + subdirs(seen_now));
                i = i + 1;
            }
            assert(shown.take(i as int) =~= shown);
            let action = match cut {
                Some(kind) => walker.step(Event::Failed(*kind)),
                None => walker.step(Event::EndOfListing),
            };
            let _ = deliver(walker, action, sent);
            assert(views(sent@) =~= before + dir@.expanded(pattern));
        },
        _ => {},
    }
}

/// Walks the tree below `root` and returns what the walker sends, in the
/// order in which it sends it. The receiving side is always there.
pub fn walk_tree(root: &Node, pattern: &str) -> (outcomes: Vec<WalkOutcome>)
    ensures
        views(outcomes@) == walk_from(root@, pattern@),
{
    let mut outcomes: Vec<WalkOutcome> = Vec::new();
    let mut walker = Walker::new(root.path.clone(), owned(pattern));
    let mut waiting: VecDeque<&Node> = VecDeque::new();
    let _ = walker.step(Event::IsDirectory(root.is_directory()));
    assert(views(outcomes@) =~= Seq::empty());
    assert(seq![root@].skip(1) + root@.children() =~= root@.children());
    if !root.is_directory() {
        assert(root@.children() =~= Seq::<NodeView>::empty());
        assert(root@.expanded(pattern@) =~= Seq::empty());
        assert(walk(Seq::<NodeView>::empty(), pattern@) =~= Seq::empty());
        assert(walk_from(root@, pattern@) =~= Seq::empty());
        return outcomes;
    }
    let mut current: &Node = root;
    assert(views(waiting@) =~= Seq::<NodeView>::empty());
    assert(seq![current@] + views(waiting@) =~= seq![root@]);
    assert(paths(views(waiting@)) =~= Seq::<Seq<char>>::empty());
    loop
        invariant_except_break
            current@.is_directory(),
            forall|j: int| 0 <= j < waiting@.len() ==> (#[trigger] views(waiting@)[j]).is_directory(),
            walker@ == (WalkerView {
                pattern: pattern@,
                pending: paths(views(waiting@)),
                phase: PhaseView::Opening { dir: current@.path },
            }),
            views(outcomes@) + walk(seq![current@] + views(waiting@), pattern@) == walk_from(
                root@,
                pattern@,
            ),
        ensures
            views(outcomes@) == walk_from(root@, pattern@),
        decreases weight(current@) + weights(views(waiting@)),
    {
        let ghost queue = seq![current@] + views(waiting@);
        let ghost sent_before = views(outcomes@);
        let ghost waited = views(waiting@);
        assert(queue[0] == current@);
        assert(queue.skip(1) =~= waited);
        proof {
            crate::tree::lemma_walk_shrinks(queue);
            crate::tree::lemma_weights_concat(seq![current@], waited);
            crate::tree::lemma_weights_single(current@);
            lemma_subdirs_are_directories(current@.entries());
        }
        expand(current, &mut walker, &mut waiting, &mut outcomes);
        let ghost queue_after = views(waiting@);
        assert(queue_after == waited + current@.children());
        assert(views(outcomes@) + walk(queue_after, pattern@) =~= sent_before + walk(
            queue,
            pattern@,
        ));
        match waiting.pop_front() {
            Some(next) => {
                assert(views(waiting@) =~= queue_after.skip(1));
                assert(seq![next@] + views(waiting@) =~= queue_after);
                assert(paths(views(waiting@)) =~= paths(queue_after).skip(1));
                proof {
                    crate::tree::lemma_weights_concat(seq![next@], views(waiting@));
                    crate::tree::lemma_weights_single(next@);
                }
                current = next;
            },
            None => {
                assert(queue_after =~= Seq::<NodeView>::empty());
                assert(walk(queue_after, pattern@) =~= Seq::empty());
                break ;
            },
        }
    }
    outcomes
}

} // verus!
