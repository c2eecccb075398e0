//! What holds of every search: the walk finds exactly the matching entries,
//! the two modes of delivery find the same, the order in which outcomes
//! arrive does not matter, and an unreadable directory costs one failure and
//! nothing beside it.
//!
//! The walkers of a search run side by side, so the outcomes arrive in an
//! order that is not known beforehand. Every such order is a rearrangement of
//! what the walkers send; the laws about arrivals are stated of every
//! rearrangement.

use crate::error::{ErrorView, IoErrorKind};
use crate::search::{
    batch_search, collected, errors_of, matches_of, stream_search, streamed, streamed_line, walks,
    LineView, SnapshotView,
};
use crate::text::is_substring;
use crate::tree::{
    lemma_walk_shrinks, listed, subdirs, walk, walk_from, weights, KindView, NodeView,
};
use crate::walker::OutcomeView;
use vstd::multiset::Multiset;
use vstd::prelude::*;

verus! {

/// What comes of a directory and of all that lies below it: the outcomes of
/// expanding the directory, then those of each of its entries in turn.
pub open spec fn below(node: NodeView, pattern: Seq<char>) -> Seq<OutcomeView>
    decreases node,
{
    match node.kind {
        KindView::Dir { entries, cut } => node.expanded(pattern) + belows(entries, pattern),
        _ => node.expanded(pattern),
    }
}

/// What comes of each of `nodes` in turn.
pub open spec fn belows(nodes: Seq<NodeView>, pattern: Seq<char>) -> Seq<OutcomeView>
    decreases nodes,
{
    if nodes.len() == 0 {
        Seq::empty()
    } else {
        belows(nodes.drop_last(), pattern) + below(nodes.last(), pattern)
    }
}

/// The entries that the listings at and below `node` show.
pub open spec fn entries_below(node: NodeView) -> Seq<NodeView>
    decreases node,
{
    match node.kind {
        KindView::Dir { entries, cut } => entries + entries_belows(entries),
        _ => Seq::empty(),
    }
}

/// The entries that the listings at and below each of `nodes` show.
pub open spec fn entries_belows(nodes: Seq<NodeView>) -> Seq<NodeView>
    decreases nodes,
{
    if nodes.len() == 0 {
        Seq::empty()
    } else {
        entries_belows(nodes.drop_last()) + entries_below(nodes.last())
    }
}

/// The path texts of those of `entries` whose path text contains `pattern`.
pub open spec fn matching(entries: Seq<NodeView>, pattern: Seq<char>) -> Seq<Seq<char>>
    decreases entries.len(),
{
    if entries.len() == 0 {
        Seq::empty()
    } else if is_substring(pattern, entries.last().path) {
        matching(entries.drop_last(), pattern).push(entries.last().path)
    } else {
        matching(entries.drop_last(), pattern)
    }
}

/// The texts of the lines for standard output among `lines`.
pub open spec fn written_out(lines: Seq<LineView>) -> Seq<Seq<char>>
    decreases lines.len(),
{
    if lines.len() == 0 {
        Seq::empty()
    } else {
        match lines.last() {
            LineView::Out(text) => written_out(lines.drop_last()).push(text),
            LineView::Diagnostic(text) => written_out(lines.drop_last()),
        }
    }
}

proof fn lemma_concat_multiset<A>(a: Seq<A>, b: Seq<A>)
    ensures
        (a + b).to_multiset() == a.to_multiset().add(b.to_multiset()),
{
    vstd::seq_lib::lemma_multiset_commutative(a, b);
}

proof fn lemma_belows_concat(a: Seq<NodeView>, b: Seq<NodeView>, pattern: Seq<char>)
    ensures
        belows(a + b, pattern) == belows(a, pattern) + belows(b, pattern),
    decreases b.len(),
{
    if b.len() == 0 {
        assert(a + b =~= a);
        assert(belows(a, pattern) + belows(b, pattern) =~= belows(a, pattern));
    } else {
        lemma_belows_concat(a, b.drop_last(), pattern);
        assert((a + b).drop_last() =~= a + b.drop_last());
        assert((a + b).last() == b.last());
        assert(belows(a + b, pattern) =~= belows(a, pattern) + belows(b, pattern));
    }
}

proof fn lemma_belows_single(node: NodeView, pattern: Seq<char>)
    ensures
        belows(seq![node], pattern) == below(node, pattern),
{
    assert(seq![node].drop_last() =~= Seq::<NodeView>::empty());
    assert(seq![node].last() == node);
    assert(belows(Seq::<NodeView>::empty(), pattern) =~= Seq::<OutcomeView>::empty());
    assert(belows(seq![node], pattern) =~= below(node, pattern));
}

proof fn lemma_belows_of_subdirs(entries: Seq<NodeView>, pattern: Seq<char>)
    ensures
        belows(subdirs(entries), pattern) == belows(entries, pattern),
    decreases entries.len(),
{
    if entries.len() > 0 {
        let last = entries.last();
        lemma_belows_of_subdirs(entries.drop_last(), pattern);
        if last.is_directory() {
            let kept = subdirs(entries.drop_last()).push(last);
            assert(kept.drop_last() =~= subdirs(entries.drop_last()));
            assert(kept.last() == last);
        } else {
            assert(below(last, pattern) =~= Seq::<OutcomeView>::empty());
            assert(belows(entries, pattern) =~= belows(entries.drop_last(), pattern));
        }
    }
}

/// A walk sends what comes of the directories that wait and of all that lies
/// below them, in another order: level by level.
pub proof fn lemma_walk_rearranges_below(queue: Seq<NodeView>, pattern: Seq<char>)
    ensures
        walk(queue, pattern).to_multiset() == belows(queue, pattern).to_multiset(),
    decreases weights(queue),
{
    if queue.len() > 0 {
        let first = queue[0];
        let rest = queue.skip(1);
        let next = rest + first.children();
        lemma_walk_shrinks(queue);
        lemma_walk_rearranges_below(next, pattern);
        lemma_belows_concat(rest, first.children(), pattern);
        lemma_belows_of_subdirs(first.entries(), pattern);
        assert(queue =~= seq![first] + rest);
        lemma_belows_concat(seq![first], rest, pattern);
        lemma_belows_single(first, pattern);
        assert(belows(Seq::<NodeView>::empty(), pattern) =~= Seq::<OutcomeView>::empty());
        let own = first.expanded(pattern);
        let deeper = belows(first.entries(), pattern);
        assert(below(first, pattern) =~= own + deeper);
        lemma_concat_multiset(own, walk(next, pattern));
        lemma_concat_multiset(belows(rest, pattern), deeper);
        lemma_concat_multiset(own, deeper);
        lemma_concat_multiset(below(first, pattern), belows(rest, pattern));
        assert(walk(queue, pattern).to_multiset() =~= belows(queue, pattern).to_multiset());
    }
}

proof fn lemma_matches_concat(a: Seq<OutcomeView>, b: Seq<OutcomeView>)
    ensures
        matches_of(a + b) == matches_of(a) + matches_of(b),
    decreases b.len(),
{
    if b.len() == 0 {
        assert(a + b =~= a);
        assert(matches_of(a) + matches_of(b) =~= matches_of(a));
    } else {
        lemma_matches_concat(a, b.drop_last());
        assert((a + b).drop_last() =~= a + b.drop_last());
        assert((a + b).last() == b.last());
        assert(matches_of(a + b) =~= matches_of(a) + matches_of(b));
    }
}

proof fn lemma_matching_concat(a: Seq<NodeView>, b: Seq<NodeView>, pattern: Seq<char>)
    ensures
        matching(a + b, pattern) == matching(a, pattern) + matching(b, pattern),
    decreases b.len(),
{
    if b.len() == 0 {
        assert(a + b =~= a);
        assert(matching(a, pattern) + matching(b, pattern) =~= matching(a, pattern));
    } else {
        lemma_matching_concat(a, b.drop_last(), pattern);
        assert((a + b).drop_last() =~= a + b.drop_last());
        assert((a + b).last() == b.last());
        assert(matching(a + b, pattern) =~= matching(a, pattern) + matching(b, pattern));
    }
}

proof fn lemma_matches_of_seen(entry: NodeView, pattern: Seq<char>)
    ensures
        matches_of(entry.seen(pattern)) == if is_substring(pattern, entry.path) {
            seq![entry.path]
        } else {
            Seq::empty()
        },
{
    let found = if is_substring(pattern, entry.path) {
        seq![OutcomeView::Match(entry.path)]
    } else {
        Seq::empty()
    };
    assert(matches_of(Seq::<OutcomeView>::empty()) =~= Seq::<Seq<char>>::empty());
    if is_substring(pattern, entry.path) {
        assert(found.drop_last() =~= Seq::<OutcomeView>::empty());
        assert(matches_of(found) =~= seq![entry.path]);
    }
    if let KindView::Unknown(kind) = entry.kind {
        let all = found.push(OutcomeView::DirError(entry.path, kind));
        assert(all.drop_last() =~= found);
    }
}

proof fn lemma_matches_of_listed(entries: Seq<NodeView>, pattern: Seq<char>)
    ensures
        matches_of(listed(entries, pattern)) == matching(entries, pattern),
    decreases entries.len(),
{
    if entries.len() > 0 {
        lemma_matches_of_listed(entries.drop_last(), pattern);
        lemma_matches_of_seen(entries.last(), pattern);
        lemma_matches_concat(listed(entries.drop_last(), pattern), entries.last().seen(pattern));
        assert(matches_of(listed(entries, pattern)) =~= matching(entries, pattern));
    }
}

proof fn lemma_matches_of_expanded(node: NodeView, pattern: Seq<char>)
    ensures
        matches_of(node.expanded(pattern)) == matching(node.entries(), pattern),
{
    assert(matches_of(Seq::<OutcomeView>::empty()) =~= Seq::<Seq<char>>::empty());
    match node.kind {
        KindView::Denied(kind) => {
            assert(seq![OutcomeView::DirError(node.path, kind)].drop_last() =~= Seq::<
                OutcomeView,
            >::empty());
        },
        KindView::Dir { entries, cut } => {
            lemma_matches_of_listed(entries, pattern);
            if let Some(kind) = cut {
                let all = listed(entries, pattern).push(OutcomeView::DirError(node.path, kind));
                assert(all.drop_last() =~= listed(entries, pattern));
            }
        },
        _ => {},
    }
}

/// The matches that come of a directory and of all below it are the entries
/// shown there whose path text contains the pattern.
pub proof fn lemma_matches_below(node: NodeView, pattern: Seq<char>)
    ensures
        matches_of(below(node, pattern)) == matching(entries_below(node), pattern),
    decreases node,
{
    lemma_matches_of_expanded(node, pattern);
    match node.kind {
        KindView::Dir { entries, cut } => {
            lemma_matches_belows(entries, pattern);
            lemma_matches_concat(node.expanded(pattern), belows(entries, pattern));
            lemma_matching_concat(entries, entries_belows(entries), pattern);
        },
        _ => {},
    }
}

/// The same of a sequence of directories.
pub proof fn lemma_matches_belows(nodes: Seq<NodeView>, pattern: Seq<char>)
    ensures
        matches_of(belows(nodes, pattern)) == matching(entries_belows(nodes), pattern),
    decreases nodes,
{
    if nodes.len() > 0 {
        lemma_matches_belows(nodes.drop_last(), pattern);
        lemma_matches_below(nodes.last(), pattern);
        lemma_matches_concat(belows(nodes.drop_last(), pattern), below(nodes.last(), pattern));
        lemma_matching_concat(
            entries_belows(nodes.drop_last()),
            entries_below(nodes.last()),
            pattern,
        );
    }
}

/// A path is among the matches as often as it is among the outcomes.
pub proof fn lemma_matches_count(outcomes: Seq<OutcomeView>, path: Seq<char>)
    ensures
        matches_of(outcomes).to_multiset().count(path) == outcomes.to_multiset().count(
            OutcomeView::Match(path),
        ),
    decreases outcomes.len(),
{
    broadcast use vstd::multiset::group_multiset_axioms;

    if outcomes.len() == 0 {
        outcomes.to_multiset_ensures();
        matches_of(outcomes).to_multiset_ensures();
        assert(outcomes.to_multiset().len() == 0);
        assert(matches_of(outcomes).to_multiset().len() == 0);
    } else {
        let front = outcomes.drop_last();
        lemma_matches_count(front, path);
        assert(outcomes =~= front.push(outcomes.last()));
        vstd::seq_lib::to_multiset_build(front, outcomes.last());
        match outcomes.last() {
            OutcomeView::Match(found) => {
                vstd::seq_lib::to_multiset_build(matches_of(front), found);
            },
            OutcomeView::DirError(at, kind) => {},
        }
    }
}

/// A failure is among the failures as often as it is among the outcomes.
pub proof fn lemma_errors_count(outcomes: Seq<OutcomeView>, kind: IoErrorKind, path: Seq<char>)
    ensures
        errors_of(outcomes).to_multiset().count(ErrorView::IO(kind, path))
            == outcomes.to_multiset().count(OutcomeView::DirError(path, kind)),
    decreases outcomes.len(),
{
    broadcast use vstd::multiset::group_multiset_axioms;

    if outcomes.len() == 0 {
        outcomes.to_multiset_ensures();
        errors_of(outcomes).to_multiset_ensures();
        assert(outcomes.to_multiset().len() == 0);
        assert(errors_of(outcomes).to_multiset().len() == 0);
    } else {
        let front = outcomes.drop_last();
        lemma_errors_count(front, kind, path);
        assert(outcomes =~= front.push(outcomes.last()));
        vstd::seq_lib::to_multiset_build(front, outcomes.last());
        match outcomes.last() {
            OutcomeView::Match(found) => {},
            OutcomeView::DirError(at, why) => {
                vstd::seq_lib::to_multiset_build(errors_of(front), ErrorView::IO(why, at));
            },
        }
    }
}

/// Outcomes that are rearranged hold the same matches, rearranged.
pub proof fn lemma_matches_of_rearranged(first: Seq<OutcomeView>, second: Seq<OutcomeView>)
    requires
        first.to_multiset() == second.to_multiset(),
    ensures
        matches_of(first).to_multiset() == matches_of(second).to_multiset(),
{
    assert forall|path: Seq<char>|
        matches_of(first).to_multiset().count(path) == matches_of(second).to_multiset().count(
            path,
        ) by {
        lemma_matches_count(first, path);
        lemma_matches_count(second, path);
    }
    assert(matches_of(first).to_multiset() =~= matches_of(second).to_multiset());
}

/// The matches that a walk from `root` sends are, counted as often as they
/// occur, the path texts of the entries below `root` that contain the
/// pattern: none is left out and none is made up.
pub proof fn law_walk_finds_the_matching_entries(root: NodeView, pattern: Seq<char>)
    ensures
        matches_of(walk_from(root, pattern)).to_multiset() == matching(
            entries_below(root),
            pattern,
        ).to_multiset(),
{
    lemma_walk_rearranges_below(seq![root], pattern);
    lemma_belows_single(root, pattern);
    lemma_matches_of_rearranged(walk_from(root, pattern), below(root, pattern));
    lemma_matches_below(root, pattern);
}

/// Streaming mode writes to standard output the paths of the matches, in the
/// order in which they arrive, whatever `debug` is.
pub proof fn lemma_streamed_writes_the_matches(outcomes: Seq<OutcomeView>, debug: bool)
    ensures
        written_out(streamed(outcomes, debug)) == matches_of(outcomes),
    decreases outcomes.len(),
{
    if outcomes.len() > 0 {
        let front = outcomes.drop_last();
        lemma_streamed_writes_the_matches(front, debug);
        match streamed_line(outcomes.last(), debug) {
            Some(line) => {
                assert(streamed(front, debug).push(line).drop_last() =~= streamed(front, debug));
            },
            None => {},
        }
    }
}

/// A path is among the matching entries exactly where an entry has that path
/// text and the text contains the pattern.
pub proof fn lemma_matching_members(entries: Seq<NodeView>, pattern: Seq<char>, path: Seq<char>)
    ensures
        matching(entries, pattern).contains(path) <==> (is_substring(pattern, path) && exists|
            i: int,
        |
            0 <= i < entries.len() && (#[trigger] entries[i]).path == path),
    decreases entries.len(),
{
    if entries.len() > 0 {
        let front = entries.drop_last();
        let last = entries.last();
        lemma_matching_members(front, pattern, path);
        let kept = matching(entries, pattern);
        let before = matching(front, pattern);
        if before.contains(path) {
            let k = choose|k: int| 0 <= k < before.len() && before[k] == path;
            assert(kept[k] == path);
            let i = choose|i: int| 0 <= i < front.len() && (#[trigger] front[i]).path == path;
            assert(entries[i].path == path);
        }
        if kept.contains(path) && !before.contains(path) {
            let k = choose|k: int| 0 <= k < kept.len() && kept[k] == path;
            if k < before.len() {
                assert(before[k] == path);
            }
            assert(entries[entries.len() - 1].path == path);
        }
        if is_substring(pattern, path) && exists|i: int|
            0 <= i < entries.len() && (#[trigger] entries[i]).path == path {
            let i = choose|i: int| 0 <= i < entries.len() && (#[trigger] entries[i]).path == path;
            if i < front.len() {
                assert(front[i].path == path);
            } else {
                assert(kept[before.len() as int] == path);
            }
        }
    }
}

/// The walk from `root` reports a path exactly where an entry below `root`
/// has that path text and the text contains the pattern: there are no false
/// matches and no omissions. This holds of every order in which the outcomes
/// arrive.
pub proof fn law_matches_are_exact(
    root: NodeView,
    pattern: Seq<char>,
    arrival: Seq<OutcomeView>,
    path: Seq<char>,
)
    requires
        arrival.to_multiset() == walk_from(root, pattern).to_multiset(),
    ensures
        matches_of(arrival).contains(path) <==> (is_substring(pattern, path) && exists|i: int|
            0 <= i < entries_below(root).len() && (#[trigger] entries_below(root)[i]).path
                == path),
{
    broadcast use vstd::seq_lib::to_multiset_contains;

    law_walk_finds_the_matching_entries(root, pattern);
    lemma_matches_of_rearranged(arrival, walk_from(root, pattern));
    lemma_matching_members(entries_below(root), pattern, path);
    let reported = matches_of(arrival);
    let expected = matching(entries_below(root), pattern);
    assert(reported.to_multiset().count(path) == expected.to_multiset().count(path));
    assert(reported.contains(path) <==> reported.to_multiset().count(path) > 0);
    assert(expected.contains(path) <==> expected.to_multiset().count(path) > 0);
}

/// Batch mode and streaming mode, fed with the outcomes of the same walkers
/// in whatever order they arrive in either, report the same matches, each as
/// often as the other.
pub proof fn law_modes_report_the_same_matches(
    sent: Seq<OutcomeView>,
    batch_arrival: Seq<OutcomeView>,
    stream_arrival: Seq<OutcomeView>,
    batch_debug: bool,
    stream_debug: bool,
)
    requires
        batch_arrival.to_multiset() == sent.to_multiset(),
        stream_arrival.to_multiset() == sent.to_multiset(),
    ensures
        collected(batch_arrival, batch_debug).found.to_multiset() == written_out(
            streamed(stream_arrival, stream_debug),
        ).to_multiset(),
        collected(batch_arrival, batch_debug).found.to_set() == written_out(
            streamed(stream_arrival, stream_debug),
        ).to_set(),
{
    lemma_streamed_writes_the_matches(stream_arrival, stream_debug);
    lemma_matches_of_rearranged(batch_arrival, stream_arrival);
    lemma_same_multiset_same_set(matches_of(batch_arrival), matches_of(stream_arrival));
}

/// On one machine the two modes report the same matches.
pub proof fn law_modes_agree_on_a_snapshot(
    pattern: Seq<char>,
    selected: Option<Seq<Seq<char>>>,
    batch_debug: bool,
    stream_debug: bool,
    snapshot: SnapshotView,
)
    ensures
        match batch_search(pattern, selected, batch_debug, snapshot) {
            Ok(result) => written_out(stream_search(pattern, selected, stream_debug, snapshot))
                == result.found,
            Err(error) => stream_search(pattern, selected, stream_debug, snapshot)
                == seq![LineView::Diagnostic(error.rendered())],
        },
{
    match crate::search::resolved_roots(selected, snapshot.bit_mask, snapshot.last_error) {
        Ok(roots) => {
            lemma_streamed_writes_the_matches(
                walks(roots, snapshot.roots, pattern),
                stream_debug,
            );
        },
        Err(error) => {},
    }
}

/// Sequences that hold the same items as often hold the same items.
pub proof fn lemma_same_multiset_same_set<A>(first: Seq<A>, second: Seq<A>)
    requires
        first.to_multiset() == second.to_multiset(),
    ensures
        first.to_set() == second.to_set(),
{
    broadcast use vstd::seq_lib::to_multiset_contains;

    assert forall|item: A| first.to_set().contains(item) == second.to_set().contains(item) by {
        assert(first.contains(item) <==> first.to_multiset().count(item) > 0);
        assert(second.contains(item) <==> second.to_multiset().count(item) > 0);
    }
    assert(first.to_set() =~= second.to_set());
}

/// A search that is run twice over the same trees finds the same matches,
/// whatever the order in which the outcomes arrive each time, and whether or
/// not failures are collected.
pub proof fn law_search_is_repeatable(
    roots: Seq<Seq<char>>,
    trees: Seq<NodeView>,
    pattern: Seq<char>,
    first_arrival: Seq<OutcomeView>,
    second_arrival: Seq<OutcomeView>,
    first_debug: bool,
    second_debug: bool,
)
    requires
        first_arrival.to_multiset() == walks(roots, trees, pattern).to_multiset(),
        second_arrival.to_multiset() == walks(roots, trees, pattern).to_multiset(),
    ensures
        collected(first_arrival, first_debug).found.to_set() == collected(
            second_arrival,
            second_debug,
        ).found.to_set(),
        collected(first_arrival, first_debug).found.to_multiset() == collected(
            second_arrival,
            second_debug,
        ).found.to_multiset(),
{
    lemma_matches_of_rearranged(first_arrival, second_arrival);
    lemma_same_multiset_same_set(matches_of(first_arrival), matches_of(second_arrival));
}

/// Without `debug` no failure is ever held, whatever arrives.
pub proof fn law_failures_are_dropped_without_debug(arrival: Seq<OutcomeView>)
    ensures
        collected(arrival, false).errors is None,
        collected(arrival, true).errors == Some(errors_of(arrival)),
{
}

/// The node that is reached from `node` by going, at each directory on the
/// way, to the entry whose index `position` gives next.
pub open spec fn node_at(node: NodeView, position: Seq<int>) -> Option<NodeView>
    decreases position.len(),
{
    if position.len() == 0 {
        Some(node)
    } else {
        match node.kind {
            KindView::Dir { entries, cut } => if 0 <= position[0] < entries.len() {
                node_at(entries[position[0]], position.skip(1))
            } else {
                None
            },
            _ => None,
        }
    }
}

/// The tree of `node` with `new` in the place that `position` leads to. Where
/// it leads nowhere, the tree is left as it is.
pub open spec fn replaced(node: NodeView, position: Seq<int>, new: NodeView) -> NodeView
    decreases position.len(),
{
    if position.len() == 0 {
        new
    } else {
        match node.kind {
            KindView::Dir { entries, cut } => if 0 <= position[0] < entries.len() {
                NodeView {
                    path: node.path,
                    kind: KindView::Dir {
                        entries: entries.update(
                            position[0],
                            replaced(entries[position[0]], position.skip(1), new),
                        ),
                        cut,
                    },
                }
            } else {
                node
            },
            _ => node,
        }
    }
}

/// The directory at the path of `node` that cannot be opened, for the reason
/// `kind`.
pub open spec fn unreadable(node: NodeView, kind: IoErrorKind) -> NodeView {
    NodeView { path: node.path, kind: KindView::Denied(kind) }
}

proof fn lemma_listed_alike(a: Seq<NodeView>, b: Seq<NodeView>, pattern: Seq<char>)
    requires
        a.len() == b.len(),
        forall|j: int| 0 <= j < a.len() ==> (#[trigger] a[j]).seen(pattern) == b[j].seen(pattern),
    ensures
        listed(a, pattern) == listed(b, pattern),
    decreases a.len(),
{
    if a.len() > 0 {
        assert forall|j: int| 0 <= j < a.drop_last().len() implies (#[trigger] a.drop_last()[j]).seen(
            pattern,
        ) == b.drop_last()[j].seen(pattern) by {
            assert(a.drop_last()[j] == a[j]);
            assert(b.drop_last()[j] == b[j]);
        }
        lemma_listed_alike(a.drop_last(), b.drop_last(), pattern);
        assert(a[a.len() - 1].seen(pattern) == b[a.len() - 1].seen(pattern));
    }
}

proof fn lemma_belows_update(entries: Seq<NodeView>, i: int, new: NodeView, pattern: Seq<char>)
    requires
        0 <= i < entries.len(),
    ensures
        belows(entries.update(i, new), pattern).to_multiset().add(
            below(entries[i], pattern).to_multiset(),
        ) == belows(entries, pattern).to_multiset().add(below(new, pattern).to_multiset()),
{
    let front = entries.take(i);
    let back = entries.skip(i + 1);
    assert(entries =~= front + seq![entries[i]] + back);
    assert(entries.update(i, new) =~= front + seq![new] + back);
    lemma_belows_concat(front, seq![entries[i]], pattern);
    lemma_belows_concat(front + seq![entries[i]], back, pattern);
    lemma_belows_concat(front, seq![new], pattern);
    lemma_belows_concat(front + seq![new], back, pattern);
    lemma_belows_single(entries[i], pattern);
    lemma_belows_single(new, pattern);
    let f = belows(front, pattern);
    let b = belows(back, pattern);
    lemma_concat_multiset(f, below(entries[i], pattern));
    lemma_concat_multiset(f + below(entries[i], pattern), b);
    lemma_concat_multiset(f, below(new, pattern));
    lemma_concat_multiset(f + below(new, pattern), b);
    assert(belows(entries.update(i, new), pattern).to_multiset().add(
        below(entries[i], pattern).to_multiset(),
    ) =~= belows(entries, pattern).to_multiset().add(below(new, pattern).to_multiset()));
}

/// Putting another node in the place of one changes what comes of the tree by
/// what comes of the two nodes, and by nothing else, as long as the two are
/// read alike as entries: they have the same path text and the metadata of
/// both can be read.
pub proof fn lemma_replaced_below(
    node: NodeView,
    position: Seq<int>,
    old: NodeView,
    new: NodeView,
    pattern: Seq<char>,
)
    requires
        node_at(node, position) == Some(old),
        new.path == old.path,
        !(old.kind is Unknown),
        !(new.kind is Unknown),
    ensures
        below(replaced(node, position, new), pattern).to_multiset().add(
            below(old, pattern).to_multiset(),
        ) == below(node, pattern).to_multiset().add(below(new, pattern).to_multiset()),
        replaced(node, position, new).path == node.path,
        !(node.kind is Unknown) ==> !(replaced(node, position, new).kind is Unknown),
    decreases position.len(),
{
    broadcast use vstd::multiset::group_multiset_axioms;

    if position.len() == 0 {
        assert(below(new, pattern).to_multiset().add(below(old, pattern).to_multiset())
            =~= below(old, pattern).to_multiset().add(below(new, pattern).to_multiset()));
    } else {
        match node.kind {
            KindView::Dir { entries, cut } => {
                let i = position[0];
                let child = entries[i];
                let put = replaced(child, position.skip(1), new);
                let after = replaced(node, position, new);
                let changed = entries.update(i, put);
                lemma_replaced_below(child, position.skip(1), old, new, pattern);
                lemma_belows_update(entries, i, put, pattern);
                if position.skip(1).len() > 0 {
                    assert(child.kind is Dir);
                }
                assert(put.seen(pattern) == child.seen(pattern));
                assert forall|j: int| 0 <= j < entries.len() implies (#[trigger] entries[j]).seen(
                    pattern,
                ) == changed[j].seen(pattern) by {}
                lemma_listed_alike(entries, changed, pattern);
                assert(after.expanded(pattern) == node.expanded(pattern));
                let own = node.expanded(pattern);
                lemma_concat_multiset(own, belows(entries, pattern));
                lemma_concat_multiset(own, belows(changed, pattern));
                let lhs = below(after, pattern).to_multiset().add(below(old, pattern).to_multiset());
                let rhs = below(node, pattern).to_multiset().add(below(new, pattern).to_multiset());
                let swapped = belows(changed, pattern).to_multiset().add(
                    below(child, pattern).to_multiset(),
                );
                let kept = belows(entries, pattern).to_multiset().add(
                    below(put, pattern).to_multiset(),
                );
                let inner_lhs = below(put, pattern).to_multiset().add(
                    below(old, pattern).to_multiset(),
                );
                let inner_rhs = below(child, pattern).to_multiset().add(
                    below(new, pattern).to_multiset(),
                );
                assert(swapped == kept);
                assert(inner_lhs == inner_rhs);
                assert forall|outcome: OutcomeView| lhs.count(outcome) == rhs.count(outcome) by {
                    assert(swapped.count(outcome) == kept.count(outcome));
                    assert(inner_lhs.count(outcome) == inner_rhs.count(outcome));
                }
                assert(lhs =~= rhs);
            },
            _ => {},
        }
    }
}

/// When a directory somewhere in the tree becomes unreadable, the walk sends
/// what it sent before, less what came of the directory and of all below it,
/// and one failure for the directory on top: exactly one, and nothing that
/// comes of the rest of the tree is lost or added.
pub proof fn law_unreadable_directory_costs_one_failure(
    root: NodeView,
    position: Seq<int>,
    dir: NodeView,
    kind: IoErrorKind,
    pattern: Seq<char>,
)
    requires
        node_at(root, position) == Some(dir),
        dir.kind is Dir,
    ensures
        walk_from(replaced(root, position, unreadable(dir, kind)), pattern).to_multiset().add(
            below(dir, pattern).to_multiset(),
        ) == walk_from(root, pattern).to_multiset().insert(OutcomeView::DirError(dir.path, kind)),
{
    broadcast use vstd::multiset::group_multiset_axioms;

    let shut = unreadable(dir, kind);
    let after = replaced(root, position, shut);
    lemma_replaced_below(root, position, dir, shut, pattern);
    lemma_walk_rearranges_below(seq![root], pattern);
    lemma_walk_rearranges_below(seq![after], pattern);
    lemma_belows_single(root, pattern);
    lemma_belows_single(after, pattern);
    let failure = OutcomeView::DirError(dir.path, kind);
    assert(below(shut, pattern) =~= Seq::<OutcomeView>::empty().push(failure));
    vstd::seq_lib::to_multiset_build(Seq::<OutcomeView>::empty(), failure);
    Seq::<OutcomeView>::empty().to_multiset_ensures();
    assert(Seq::<OutcomeView>::empty().to_multiset() =~= Multiset::<OutcomeView>::empty());
    assert(walk_from(after, pattern).to_multiset().add(below(dir, pattern).to_multiset())
        =~= walk_from(root, pattern).to_multiset().insert(failure));
}

/// How often `path` is among the matches that come of `outcomes`.
pub open spec fn times_found(outcomes: Seq<OutcomeView>, path: Seq<char>) -> nat {
    matches_of(outcomes).to_multiset().count(path)
}

/// How often the failure of `kind` at `path` is among the failures that come
/// of `outcomes`.
pub open spec fn times_failed(outcomes: Seq<OutcomeView>, kind: IoErrorKind, path: Seq<char>) -> nat {
    errors_of(outcomes).to_multiset().count(ErrorView::IO(kind, path))
}

/// The same in terms of what batch mode holds at the end, with failures
/// collected: when a directory becomes unreadable, the failure for it is
/// held once more than before, every other failure and every match is held
/// as often as before, in both cases less what had come of the directory and
/// of all below it. So the matches of its siblings are all still there.
pub proof fn law_unreadable_directory_in_the_result(
    root: NodeView,
    position: Seq<int>,
    dir: NodeView,
    kind: IoErrorKind,
    pattern: Seq<char>,
    arrival_before: Seq<OutcomeView>,
    arrival_after: Seq<OutcomeView>,
    path: Seq<char>,
    other: IoErrorKind,
)
    requires
        node_at(root, position) == Some(dir),
        dir.kind is Dir,
        arrival_before.to_multiset() == walk_from(root, pattern).to_multiset(),
        arrival_after.to_multiset() == walk_from(
            replaced(root, position, unreadable(dir, kind)),
            pattern,
        ).to_multiset(),
    ensures
        times_found(arrival_after, path) + times_found(below(dir, pattern), path) == times_found(
            arrival_before,
            path,
        ),
        times_failed(arrival_after, other, path) + times_failed(below(dir, pattern), other, path)
            == times_failed(arrival_before, other, path) + if other == kind && path == dir.path {
            1nat
        } else {
            0nat
        },
{
    broadcast use vstd::multiset::group_multiset_axioms;

    law_unreadable_directory_costs_one_failure(root, position, dir, kind, pattern);
    let after = walk_from(replaced(root, position, unreadable(dir, kind)), pattern);
    let before = walk_from(root, pattern);
    let inside = below(dir, pattern);
    let failure = OutcomeView::DirError(dir.path, kind);
    let lhs = after.to_multiset().add(inside.to_multiset());
    let rhs = before.to_multiset().insert(failure);
    assert(lhs == rhs);
    lemma_matches_count(arrival_after, path);
    lemma_matches_count(arrival_before, path);
    lemma_matches_count(inside, path);
    lemma_errors_count(arrival_after, other, path);
    lemma_errors_count(arrival_before, other, path);
    lemma_errors_count(inside, other, path);
    assert(lhs.count(OutcomeView::Match(path)) == rhs.count(OutcomeView::Match(path)));
    assert(lhs.count(OutcomeView::DirError(path, other)) == rhs.count(
        OutcomeView::DirError(path, other),
    ));
}

/// The entries that a search sees: those that the listings show at and below
/// the trees that stand at the roots.
pub open spec fn entries_searched(roots: Seq<Seq<char>>, trees: Seq<NodeView>) -> Seq<NodeView>
    decreases roots.len(),
{
    if roots.len() == 0 {
        Seq::empty()
    } else {
        entries_searched(roots.drop_last(), trees) + match crate::search::tree_at(
            trees,
            roots.last(),
        ) {
            Some(tree) => entries_below(tree),
            None => Seq::empty(),
        }
    }
}

/// The matches of a search over several roots are, counted as often as they
/// occur, the path texts of the entries searched that contain the pattern.
pub proof fn lemma_search_finds_the_matching_entries(
    roots: Seq<Seq<char>>,
    trees: Seq<NodeView>,
    pattern: Seq<char>,
)
    ensures
        matches_of(walks(roots, trees, pattern)).to_multiset() == matching(
            entries_searched(roots, trees),
            pattern,
        ).to_multiset(),
    decreases roots.len(),
{
    if roots.len() > 0 {
        let front = roots.drop_last();
        lemma_search_finds_the_matching_entries(front, trees, pattern);
        let sent = crate::search::root_walk(trees, roots.last(), pattern);
        let seen = match crate::search::tree_at(trees, roots.last()) {
            Some(tree) => entries_below(tree),
            None => Seq::empty(),
        };
        match crate::search::tree_at(trees, roots.last()) {
            Some(tree) => {
                law_walk_finds_the_matching_entries(tree, pattern);
            },
            None => {},
        }
        assert(matches_of(sent).to_multiset() == matching(seen, pattern).to_multiset());
        lemma_matches_concat(walks(front, trees, pattern), sent);
        lemma_matching_concat(entries_searched(front, trees), seen, pattern);
        lemma_concat_multiset(matches_of(walks(front, trees, pattern)), matches_of(sent));
        lemma_concat_multiset(
            matching(entries_searched(front, trees), pattern),
            matching(seen, pattern),
        );
    }
}

/// A search reports a path exactly where an entry that it sees has that path
/// text and the text contains the pattern, whatever the order in which the
/// outcomes of its walkers arrive and whichever mode collects them.
pub proof fn law_search_matches_are_exact(
    roots: Seq<Seq<char>>,
    trees: Seq<NodeView>,
    pattern: Seq<char>,
    arrival: Seq<OutcomeView>,
    debug: bool,
    path: Seq<char>,
)
    requires
        arrival.to_multiset() == walks(roots, trees, pattern).to_multiset(),
    ensures
        collected(arrival, debug).found.contains(path) <==> (is_substring(pattern, path)
            && exists|i: int|
            0 <= i < entries_searched(roots, trees).len() && (#[trigger] entries_searched(
                roots,
                trees,
            )[i]).path == path),
        written_out(streamed(arrival, debug)).contains(path) <==> collected(
            arrival,
            debug,
        ).found.contains(path),
{
    broadcast use vstd::seq_lib::to_multiset_contains;

    lemma_search_finds_the_matching_entries(roots, trees, pattern);
    lemma_matches_of_rearranged(arrival, walks(roots, trees, pattern));
    lemma_matching_members(entries_searched(roots, trees), pattern, path);
    lemma_streamed_writes_the_matches(arrival, debug);
    let reported = matches_of(arrival);
    let expected = matching(entries_searched(roots, trees), pattern);
    assert(reported.to_multiset().count(path) == expected.to_multiset().count(path));
    assert(reported.contains(path) <==> reported.to_multiset().count(path) > 0);
    assert(expected.contains(path) <==> expected.to_multiset().count(path) > 0);
}

} // verus!
