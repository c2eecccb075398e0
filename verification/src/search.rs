//! Collecting what the walkers send, in the two modes of delivery, and the
//! search as a whole over a snapshot of the machine.

use crate::drives::{available_drives, drive_root, drive_root_text, get_available_drive_names};
use crate::error::{Error, ErrorView};
use crate::input::PathSet;
use crate::replay::walk_tree;
use crate::seqs::{lemma_views_push, views};
use crate::text::owned;
use crate::tree::{lemma_node_views, node_views, walk_from, Node, NodeView};
use crate::walker::{OutcomeView, WalkOutcome};
use vstd::prelude::*;

verus! {

/// One line of output.
#[derive(Debug)]
pub enum OutputLine {
    /// A line for standard output.
    Out(String),
    /// A line for diagnostic output.
    Diagnostic(String),
}

/// The mathematical value of an [`OutputLine`].
pub enum LineView {
    Out(Seq<char>),
    Diagnostic(Seq<char>),
}

impl View for OutputLine {
    type V = LineView;

    open spec fn view(&self) -> LineView {
        match self {
            OutputLine::Out(text) => LineView::Out(text@),
            OutputLine::Diagnostic(text) => LineView::Diagnostic(text@),
        }
    }
}

/// What a search in batch mode found.
#[derive(Debug)]
pub struct SearchResult {
    /// The paths that matched, in the order in which they arrived.
    pub found: Vec<String>,
    /// The failures in the order in which they arrived, where failures were
    /// asked for.
    pub errors: Option<Vec<Error>>,
}

/// The mathematical value of a [`SearchResult`].
pub struct ResultView {
    pub found: Seq<Seq<char>>,
    pub errors: Option<Seq<ErrorView>>,
}

impl View for SearchResult {
    type V = ResultView;

    open spec fn view(&self) -> ResultView {
        ResultView {
            found: views(self.found@),
            errors: match self.errors {
                Some(errors) => Some(views(errors@)),
                None => None,
            },
        }
    }
}

/// The paths of the matches among `outcomes`, in their order.
pub open spec fn matches_of(outcomes: Seq<OutcomeView>) -> Seq<Seq<char>>
    decreases outcomes.len(),
{
    if outcomes.len() == 0 {
        Seq::empty()
    } else {
        match outcomes.last() {
            OutcomeView::Match(path) => matches_of(outcomes.drop_last()).push(path),
            OutcomeView::DirError(path, kind) => matches_of(outcomes.drop_last()),
        }
    }
}

/// The failures among `outcomes`, in their order.
pub open spec fn errors_of(outcomes: Seq<OutcomeView>) -> Seq<ErrorView>
    decreases outcomes.len(),
{
    if outcomes.len() == 0 {
        Seq::empty()
    } else {
        match outcomes.last() {
            OutcomeView::Match(path) => errors_of(outcomes.drop_last()),
            OutcomeView::DirError(path, kind) => errors_of(outcomes.drop_last()).push(
                ErrorView::IO(kind, path),
            ),
        }
    }
}

/// What batch mode makes of the outcomes that arrive: the matches, and the
/// failures where `debug` is set. Without `debug` failures are dropped.
pub open spec fn collected(outcomes: Seq<OutcomeView>, debug: bool) -> ResultView {
    ResultView {
        found: matches_of(outcomes),
        errors: if debug {
            Some(errors_of(outcomes))
        } else {
            None
        },
    }
}

/// The line that streaming mode writes for an outcome, if it writes one: the
/// path of a match, and the rendered failure where `debug` is set.
pub open spec fn streamed_line(outcome: OutcomeView, debug: bool) -> Option<LineView> {
    match outcome {
        OutcomeView::Match(path) => Some(LineView::Out(path)),
        OutcomeView::DirError(path, kind) => if debug {
            Some(LineView::Diagnostic(ErrorView::IO(kind, path).rendered()))
        } else {
            None
        },
    }
}

/// The lines that streaming mode writes for the outcomes that arrive.
pub open spec fn streamed(outcomes: Seq<OutcomeView>, debug: bool) -> Seq<LineView>
    decreases outcomes.len(),
{
    if outcomes.len() == 0 {
        Seq::empty()
    } else {
        match streamed_line(outcomes.last(), debug) {
            Some(line) => streamed(outcomes.drop_last(), debug).push(line),
            None => streamed(outcomes.drop_last(), debug),
        }
    }
}

impl ResultView {
    /// The result before anything has arrived.
    pub open spec fn empty(debug: bool) -> ResultView {
        collected(Seq::empty(), debug)
    }

    /// The result once `outcome` has arrived as well.
    pub open spec fn record(self, outcome: OutcomeView) -> ResultView {
        match outcome {
            OutcomeView::Match(path) => ResultView { found: self.found.push(path), ..self },
            OutcomeView::DirError(path, kind) => ResultView {
                errors: match self.errors {
                    Some(errors) => Some(errors.push(ErrorView::IO(kind, path))),
                    None => None,
                },
                ..self
            },
        }
    }

    /// The lines that report the result: a heading and the paths that were
    /// found, then, where failures were collected, a heading and the failures.
    /// The failures go to diagnostic output, all else to standard output.
    pub open spec fn report(self) -> Seq<LineView> {
        let found = seq![LineView::Out("Results:"@)] + self.found.map_values(
            |path: Seq<char>| LineView::Out(path),
        );
        match self.errors {
            Some(errors) => found + seq![LineView::Out("Errors:"@)] + errors.map_values(
                |error: ErrorView| LineView::Diagnostic(error.rendered()),
            ),
            None => found,
        }
    }
}

/// Collecting one outcome more is recording it.
pub proof fn lemma_collected_push(outcomes: Seq<OutcomeView>, outcome: OutcomeView, debug: bool)
    ensures
        collected(outcomes.push(outcome), debug) == collected(outcomes, debug).record(outcome),
{
    assert(outcomes.push(outcome).drop_last() =~= outcomes);
}

impl SearchResult {
    /// The result made of the paths found and, where they were collected, the
    /// failures.
    pub fn new(found: Vec<String>, errors: Option<Vec<Error>>) -> (result: SearchResult)
        ensures
            result.found == found,
            result.errors == errors,
    {
        SearchResult { found, errors }
    }

    /// The result before anything has arrived. Failures are collected only
    /// where `debug` is set.
    pub fn empty(debug: bool) -> (result: SearchResult)
        ensures
            result@ == ResultView::empty(debug),
    {
        let found: Vec<String> = Vec::new();
        assert(views(found@) =~= Seq::<Seq<char>>::empty());
        if debug {
            let errors: Vec<Error> = Vec::new();
            assert(views(errors@) =~= Seq::<ErrorView>::empty());
            SearchResult::new(found, Some(errors))
        } else {
            SearchResult::new(found, None)
        }
    }

    /// Takes in an outcome that arrived: a match is put behind the paths
    /// found; a failure is put behind the failures where they are collected,
    /// and dropped where they are not.
    pub fn record(&mut self, outcome: WalkOutcome)
        ensures
            final(self)@ == old(self)@.record(outcome@),
            final(self).errors is Some <==> old(self).errors is Some,
    {
        match outcome {
            WalkOutcome::Match(path) => {
                proof {
                    lemma_views_push(self.found@, path);
                }
                self.found.push(path);
            },
            WalkOutcome::DirError(path, kind) => {
                match &mut self.errors {
                    Some(errors) => {
                        let error = Error::IO(kind, path);
                        proof {
                            lemma_views_push(errors@, error);
                        }
                        errors.push(error);
                    },
                    None => {},
                }
            },
        }
    }

    /// The lines that report the result. Writing them is left to the caller.
    pub fn report(&self) -> (lines: Vec<OutputLine>)
        ensures
            views(lines@) == self@.report(),
    {
        let mut lines: Vec<OutputLine> = Vec::new();
        lines.push(OutputLine::Out(owned("Results:")));
        let ghost found = views(self.found@);
        let mut i: usize = 0;
        assert(views(lines@) =~= seq![LineView::Out("Results:"@)] + found.take(0).map_values(
            |path: Seq<char>| LineView::Out(path),
        ));
        while i < self.found.len()
            invariant
                0 <= i <= self.found.len(),
                found == views(self.found@),
                views(lines@) == seq![LineView::Out("Results:"@)] + found.take(i as int).map_values(
                    |path: Seq<char>| LineView::Out(path),
                ),
            decreases self.found.len() - i,
        {
            let line = OutputLine::Out(self.found[i].clone());
            proof {
                lemma_views_push(lines@, line);
            }
            lines.push(line);
            i = i + 1;
            assert(views(lines@) =~= seq![LineView::Out("Results:"@)] + found.take(
                i as int,
            ).map_values(|path: Seq<char>| LineView::Out(path)));
        }
        assert(found.take(i as int) =~= found);
        match &self.errors {
            Some(errors) => {
                let ghost head = views(lines@);
                let ghost failures = views(errors@);
                let heading = OutputLine::Out(owned("Errors:"));
                proof {
                    lemma_views_push(lines@, heading);
                }
                lines.push(heading);
                let mut j: usize = 0;
                assert(views(lines@) =~= head + seq![LineView::Out("Errors:"@)] + failures.take(
                    0,
                ).map_values(|error: ErrorView| LineView::Diagnostic(error.rendered())));
                while j < errors.len()
                    invariant
                        0 <= j <= errors.len(),
                        failures == views(errors@),
                        views(lines@) == head + seq![LineView::Out("Errors:"@)] + failures.take(
                            j as int,
                        ).map_values(|error: ErrorView| LineView::Diagnostic(error.rendered())),
                    decreases errors.len() - j,
                {
                    let line = OutputLine::Diagnostic(Error::handle(&errors[j]));
                    proof {
                        lemma_views_push(lines@, line);
                    }
                    lines.push(line);
                    j = j + 1;
                    assert(views(lines@) =~= head + seq![LineView::Out("Errors:"@)]
                        + failures.take(j as int).map_values(
                        |error: ErrorView| LineView::Diagnostic(error.rendered()),
                    ));
                }
                assert(failures.take(j as int) =~= failures);
            },
            None => {},
        }
        lines
    }
}

/// The line that streaming mode writes for `outcome`, if it writes one.
/// Writing it is left to the caller.
pub fn stream_line(outcome: WalkOutcome, debug: bool) -> (line: Option<OutputLine>)
    ensures
        match line {
            Some(line) => Some(line@),
            None => None,
        } == streamed_line(outcome@, debug),
{
    match outcome {
        WalkOutcome::Match(path) => Some(OutputLine::Out(path)),
        WalkOutcome::DirError(path, kind) => {
            if debug {
                Some(OutputLine::Diagnostic(Error::handle(&Error::IO(kind, path))))
            } else {
                None
            }
        },
    }
}

/// The root paths of the volumes `names`, in their order.
pub open spec fn drive_roots(names: Seq<char>) -> Seq<Seq<char>> {
    names.map_values(|letter: char| drive_root_text(letter))
}

/// The roots of a search: those that were selected, as they are; where none
/// were, the roots of the mounted volumes, or the failure of the volume query.
pub open spec fn resolved_roots(
    selected: Option<Seq<Seq<char>>>,
    bit_mask: u32,
    last_error: u32,
) -> Result<Seq<Seq<char>>, ErrorView> {
    match selected {
        Some(roots) => Ok(roots),
        None => match available_drives(bit_mask, last_error) {
            Ok(names) => Ok(drive_roots(names)),
            Err(error) => Err(error),
        },
    }
}

/// Settles the roots of a search. `bit_mask` and `last_error` are the answer of
/// the operating system's volume query; they count only where no roots were
/// selected, and then a failed query is the failure of the search.
pub fn resolve_roots(selected: Option<PathSet>, bit_mask: u32, last_error: u32) -> (result: Result<
    PathSet,
    Error,
>)
    ensures
        match result {
            Ok(roots) => Ok::<Seq<Seq<char>>, ErrorView>(roots@),
            Err(error) => Err(error@),
        } == resolved_roots(
            match selected {
                Some(roots) => Some(roots@),
                None => None,
            },
            bit_mask,
            last_error,
        ),
{
    match selected {
        Some(roots) => Ok(roots),
        None => {
            match get_available_drive_names(bit_mask, last_error) {
                Err(error) => Err(error),
                Ok(names) => {
                    proof {
                        crate::drives::lemma_invalid_bits(bit_mask);
                    }
                    let mut roots = PathSet::new();
                    let mut i: usize = 0;
                    assert(roots@ =~= drive_roots(names@.take(0)));
                    while i < names.len()
                        invariant
                            0 <= i <= names.len(),
                            names@.no_duplicates(),
                            roots@ == drive_roots(names@.take(i as int)),
                        decreases names.len() - i,
                    {
                        let ghost before = roots@;
                        let root = drive_root(names[i]);
                        assert(!before.contains(root@)) by {
                            if before.contains(root@) {
                                let j = choose|j: int| 0 <= j < before.len() && before[j] == root@;
                                assert(before[j][0] == names@[j]);
                                assert(root@[0] == names@[i as int]);
                            }
                        }
                        roots.insert(root);
                        i = i + 1;
                        assert(roots@ =~= drive_roots(names@.take(i as int)));
                    }
                    assert(names@.take(i as int) =~= names@);
                    Ok(roots)
                },
            }
        },
    }
}

/// What the machine shows at one moment: the answer of the volume query and
/// the directory trees that stand at the root paths.
#[derive(Debug)]
pub struct Snapshot {
    /// The bitmask that the volume query returns.
    pub bit_mask: u32,
    /// The error code that the system holds where the volume query failed.
    pub last_error: u32,
    /// The trees, each one under the path text of its topmost node.
    pub roots: Vec<Node>,
}

/// The mathematical value of a [`Snapshot`].
pub struct SnapshotView {
    pub bit_mask: u32,
    pub last_error: u32,
    pub roots: Seq<NodeView>,
}

impl View for Snapshot {
    type V = SnapshotView;

    open spec fn view(&self) -> SnapshotView {
        SnapshotView {
            bit_mask: self.bit_mask,
            last_error: self.last_error,
            roots: node_views(self.roots@),
        }
    }
}

/// The first of `trees` that stands at `path`.
pub open spec fn tree_at(trees: Seq<NodeView>, path: Seq<char>) -> Option<NodeView>
    decreases trees.len(),
{
    if trees.len() == 0 {
        None
    } else {
        match tree_at(trees.drop_last(), path) {
            Some(tree) => Some(tree),
            None => if trees.last().path == path {
                Some(trees.last())
            } else {
                None
            },
        }
    }
}

/// A tree that is found among the first trees is found among all.
pub proof fn lemma_tree_at_prefix(trees: Seq<NodeView>, n: int, path: Seq<char>)
    requires
        0 <= n <= trees.len(),
        tree_at(trees.take(n), path) is Some,
    ensures
        tree_at(trees, path) == tree_at(trees.take(n), path),
    decreases trees.len() - n,
{
    if n < trees.len() {
        assert(trees.take(n + 1).drop_last() =~= trees.take(n));
        lemma_tree_at_prefix(trees, n + 1, path);
    } else {
        assert(trees.take(n) =~= trees);
    }
}

/// What the walker of `root` sends: the walk of the tree that stands there,
/// and nothing where none does.
pub open spec fn root_walk(trees: Seq<NodeView>, root: Seq<char>, pattern: Seq<char>) -> Seq<
    OutcomeView,
> {
    match tree_at(trees, root) {
        Some(tree) => walk_from(tree, pattern),
        None => Seq::empty(),
    }
}

/// What the walkers of `roots` send when they run one after the other.
pub open spec fn walks(roots: Seq<Seq<char>>, trees: Seq<NodeView>, pattern: Seq<char>) -> Seq<
    OutcomeView,
>
    decreases roots.len(),
{
    if roots.len() == 0 {
        Seq::empty()
    } else {
        walks(roots.drop_last(), trees, pattern) + root_walk(trees, roots.last(), pattern)
    }
}

/// What a search in batch mode returns on a machine that shows `snapshot`.
pub open spec fn batch_search(
    pattern: Seq<char>,
    selected: Option<Seq<Seq<char>>>,
    debug: bool,
    snapshot: SnapshotView,
) -> Result<ResultView, ErrorView> {
    match resolved_roots(selected, snapshot.bit_mask, snapshot.last_error) {
        Ok(roots) => Ok(collected(walks(roots, snapshot.roots, pattern), debug)),
        Err(error) => Err(error),
    }
}

/// What a search in streaming mode writes on a machine that shows `snapshot`.
/// A failed volume query is written as the only line.
pub open spec fn stream_search(
    pattern: Seq<char>,
    selected: Option<Seq<Seq<char>>>,
    debug: bool,
    snapshot: SnapshotView,
) -> Seq<LineView> {
    match resolved_roots(selected, snapshot.bit_mask, snapshot.last_error) {
        Ok(roots) => streamed(walks(roots, snapshot.roots, pattern), debug),
        Err(error) => seq![LineView::Diagnostic(error.rendered())],
    }
}

impl Snapshot {
    /// The first tree that stands at `path`.
    pub fn tree(&self, path: &String) -> (found: Option<&Node>)
        ensures
            match found {
                Some(tree) => Some(tree@),
                None => None,
            } == tree_at(self@.roots, path@),
    {
        let ghost trees = node_views(self.roots@);
        proof {
            lemma_node_views(self.roots@);
        }
        let mut i: usize = 0;
        while i < self.roots.len()
            invariant
                0 <= i <= self.roots.len(),
                trees == node_views(self.roots@),
                trees.len() == self.roots.len(),
                forall|j: int| 0 <= j < self.roots.len() ==> trees[j] == (#[trigger] self.roots[j])@,
                tree_at(trees.take(i as int), path@) is None,
            decreases self.roots.len() - i,
        {
            assert(trees.take(i + 1).drop_last() =~= trees.take(i as int));
            if self.roots[i].path == *path {
                proof {
                    lemma_tree_at_prefix(trees, i + 1, path@);
                }
                return Some(&self.roots[i]);
            }
            i = i + 1;
        }
        assert(trees.take(i as int) =~= trees);
        None
    }

    /// Runs the walkers of `roots` one after the other and returns what they
    /// send.
    pub fn walk_roots(&self, roots: &PathSet, pattern: &String) -> (outcomes: Vec<WalkOutcome>)
        ensures
            views(outcomes@) == walks(roots@, self@.roots, pattern@),
    {
        let mut outcomes: Vec<WalkOutcome> = Vec::new();
        let mut i: usize = 0;
        let n = roots.len();
        assert(roots@.take(0) =~= Seq::<Seq<char>>::empty());
        assert(views(outcomes@) =~= Seq::<OutcomeView>::empty());
        while i < n
            invariant
                0 <= i <= n,
                n == roots@.len(),
                views(outcomes@) == walks(roots@.take(i as int), self@.roots, pattern@),
            decreases n - i,
        {
            let root = roots.get(i);
            assert(roots@.take(i + 1).drop_last() =~= roots@.take(i as int));
            assert(roots@.take(i + 1).last() == root@);
            let ghost before = views(outcomes@);
            match self.tree(root) {
                Some(tree) => {
                    let mut sent = walk_tree(tree, pattern.as_str());
                    assert(views(outcomes@ + sent@) =~= before + views(sent@));
                    outcomes.append(&mut sent);
                },
                None => {
                    assert(before + Seq::<OutcomeView>::empty() =~= before);
                },
            }
            i = i + 1;
        }
        assert(roots@.take(i as int) =~= roots@);
        outcomes
    }
}

/// Puts all of `outcomes` into a result, as batch mode does.
pub fn collect(outcomes: Vec<WalkOutcome>, debug: bool) -> (result: SearchResult)
    ensures
        result@ == collected(views(outcomes@), debug),
{
    let mut result = SearchResult::empty(debug);
    let ghost all = views(outcomes@);
    assert(all.take(0) =~= Seq::<OutcomeView>::empty());
    for outcome in iter: outcomes
        invariant
            all == views(iter.seq()),
            result@ == collected(all.take(iter.index() as int), debug),
    {
        proof {
            let i = iter.index() as int;
            lemma_collected_push(all.take(i), outcome@, debug);
            assert(all.take(i + 1) =~= all.take(i).push(outcome@));
        }
        result.record(outcome);
    }
    assert(all.take(all.len() as int) =~= all);
    result
}

/// Turns all of `outcomes` into lines, as streaming mode does.
pub fn stream(outcomes: Vec<WalkOutcome>, debug: bool) -> (lines: Vec<OutputLine>)
    ensures
        views(lines@) == streamed(views(outcomes@), debug),
{
    let mut lines: Vec<OutputLine> = Vec::new();
    let ghost all = views(outcomes@);
    assert(all.take(0) =~= Seq::<OutcomeView>::empty());
    assert(views(lines@) =~= Seq::<LineView>::empty());
    for outcome in iter: outcomes
        invariant
            all == views(iter.seq()),
            views(lines@) == streamed(all.take(iter.index() as int), debug),
    {
        proof {
            let i = iter.index() as int;
            assert(all.take(i + 1).drop_last() =~= all.take(i));
            assert(all.take(i + 1).last() == outcome@);
        }
        match stream_line(outcome, debug) {
            Some(line) => {
                proof {
                    lemma_views_push(lines@, line);
                }
                lines.push(line);
            },
            None => {},
        }
    }
    assert(all.take(all.len() as int) =~= all);
    lines
}

/// Searches in batch mode on a machine that shows `snapshot`: settles the
/// roots, lets one walker after the other walk its root, and collects what
/// they send. Failures are collected only where `debug` is set.
pub fn search_no_stream(
    pattern: String,
    selected_drives: Option<PathSet>,
    debug: bool,
    snapshot: &Snapshot,
) -> (result: Result<SearchResult, Error>)
    ensures
        match result {
            Ok(found) => Ok::<ResultView, ErrorView>(found@),
            Err(error) => Err(error@),
        } == batch_search(
            pattern@,
            match selected_drives {
                Some(roots) => Some(roots@),
                None => None,
            },
            debug,
            snapshot@,
        ),
        result is Ok ==> (result->Ok_0.errors is Some <==> debug),
{
    match resolve_roots(selected_drives, snapshot.bit_mask, snapshot.last_error) {
        Ok(roots) => Ok(collect(snapshot.walk_roots(&roots, &pattern), debug)),
        Err(error) => Err(error),
    }
}

/// Searches in streaming mode on a machine that shows `snapshot`, and returns
/// the lines in the order in which they are written: the path of each match
/// and, where `debug` is set, each failure.
pub fn search(
    pattern: String,
    selected_drives: Option<PathSet>,
    debug: bool,
    snapshot: &Snapshot,
) -> (lines: Vec<OutputLine>)
    ensures
        views(lines@) == stream_search(
            pattern@,
            match selected_drives {
                Some(roots) => Some(roots@),
                None => None,
            },
            debug,
            snapshot@,
        ),
{
    match resolve_roots(selected_drives, snapshot.bit_mask, snapshot.last_error) {
        Ok(roots) => stream(snapshot.walk_roots(&roots, &pattern), debug),
        Err(error) => {
            let mut lines: Vec<OutputLine> = Vec::new();
            let line = OutputLine::Diagnostic(Error::handle(&error));
            proof {
                lemma_views_push(lines@, line);
            }
            lines.push(line);
            assert(views(lines@) =~= seq![LineView::Diagnostic(error@.rendered())]);
            lines
        },
    }
}

} // verus!
