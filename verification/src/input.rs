//! What a search is asked to do: the pattern, the roots and the two switches.

use crate::error::{Error, ErrorView};
use crate::seqs::{lemma_views_push, views};
use crate::text::owned;
use vstd::prelude::*;

verus! {

/// The paths of `paths` in their order, each one kept where it comes first.
pub open spec fn distinct(paths: Seq<Seq<char>>) -> Seq<Seq<char>>
    decreases paths.len(),
{
    if paths.len() == 0 {
        Seq::empty()
    } else {
        with_path(distinct(paths.drop_last()), paths.last())
    }
}

/// `paths` with `path` at the end, unless it is there already.
pub open spec fn with_path(paths: Seq<Seq<char>>, path: Seq<char>) -> Seq<Seq<char>> {
    if paths.contains(path) {
        paths
    } else {
        paths.push(path)
    }
}

/// Adding a path to paths that are all different leaves them all different,
/// and adds that path and no other.
pub proof fn lemma_with_path(paths: Seq<Seq<char>>, path: Seq<char>)
    requires
        paths.no_duplicates(),
    ensures
        with_path(paths, path).no_duplicates(),
        forall|other: Seq<char>|
            with_path(paths, path).contains(other) <==> (paths.contains(other) || other == path),
{
    let added = with_path(paths, path);
    if !paths.contains(path) {
        assert(added[paths.len() as int] == path);
        assert forall|other: Seq<char>| added.contains(other) implies (paths.contains(other)
            || other == path) by {
            let i = choose|i: int| 0 <= i < added.len() && added[i] == other;
            if i < paths.len() {
                assert(paths[i] == other);
            }
        }
        assert forall|other: Seq<char>| paths.contains(other) implies added.contains(other) by {
            let i = choose|i: int| 0 <= i < paths.len() && paths[i] == other;
            assert(added[i] == other);
        }
    }
}

/// No path occurs twice among the distinct paths, and they are the paths
/// that were given.
pub proof fn lemma_distinct(paths: Seq<Seq<char>>)
    ensures
        distinct(paths).no_duplicates(),
        forall|path: Seq<char>| distinct(paths).contains(path) <==> paths.contains(path),
    decreases paths.len(),
{
    if paths.len() > 0 {
        let front = paths.drop_last();
        lemma_distinct(front);
        lemma_with_path(distinct(front), paths.last());
        assert forall|path: Seq<char>| paths.contains(path) implies (front.contains(path) || path
            == paths.last()) by {
            let i = choose|i: int| 0 <= i < paths.len() && paths[i] == path;
            if i < front.len() {
                assert(front[i] == path);
            }
        }
        assert forall|path: Seq<char>| front.contains(path) implies paths.contains(path) by {
            let i = choose|i: int| 0 <= i < front.len() && front[i] == path;
            assert(paths[i] == path);
        }
        assert(paths[paths.len() - 1] == paths.last());
    }
}

/// A set of root paths: no path is held twice. The paths keep the order in
/// which they were put in.
#[derive(Debug)]
pub struct PathSet {
    paths: Vec<String>,
}

impl View for PathSet {
    type V = Seq<Seq<char>>;

    closed spec fn view(&self) -> Seq<Seq<char>> {
        views(self.paths@)
    }
}

impl PathSet {
    #[verifier::type_invariant]
    spec fn all_different(self) -> bool {
        views(self.paths@).no_duplicates()
    }

    /// The set without paths.
    pub fn new() -> (set: PathSet)
        ensures
            set@ == Seq::<Seq<char>>::empty(),
    {
        let paths: Vec<String> = Vec::new();
        assert(views(paths@) =~= Seq::<Seq<char>>::empty());
        PathSet { paths }
    }

    /// The number of paths.
    pub fn len(&self) -> (n: usize)
        ensures
            n == self@.len(),
            self@.no_duplicates(),
    {
        proof {
            use_type_invariant(self);
        }
        self.paths.len()
    }

    /// The path at position `index`.
    pub fn get(&self, index: usize) -> (path: &String)
        requires
            index < self@.len(),
        ensures
            path@ == self@[index as int],
    {
        &self.paths[index]
    }

    /// Whether `path` is in the set.
    pub fn contains(&self, path: &String) -> (found: bool)
        ensures
            found == self@.contains(path@),
    {
        let mut i: usize = 0;
        while i < self.paths.len()
            invariant
                0 <= i <= self.paths.len(),
                forall|j: int| 0 <= j < i ==> views(self.paths@)[j] != path@,
            decreases self.paths.len() - i,
        {
            if self.paths[i] == *path {
                assert(views(self.paths@)[i as int] == path@);
                return true;
            }
            i = i + 1;
        }
        false
    }

    /// Puts `path` into the set, at the end, unless it is there already.
    /// Returns whether it was put in.
    pub fn insert(&mut self, path: String) -> (added: bool)
        ensures
            final(self)@ == with_path(old(self)@, path@),
            final(self)@.no_duplicates(),
            added == !old(self)@.contains(path@),
    {
        proof {
            use_type_invariant(&*self);
            lemma_with_path(self@, path@);
        }
        if self.contains(&path) {
            false
        } else {
            let mut paths: Vec<String> = Vec::new();
            assert(views(paths@) =~= Seq::<Seq<char>>::empty());
            core::mem::swap(&mut self.paths, &mut paths);
            proof {
                lemma_views_push(paths@, path);
            }
            paths.push(path);
            self.paths = paths;
            true
        }
    }

    /// The set of the paths in `paths`: each of them is in it, once, and
    /// nothing else is.
    pub fn from_paths(paths: Vec<String>) -> (set: PathSet)
        ensures
            set@ == distinct(views(paths@)),
            set@.no_duplicates(),
            forall|path: Seq<char>| set@.contains(path) <==> views(paths@).contains(path),
    {
        proof {
            lemma_distinct(views(paths@));
        }
        let mut set = PathSet::new();
        let mut i: usize = 0;
        assert(views(paths@).take(0) =~= Seq::<Seq<char>>::empty());
        while i < paths.len()
            invariant
                0 <= i <= paths.len(),
                set@ == distinct(views(paths@).take(i as int)),
                set@.no_duplicates(),
            decreases paths.len() - i,
        {
            let ghost texts = views(paths@);
            assert(texts.take(i + 1).drop_last() =~= texts.take(i as int));
            assert(texts.take(i + 1).last() == paths[i as int]@);
            set.insert(paths[i].clone());
            i = i + 1;
        }
        assert(views(paths@).take(i as int) =~= views(paths@));
        set
    }
}

/// What the command line asks for.
#[derive(Debug)]
pub struct Args {
    /// The text that is searched for.
    pub pattern: String,
    /// The roots to search below; where there are none, every volume is
    /// searched.
    pub selected_drives: Option<PathSet>,
    /// Whether failures are reported.
    pub debug: bool,
    /// Whether the result is delivered as one block at the end.
    pub no_stream: bool,
}

/// The mathematical value of an [`Args`].
pub struct ArgsView {
    pub pattern: Seq<char>,
    pub selected_drives: Option<Seq<Seq<char>>>,
    pub debug: bool,
    pub no_stream: bool,
}

impl View for Args {
    type V = ArgsView;

    open spec fn view(&self) -> ArgsView {
        ArgsView {
            pattern: self.pattern@,
            selected_drives: match self.selected_drives {
                Some(roots) => Some(roots@),
                None => None,
            },
            debug: self.debug,
            no_stream: self.no_stream,
        }
    }
}

impl Args {
    /// The request made of the given parts.
    pub fn new(
        pattern: String,
        selected_drives: Option<PathSet>,
        debug: bool,
        no_stream: bool,
    ) -> (args: Args)
        ensures
            args.pattern == pattern,
            args.selected_drives == selected_drives,
            args.debug == debug,
            args.no_stream == no_stream,
    {
        Args { pattern, selected_drives, debug, no_stream }
    }

    /// Whether matches are delivered as they are found.
    pub fn streaming(&self) -> (yes: bool)
        ensures
            yes == !self.no_stream,
    {
        !self.no_stream
    }
}

/// The pattern that the command line gives: the positional one where it is
/// there, else the one of the search option.
pub open spec fn chosen_pattern(
    pattern: Option<Seq<char>>,
    pattern_arg: Option<Seq<char>>,
) -> Seq<char>
    recommends
        pattern is Some || pattern_arg is Some,
{
    match pattern {
        Some(text) => text,
        None => pattern_arg->0,
    }
}

/// The text of an optional string.
pub open spec fn optional_text(text: Option<String>) -> Option<Seq<char>> {
    match text {
        Some(text) => Some(text@),
        None => None,
    }
}

/// The message that an empty pattern is refused with.
pub open spec fn empty_pattern_message() -> Seq<char> {
    "The pattern must not be empty."@
}

/// The request that the command line makes, or why it makes none.
pub open spec fn requested(
    pattern: Option<Seq<char>>,
    pattern_arg: Option<Seq<char>>,
    paths: Option<Seq<Seq<char>>>,
    debug: bool,
    no_stream: bool,
) -> Result<ArgsView, ErrorView>
    recommends
        pattern is Some || pattern_arg is Some,
{
    let chosen = chosen_pattern(pattern, pattern_arg);
    if chosen.len() == 0 {
        Err(ErrorView::Args(empty_pattern_message()))
    } else {
        Ok(
            ArgsView {
                pattern: chosen,
                selected_drives: match paths {
                    Some(paths) => Some(distinct(paths)),
                    None => None,
                },
                debug,
                no_stream,
            },
        )
    }
}

/// Makes the request out of what the command line held: the positional
/// pattern, the pattern of the search option, the paths of the path option and
/// the two switches. One of the two patterns has to be there.
///
/// An empty pattern is refused. The paths become the set of roots: a path that
/// is given more than once counts once.
pub fn args(
    pattern: Option<String>,
    pattern_arg: Option<String>,
    paths: Option<Vec<String>>,
    debug: bool,
    no_stream: bool,
) -> (result: Result<Args, Error>)
    requires
        pattern is Some || pattern_arg is Some,
    ensures
        match result {
            Ok(args) => Ok::<ArgsView, ErrorView>(args@),
            Err(error) => Err(error@),
        } == requested(
            optional_text(pattern),
            optional_text(pattern_arg),
            match paths {
                Some(paths) => Some(views(paths@)),
                None => None,
            },
            debug,
            no_stream,
        ),
{
    let chosen = match pattern {
        Some(text) => text,
        None => match pattern_arg {
            Some(text) => text,
            None => {
                proof {
                    assert(false);
                }
                String::new()
            },
        },
    };
    if chosen.as_str().unicode_len() == 0 {
        return Err(Error::Args(owned("The pattern must not be empty.")));
    }
    let selected_drives = match paths {
        Some(paths) => Some(PathSet::from_paths(paths)),
        None => None,
    };
    Ok(Args::new(chosen, selected_drives, debug, no_stream))
}

} // verus!
