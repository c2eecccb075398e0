//! The directory walker as a state machine.
//!
//! A walker never touches the file system or the outcome channel itself. It
//! names the next thing to do as an [`Action`]; whoever drives it performs the
//! action and hands the answer back as an [`Event`]. All decisions of a walk
//! (what is a match, which directories are expanded and in which order, what
//! is reported as an error, when to stop) are taken here.
//!
//! Directories are expanded first in, first out. The root itself is never
//! tested against the pattern: only the entries found below it are.

use crate::error::IoErrorKind;
use crate::seqs::views;
use crate::text::{is_substring, text_contains};
use std::collections::VecDeque;
use vstd::prelude::*;

verus! {

/// One unit of information that a walker produces for the aggregator.
#[derive(Debug)]
pub enum WalkOutcome {
    /// An entry whose path text contains the pattern.
    Match(String),
    /// A directory that could not be listed, or an entry whose metadata could
    /// not be read.
    DirError(String, IoErrorKind),
}

/// The mathematical value of a [`WalkOutcome`].
pub enum OutcomeView {
    Match(Seq<char>),
    DirError(Seq<char>, IoErrorKind),
}

impl View for WalkOutcome {
    type V = OutcomeView;

    open spec fn view(&self) -> OutcomeView {
        match self {
            WalkOutcome::Match(path) => OutcomeView::Match(path@),
            WalkOutcome::DirError(path, kind) => OutcomeView::DirError(path@, *kind),
        }
    }
}

/// What a walker asks its driver to do next.
#[derive(Debug)]
pub enum Action {
    /// Find out whether the root is a directory.
    Probe(String),
    /// Open the directory for listing.
    Open(String),
    /// Read the next entry of the directory that is open.
    NextEntry,
    /// Read the metadata of the entry that was read last, whose path this is.
    Stat(String),
    /// Send the outcome to the aggregator.
    Send(WalkOutcome),
    /// Nothing is left to do.
    Finish,
}

/// The mathematical value of an [`Action`].
pub enum ActionView {
    Probe(Seq<char>),
    Open(Seq<char>),
    NextEntry,
    Stat(Seq<char>),
    Send(OutcomeView),
    Finish,
}

impl View for Action {
    type V = ActionView;

    open spec fn view(&self) -> ActionView {
        match self {
            Action::Probe(root) => ActionView::Probe(root@),
            Action::Open(dir) => ActionView::Open(dir@),
            Action::NextEntry => ActionView::NextEntry,
            Action::Stat(entry) => ActionView::Stat(entry@),
            Action::Send(outcome) => ActionView::Send(outcome@),
            Action::Finish => ActionView::Finish,
        }
    }
}

/// What came of the action that a walker asked for.
#[derive(Debug)]
pub enum Event {
    /// Answer to `Probe` and to `Stat`: whether the path is a directory.
    IsDirectory(bool),
    /// Answer to `Open`: the directory is open for listing.
    Opened,
    /// Answer to `NextEntry`: the path of the entry that was read.
    Entry(String),
    /// Answer to `NextEntry`: the listing is exhausted.
    EndOfListing,
    /// Answer to `Probe`, `Open`, `NextEntry` and `Stat`: the operation failed.
    Failed(IoErrorKind),
    /// Answer to `Send`: the outcome is on its way.
    Delivered,
    /// Answer to `Send`: the receiving side is gone.
    ReceiverGone,
}

/// The mathematical value of an [`Event`].
pub enum EventView {
    IsDirectory(bool),
    Opened,
    Entry(Seq<char>),
    EndOfListing,
    Failed(IoErrorKind),
    Delivered,
    ReceiverGone,
}

impl View for Event {
    type V = EventView;

    open spec fn view(&self) -> EventView {
        match self {
            Event::IsDirectory(yes) => EventView::IsDirectory(*yes),
            Event::Opened => EventView::Opened,
            Event::Entry(path) => EventView::Entry(path@),
            Event::EndOfListing => EventView::EndOfListing,
            Event::Failed(kind) => EventView::Failed(*kind),
            Event::Delivered => EventView::Delivered,
            Event::ReceiverGone => EventView::ReceiverGone,
        }
    }
}

/// Where a walker stands between two events.
pub enum PhaseView {
    /// Waiting to learn whether the root is a directory.
    Probing { root: Seq<char> },
    /// Waiting for `dir` to be opened.
    Opening { dir: Seq<char> },
    /// Waiting for the next entry of `dir`.
    Listing { dir: Seq<char> },
    /// Waiting for the match `entry`, found in `dir`, to be sent.
    Reporting { dir: Seq<char>, entry: Seq<char> },
    /// Waiting for the metadata of `entry`, found in `dir`.
    Inspecting { dir: Seq<char>, entry: Seq<char> },
    /// Waiting for the error on `path` to be sent. Afterwards the listing of
    /// `resume` goes on, or, where there is none, the next directory is taken.
    Raising { path: Seq<char>, kind: IoErrorKind, resume: Option<Seq<char>> },
    /// The walk is over.
    Done,
}

/// The mathematical value of a [`Walker`].
pub struct WalkerView {
    /// The text that is searched for.
    pub pattern: Seq<char>,
    /// The directories that wait to be expanded, the next one first.
    pub pending: Seq<Seq<char>>,
    pub phase: PhaseView,
}

impl WalkerView {
    /// The walker that is about to start at `root`.
    pub open spec fn start(root: Seq<char>, pattern: Seq<char>) -> WalkerView {
        WalkerView { pattern, pending: Seq::empty(), phase: PhaseView::Probing { root } }
    }

    /// The walker that turns to the directory that has waited longest, or is
    /// done where none waits.
    pub open spec fn advance(self) -> WalkerView {
        if self.pending.len() > 0 {
            WalkerView {
                pending: self.pending.skip(1),
                phase: PhaseView::Opening { dir: self.pending[0] },
                ..self
            }
        } else {
            WalkerView { phase: PhaseView::Done, ..self }
        }
    }

    /// The walker in the given phase.
    pub open spec fn at(self, phase: PhaseView) -> WalkerView {
        WalkerView { phase, ..self }
    }

    /// The request that the walker waits on.
    pub open spec fn action(self) -> ActionView {
        match self.phase {
            PhaseView::Probing { root } => ActionView::Probe(root),
            PhaseView::Opening { dir } => ActionView::Open(dir),
            PhaseView::Listing { dir } => ActionView::NextEntry,
            PhaseView::Reporting { dir, entry } => ActionView::Send(OutcomeView::Match(entry)),
            PhaseView::Inspecting { dir, entry } => ActionView::Stat(entry),
            PhaseView::Raising { path, kind, resume } => ActionView::Send(
                OutcomeView::DirError(path, kind),
            ),
            PhaseView::Done => ActionView::Finish,
        }
    }

    /// The walk is over.
    pub open spec fn finished(self) -> bool {
        self.phase is Done
    }

    /// The walker after `event`. An event that does not answer the request the
    /// walker waits on leaves it as it is.
    pub open spec fn next(self, event: EventView) -> WalkerView {
        match (self.phase, event) {
            (PhaseView::Probing { root }, EventView::IsDirectory(true)) => self.at(
                PhaseView::Opening { dir: root },
            ),
            (PhaseView::Probing { root }, EventView::IsDirectory(false)) => self.at(
                PhaseView::Done,
            ),
            (PhaseView::Probing { root }, EventView::Failed(kind)) => self.at(PhaseView::Done),
            (PhaseView::Opening { dir }, EventView::Opened) => self.at(PhaseView::Listing { dir }),
            (PhaseView::Opening { dir }, EventView::Failed(kind)) => self.at(
                PhaseView::Raising { path: dir, kind, resume: None },
            ),
            (PhaseView::Listing { dir }, EventView::Entry(entry)) => if is_substring(
                self.pattern,
                entry,
            ) {
                self.at(PhaseView::Reporting { dir, entry })
            } else {
                self.at(PhaseView::Inspecting { dir, entry })
            },
            (PhaseView::Listing { dir }, EventView::EndOfListing) => self.advance(),
            (PhaseView::Listing { dir }, EventView::Failed(kind)) => self.at(
                PhaseView::Raising { path: dir, kind, resume: None },
            ),
            (PhaseView::Reporting { dir, entry }, EventView::Delivered) => self.at(
                PhaseView::Inspecting { dir, entry },
            ),
            (PhaseView::Reporting { dir, entry }, EventView::ReceiverGone) => self.at(
                PhaseView::Done,
            ),
            (PhaseView::Inspecting { dir, entry }, EventView::IsDirectory(true)) => WalkerView {
                pending: self.pending.push(entry),
                phase: PhaseView::Listing { dir },
                ..self
            },
            (PhaseView::Inspecting { dir, entry }, EventView::IsDirectory(false)) => self.at(
                PhaseView::Listing { dir },
            ),
            (PhaseView::Inspecting { dir, entry }, EventView::Failed(kind)) => self.at(
                PhaseView::Raising { path: entry, kind, resume: Some(dir) },
            ),
            (PhaseView::Raising { path, kind, resume: Some(dir) }, EventView::Delivered) => self.at(
                PhaseView::Listing { dir },
            ),
            (PhaseView::Raising { path, kind, resume: None }, EventView::Delivered) => {
                self.advance()
            },
            (PhaseView::Raising { path, kind, resume }, EventView::ReceiverGone) => self.at(
                PhaseView::Done,
            ),
            _ => self,
        }
    }
}

enum Phase {
    Probing { root: String },
    Opening { dir: String },
    Listing { dir: String },
    Reporting { dir: String, entry: String },
    Inspecting { dir: String, entry: String },
    Raising { path: String, kind: IoErrorKind, resume: Option<String> },
    Done,
}

impl View for Phase {
    type V = PhaseView;

    closed spec fn view(&self) -> PhaseView {
        match self {
            Phase::Probing { root } => PhaseView::Probing { root: root@ },
            Phase::Opening { dir } => PhaseView::Opening { dir: dir@ },
            Phase::Listing { dir } => PhaseView::Listing { dir: dir@ },
            Phase::Reporting { dir, entry } => PhaseView::Reporting { dir: dir@, entry: entry@ },
            Phase::Inspecting { dir, entry } => PhaseView::Inspecting { dir: dir@, entry: entry@ },
            Phase::Raising { path, kind, resume } => PhaseView::Raising {
                path: path@,
                kind: *kind,
                resume: match resume {
                    Some(dir) => Some(dir@),
                    None => None,
                },
            },
            Phase::Done => PhaseView::Done,
        }
    }
}

/// The walker of one root.
pub struct Walker {
    pattern: String,
    pending: VecDeque<String>,
    phase: Phase,
}

impl View for Walker {
    type V = WalkerView;

    closed spec fn view(&self) -> WalkerView {
        WalkerView { pattern: self.pattern@, pending: views(self.pending@), phase: self.phase@ }
    }
}

impl Walker {
    /// A walker that is about to search below `root` for entries whose path
    /// text contains `pattern`.
    pub fn new(root: String, pattern: String) -> (walker: Walker)
        ensures
            walker@ == WalkerView::start(root@, pattern@),
    {
        let walker = Walker { pattern, pending: VecDeque::new(), phase: Phase::Probing { root } };
        assert(views(walker.pending@) =~= Seq::<Seq<char>>::empty());
        walker
    }

    /// The request that the walker waits on.
    pub fn action(&self) -> (action: Action)
        ensures
            action@ == self@.action(),
    {
        match &self.phase {
            Phase::Probing { root } => Action::Probe(root.clone()),
            Phase::Opening { dir } => Action::Open(dir.clone()),
            Phase::Listing { dir } => Action::NextEntry,
            Phase::Reporting { dir, entry } => Action::Send(WalkOutcome::Match(entry.clone())),
            Phase::Inspecting { dir, entry } => Action::Stat(entry.clone()),
            Phase::Raising { path, kind, resume } => Action::Send(
                WalkOutcome::DirError(path.clone(), *kind),
            ),
            Phase::Done => Action::Finish,
        }
    }

    /// Whether the walk is over.
    pub fn is_finished(&self) -> (done: bool)
        ensures
            done == self@.finished(),
    {
        match &self.phase {
            Phase::Done => true,
            _ => false,
        }
    }

    /// The number of directories that wait to be expanded.
    pub fn pending_len(&self) -> (n: usize)
        ensures
            n == self@.pending.len(),
    {
        self.pending.len()
    }

    /// Turns to the directory that has waited longest.
    fn advance(&mut self)
        ensures
            final(self)@ == old(self)@.advance(),
    {
        match self.pending.pop_front() {
            Some(dir) => {
                assert(views(self.pending@) =~= views(old(self).pending@).skip(1));
                self.phase = Phase::Opening { dir };
            },
            None => {
                self.phase = Phase::Done;
            },
        }
    }

    /// Takes in the answer to the request that the walker waited on, and
    /// returns the next request.
    pub fn step(&mut self, event: Event) -> (action: Action)
        ensures
            final(self)@ == old(self)@.next(event@),
            action@ == final(self)@.action(),
    {
        let mut phase = Phase::Done;
        core::mem::swap(&mut self.phase, &mut phase);
        match (phase, event) {
            (Phase::Probing { root }, Event::IsDirectory(true)) => {
                self.phase = Phase::Opening { dir: root };
            },
            (Phase::Probing { root }, Event::IsDirectory(false)) => {},
            (Phase::Probing { root }, Event::Failed(kind)) => {},
            (Phase::Opening { dir }, Event::Opened) => {
                self.phase = Phase::Listing { dir };
            },
            (Phase::Opening { dir }, Event::Failed(kind)) => {
                self.phase = Phase::Raising { path: dir, kind, resume: None };
            },
            (Phase::Listing { dir }, Event::Entry(entry)) => {
                if text_contains(entry.as_str(), self.pattern.as_str()) {
                    self.phase = Phase::Reporting { dir, entry };
                } else {
                    self.phase = Phase::Inspecting { dir, entry };
                }
            },
            (Phase::Listing { dir }, Event::EndOfListing) => {
                self.advance();
            },
            (Phase::Listing { dir }, Event::Failed(kind)) => {
                self.phase = Phase::Raising { path: dir, kind, resume: None };
            },
            (Phase::Reporting { dir, entry }, Event::Delivered) => {
                self.phase = Phase::Inspecting { dir, entry };
            },
            (Phase::Reporting { dir, entry }, Event::ReceiverGone) => {},
            (Phase::Inspecting { dir, entry }, Event::IsDirectory(true)) => {
                self.pending.push_back(entry);
                assert(views(self.pending@) =~= views(old(self).pending@).push(entry@));
                self.phase = Phase::Listing { dir };
            },
            (Phase::Inspecting { dir, entry }, Event::IsDirectory(false)) => {
                self.phase = Phase::Listing { dir };
            },
            (Phase::Inspecting { dir, entry }, Event::Failed(kind)) => {
                self.phase = Phase::Raising { path: entry, kind, resume: Some(dir) };
            },
            (Phase::Raising { path, kind, resume: Some(dir) }, Event::Delivered) => {
                self.phase = Phase::Listing { dir };
            },
            (Phase::Raising { path, kind, resume: None }, Event::Delivered) => {
                self.advance();
            },
            (Phase::Raising { path, kind, resume }, Event::ReceiverGone) => {},
            (unchanged, _) => {
                self.phase = unchanged;
            },
        }
        self.action()
    }
}

} // verus!
