use finder::error::IoErrorKind;
use finder::replay::walk_tree;
use finder::tree::{Node, NodeKind};
use finder::walker::{Action, Event, WalkOutcome, Walker};

fn text(s: &str) -> String {
    String::from(s)
}

fn file(path: &str) -> Node {
    Node { path: text(path), kind: NodeKind::File }
}

fn dir(path: &str, entries: Vec<Node>) -> Node {
    Node { path: text(path), kind: NodeKind::Dir { entries, cut: None } }
}

fn shown(outcomes: &[WalkOutcome]) -> Vec<String> {
    outcomes
        .iter()
        .map(|outcome| match outcome {
            WalkOutcome::Match(path) => format!("+{}", path),
            WalkOutcome::DirError(path, kind) => format!("!{} {:?}", path, kind),
        })
        .collect()
}

fn sample() -> Node {
    dir(
        "root",
        vec![
            dir("root/a", vec![file("root/a/target.txt")]),
            dir("root/b", vec![file("root/b/other.txt")]),
            dir("root/targetdir", vec![]),
        ],
    )
}

#[test]
fn a_walker_starts_by_probing_its_root() {
    let walker = Walker::new(text("root"), text("x"));
    assert!(matches!(walker.action(), Action::Probe(path) if path == "root"));
    assert!(!walker.is_finished());
    assert_eq!(walker.pending_len(), 0);
}

#[test]
fn a_root_that_is_no_directory_ends_the_walk_at_once() {
    let mut walker = Walker::new(text("root"), text("x"));
    assert!(matches!(walker.step(Event::IsDirectory(false)), Action::Finish));
    assert!(walker.is_finished());
    let mut walker = Walker::new(text("root"), text("x"));
    assert!(matches!(
        walker.step(Event::Failed(IoErrorKind::NotFound)),
        Action::Finish
    ));
}

#[test]
fn a_walker_goes_through_one_directory_step_by_step() {
    let mut walker = Walker::new(text("root"), text("tar"));
    assert!(matches!(walker.step(Event::IsDirectory(true)), Action::Open(p) if p == "root"));
    assert!(matches!(walker.step(Event::Opened), Action::NextEntry));
    // an entry that matches is sent before its metadata is asked for
    match walker.step(Event::Entry(text("root/target"))) {
        Action::Send(WalkOutcome::Match(path)) => assert_eq!(path, "root/target"),
        other => panic!("unexpected: {:?}", other),
    }
    assert!(matches!(walker.step(Event::Delivered), Action::Stat(p) if p == "root/target"));
    assert!(matches!(walker.step(Event::IsDirectory(true)), Action::NextEntry));
    assert_eq!(walker.pending_len(), 1);
    // an entry that does not match goes straight to its metadata
    assert!(matches!(
        walker.step(Event::Entry(text("root/other"))),
        Action::Stat(p) if p == "root/other"
    ));
    assert!(matches!(walker.step(Event::IsDirectory(false)), Action::NextEntry));
    assert_eq!(walker.pending_len(), 1);
    // the end of the listing turns to the directory that waits
    assert!(matches!(
        walker.step(Event::EndOfListing),
        Action::Open(p) if p == "root/target"
    ));
    assert_eq!(walker.pending_len(), 0);
    assert!(matches!(walker.step(Event::Opened), Action::NextEntry));
    assert!(matches!(walker.step(Event::EndOfListing), Action::Finish));
    assert!(walker.is_finished());
}

#[test]
fn a_failed_metadata_read_is_reported_and_the_listing_goes_on() {
    let mut walker = Walker::new(text("root"), text("zzz"));
    walker.step(Event::IsDirectory(true));
    walker.step(Event::Opened);
    walker.step(Event::Entry(text("root/x")));
    match walker.step(Event::Failed(IoErrorKind::PermissionDenied)) {
        Action::Send(WalkOutcome::DirError(path, kind)) => {
            assert_eq!(path, "root/x");
            assert_eq!(kind, IoErrorKind::PermissionDenied);
        }
        other => panic!("unexpected: {:?}", other),
    }
    assert!(matches!(walker.step(Event::Delivered), Action::NextEntry));
    assert_eq!(walker.pending_len(), 0);
}

#[test]
fn a_failed_listing_is_reported_for_the_directory_and_ends_it() {
    let mut walker = Walker::new(text("root"), text("zzz"));
    walker.step(Event::IsDirectory(true));
    walker.step(Event::Opened);
    match walker.step(Event::Failed(IoErrorKind::Other)) {
        Action::Send(WalkOutcome::DirError(path, kind)) => {
            assert_eq!(path, "root");
            assert_eq!(kind, IoErrorKind::Other);
        }
        other => panic!("unexpected: {:?}", other),
    }
    assert!(matches!(walker.step(Event::Delivered), Action::Finish));
}

#[test]
fn a_receiver_that_is_gone_stops_the_walker() {
    let mut walker = Walker::new(text("root"), text("a"));
    walker.step(Event::IsDirectory(true));
    walker.step(Event::Opened);
    assert!(matches!(
        walker.step(Event::Entry(text("root/a"))),
        Action::Send(WalkOutcome::Match(_))
    ));
    assert!(matches!(walker.step(Event::ReceiverGone), Action::Finish));
    assert!(walker.is_finished());
    assert!(matches!(walker.step(Event::Opened), Action::Finish));
}

#[test]
fn an_event_that_answers_nothing_changes_nothing() {
    let mut walker = Walker::new(text("root"), text("a"));
    assert!(matches!(walker.step(Event::Opened), Action::Probe(p) if p == "root"));
    assert!(matches!(walker.step(Event::Delivered), Action::Probe(p) if p == "root"));
    walker.step(Event::IsDirectory(true));
    assert!(matches!(walker.step(Event::EndOfListing), Action::Open(p) if p == "root"));
    assert!(matches!(
        walker.step(Event::Entry(text("root/a"))),
        Action::Open(p) if p == "root"
    ));
}

#[test]
fn matching_is_case_sensitive() {
    let tree = dir("root", vec![file("root/Target"), file("root/target")]);
    assert_eq!(shown(&walk_tree(&tree, "target")), vec![text("+root/target")]);
    assert_eq!(shown(&walk_tree(&tree, "Target")), vec![text("+root/Target")]);
}

#[test]
fn the_whole_path_text_is_searched() {
    let tree = dir("needle", vec![file("needle/a"), dir("needle/b", vec![file("needle/b/c")])]);
    assert_eq!(
        shown(&walk_tree(&tree, "needle")),
        vec![text("+needle/a"), text("+needle/b"), text("+needle/b/c")]
    );
    assert_eq!(shown(&walk_tree(&tree, "/b/")), vec![text("+needle/b/c")]);
}

#[test]
fn the_root_itself_is_never_a_match() {
    let tree = dir("target", vec![]);
    assert!(walk_tree(&tree, "target").is_empty());
}

#[test]
fn the_walk_goes_level_by_level() {
    let tree = dir(
        "r",
        vec![
            dir("r/a", vec![file("r/a/x1"), dir("r/a/d", vec![file("r/a/d/x3")])]),
            file("r/x0"),
            dir("r/b", vec![file("r/b/x2")]),
        ],
    );
    assert_eq!(
        shown(&walk_tree(&tree, "x")),
        vec![text("+r/x0"), text("+r/a/x1"), text("+r/b/x2"), text("+r/a/d/x3")]
    );
}

#[test]
fn target_scenario_finds_the_file_and_the_directory() {
    let mut found = shown(&walk_tree(&sample(), "target"));
    found.sort();
    assert_eq!(found, vec![text("+root/a/target.txt"), text("+root/targetdir")]);
}

#[test]
fn an_empty_root_directory_gives_nothing() {
    let tree = dir("root", vec![]);
    assert!(walk_tree(&tree, "anything").is_empty());
    assert!(walk_tree(&tree, "").is_empty());
}

#[test]
fn a_file_as_root_gives_nothing() {
    assert!(walk_tree(&file("root.txt"), "root").is_empty());
    let unknown = Node { path: text("root"), kind: NodeKind::Unknown(IoErrorKind::NotFound) };
    assert!(walk_tree(&unknown, "root").is_empty());
}

#[test]
fn an_unreadable_root_gives_one_failure() {
    let tree = Node { path: text("root"), kind: NodeKind::Denied(IoErrorKind::PermissionDenied) };
    assert_eq!(
        shown(&walk_tree(&tree, "x")),
        vec![text("!root PermissionDenied")]
    );
}

#[test]
fn an_unreadable_subdirectory_costs_one_failure_and_spares_its_siblings() {
    let tree = dir(
        "root",
        vec![
            dir("root/a", vec![file("root/a/target.txt")]),
            Node { path: text("root/b"), kind: NodeKind::Denied(IoErrorKind::PermissionDenied) },
            dir("root/c", vec![file("root/c/target.bin")]),
        ],
    );
    let seen = shown(&walk_tree(&tree, "target"));
    assert_eq!(
        seen,
        vec![
            text("+root/a/target.txt"),
            text("!root/b PermissionDenied"),
            text("+root/c/target.bin"),
        ]
    );
}

#[test]
fn a_listing_that_breaks_off_keeps_what_it_gave() {
    let tree = Node {
        path: text("root"),
        kind: NodeKind::Dir {
            entries: vec![file("root/hit1"), dir("root/d", vec![file("root/d/hit2")])],
            cut: Some(IoErrorKind::Other),
        },
    };
    assert_eq!(
        shown(&walk_tree(&tree, "hit")),
        vec![text("+root/hit1"), text("!root Other"), text("+root/d/hit2")]
    );
}

#[test]
fn an_entry_without_metadata_is_matched_reported_and_not_entered() {
    let tree = dir(
        "root",
        vec![Node { path: text("root/odd"), kind: NodeKind::Unknown(IoErrorKind::NotFound) }],
    );
    assert_eq!(
        shown(&walk_tree(&tree, "odd")),
        vec![text("+root/odd"), text("!root/odd NotFound")]
    );
}

#[test]
fn an_empty_pattern_matches_every_entry() {
    let found = walk_tree(&sample(), "");
    assert_eq!(found.len(), 5);
}

#[test]
fn snapshot_nodes_answer_for_their_metadata() {
    assert!(matches!(file("f").metadata(), Event::IsDirectory(false)));
    assert!(matches!(dir("d", vec![]).metadata(), Event::IsDirectory(true)));
    assert!(dir("d", vec![]).is_directory());
    assert!(!file("f").is_directory());
}
