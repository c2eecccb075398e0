use finder::error::{Error, IoErrorKind};
use finder::input::PathSet;
use finder::search::{
    collect, resolve_roots, search, search_no_stream, stream, stream_line, OutputLine,
    SearchResult, Snapshot,
};
use finder::tree::{Node, NodeKind};
use finder::walker::WalkOutcome;

fn text(s: &str) -> String {
    String::from(s)
}

fn file(path: &str) -> Node {
    Node { path: text(path), kind: NodeKind::File }
}

fn dir(path: &str, entries: Vec<Node>) -> Node {
    Node { path: text(path), kind: NodeKind::Dir { entries, cut: None } }
}

fn roots(paths: &[&str]) -> Option<PathSet> {
    Some(PathSet::from_paths(paths.iter().map(|p| text(p)).collect()))
}

fn lines(output: &[OutputLine]) -> Vec<String> {
    output
        .iter()
        .map(|line| match line {
            OutputLine::Out(text) => format!("out: {}", text),
            OutputLine::Diagnostic(text) => format!("err: {}", text),
        })
        .collect()
}

fn sample() -> Snapshot {
    Snapshot {
        bit_mask: 0,
        last_error: 0,
        roots: vec![dir(
            "root",
            vec![
                dir("root/a", vec![file("root/a/target.txt")]),
                dir("root/b", vec![file("root/b/other.txt")]),
                dir("root/targetdir", vec![]),
            ],
        )],
    }
}

fn sorted(mut paths: Vec<String>) -> Vec<String> {
    paths.sort();
    paths
}

#[test]
fn target_scenario_in_batch_mode() {
    let result = search_no_stream(text("target"), roots(&["root"]), false, &sample()).unwrap();
    assert_eq!(
        sorted(result.found),
        vec![text("root/a/target.txt"), text("root/targetdir")]
    );
    assert!(result.errors.is_none());
}

#[test]
fn target_scenario_in_streaming_mode() {
    let output = search(text("target"), roots(&["root"]), false, &sample());
    assert_eq!(
        sorted(lines(&output)),
        vec![text("out: root/a/target.txt"), text("out: root/targetdir")]
    );
}

#[test]
fn both_modes_find_the_same() {
    for debug in [false, true] {
        let batch = search_no_stream(text("t"), roots(&["root"]), debug, &sample()).unwrap();
        let streamed = search(text("t"), roots(&["root"]), debug, &sample());
        let written: Vec<String> = streamed
            .iter()
            .filter_map(|line| match line {
                OutputLine::Out(text) => Some(text.clone()),
                OutputLine::Diagnostic(_) => None,
            })
            .collect();
        assert_eq!(sorted(written), sorted(batch.found));
    }
}

#[test]
fn a_search_run_twice_finds_the_same() {
    let first = search_no_stream(text("o"), roots(&["root"]), true, &sample()).unwrap();
    let second = search_no_stream(text("o"), roots(&["root"]), true, &sample()).unwrap();
    assert_eq!(first.found, second.found);
}

#[test]
fn an_empty_root_gives_no_matches_and_no_failures() {
    let snapshot = Snapshot { bit_mask: 0, last_error: 0, roots: vec![dir("root", vec![])] };
    let result = search_no_stream(text("x"), roots(&["root"]), true, &snapshot).unwrap();
    assert!(result.found.is_empty());
    assert_eq!(result.errors.unwrap().len(), 0);
    let result = search_no_stream(text("x"), roots(&["root"]), false, &snapshot).unwrap();
    assert!(result.found.is_empty());
    assert!(result.errors.is_none());
    assert!(search(text("x"), roots(&["root"]), true, &snapshot).is_empty());
}

#[test]
fn an_unreadable_root_gives_one_permission_failure() {
    let snapshot = Snapshot {
        bit_mask: 0,
        last_error: 0,
        roots: vec![Node {
            path: text("root"),
            kind: NodeKind::Denied(IoErrorKind::PermissionDenied),
        }],
    };
    let result = search_no_stream(text("x"), roots(&["root"]), true, &snapshot).unwrap();
    assert!(result.found.is_empty());
    let errors = result.errors.unwrap();
    assert_eq!(errors.len(), 1);
    match &errors[0] {
        Error::IO(kind, path) => {
            assert_eq!(*kind, IoErrorKind::PermissionDenied);
            assert_eq!(path, "root");
        }
        other => panic!("unexpected: {:?}", other),
    }
    let output = search(text("x"), roots(&["root"]), true, &snapshot);
    assert_eq!(lines(&output), vec![text("err: root: permission denied")]);
}

#[test]
fn failures_are_dropped_without_debug() {
    let snapshot = Snapshot {
        bit_mask: 0,
        last_error: 0,
        roots: vec![dir(
            "root",
            vec![
                Node { path: text("root/x"), kind: NodeKind::Denied(IoErrorKind::Other) },
                Node { path: text("root/y"), kind: NodeKind::Unknown(IoErrorKind::NotFound) },
            ],
        )],
    };
    let result = search_no_stream(text("root"), roots(&["root"]), false, &snapshot).unwrap();
    assert!(result.errors.is_none());
    assert_eq!(result.found, vec![text("root/x"), text("root/y")]);
    let output = search(text("root"), roots(&["root"]), false, &snapshot);
    assert_eq!(lines(&output), vec![text("out: root/x"), text("out: root/y")]);
}

#[test]
fn an_unreadable_subdirectory_gives_exactly_one_failure() {
    let snapshot = Snapshot {
        bit_mask: 0,
        last_error: 0,
        roots: vec![dir(
            "root",
            vec![
                dir("root/a", vec![file("root/a/target")]),
                Node { path: text("root/b"), kind: NodeKind::Denied(IoErrorKind::PermissionDenied) },
                dir("root/c", vec![file("root/c/target")]),
            ],
        )],
    };
    let result = search_no_stream(text("target"), roots(&["root"]), true, &snapshot).unwrap();
    assert_eq!(
        sorted(result.found),
        vec![text("root/a/target"), text("root/c/target")]
    );
    let errors = result.errors.unwrap();
    assert_eq!(errors.len(), 1);
    assert!(matches!(
        &errors[0],
        Error::IO(IoErrorKind::PermissionDenied, path) if path == "root/b"
    ));
}

#[test]
fn several_roots_are_walked_in_turn() {
    let snapshot = Snapshot {
        bit_mask: 0,
        last_error: 0,
        roots: vec![
            dir("one", vec![file("one/hit")]),
            dir("two", vec![file("two/hit")]),
        ],
    };
    let result =
        search_no_stream(text("hit"), roots(&["two", "gone", "one"]), true, &snapshot).unwrap();
    assert_eq!(result.found, vec![text("two/hit"), text("one/hit")]);
    assert_eq!(result.errors.unwrap().len(), 0);
}

#[test]
fn without_selected_roots_the_volumes_are_searched() {
    let snapshot = Snapshot {
        bit_mask: 0b101,
        last_error: 0,
        roots: vec![
            dir("A:\\", vec![file("A:\\notes.txt")]),
            dir("B:\\", vec![file("B:\\notes.txt")]),
            dir("C:\\", vec![file("C:\\notes.txt")]),
        ],
    };
    let result = search_no_stream(text("notes"), None, false, &snapshot).unwrap();
    assert_eq!(result.found, vec![text("A:\\notes.txt"), text("C:\\notes.txt")]);
}

#[test]
fn a_failed_volume_query_fails_the_search() {
    let snapshot = Snapshot { bit_mask: 0, last_error: 31, roots: vec![] };
    assert!(matches!(
        search_no_stream(text("x"), None, true, &snapshot),
        Err(Error::DrivesApi(31))
    ));
    let output = search(text("x"), None, false, &snapshot);
    assert_eq!(lines(&output), vec![text("err: Api Error: 31")]);
    let snapshot = Snapshot { bit_mask: 1 << 30, last_error: 0, roots: vec![] };
    assert!(matches!(
        search_no_stream(text("x"), None, true, &snapshot),
        Err(Error::DrivesInvalidNumberOfDrives)
    ));
}

#[test]
fn selected_roots_are_used_as_they_are() {
    let resolved = resolve_roots(roots(&["/x", "/y"]), 0, 99).unwrap();
    assert_eq!(resolved.len(), 2);
    assert_eq!(resolved.get(0), "/x");
    assert_eq!(resolved.get(1), "/y");
}

#[test]
fn volume_roots_are_letter_colon_backslash() {
    let resolved = resolve_roots(None, 0b110, 0).unwrap();
    assert_eq!(resolved.len(), 2);
    assert_eq!(resolved.get(0), "B:\\");
    assert_eq!(resolved.get(1), "C:\\");
    assert!(matches!(resolve_roots(None, 0, 7), Err(Error::DrivesApi(7))));
}

#[test]
fn a_result_collects_in_arrival_order() {
    let mut result = SearchResult::empty(true);
    result.record(WalkOutcome::Match(text("b")));
    result.record(WalkOutcome::DirError(text("d"), IoErrorKind::Other));
    result.record(WalkOutcome::Match(text("a")));
    assert_eq!(result.found, vec![text("b"), text("a")]);
    assert_eq!(result.errors.as_ref().unwrap().len(), 1);
    let mut quiet = SearchResult::empty(false);
    quiet.record(WalkOutcome::DirError(text("d"), IoErrorKind::Other));
    quiet.record(WalkOutcome::Match(text("m")));
    assert!(quiet.errors.is_none());
    assert_eq!(quiet.found, vec![text("m")]);
}

#[test]
fn collecting_is_recording_one_by_one() {
    let outcomes = vec![
        WalkOutcome::Match(text("x")),
        WalkOutcome::DirError(text("y"), IoErrorKind::NotFound),
    ];
    let result = collect(outcomes, true);
    assert_eq!(result.found, vec![text("x")]);
    assert!(matches!(
        &result.errors.unwrap()[0],
        Error::IO(IoErrorKind::NotFound, path) if path == "y"
    ));
}

#[test]
fn streaming_writes_matches_and_with_debug_failures() {
    assert!(matches!(
        stream_line(WalkOutcome::Match(text("p")), false),
        Some(OutputLine::Out(line)) if line == "p"
    ));
    assert!(stream_line(WalkOutcome::DirError(text("p"), IoErrorKind::Other), false).is_none());
    assert!(matches!(
        stream_line(WalkOutcome::DirError(text("p"), IoErrorKind::Other), true),
        Some(OutputLine::Diagnostic(line)) if line == "p: other error"
    ));
    let outcomes = vec![
        WalkOutcome::DirError(text("d"), IoErrorKind::IsADirectory),
        WalkOutcome::Match(text("m")),
    ];
    assert_eq!(
        lines(&stream(outcomes, true)),
        vec![text("err: d: is a directory"), text("out: m")]
    );
}

#[test]
fn a_result_is_reported_under_headings() {
    let result = SearchResult::new(
        vec![text("a"), text("b")],
        Some(vec![Error::IO(IoErrorKind::NotFound, text("c"))]),
    );
    assert_eq!(
        lines(&result.report()),
        vec![
            text("out: Results:"),
            text("out: a"),
            text("out: b"),
            text("out: Errors:"),
            text("err: c: entity not found"),
        ]
    );
    let result = SearchResult::new(vec![], None);
    assert_eq!(lines(&result.report()), vec![text("out: Results:")]);
    let result = SearchResult::new(vec![], Some(vec![]));
    assert_eq!(
        lines(&result.report()),
        vec![text("out: Results:"), text("out: Errors:")]
    );
}

#[test]
fn the_first_tree_at_a_path_is_the_one_that_counts() {
    let snapshot = Snapshot {
        bit_mask: 0,
        last_error: 0,
        roots: vec![dir("r", vec![file("r/one")]), dir("r", vec![file("r/two")])],
    };
    assert!(snapshot.tree(&text("missing")).is_none());
    let found = snapshot.walk_roots(&PathSet::from_paths(vec![text("r")]), &text("r/"));
    assert_eq!(found.len(), 1);
    assert!(matches!(&found[0], WalkOutcome::Match(path) if path == "r/one"));
}
