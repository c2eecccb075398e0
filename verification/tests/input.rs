use finder::error::Error;
use finder::input::{args, Args, PathSet};

fn text(s: &str) -> String {
    String::from(s)
}

fn paths_of(set: &PathSet) -> Vec<String> {
    (0..set.len()).map(|i| set.get(i).clone()).collect()
}

#[test]
fn the_positional_pattern_is_taken() {
    let parsed = args(Some(text("target")), None, None, false, false).unwrap();
    assert_eq!(parsed.pattern, "target");
    assert!(parsed.selected_drives.is_none());
    assert!(!parsed.debug);
    assert!(!parsed.no_stream);
    assert!(parsed.streaming());
}

#[test]
fn the_search_option_is_taken_where_no_positional_pattern_is_there() {
    let parsed = args(None, Some(text("needle")), None, true, true).unwrap();
    assert_eq!(parsed.pattern, "needle");
    assert!(parsed.debug);
    assert!(parsed.no_stream);
    assert!(!parsed.streaming());
}

#[test]
fn the_positional_pattern_comes_first() {
    let parsed = args(Some(text("first")), Some(text("second")), None, false, false).unwrap();
    assert_eq!(parsed.pattern, "first");
}

#[test]
fn an_empty_pattern_is_refused() {
    match args(Some(text("")), None, None, false, false) {
        Err(Error::Args(message)) => assert_eq!(message, "The pattern must not be empty."),
        other => panic!("unexpected: {:?}", other),
    }
    assert!(matches!(
        args(None, Some(text("")), None, true, false),
        Err(Error::Args(_))
    ));
}

#[test]
fn paths_given_twice_count_once() {
    let given = vec![text("/a"), text("/b"), text("/a"), text("/c"), text("/b")];
    let parsed = args(Some(text("x")), None, Some(given), false, false).unwrap();
    let roots = parsed.selected_drives.unwrap();
    assert_eq!(paths_of(&roots), vec![text("/a"), text("/b"), text("/c")]);
}

#[test]
fn no_paths_is_not_the_same_as_none_given() {
    let parsed = args(Some(text("x")), None, Some(Vec::new()), false, false).unwrap();
    assert_eq!(parsed.selected_drives.unwrap().len(), 0);
}

#[test]
fn a_path_set_holds_each_path_once() {
    let mut set = PathSet::new();
    assert_eq!(set.len(), 0);
    assert!(set.insert(text("/a")));
    assert!(set.insert(text("/b")));
    assert!(!set.insert(text("/a")));
    assert_eq!(set.len(), 2);
    assert!(set.contains(&text("/b")));
    assert!(!set.contains(&text("/c")));
    assert_eq!(set.get(0), "/a");
    assert_eq!(set.get(1), "/b");
}

#[test]
fn a_path_set_is_case_sensitive() {
    let set = PathSet::from_paths(vec![text("/A"), text("/a")]);
    assert_eq!(set.len(), 2);
}

#[test]
fn a_request_is_made_of_its_parts() {
    let request = Args::new(text("p"), Some(PathSet::from_paths(vec![text("/r")])), true, false);
    assert_eq!(request.pattern, "p");
    assert_eq!(request.selected_drives.unwrap().len(), 1);
    assert!(request.debug);
    assert!(!request.no_stream);
}
