use glory::routing::PathState;

#[test]
fn a_path_is_cut_at_its_slashes() {
    let state = PathState::new("/one//two/three/");
    assert_eq!(state.parts, vec!["one", "two", "three"]);
    assert!(state.end_slash);
    assert_eq!(state.cursor, (0, 0));
    assert!(state.params.is_empty());
    assert!(!state.is_ended());

    let state = PathState::new("one/two");
    assert_eq!(state.parts, vec!["one", "two"]);
    assert!(!state.end_slash);
}

#[test]
fn a_path_without_segments_is_ended() {
    for path in ["", "/", "///"] {
        let state = PathState::new(path);
        assert!(state.parts.is_empty());
        assert!(state.is_ended());
        assert_eq!(state.pick(), None);
        assert_eq!(state.all_rest(), None);
    }
    assert!(!PathState::new("").end_slash);
    assert!(PathState::new("/").end_slash);
}

#[test]
fn segments_are_percent_decoded() {
    let state = PathState::new("/a%20b/caf%C3%A9/100%/%zz/%ff");
    assert_eq!(state.parts, vec!["a b", "café", "100%", "%zz", "\u{fffd}"]);
}

#[test]
fn pick_gives_the_rest_of_the_part_or_the_next_part() {
    let mut state = PathState::new("/users/42/edit");
    assert_eq!(state.pick(), Some("users"));
    state.forward(2);
    assert_eq!(state.cursor, (0, 2));
    assert_eq!(state.pick(), Some("ers"));
    state.cursor = (0, 5);
    assert_eq!(state.pick(), Some("42"));
    state.cursor = (2, 4);
    assert_eq!(state.pick(), None);
    state.cursor = (3, 0);
    assert_eq!(state.pick(), None);
}

#[test]
fn forward_moves_from_part_to_part() {
    let mut state = PathState::new("/ab/cde/f");
    state.forward(1);
    assert_eq!(state.cursor, (0, 1));
    state.forward(1);
    assert_eq!(state.cursor, (1, 0));
    state.forward(3);
    assert_eq!(state.cursor, (2, 0));
    assert_eq!(state.pick(), Some("f"));
    state.forward(0);
    assert_eq!(state.cursor, (2, 0));
    state.forward(1);
    assert_eq!(state.cursor, (3, 0));
    assert!(state.is_ended());
    state.forward(7);
    assert_eq!(state.cursor, (3, 0));

    let mut state = PathState::new("/ab/cde/f");
    state.forward(100);
    assert_eq!(state.cursor, (3, 0));
}

#[test]
fn forward_counts_bytes() {
    let mut state = PathState::new("/caf%C3%A9/x");
    state.forward(3);
    assert_eq!(state.pick(), Some("é"));
    state.forward(2);
    assert_eq!(state.cursor, (1, 0));
}

#[test]
fn all_rest_joins_what_is_left() {
    let mut state = PathState::new("/a/bc/d");
    assert_eq!(state.all_rest().as_deref(), Some("a/bc/d"));
    state.forward(1);
    assert_eq!(state.all_rest().as_deref(), Some("bc/d"));
    state.forward(1);
    assert_eq!(state.all_rest().as_deref(), Some("c/d"));
    state.forward(1);
    assert_eq!(state.all_rest().as_deref(), Some("d"));
    state.forward(1);
    assert_eq!(state.all_rest(), None);

    let mut state = PathState::new("/a/bc/");
    assert_eq!(state.all_rest().as_deref(), Some("a/bc/"));
    state.forward(1);
    assert_eq!(state.all_rest().as_deref(), Some("bc/"));
}

#[test]
fn all_rest_at_the_end_of_a_part_names_the_next_part_twice() {
    let mut state = PathState::new("/a/b/c");
    state.cursor = (0, 1);
    assert_eq!(state.pick(), Some("b"));
    assert_eq!(state.all_rest().as_deref(), Some("b/b/c"));
    state.cursor = (1, 1);
    assert_eq!(state.all_rest().as_deref(), Some("c/c"));
    state.cursor = (2, 0);
    assert_eq!(state.all_rest().as_deref(), Some("c"));
}
