use axosync::patch::{sourcemap_set, AddressError, AddressFault, SourcemapSetRequest};
use axosync::tree::SourcemapInstance;

fn node(name: &str, class_name: &str, children: Vec<SourcemapInstance>) -> SourcemapInstance {
    SourcemapInstance {
        name: name.to_string(),
        class_name: class_name.to_string(),
        plugin_managed: false,
        file_paths: Vec::new(),
        children,
    }
}

fn path(segments: &[&str]) -> Vec<String> {
    segments.iter().map(|s| s.to_string()).collect()
}

fn put(segments: &[&str], value: SourcemapInstance, keep: bool) -> SourcemapSetRequest {
    SourcemapSetRequest { path: path(segments), value: Some(value), no_overwrite_children: keep }
}

fn delete(segments: &[&str]) -> SourcemapSetRequest {
    SourcemapSetRequest { path: path(segments), value: None, no_overwrite_children: false }
}

fn applied(top: SourcemapInstance, batch: Vec<SourcemapSetRequest>) -> SourcemapInstance {
    match sourcemap_set(top, batch) {
        Ok(tree) => tree,
        Err(error) => panic!("the batch failed: {}", error.message()),
    }
}

fn refused(top: SourcemapInstance, batch: Vec<SourcemapSetRequest>) -> AddressError {
    match sourcemap_set(top, batch) {
        Ok(_) => panic!("the batch went through"),
        Err(error) => error,
    }
}

#[test]
fn upsert_replaces_only_the_first_of_two_namesakes() {
    let top = node("root", "DataModel", vec![node("X", "A", vec![]), node("X", "B", vec![])]);
    let tree = applied(top, vec![put(&["X"], node("X", "C", vec![]), false)]);
    let expected =
        node("root", "DataModel", vec![node("X", "C", vec![]), node("X", "B", vec![])]);
    assert_eq!(tree, expected);
}

#[test]
fn delete_removes_every_namesake() {
    let top = node("root", "DataModel", vec![node("X", "A", vec![]), node("X", "B", vec![])]);
    let tree = applied(top, vec![delete(&["X"])]);
    assert_eq!(tree, node("root", "DataModel", vec![]));
}

#[test]
fn delete_keeps_the_others_in_order() {
    let top = node(
        "root",
        "DataModel",
        vec![
            node("A", "Folder", vec![]),
            node("X", "Part", vec![]),
            node("B", "Folder", vec![]),
            node("X", "Script", vec![]),
            node("C", "Folder", vec![]),
        ],
    );
    let tree = applied(top, vec![delete(&["X"])]);
    let expected = node(
        "root",
        "DataModel",
        vec![node("A", "Folder", vec![]), node("B", "Folder", vec![]), node("C", "Folder", vec![])],
    );
    assert_eq!(tree, expected);
}

#[test]
fn delete_of_an_absent_name_changes_nothing() {
    let top = node("root", "DataModel", vec![node("A", "Folder", vec![])]);
    let tree = applied(top.clone(), vec![delete(&["Z"])]);
    assert_eq!(tree, top);
}

#[test]
fn upsert_hands_on_the_children_when_asked() {
    let c1 = node("C1", "Part", vec![]);
    let c2 = node("C2", "Part", vec![]);
    let top = node("root", "DataModel", vec![node("X", "Old", vec![c1.clone()])]);
    let tree = applied(top, vec![put(&["X"], node("X", "New", vec![c2]), true)]);
    assert_eq!(tree, node("root", "DataModel", vec![node("X", "New", vec![c1])]));
}

#[test]
fn upsert_brings_its_own_children_otherwise() {
    let c1 = node("C1", "Part", vec![]);
    let c2 = node("C2", "Part", vec![]);
    let top = node("root", "DataModel", vec![node("X", "Old", vec![c1])]);
    let tree = applied(top, vec![put(&["X"], node("X", "New", vec![c2.clone()]), false)]);
    assert_eq!(tree, node("root", "DataModel", vec![node("X", "New", vec![c2])]));
}

#[test]
fn handing_on_children_is_shallow() {
    let deep = node("D", "Part", vec![node("E", "Part", vec![])]);
    let top = node("root", "DataModel", vec![node("X", "Old", vec![deep.clone()])]);
    let value = node("X", "New", vec![node("D", "Other", vec![])]);
    let tree = applied(top, vec![put(&["X"], value, true)]);
    assert_eq!(tree, node("root", "DataModel", vec![node("X", "New", vec![deep])]));
}

#[test]
fn a_new_child_with_the_flag_keeps_its_own_children() {
    let c2 = node("C2", "Part", vec![]);
    let top = node("root", "DataModel", vec![]);
    let tree = applied(top, vec![put(&["X"], node("X", "New", vec![c2.clone()]), true)]);
    assert_eq!(tree, node("root", "DataModel", vec![node("X", "New", vec![c2])]));
}

#[test]
fn a_new_child_goes_last() {
    let top = node("root", "DataModel", vec![node("A", "Folder", vec![]), node("B", "Folder", vec![])]);
    let tree = applied(top, vec![put(&["N"], node("N", "Part", vec![]), false)]);
    let expected = node(
        "root",
        "DataModel",
        vec![node("A", "Folder", vec![]), node("B", "Folder", vec![]), node("N", "Part", vec![])],
    );
    assert_eq!(tree, expected);
}

#[test]
fn insert_then_delete_leaves_no_such_node() {
    let top = node("root", "DataModel", vec![node("B", "Folder", vec![])]);
    let tree = applied(top, vec![put(&["A"], node("A", "Part", vec![]), false), delete(&["A"])]);
    assert_eq!(tree, node("root", "DataModel", vec![node("B", "Folder", vec![])]));
    assert!(tree.find_first_child("A").is_none());
}

#[test]
fn delete_then_insert_leaves_exactly_one() {
    let top = node(
        "root",
        "DataModel",
        vec![node("A", "Old", vec![]), node("B", "Folder", vec![]), node("A", "Older", vec![])],
    );
    let tree = applied(top, vec![delete(&["A"]), put(&["A"], node("A", "New", vec![]), true)]);
    let expected =
        node("root", "DataModel", vec![node("B", "Folder", vec![]), node("A", "New", vec![])]);
    assert_eq!(tree, expected);
    assert_eq!(tree.children.iter().filter(|c| c.name == "A").count(), 1);
}

#[test]
fn each_request_sees_what_the_earlier_ones_left() {
    let top = node("root", "DataModel", vec![]);
    let batch = vec![
        put(&["A"], node("A", "Folder", vec![]), false),
        put(&["A", "B"], node("B", "Folder", vec![]), false),
        put(&["A", "B", "C"], node("C", "Part", vec![]), false),
    ];
    let tree = applied(top, batch);
    let expected = node(
        "root",
        "DataModel",
        vec![node("A", "Folder", vec![node("B", "Folder", vec![node("C", "Part", vec![])])])],
    );
    assert_eq!(tree, expected);
}

#[test]
fn the_walk_takes_the_first_namesake() {
    let top = node(
        "root",
        "DataModel",
        vec![node("A", "First", vec![]), node("A", "Second", vec![node("K", "Part", vec![])])],
    );
    let tree = applied(top, vec![put(&["A", "K"], node("K", "New", vec![]), false)]);
    let expected = node(
        "root",
        "DataModel",
        vec![
            node("A", "First", vec![node("K", "New", vec![])]),
            node("A", "Second", vec![node("K", "Part", vec![])]),
        ],
    );
    assert_eq!(tree, expected);
}

#[test]
fn delete_below_the_top() {
    let top = node(
        "root",
        "DataModel",
        vec![node("A", "Folder", vec![node("K", "Part", vec![]), node("L", "Part", vec![])])],
    );
    let tree = applied(top, vec![delete(&["A", "K"])]);
    let expected =
        node("root", "DataModel", vec![node("A", "Folder", vec![node("L", "Part", vec![])])]);
    assert_eq!(tree, expected);
}

#[test]
fn an_empty_address_replaces_the_whole_tree() {
    let top = node("root", "DataModel", vec![node("A", "Folder", vec![])]);
    let fresh = node("game", "DataModel", vec![node("Z", "Part", vec![])]);
    let tree = applied(top, vec![put(&[], fresh.clone(), true)]);
    assert_eq!(tree, fresh);
}

#[test]
fn an_empty_address_without_a_value_is_refused() {
    let top = node("root", "DataModel", vec![]);
    let error = refused(top, vec![delete(&[])]);
    assert_eq!(error.index, 0);
    assert!(matches!(error.fault, AddressFault::EmptyAddress));
    assert_eq!(error.message(), "request 0: empty address requires a value");
}

#[test]
fn a_missing_intermediate_fails_the_batch() {
    let top = node("root", "DataModel", vec![node("B", "Folder", vec![])]);
    let error = refused(top, vec![put(&["A", "B"], node("B", "Part", vec![]), false)]);
    assert_eq!(error.index, 0);
    match &error.fault {
        AddressFault::MissingSegment { segment, parent_class_name, parent_name } => {
            assert_eq!(segment, "A");
            assert_eq!(parent_class_name, "DataModel");
            assert_eq!(parent_name, "root");
        }
        AddressFault::EmptyAddress => panic!("the wrong fault"),
    }
    assert_eq!(error.fault.message(), "\"A\" is not a valid member of DataModel root");
    assert_eq!(error.message(), "request 0: \"A\" is not a valid member of DataModel root");
}

#[test]
fn a_missing_intermediate_is_not_created() {
    let top = node("root", "DataModel", vec![]);
    let error = refused(top, vec![delete(&["A", "B"])]);
    assert_eq!(error.fault.message(), "\"A\" is not a valid member of DataModel root");
}

#[test]
fn a_failure_names_the_request_and_the_node_it_stopped_in() {
    let top = node("root", "DataModel", vec![node("A", "Folder", vec![])]);
    let batch = vec![
        put(&["A", "B"], node("B", "Model", vec![]), false),
        delete(&["A", "B", "C"]),
        put(&["A", "B", "C", "D"], node("D", "Part", vec![]), false),
        delete(&["A"]),
    ];
    let error = refused(top, batch);
    assert_eq!(error.index, 2);
    assert_eq!(error.message(), "request 2: \"C\" is not a valid member of Model B");
}

#[test]
fn the_tenth_request_is_numbered_in_full() {
    let top = node("root", "DataModel", vec![]);
    let mut batch = Vec::new();
    for _ in 0..12 {
        batch.push(delete(&["A"]));
    }
    batch.push(delete(&[]));
    let error = refused(top, batch);
    assert_eq!(error.index, 12);
    assert_eq!(error.message(), "request 12: empty address requires a value");
}

#[test]
fn a_request_applied_twice_changes_nothing_more() {
    let top = node(
        "root",
        "DataModel",
        vec![node("X", "A", vec![node("K", "Part", vec![])]), node("X", "B", vec![])],
    );
    let once = applied(top, vec![put(&["X"], node("X", "C", vec![]), true)]);
    let twice = applied(once.clone(), vec![put(&["X"], node("X", "C", vec![]), true)]);
    assert_eq!(once, twice);
    let gone = applied(once, vec![delete(&["X"])]);
    let still_gone = applied(gone.clone(), vec![delete(&["X"])]);
    assert_eq!(gone, still_gone);
}

#[test]
fn a_batch_replayed_on_its_result_gives_it_again() {
    let top = node("root", "DataModel", vec![node("A", "Folder", vec![])]);
    let batch = || {
        vec![
            put(&["A", "B"], node("B", "Folder", vec![]), false),
            put(&["A", "B", "C"], node("C", "Part", vec![]), false),
            delete(&["A", "Z"]),
            put(&["A"], node("A", "Model", vec![]), true),
        ]
    };
    let once = applied(top, batch());
    let twice = applied(once.clone(), batch());
    assert_eq!(once, twice);
}

#[test]
fn an_empty_batch_returns_the_tree() {
    let top = node("root", "DataModel", vec![node("A", "Folder", vec![])]);
    assert_eq!(applied(top.clone(), vec![]), top);
}

#[test]
fn requests_that_keep_apart_replay_to_the_same_tree() {
    let top = node(
        "root",
        "DataModel",
        vec![
            node("A", "Folder", vec![node("K", "Part", vec![]), node("L", "Part", vec![])]),
            node("B", "Folder", vec![]),
            node("X", "Old", vec![node("C1", "Part", vec![])]),
            node("X", "Older", vec![]),
        ],
    );
    let batch = || {
        vec![
            put(&["X"], node("X", "New", vec![node("C2", "Part", vec![])]), true),
            delete(&["A", "K"]),
            put(&["A", "M"], node("M", "Part", vec![]), false),
            put(&["B", "N"], node("N", "Script", vec![]), false),
            delete(&["Z"]),
        ]
    };
    let once = applied(top, batch());
    let expected = node(
        "root",
        "DataModel",
        vec![
            node("A", "Folder", vec![node("L", "Part", vec![]), node("M", "Part", vec![])]),
            node("B", "Folder", vec![node("N", "Script", vec![])]),
            node("X", "New", vec![node("C1", "Part", vec![])]),
            node("X", "Older", vec![]),
        ],
    );
    assert_eq!(once, expected);
    let twice = applied(once.clone(), batch());
    assert_eq!(once, twice);
}

#[test]
fn a_node_that_is_deleted_and_put_again_goes_last() {
    let top = node("root", "DataModel", vec![node("X", "Old", vec![]), node("Y", "Part", vec![])]);
    let tree = applied(top, vec![delete(&["X"]), put(&["X"], node("X", "New", vec![]), false)]);
    let expected =
        node("root", "DataModel", vec![node("Y", "Part", vec![]), node("X", "New", vec![])]);
    assert_eq!(tree, expected);
}

#[test]
fn a_request_at_its_defaults_deletes_at_the_empty_address() {
    let request = SourcemapSetRequest::default();
    assert!(request.path.is_empty());
    assert!(request.value.is_none());
    assert!(!request.no_overwrite_children);
    let error = refused(node("root", "DataModel", vec![]), vec![request]);
    assert!(matches!(error.fault, AddressFault::EmptyAddress));
}

#[test]
fn a_cloned_request_asks_for_the_same() {
    let request = put(&["A", "B"], node("B", "Part", vec![node("C", "Part", vec![])]), true);
    let copy = request.clone();
    assert_eq!(copy.path, request.path);
    assert_eq!(copy.value, request.value);
    assert_eq!(copy.no_overwrite_children, request.no_overwrite_children);
    let top = node("root", "DataModel", vec![node("A", "Folder", vec![])]);
    assert_eq!(applied(top.clone(), vec![request]), applied(top, vec![copy]));
}
