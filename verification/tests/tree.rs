use axosync::config::Config;
use axosync::tree::{same_texts, same_tree, SourcemapInstance};

fn leaf(name: &str, class_name: &str) -> SourcemapInstance {
    SourcemapInstance {
        name: name.to_string(),
        class_name: class_name.to_string(),
        plugin_managed: false,
        file_paths: Vec::new(),
        children: Vec::new(),
    }
}

fn sample() -> SourcemapInstance {
    SourcemapInstance {
        name: "root".to_string(),
        class_name: "DataModel".to_string(),
        plugin_managed: true,
        file_paths: vec!["src/init.lua".to_string()],
        children: vec![leaf("X", "A"), leaf("Y", "B"), leaf("X", "C")],
    }
}

#[test]
fn the_default_tree_is_an_empty_root() {
    let tree = SourcemapInstance::default();
    assert_eq!(tree.name, "");
    assert_eq!(tree.class_name, "");
    assert!(!tree.plugin_managed);
    assert!(tree.file_paths.is_empty());
    assert!(tree.children.is_empty());
}

#[test]
fn find_first_child_takes_the_first_namesake() {
    let tree = sample();
    let found = tree.find_first_child("X").unwrap();
    assert_eq!(found.class_name, "A");
    assert_eq!(tree.find_first_child("Y").unwrap().class_name, "B");
    assert_eq!(tree.first_child_index("X"), Some(0));
    assert_eq!(tree.first_child_index("Y"), Some(1));
}

#[test]
fn find_first_child_finds_nothing_under_another_name() {
    let tree = sample();
    assert!(tree.find_first_child("Z").is_none());
    assert!(tree.find_first_child("x").is_none());
    assert!(tree.find_first_child("").is_none());
    assert_eq!(tree.first_child_index("Z"), None);
    assert!(leaf("lonely", "Part").find_first_child("X").is_none());
}

#[test]
fn find_first_child_mut_opens_the_first_namesake_only() {
    let mut tree = sample();
    tree.find_first_child_mut("X").unwrap().class_name = "Changed".to_string();
    assert_eq!(tree.children[0].class_name, "Changed");
    assert_eq!(tree.children[1].class_name, "B");
    assert_eq!(tree.children[2].class_name, "C");
    assert!(tree.find_first_child_mut("Z").is_none());
    assert_eq!(tree.name, "root");
}

#[test]
fn upsert_child_and_remove_children_work_on_one_node() {
    let mut tree = sample();
    tree.upsert_child("Y", leaf("Y", "New"), false);
    assert_eq!(tree.children[1], leaf("Y", "New"));
    tree.upsert_child("W", leaf("W", "Part"), false);
    assert_eq!(tree.children.len(), 4);
    assert_eq!(tree.children[3], leaf("W", "Part"));
    tree.remove_children("X");
    assert_eq!(tree.children, vec![leaf("Y", "New"), leaf("W", "Part")]);
}

#[test]
fn a_clone_is_the_same_tree() {
    let mut deep = sample();
    deep.children[1].children.push(sample());
    let copy = deep.clone();
    assert!(same_tree(&deep, &copy));
    assert_eq!(deep, copy);
}

#[test]
fn trees_differ_in_any_field() {
    let tree = sample();
    let mut other = sample();
    other.plugin_managed = false;
    assert_ne!(tree, other);
    let mut other = sample();
    other.file_paths.push("b".to_string());
    assert_ne!(tree, other);
    let mut other = sample();
    other.children.swap(0, 1);
    assert_ne!(tree, other);
    let mut other = sample();
    other.children[2].name.push('!');
    assert_ne!(tree, other);
    let mut other = sample();
    other.class_name.clear();
    assert_ne!(tree, other);
}

#[test]
fn lists_of_strings_compare_item_by_item() {
    let a = vec!["x".to_string(), "y".to_string()];
    assert!(same_texts(&a, &a.clone()));
    assert!(!same_texts(&a, &vec!["x".to_string()]));
    assert!(!same_texts(&a, &vec!["y".to_string(), "x".to_string()]));
    assert!(same_texts(&Vec::new(), &Vec::new()));
}

#[test]
fn the_tree_is_kept_in_the_configured_directory() {
    let mut config = Config::with_project_name("game".to_string());
    config.sourcemap_directory = "out".to_string();
    let path = SourcemapInstance::path(&config);
    assert!(path.starts_with("out"));
    assert!(path.ends_with("sourcemap.json"));
    assert_eq!(path.len(), "out".len() + 1 + "sourcemap.json".len());
}
