use kube_dns_rs::trie::Trie;

fn path(labels: &[&str]) -> Vec<String> {
    labels.iter().map(|l| l.to_string()).collect()
}

#[test]
fn insert_then_get() {
    let mut t: Trie<u32> = Trie::new();
    t.insert(&path(&["www", "example", "com"]), 7);
    assert_eq!(t.get(&path(&["www", "example", "com"])), Some(&7));
    assert_eq!(t.get(&path(&["www", "example"])), None);
    assert_eq!(t.get(&path(&["example", "com"])), None);
    assert_eq!(t.get(&path(&[])), None);
}

#[test]
fn insert_replaces_value() {
    let mut t: Trie<u32> = Trie::new();
    t.insert(&path(&["a", "b"]), 1);
    t.insert(&path(&["a", "b"]), 2);
    assert_eq!(t.get(&path(&["a", "b"])), Some(&2));
}

#[test]
fn insert_keeps_other_values() {
    let mut t: Trie<u32> = Trie::new();
    t.insert(&path(&["a"]), 1);
    t.insert(&path(&["a", "b"]), 2);
    t.insert(&path(&["c"]), 3);
    assert_eq!(t.get(&path(&["a"])), Some(&1));
    assert_eq!(t.get(&path(&["a", "b"])), Some(&2));
    assert_eq!(t.get(&path(&["c"])), Some(&3));
}

#[test]
fn root_value() {
    let mut t: Trie<&str> = Trie::default();
    t.insert(&path(&[]), "root");
    assert_eq!(t.get(&path(&[])), Some(&"root"));
}

#[test]
fn get_mut_changes_value() {
    let mut t: Trie<Vec<u32>> = Trie::new();
    t.insert(&path(&["x", "y"]), vec![1]);
    if let Some(v) = t.get_mut(&path(&["x", "y"])) {
        v.push(2);
    } else {
        panic!("value expected");
    }
    assert_eq!(t.get(&path(&["x", "y"])), Some(&vec![1, 2]));
    assert!(t.get_mut(&path(&["x"])).is_none());
    assert!(t.get_mut(&path(&["z"])).is_none());
}

#[test]
fn closest_prefix_walks_existing_nodes() {
    let mut t: Trie<u32> = Trie::new();
    t.insert(&path(&["com", "example", "www"]), 1);
    t.insert(&path(&["com"]), 2);
    let (walked, value) = t.find_closest_prefix(&path(&["com", "example", "mail"]));
    assert_eq!(walked, path(&["com", "example"]));
    assert_eq!(value, None);
    let (walked, value) = t.find_closest_prefix(&path(&["com", "other"]));
    assert_eq!(walked, path(&["com"]));
    assert_eq!(value, Some(&2));
    let (walked, value) = t.find_closest_prefix(&path(&["com", "example", "www", "deeper"]));
    assert_eq!(walked, path(&["com", "example", "www"]));
    assert_eq!(value, Some(&1));
    let (walked, value) = t.find_closest_prefix(&path(&["org"]));
    assert!(walked.is_empty());
    assert_eq!(value, None);
}

#[test]
fn from_paths_holds_each_path() {
    let list = vec![path(&["a", "b"]), path(&["c"])];
    let t = Trie::from_paths(&list, 5u8);
    assert_eq!(t.get(&path(&["a", "b"])), Some(&5));
    assert_eq!(t.get(&path(&["c"])), Some(&5));
    assert_eq!(t.get(&path(&["a"])), None);
}
