use bst_map::BinaryTreeMap;
use bst_map::MapError;

#[test]
fn test_empty_map_returns_error() {
    let map: BinaryTreeMap<String> = BinaryTreeMap::new();
    let result = map.get(&42);
    assert_eq!(result, Err(MapError::KeyNotFound));
}

#[test]
fn test_insert_and_retrieve() {
    let mut map = BinaryTreeMap::new();
    map.insert(42, "hello".to_string());
    let result = map.get(&42);
    assert_eq!(result, Ok(&"hello".to_string()));
}

#[test]
fn test_delete_from_empty_map() {
    let mut map: BinaryTreeMap<String> = BinaryTreeMap::new();
    let result = map.delete(&42);
    assert_eq!(result, Err(MapError::KeyNotFound));
}

#[test]
fn test_delete_leaf_node() {
    let mut map = BinaryTreeMap::new();
    map.insert(50, "root".to_string());
    map.insert(30, "left".to_string());
    map.insert(70, "right".to_string());

    // Delete leaf node
    let result = map.delete(&30);
    assert_eq!(result, Ok("left".to_string()));

    // Verify it's gone
    assert_eq!(map.get(&30), Err(MapError::KeyNotFound));
    // Verify others remain
    assert_eq!(map.get(&50), Ok(&"root".to_string()));
    assert_eq!(map.get(&70), Ok(&"right".to_string()));
}

#[test]
fn test_delete_node_with_one_child() {
    let mut map = BinaryTreeMap::new();
    map.insert(50, "root".to_string());
    map.insert(30, "left".to_string());
    map.insert(20, "left-left".to_string());

    // Delete node with one child
    let result = map.delete(&30);
    assert_eq!(result, Ok("left".to_string()));

    // Verify structure is maintained
    assert_eq!(map.get(&30), Err(MapError::KeyNotFound));
    assert_eq!(map.get(&50), Ok(&"root".to_string()));
    assert_eq!(map.get(&20), Ok(&"left-left".to_string()));
}

#[test]
fn test_delete_node_with_two_children() {
    let mut map = BinaryTreeMap::new();
    map.insert(50, "root".to_string());
    map.insert(30, "left".to_string());
    map.insert(70, "right".to_string());
    map.insert(60, "right-left".to_string());
    map.insert(80, "right-right".to_string());

    // Delete node with two children
    let result = map.delete(&70);
    assert_eq!(result, Ok("right".to_string()));

    // Verify structure is maintained (successor should replace deleted node)
    assert_eq!(map.get(&70), Err(MapError::KeyNotFound));
    assert_eq!(map.get(&50), Ok(&"root".to_string()));
    assert_eq!(map.get(&30), Ok(&"left".to_string()));
    assert_eq!(map.get(&60), Ok(&"right-left".to_string()));
    assert_eq!(map.get(&80), Ok(&"right-right".to_string()));
}

#[test]
fn test_delete_root_node() {
    let mut map = BinaryTreeMap::new();
    map.insert(50, "root".to_string());
    map.insert(30, "left".to_string());
    map.insert(70, "right".to_string());

    // Delete root node
    let result = map.delete(&50);
    assert_eq!(result, Ok("root".to_string()));

    // Verify structure is maintained
    assert_eq!(map.get(&50), Err(MapError::KeyNotFound));
    assert_eq!(map.get(&30), Ok(&"left".to_string()));
    assert_eq!(map.get(&70), Ok(&"right".to_string()));
}

#[test]
fn test_delete_nonexistent_key() {
    let mut map = BinaryTreeMap::new();
    map.insert(50, "root".to_string());

    let result = map.delete(&99);
    assert_eq!(result, Err(MapError::KeyNotFound));

    // Verify original data is untouched
    assert_eq!(map.get(&50), Ok(&"root".to_string()));
}
