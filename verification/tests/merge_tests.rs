use config_rs_ng::merge::{merge, merge_all};
use config_rs_ng::tree::{ObjectMap, Tree};
use serde_json::Number;

fn number(n: u64) -> Tree {
    Tree::Number(Number::from(n))
}

fn text(s: &str) -> Tree {
    Tree::String(s.to_string())
}

fn object(members: Vec<(&str, Tree)>) -> Tree {
    let mut map = ObjectMap::new();
    for (key, value) in members {
        map.insert(key.to_string(), value);
    }
    Tree::Object(map)
}

#[test]
fn merge_blends_nested_objects() {
    let base = object(vec![("a", number(1)), ("b", object(vec![("c", number(2))]))]);
    let overlay = object(vec![("b", object(vec![("d", number(3))]))]);
    let expected = object(vec![
        ("a", number(1)),
        ("b", object(vec![("c", number(2)), ("d", number(3))])),
    ]);
    assert_eq!(merge(base, overlay), expected);
}

#[test]
fn merge_overlay_scalar_wins_where_both_define_a_path() {
    let base = object(vec![("a", object(vec![("b", number(1)), ("c", number(2))]))]);
    let overlay = object(vec![("a", object(vec![("b", number(9))]))]);
    let merged = merge(base, overlay);
    let path = vec!["a".to_string(), "b".to_string()];
    assert_eq!(merged.find(&path), Some(&number(9)));
    let kept = vec!["a".to_string(), "c".to_string()];
    assert_eq!(merged.find(&kept), Some(&number(2)));
}

#[test]
fn merge_replaces_arrays_whole() {
    let base = object(vec![("x", Tree::Array(vec![number(1), number(2)]))]);
    let overlay = object(vec![("x", Tree::Array(vec![number(3)]))]);
    let merged = merge(base, overlay);
    assert_eq!(merged, object(vec![("x", Tree::Array(vec![number(3)]))]));
    assert_ne!(
        merged,
        object(vec![("x", Tree::Array(vec![number(1), number(2), number(3)]))])
    );
}

#[test]
fn merge_with_empty_object_is_identity() {
    let tree = object(vec![("a", number(1)), ("b", object(vec![("c", text("v"))]))]);
    assert_eq!(merge(tree.clone(), Tree::empty_object()), tree);
    assert_eq!(merge(Tree::empty_object(), tree.clone()), tree);
    assert_eq!(merge(Tree::empty_object(), number(5)), number(5));
    assert_eq!(merge(Tree::empty_object(), Tree::Null), Tree::Null);
}

#[test]
fn merge_empty_object_over_scalar_gives_empty_object() {
    assert_eq!(merge(number(5), Tree::empty_object()), Tree::empty_object());
}

#[test]
fn merge_two_empty_objects_is_empty() {
    assert_eq!(
        merge(Tree::empty_object(), Tree::empty_object()),
        Tree::empty_object()
    );
}

#[test]
fn merge_null_overlay_replaces() {
    let base = object(vec![("a", number(1))]);
    let overlay = object(vec![("a", Tree::Null)]);
    assert_eq!(merge(base, overlay), object(vec![("a", Tree::Null)]));
    assert_eq!(merge(number(1), Tree::Null), Tree::Null);
}

#[test]
fn merge_object_against_scalar_overlay_wins() {
    let base = object(vec![("a", object(vec![("b", number(1))]))]);
    let overlay = object(vec![("a", number(5))]);
    assert_eq!(merge(base, overlay), object(vec![("a", number(5))]));

    let base = object(vec![("a", number(5))]);
    let overlay = object(vec![("a", object(vec![("b", number(1))]))]);
    assert_eq!(
        merge(base, overlay),
        object(vec![("a", object(vec![("b", number(1))]))])
    );
}

#[test]
fn merge_mismatched_scalars_overlay_wins() {
    assert_eq!(merge(text("x"), Tree::Bool(true)), Tree::Bool(true));
    assert_eq!(merge(Tree::Bool(false), text("x")), text("x"));
}

#[test]
fn merge_all_later_tree_wins() {
    let first = object(vec![("a", number(1)), ("b", number(1))]);
    let second = object(vec![("b", number(2)), ("c", number(2))]);
    let third = object(vec![("c", number(3))]);
    let merged = merge_all(vec![first, second, third]);
    assert_eq!(
        merged,
        object(vec![("a", number(1)), ("b", number(2)), ("c", number(3))])
    );
}

#[test]
fn merge_all_of_nothing_is_empty_object() {
    assert_eq!(merge_all(Vec::new()), Tree::empty_object());
}

#[test]
fn merge_all_of_two_is_their_merge() {
    let first = object(vec![("a", number(1)), ("b", object(vec![("c", number(2))]))]);
    let second = object(vec![("b", object(vec![("d", number(3))]))]);
    assert_eq!(
        merge_all(vec![first.clone(), second.clone()]),
        merge(first, second)
    );
}

#[test]
fn trees_compare_as_maps() {
    let left = object(vec![("a", number(1)), ("b", number(2))]);
    let right = object(vec![("b", number(2)), ("a", number(1))]);
    assert_eq!(left, right);
    assert_ne!(left, object(vec![("a", number(1))]));
    assert_ne!(left, object(vec![("a", number(1)), ("b", number(3))]));
    assert_ne!(left, object(vec![("a", number(1)), ("c", number(2))]));
}

#[test]
fn numbers_compare_by_value() {
    assert_eq!(number(1), number(1));
    assert_ne!(number(1), number(2));
    assert_ne!(number(1), Tree::Number(Number::from(-1i64)));
    assert_eq!(
        Tree::Number(Number::from_f64(1.5).unwrap()),
        Tree::Number(Number::from_f64(1.5).unwrap())
    );
    assert_ne!(number(1), text("1"));
}

#[test]
fn zeros_of_either_sign_are_one_number() {
    let plus = Tree::Number(Number::from_f64(0.0).unwrap());
    let minus = Tree::Number(Number::from_f64(-0.0).unwrap());
    assert_eq!(plus, minus);
    assert_eq!(minus, plus);
    assert_ne!(plus, number(0));
    assert_ne!(Tree::Number(Number::from_f64(1.0).unwrap()), number(1));
}

#[test]
fn arrays_compare_in_order() {
    assert_eq!(
        Tree::Array(vec![number(1), number(2)]),
        Tree::Array(vec![number(1), number(2)])
    );
    assert_ne!(
        Tree::Array(vec![number(1), number(2)]),
        Tree::Array(vec![number(2), number(1)])
    );
    assert_ne!(Tree::Array(vec![number(1)]), Tree::Array(vec![]));
}

#[test]
fn clone_is_the_same_tree() {
    let tree = object(vec![
        ("a", Tree::Array(vec![number(1), Tree::Null, Tree::Bool(true)])),
        ("b", object(vec![("c", text("v"))])),
    ]);
    assert_eq!(tree.clone(), tree);
}

#[test]
fn object_map_insert_get_remove() {
    let mut map = ObjectMap::new();
    assert_eq!(map.len(), 0);
    assert_eq!(map.insert("a".to_string(), number(1)), None);
    assert_eq!(map.insert("a".to_string(), number(2)), Some(number(1)));
    assert_eq!(map.len(), 1);
    assert!(map.contains_key("a"));
    assert!(!map.contains_key("b"));
    assert_eq!(map.get("a"), Some(&number(2)));
    assert_eq!(map.get("b"), None);
    assert_eq!(map.remove("b"), None);
    assert_eq!(map.remove("a"), Some(number(2)));
    assert_eq!(map.len(), 0);
    assert_eq!(map.pop(), None);
}

#[test]
fn object_map_pop_and_entries() {
    let mut map = ObjectMap::new();
    map.insert("a".to_string(), number(1));
    map.insert("b".to_string(), number(2));
    let (key, value) = map.pop().unwrap();
    assert!((key == "a" && value == number(1)) || (key == "b" && value == number(2)));
    assert_eq!(map.len(), 1);
    assert!(!map.contains_key(&key));
    let entries = map.into_entries();
    assert_eq!(entries.len(), 1);
    assert_ne!(entries[0].0, key);
}

#[test]
fn find_walks_objects_only() {
    let tree = object(vec![("a", object(vec![("b", number(1))]))]);
    assert_eq!(tree.find(&vec![]), Some(&tree));
    assert_eq!(tree.find(&vec!["a".to_string(), "b".to_string()]), Some(&number(1)));
    assert_eq!(tree.find(&vec!["a".to_string(), "x".to_string()]), None);
    assert_eq!(
        tree.find(&vec!["a".to_string(), "b".to_string(), "c".to_string()]),
        None
    );
    assert!(tree.is_object());
    assert!(!number(1).is_object());
    assert_eq!(number(1).get("a"), None);
}
