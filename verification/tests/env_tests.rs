use config_rs_ng::source::env::{place, place_variable};
use config_rs_ng::source::Env;
use config_rs_ng::text::{chars_of, split, strip_prefix};
use config_rs_ng::tree::{ObjectMap, Tree};

fn text(s: &str) -> Tree {
    Tree::String(s.to_string())
}

fn object(members: Vec<(&str, Tree)>) -> Tree {
    let mut map = ObjectMap::new();
    for (key, value) in members {
        map.insert(key.to_string(), value);
    }
    Tree::Object(map)
}

fn vars(pairs: Vec<(&str, &str)>) -> Vec<(String, String)> {
    pairs
        .into_iter()
        .map(|(k, v)| (k.to_string(), v.to_string()))
        .collect()
}

fn strings(items: Vec<&str>) -> Vec<String> {
    items.into_iter().map(|s| s.to_string()).collect()
}

#[test]
fn env_nests_by_delimiter() {
    let env = Env::new().prefix("APP_").delimiter("_");
    let tree = env.collect(&vars(vec![("APP_DATABASE_HOST", "localhost")]));
    assert_eq!(
        tree,
        object(vec![("database", object(vec![("host", text("localhost"))]))])
    );
}

#[test]
fn env_skips_names_without_prefix() {
    let env = Env::new().prefix("APP_").delimiter("_");
    let with = env.collect(&vars(vec![
        ("HOME", "/root"),
        ("APP_PORT", "80"),
        ("app_host", "x"),
        ("XAPP_Y", "1"),
    ]));
    let without = env.collect(&vars(vec![("APP_PORT", "80")]));
    assert_eq!(with, without);
    assert_eq!(with, object(vec![("port", text("80"))]));
    assert_eq!(with.get("home"), None);
}

#[test]
fn env_tree_is_that_of_the_prefixed_variables() {
    let env = Env::new().prefix("APP_");
    let all = vars(vec![
        ("PATH", "/bin"),
        ("APP_A__B", "1"),
        ("app_a__b", "2"),
        ("APP_A__C", "3"),
        ("APPX", "4"),
        ("APP_A", "5"),
        ("", "6"),
    ]);
    let kept: Vec<(String, String)> = all
        .iter()
        .filter(|(name, _)| name.starts_with("APP_"))
        .cloned()
        .collect();
    assert_eq!(kept.len(), 3);
    assert_eq!(env.collect(&all), env.collect(&kept));
    assert_eq!(env.collect(&all), object(vec![("a", text("5"))]));
}

#[test]
fn env_defaults_no_prefix_double_underscore() {
    let env = Env::new();
    let tree = env.collect(&vars(vec![("DATABASE__HOST", "h"), ("LOG_LEVEL", "info")]));
    assert_eq!(
        tree,
        object(vec![
            ("database", object(vec![("host", text("h"))])),
            ("log_level", text("info")),
        ])
    );
    let same = Env::default().collect(&vars(vec![("DATABASE__HOST", "h")]));
    assert_eq!(same, object(vec![("database", object(vec![("host", text("h"))]))]));
}

#[test]
fn env_values_stay_strings() {
    let env = Env::new();
    let tree = env.collect(&vars(vec![("PORT", "8080"), ("DEBUG", "true")]));
    assert_eq!(tree, object(vec![("port", text("8080")), ("debug", text("true"))]));
}

#[test]
fn env_names_differing_in_case_collide() {
    let env = Env::new();
    let tree = env.collect(&vars(vec![("Key", "1"), ("KEY", "2")]));
    assert_eq!(tree, object(vec![("key", text("2"))]));
}

#[test]
fn env_later_variable_wins_at_collision() {
    let env = Env::new();
    let tree = env.collect(&vars(vec![("A", "1"), ("A__B", "2")]));
    assert_eq!(tree, object(vec![("a", object(vec![("b", text("2"))]))]));
    let tree = env.collect(&vars(vec![("A__B", "2"), ("A", "1")]));
    assert_eq!(tree, object(vec![("a", text("1"))]));
}

#[test]
fn env_siblings_share_an_object() {
    let env = Env::new().prefix("APP_");
    let tree = env.collect(&vars(vec![("APP_DB__HOST", "h"), ("APP_DB__PORT", "1")]));
    assert_eq!(
        tree,
        object(vec![("db", object(vec![("host", text("h")), ("port", text("1"))]))])
    );
}

#[test]
fn env_name_equal_to_prefix_is_skipped() {
    let env = Env::new().prefix("APP_");
    let tree = env.collect(&vars(vec![("APP_", "x")]));
    assert_eq!(tree, Tree::empty_object());
}

#[test]
fn env_prefix_is_cut_once() {
    let env = Env::new().prefix("APP_").delimiter("_");
    let tree = env.collect(&vars(vec![("APP_APP_X", "1")]));
    assert_eq!(tree, object(vec![("app", object(vec![("x", text("1"))]))]));
}

#[test]
fn env_delimiter_is_matched_after_lowering() {
    let env = Env::new().delimiter("X");
    let tree = env.collect(&vars(vec![("AXB", "1")]));
    assert_eq!(tree, object(vec![("axb", text("1"))]));
    let env = Env::new().delimiter("x");
    let tree = env.collect(&vars(vec![("AXB", "1")]));
    assert_eq!(tree, object(vec![("a", object(vec![("b", text("1"))]))]));
}

#[test]
fn env_of_nothing_is_empty_object() {
    assert_eq!(Env::new().collect(&Vec::new()), Tree::empty_object());
}

#[test]
fn env_absorb_one_variable() {
    let env = Env::new().prefix("P_");
    let tree = env.absorb(Tree::empty_object(), "P_A__B", "v");
    assert_eq!(tree, object(vec![("a", object(vec![("b", text("v"))]))]));
    let tree = env.absorb(tree, "Q_A", "w");
    assert_eq!(tree, object(vec![("a", object(vec![("b", text("v"))]))]));
}

#[test]
fn split_on_delimiter() {
    assert_eq!(split("a__b__c", "__"), strings(vec!["a", "b", "c"]));
    assert_eq!(split("abc", "__"), strings(vec!["abc"]));
    assert_eq!(split("", "__"), strings(vec![""]));
    assert_eq!(split("__a", "__"), strings(vec!["", "a"]));
    assert_eq!(split("a__", "__"), strings(vec!["a", ""]));
    assert_eq!(split("a___b", "__"), strings(vec!["a", "_b"]));
    assert_eq!(split("aaa", "aa"), strings(vec!["", "a"]));
    assert_eq!(split("a____b", "__"), strings(vec!["a", "", "b"]));
    assert_eq!(split("database_host", "_"), strings(vec!["database", "host"]));
}

#[test]
fn split_agrees_with_std() {
    for (text, delimiter) in [
        ("a__b__c", "__"),
        ("", "_"),
        ("_", "_"),
        ("aaaa", "aa"),
        ("x_y__z", "_"),
        ("héllo→wörld→", "→"),
        ("abc", ""),
        ("", ""),
    ] {
        let expected: Vec<String> = text.split(delimiter).map(|s| s.to_string()).collect();
        assert_eq!(split(text, delimiter), expected);
    }
}

#[test]
fn split_on_empty_delimiter() {
    assert_eq!(split("ab", ""), strings(vec!["", "a", "b", ""]));
    assert_eq!(split("", ""), strings(vec!["", ""]));
}

#[test]
fn strip_prefix_cuts_the_prefix() {
    assert_eq!(strip_prefix("APP_HOST", "APP_"), Some("HOST".to_string()));
    assert_eq!(strip_prefix("APP_HOST", ""), Some("APP_HOST".to_string()));
    assert_eq!(strip_prefix("APP_", "APP_"), Some("".to_string()));
    assert_eq!(strip_prefix("APP", "APP_"), None);
    assert_eq!(strip_prefix("app_host", "APP_"), None);
    assert_eq!(strip_prefix("XAPP_HOST", "APP_"), None);
}

#[test]
fn chars_of_text() {
    assert_eq!(chars_of("aé→"), vec!['a', 'é', '→']);
    assert_eq!(chars_of(""), Vec::<char>::new());
}

#[test]
fn place_creates_and_replaces() {
    let tree = place(Tree::empty_object(), &strings(vec!["a", "b"]), text("v"));
    assert_eq!(tree, object(vec![("a", object(vec![("b", text("v"))]))]));
    let tree = place(tree, &strings(vec!["a", "c"]), text("w"));
    assert_eq!(
        tree,
        object(vec![("a", object(vec![("b", text("v")), ("c", text("w"))]))])
    );
    let tree = place(tree, &strings(vec!["a", "b", "d"]), text("x"));
    assert_eq!(
        tree,
        object(vec![(
            "a",
            object(vec![("b", object(vec![("d", text("x"))])), ("c", text("w"))])
        )])
    );
    let tree = place(tree, &strings(vec!["a"]), text("y"));
    assert_eq!(tree, object(vec![("a", text("y"))]));
    assert_eq!(place(tree, &Vec::new(), text("z")), text("z"));
}

#[test]
fn place_variable_splits_the_name() {
    let tree = place_variable(Tree::empty_object(), "database_host", "_", "localhost");
    assert_eq!(
        tree,
        object(vec![("database", object(vec![("host", text("localhost"))]))])
    );
    assert_eq!(
        tree.find(&strings(vec!["database", "host"])),
        Some(&text("localhost"))
    );
}

#[test]
fn env_lowers_by_unicode() {
    let env = Env::new();
    let tree = env.collect(&vars(vec![("ÄB", "1")]));
    assert_eq!(tree, object(vec![("äb", text("1"))]));
}
