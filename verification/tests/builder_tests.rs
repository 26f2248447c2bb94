use config_rs_ng::builder::absorb;
use config_rs_ng::source::Source;
use config_rs_ng::tree::{ObjectMap, Tree};
use config_rs_ng::{Config, ConfigBuilder, ConfigError};
use serde_json::Number;
use std::cell::Cell;
use std::rc::Rc;

fn number(n: u64) -> Tree {
    Tree::Number(Number::from(n))
}

fn object(members: Vec<(&str, Tree)>) -> Tree {
    let mut map = ObjectMap::new();
    for (key, value) in members {
        map.insert(key.to_string(), value);
    }
    Tree::Object(map)
}

struct Fixed {
    tree: Tree,
    asked: Rc<Cell<u32>>,
}

impl Source for Fixed {
    fn collect(&self) -> Result<Tree, ConfigError> {
        self.asked.set(self.asked.get() + 1);
        Ok(self.tree.clone())
    }
}

struct Failing {
    message: String,
    asked: Rc<Cell<u32>>,
}

impl Source for Failing {
    fn collect(&self) -> Result<Tree, ConfigError> {
        self.asked.set(self.asked.get() + 1);
        Err(ConfigError::Source(self.message.clone()))
    }
}

fn fixed(tree: Tree) -> (Fixed, Rc<Cell<u32>>) {
    let asked = Rc::new(Cell::new(0));
    (Fixed { tree, asked: asked.clone() }, asked)
}

fn failing(message: &str) -> (Failing, Rc<Cell<u32>>) {
    let asked = Rc::new(Cell::new(0));
    (Failing { message: message.to_string(), asked: asked.clone() }, asked)
}

#[test]
fn build_without_sources_is_empty_object() {
    let config = Config::builder().build().unwrap();
    assert_eq!(config.get_value(), &Tree::empty_object());
    let config = ConfigBuilder::new().build().unwrap();
    assert_eq!(config.into_value(), Tree::empty_object());
}

#[test]
fn build_last_registered_source_wins() {
    let (first, _) = fixed(object(vec![("a", number(1)), ("b", object(vec![("c", number(2))]))]));
    let (second, _) = fixed(object(vec![("b", object(vec![("d", number(3))]))]));
    let config = Config::builder().add_source(first).add_source(second).build().unwrap();
    assert_eq!(
        config.get_value(),
        &object(vec![
            ("a", number(1)),
            ("b", object(vec![("c", number(2)), ("d", number(3))])),
        ])
    );
}

#[test]
fn build_order_is_precedence() {
    let (low, _) = fixed(object(vec![("k", number(1))]));
    let (high, _) = fixed(object(vec![("k", number(2))]));
    let config = Config::builder().add_source(low).add_source(high).build().unwrap();
    assert_eq!(config.get_value(), &object(vec![("k", number(2))]));

    let (low, _) = fixed(object(vec![("k", number(1))]));
    let (high, _) = fixed(object(vec![("k", number(2))]));
    let config = Config::builder().add_source(high).add_source(low).build().unwrap();
    assert_eq!(config.get_value(), &object(vec![("k", number(1))]));
}

#[test]
fn build_asks_every_source_once() {
    let (first, asked_first) = fixed(object(vec![("a", number(1))]));
    let (second, asked_second) = fixed(object(vec![("b", number(2))]));
    let (third, asked_third) = fixed(object(vec![("c", number(3))]));
    let config = Config::builder()
        .add_source(first)
        .add_source(second)
        .add_source(third)
        .build()
        .unwrap();
    assert_eq!(
        config.into_value(),
        object(vec![("a", number(1)), ("b", number(2)), ("c", number(3))])
    );
    assert_eq!(asked_first.get(), 1);
    assert_eq!(asked_second.get(), 1);
    assert_eq!(asked_third.get(), 1);
}

#[test]
fn build_stops_at_first_failure() {
    let (first, asked_first) = fixed(object(vec![("a", number(1))]));
    let (second, asked_second) = failing("second is down");
    let (third, asked_third) = fixed(object(vec![("c", number(3))]));
    let built = Config::builder()
        .add_source(first)
        .add_source(second)
        .add_source(third)
        .build();
    match built {
        Err(ConfigError::Source(message)) => assert_eq!(message, "second is down"),
        other => panic!("unexpected outcome: {:?}", other),
    }
    assert_eq!(asked_first.get(), 1);
    assert_eq!(asked_second.get(), 1);
    assert_eq!(asked_third.get(), 0);
}

#[test]
fn build_hands_back_the_first_of_two_failures() {
    let (first, _) = failing("one");
    let (second, asked_second) = failing("two");
    match Config::builder().add_source(first).add_source(second).build() {
        Err(ConfigError::Source(message)) => assert_eq!(message, "one"),
        other => panic!("unexpected outcome: {:?}", other),
    }
    assert_eq!(asked_second.get(), 0);
}

#[test]
fn absorb_merges_or_passes_failure_on() {
    let merged = absorb(object(vec![("a", number(1))]), Ok(object(vec![("b", number(2))])));
    assert_eq!(merged.unwrap(), object(vec![("a", number(1)), ("b", number(2))]));
    let failed = absorb(
        object(vec![("a", number(1))]),
        Err(ConfigError::Build("no".to_string())),
    );
    assert!(matches!(failed, Err(ConfigError::Build(message)) if message == "no"));
}

#[test]
fn failures_of_every_kind_pass_through_build() {
    struct Custom(fn() -> ConfigError);
    impl Source for Custom {
        fn collect(&self) -> Result<Tree, ConfigError> {
            Err((self.0)())
        }
    }
    let io = Config::builder()
        .add_source(Custom(|| {
            ConfigError::Io(std::io::Error::new(std::io::ErrorKind::NotFound, "gone"))
        }))
        .build();
    assert!(matches!(io, Err(ConfigError::Io(_))));
    let env = Config::builder()
        .add_source(Custom(|| ConfigError::EnvVar("not unicode".to_string())))
        .build();
    assert!(matches!(env, Err(ConfigError::EnvVar(_))));
    let validation = Config::builder()
        .add_source(Custom(|| ConfigError::Validation(validator::ValidationErrors::new())))
        .build();
    assert!(matches!(validation, Err(ConfigError::Validation(_))));
    let build = Config::builder()
        .add_source(Custom(|| ConfigError::Build("broken".to_string())))
        .build();
    assert!(matches!(build, Err(ConfigError::Build(_))));
}
