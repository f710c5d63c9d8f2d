use htmeta::error::{err, Error};
use htmeta::node::{Entry, Key, Node, Value};
use htmeta::vars::Vars;

fn bound(pairs: &[(&str, &str)]) -> Vars {
    Vars::new(pairs.iter().map(|(k, v)| (k.to_string(), v.to_string())).collect())
}

#[test]
fn text_without_sigil_is_unchanged() {
    let vars = bound(&[("x", "1")]);
    assert_eq!(vars.expand_string("plain text, x and y"), "plain text, x and y");
}

#[test]
fn doubled_sigil_is_a_literal_sigil() {
    let vars = bound(&[("x", "boom")]);
    assert_eq!(vars.expand_string("$$x"), "$x");
}

#[test]
fn names_are_replaced_and_unbound_ones_vanish() {
    let vars = bound(&[("name", "Ann"), ("n_2", "two")]);
    assert_eq!(vars.expand_string("Hi $name! $n_2-$missing."), "Hi Ann! two-.");
    assert_eq!(vars.expand_string("$"), "$");
    assert_eq!(vars.expand_string("cost: $ 5"), "cost: $ 5");
}

#[test]
fn replacement_is_not_expanded_again() {
    let vars = bound(&[("a", "$b"), ("b", "no")]);
    assert_eq!(vars.expand_string("$a"), "$b");
}

#[test]
fn insert_overwrites_and_get_reads() {
    let mut vars = Vars::empty();
    vars.insert("k", "1".to_string());
    vars.insert("k", "2".to_string());
    assert_eq!(vars.get("k").unwrap(), "2");
    assert!(vars.get("other").is_none());
    assert_eq!(vars.iter().len(), 1);
    vars.clear();
    assert!(vars.get("k").is_none());
}

#[test]
fn fork_is_independent() {
    let vars = bound(&[("a", "1")]);
    let mut other = vars.fork();
    other.insert("a", "2".to_string());
    assert_eq!(vars.get("a").unwrap(), "1");
    assert_eq!(other.get("a").unwrap(), "2");
}

#[test]
fn scalars_render_as_the_source_writes_them() {
    let vars = Vars::empty();
    assert_eq!(vars.expand_value(&Value::Integer(-42)), "-42");
    assert_eq!(vars.expand_value(&Value::Bool(true)), "#true");
    assert_eq!(vars.expand_value(&Value::Null), "#null");
    assert_eq!(vars.expand_value(&Value::Float("1.5".to_string())), "1.5");
}

#[test]
fn names_may_hold_letters_beyond_ascii() {
    let vars = bound(&[("été", "summer"), ("n1", "one")]);
    assert_eq!(vars.expand_string("$été/$n1."), "summer/one.");
    assert_eq!(vars.expand_value(&Value::Integer(1234)), "1234");
}

#[test]
fn keys_of_call_entries() {
    let n = Node {
        name: "@t".to_string(),
        entries: vec![
            Entry { name: None, value: Value::String("a".to_string()) },
            Entry { name: Some("k".to_string()), value: Value::Integer(1) },
            Entry { name: None, value: Value::String("b".to_string()) },
        ],
        children: None,
        leading: String::new(),
    };
    let names: Vec<String> = n.keyed_entries().iter().map(|(k, _)| k.to_name()).collect();
    assert_eq!(names, vec!["0", "k", "1"]);
    assert!(matches!(n.keyed_entries()[1].0, Key::Prop(_)));
    assert_eq!(n.command_name().unwrap(), "t");
    assert!(n.is_command("t"));
}

#[test]
fn user_errors_compare_by_message() {
    let a = err("x".to_string());
    let b = err("x".to_string());
    let c = Error::Io { message: "x".to_string() };
    assert!(a.eq(&b));
    assert!(!a.eq(&c));
    assert_eq!(c.message(), "x");
}
