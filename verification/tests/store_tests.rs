use tcalc::bitseqs::Bitseq;
use tcalc::environment::Environment;
use tcalc::integers::Integer;
use tcalc::store::ValueStore;
use tcalc::values::Value;

fn number(n: u64) -> Value {
    Value::from_integer(Integer::from_u64(n))
}

fn text(v: Option<Value>) -> Option<String> {
    v.map(|v| v.render())
}

#[test]
fn store_is_case_insensitive() {
    let mut store = ValueStore::new();
    assert!(store.set("Foo", number(1)));
    assert_eq!(text(store.get("foo")), Some("1".to_string()));
    assert_eq!(text(store.get("FOO")), Some("1".to_string()));
    assert!(store.set("fOO", number(2)));
    assert_eq!(text(store.get("Foo")), Some("2".to_string()));
    assert_eq!(text(store.get("bar")), None);
}

#[test]
fn readonly_keys_refuse_writes() {
    let mut store = ValueStore::new();
    assert!(store.set_readonly("Pi", number(3)));
    assert!(store.is_readonly("pi"));
    assert!(!store.set("PI", number(4)));
    assert!(!store.set_readonly("pi", number(5)));
    assert_eq!(text(store.get("pi")), Some("3".to_string()));
    assert!(store.set("x", number(1)));
    assert!(store.set_readonly("X", number(2)));
    assert!(!store.set("x", number(3)));
    assert_eq!(text(store.get("x")), Some("2".to_string()));
}

#[test]
fn clear_keeps_protected_keys() {
    let mut store = ValueStore::with_protected_keys(vec!["pi", "Tau"]);
    assert!(store.is_protected("PI"));
    assert!(store.is_protected("tau"));
    assert!(!store.is_protected("e"));
    assert!(store.set_readonly("pi", number(3)));
    assert!(store.set("tau", number(6)));
    assert!(store.set_readonly("e", number(2)));
    assert!(store.set("x", number(1)));
    store.clear();
    assert_eq!(text(store.get("pi")), Some("3".to_string()));
    assert_eq!(text(store.get("tau")), Some("6".to_string()));
    assert_eq!(text(store.get("e")), None);
    assert_eq!(text(store.get("x")), None);
    assert!(store.is_readonly("pi"));
    assert!(!store.is_readonly("e"));
    assert!(store.set("e", number(9)));
    assert_eq!(text(store.get("e")), Some("9".to_string()));
}

#[test]
fn protection_can_be_added_and_removed() {
    let mut store = ValueStore::new();
    store.add_protected_key("Keep");
    store.add_protected_key("keep");
    assert!(store.set("keep", number(1)));
    assert!(store.set("drop", number(2)));
    store.clear();
    assert_eq!(text(store.get("keep")), Some("1".to_string()));
    assert_eq!(text(store.get("drop")), None);
    store.remove_protected_key("KEEP");
    assert!(!store.is_protected("keep"));
    store.clear();
    assert_eq!(text(store.get("keep")), None);
}

#[test]
fn clear_all_wipes_everything() {
    let mut store = ValueStore::with_protected_keys(vec!["pi"]);
    assert!(store.set_readonly("pi", number(3)));
    store.clear_all();
    assert_eq!(text(store.get("pi")), None);
    assert!(!store.is_readonly("pi"));
    assert!(!store.is_protected("pi"));
    assert!(store.set("pi", number(4)));
    assert_eq!(text(store.get("pi")), Some("4".to_string()));
}

#[test]
fn default_environment_holds_the_constants() {
    let mut env = Environment::default();
    assert!(env.variables.get("pi").expect("no pi").render().starts_with("3.14159"));
    assert!(env.variables.get("TAU").expect("no tau").render().starts_with("6.28318"));
    assert!(env.variables.get("e").expect("no e").render().starts_with("2.71828"));
    assert!(!env.variables.set("pi", number(3)));
    env.variables.clear();
    assert!(env.variables.get("pi").is_some());
    assert!(env.variables.is_readonly("e"));
}

#[test]
fn results_are_recalled_latest_first() {
    let mut env = Environment::new();
    assert_eq!(env.recall(0).render(), "0");
    env.remember(number(5));
    env.remember(Value::from_bitseq(Bitseq::one()));
    assert_eq!(env.recall(0).render(), "0b1");
    assert_eq!(env.recall(1).render(), "5");
    assert_eq!(env.recall(2).render(), "0");
}
