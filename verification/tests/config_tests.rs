use jj_nif::configs::{configs_to_tuple_list, get_configs, render_value, resolve_configs};
use jj_nif::errors::ConfigError;
use jj_nif::settings::{resolve, AnnotatedValue, ConfigEntry, ConfigLayer, ConfigValue, LayerSource};

fn entry(key: &str, value: ConfigValue) -> ConfigEntry {
    ConfigEntry { key: String::from(key), value }
}

fn layer(source: LayerSource, entries: Vec<ConfigEntry>) -> ConfigLayer {
    ConfigLayer { source, entries }
}

fn rows(layers: &Vec<ConfigLayer>) -> Vec<(String, String)> {
    get_configs(layers).unwrap()
}

#[test]
fn value_equal_to_default_is_excluded() {
    // default timeout 30, user sets the same 30: the listing excludes it.
    let layers = vec![
        layer(LayerSource::Default, vec![entry("timeout", ConfigValue::Int(30))]),
        layer(LayerSource::User, vec![entry("timeout", ConfigValue::Int(30))]),
    ];
    let r = rows(&layers);
    assert_eq!(r.len(), 0);
}

#[test]
fn value_differing_from_default_is_included() {
    let layers = vec![
        layer(LayerSource::Default, vec![entry("timeout", ConfigValue::Int(30))]),
        layer(LayerSource::Repository, vec![entry("timeout", ConfigValue::Int(60))]),
    ];
    let r = rows(&layers);
    assert_eq!(r.len(), 1);
    assert_eq!(r[0].0, "timeout");
    assert_eq!(r[0].1, "60");
}

#[test]
fn overridden_value_is_excluded() {
    // the user's value loses to the repository's and must not be listed
    let layers = vec![
        layer(LayerSource::Default, vec![entry("x", ConfigValue::Int(1))]),
        layer(LayerSource::User, vec![entry("x", ConfigValue::Int(2))]),
        layer(LayerSource::Repository, vec![entry("x", ConfigValue::Int(3))]),
    ];
    let r = rows(&layers);
    assert_eq!(r.len(), 1);
    assert_eq!(r[0].0, "x");
    assert_eq!(r[0].1, "3");
}

#[test]
fn key_without_default_is_included() {
    let layers = vec![
        layer(LayerSource::Default, vec![]),
        layer(LayerSource::User, vec![entry("ui.color", ConfigValue::Str(String::from("never")))]),
    ];
    let r = rows(&layers);
    assert_eq!(r.len(), 1);
    assert_eq!(r[0].0, "ui.color");
    assert_eq!(r[0].1, "\"never\"");
}

#[test]
fn kind_conflict_is_a_merge_error() {
    let layers = vec![
        layer(LayerSource::Default, vec![entry("timeout", ConfigValue::Int(30))]),
        layer(
            LayerSource::User,
            vec![entry("timeout", ConfigValue::List(vec![String::from("a")]))],
        ),
    ];
    let e = get_configs(&layers).unwrap_err();
    match e {
        ConfigError::Merge { key, .. } => assert_eq!(key, "timeout"),
        ConfigError::Parse { .. } => panic!("expected a merge conflict"),
    }
}

#[test]
fn same_kind_override_is_no_conflict() {
    let layers = vec![
        layer(LayerSource::Default, vec![entry("n", ConfigValue::Int(1))]),
        layer(LayerSource::User, vec![entry("n", ConfigValue::Int(2))]),
    ];
    assert!(get_configs(&layers).is_ok());
}

#[test]
fn resolve_marks_overriding() {
    let layers = vec![
        layer(LayerSource::Default, vec![entry("a", ConfigValue::Int(1))]),
        layer(LayerSource::User, vec![entry("a", ConfigValue::Int(2)), entry("b", ConfigValue::Int(3))]),
    ];
    let es = resolve(&layers).unwrap();
    assert_eq!(es.values.len(), 3);
    assert_eq!(es.values[0].name, "a");
    assert!(es.values[0].is_overridden);
    assert!(matches!(es.values[0].source, LayerSource::Default));
    assert_eq!(es.values[1].name, "a");
    assert!(!es.values[1].is_overridden);
    assert!(matches!(es.values[1].source, LayerSource::User));
    assert_eq!(es.values[2].name, "b");
    assert!(!es.values[2].is_overridden);
}

#[test]
fn rendering_is_canonical_text() {
    assert_eq!(render_value(&ConfigValue::Int(0)), "0");
    assert_eq!(render_value(&ConfigValue::Int(1234567)), "1234567");
    assert_eq!(render_value(&ConfigValue::Int(-5)), "-5");
    assert_eq!(render_value(&ConfigValue::Int(i64::MIN)), "-9223372036854775808");
    assert_eq!(render_value(&ConfigValue::Bool(true)), "true");
    assert_eq!(render_value(&ConfigValue::Bool(false)), "false");
    assert_eq!(render_value(&ConfigValue::Str(String::from("hi"))), "\"hi\"");
    assert_eq!(render_value(&ConfigValue::Str(String::from("a\"b"))), "\"a\\\"b\"");
    assert_eq!(render_value(&ConfigValue::Str(String::from("a\\b"))), "\"a\\\\b\"");
    assert_eq!(
        render_value(&ConfigValue::List(vec![String::from("q\"t")])),
        "[\"q\\\"t\"]"
    );
    assert_eq!(render_value(&ConfigValue::List(vec![])), "[]");
    assert_eq!(
        render_value(&ConfigValue::List(vec![String::from("a"), String::from("b")])),
        "[\"a\", \"b\"]"
    );
}

#[test]
fn tuple_list_keeps_order_and_renders() {
    let vals = vec![
        AnnotatedValue {
            name: String::from("k1"),
            value: ConfigValue::Int(7),
            source: LayerSource::User,
            is_overridden: false,
        },
        AnnotatedValue {
            name: String::from("k2"),
            value: ConfigValue::Bool(false),
            source: LayerSource::Repository,
            is_overridden: false,
        },
    ];
    let r = configs_to_tuple_list(vals);
    assert_eq!(r.len(), 2);
    assert_eq!(r[0].0, "k1");
    assert_eq!(r[0].1, "7");
    assert_eq!(r[1].0, "k2");
    assert_eq!(r[1].1, "false");
}

#[test]
fn resolve_configs_filters_the_effective_settings() {
    let layers = vec![
        layer(LayerSource::Default, vec![entry("d", ConfigValue::Int(1))]),
        layer(LayerSource::User, vec![entry("u", ConfigValue::Int(2))]),
    ];
    let es = resolve(&layers).unwrap();
    let kept = resolve_configs(&es);
    assert_eq!(kept.len(), 1);
    assert_eq!(kept[0].name, "u");
}
