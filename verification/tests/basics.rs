use texpand::buffer::RollingBuffer;
use texpand::config::{Config, Error, MatchFile};
use texpand::detect::{InputEvent, SourceConfig};
use texpand::strmap::StringMap;
use texpand::yaml::YamlValue;
use texpand::ConfigError;

fn empty_match() -> MatchFile {
    MatchFile {
        trigger: None,
        triggers: None,
        replace: None,
        form: None,
        form_fields: None,
        vars: None,
        force_mode: None,
        propagate_case: None,
        word: None,
        image_path: None,
        markdown: None,
        html: None,
        search_label: None,
    }
}

#[test]
fn rolling_buffer_keeps_the_newest_bytes() {
    let mut b = RollingBuffer::new(5);
    assert!(b.is_empty());
    for ch in "hello world".chars() {
        b.push(ch);
    }
    assert_eq!(b.content(), "world");
    assert_eq!(b.len(), 5);
    assert!(b.ends_with("rld"));
    assert!(!b.ends_with("hello"));
    b.push('!');
    assert_eq!(b.content(), "orld!");
    b.clear();
    assert!(b.is_empty());
    assert_eq!(b.content(), "");
}

#[test]
fn rolling_buffer_counts_bytes() {
    let mut b = RollingBuffer::new(4);
    b.push('a');
    b.push('é');
    b.push('b');
    assert_eq!(b.len(), 4);
    b.push('c');
    assert_eq!(b.content(), "ébc");
}

#[test]
fn string_map_reads_back_what_it_wrote() {
    let mut m: StringMap<u32> = StringMap::new();
    assert_eq!(m.insert("a".to_string(), 1), None);
    assert_eq!(m.insert("b".to_string(), 2), None);
    assert_eq!(m.insert("a".to_string(), 3), Some(1));
    assert_eq!(m.get("a"), Some(&3));
    assert_eq!(m.get("b"), Some(&2));
    assert_eq!(m.get("c"), None);
    assert_eq!(m.len(), 2);
    assert!(m.contains_key("b"));
    let (k, v) = m.entry(0);
    assert_eq!((k.as_str(), *v), ("a", 3));
}

#[test]
fn yaml_accessors_see_through_tags() {
    let v = YamlValue::Tagged(
        "!x".to_string(),
        Box::new(YamlValue::Mapping(vec![(
            YamlValue::String("layout".to_string()),
            YamlValue::String("[[a]]".to_string()),
        )])),
    );
    assert_eq!(v.get("layout").and_then(|x| x.as_str()).map(String::as_str), Some("[[a]]"));
    assert!(v.get("fields").is_none());
    assert_eq!(YamlValue::Bool(true).as_bool(), Some(true));
    assert!(YamlValue::Null.as_sequence().is_none());
    let copy = v.clone();
    assert!(copy.as_mapping().is_some());
}

#[test]
fn match_triggers_and_form() {
    let mut m = empty_match();
    m.trigger = Some(":a".to_string());
    m.triggers = Some(vec![":b".to_string(), ":c".to_string()]);
    assert_eq!(m.triggers(), vec![":a", ":b", ":c"]);
    assert!(!m.has_form());
    m.form = Some("[[x]]".to_string());
    assert!(m.has_form());
    assert!(empty_match().triggers().is_empty());
    let c = Config { matches: vec![m], params: None };
    assert_eq!(c.matches.len(), 1);
}

#[test]
fn config_error_messages() {
    assert_eq!(Error::Parse("bad".to_string()).message(), "Parse error: bad");
    assert_eq!(ConfigError::Io("gone".to_string()).message(), "IO error: gone");
    assert_eq!(Error::Ui("x".to_string()).message(), "UI error: x");
}

#[test]
fn source_config_defaults_to_no_devices() {
    let c = SourceConfig::default();
    assert!(c.device_paths.is_empty());
    let e = InputEvent::KeyPress { code: 30, key: "a".to_string() };
    assert!(matches!(e, InputEvent::KeyPress { code: 30, .. }));
}
