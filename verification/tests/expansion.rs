use texpand::cli::{
    add_form_values, add_missing, boundary_at, default_form_result, expand_path, form_var_index,
    normalize_command_output, truncate,
};
use texpand::config::{FieldConfig, VariableDef};
use texpand::form::{FieldType, FormField};
use texpand::strmap::StringMap;
use texpand::template::{FormExtension, Template};
use texpand::text::chars_of;

fn field(name: &str) -> FormField {
    FormField {
        name: name.to_string(),
        label: format!("{}:", name),
        section: None,
        field_type: FieldType::Text,
        default: None,
        placeholder: None,
        values: None,
        multiline: false,
        depends_on: None,
        depends_map: None,
    }
}

fn var(name: &str, kind: &str) -> VariableDef {
    VariableDef { name: name.to_string(), var_type: kind.to_string(), params: None }
}

#[test]
fn test_normalize_command_output_collapses_unquoted_find_spacing() {
    let output = "find . -name 'README*'  -print";
    assert_eq!(normalize_command_output(output), "find . -name 'README*' -print");
}

#[test]
fn test_normalize_command_output_preserves_quoted_spacing() {
    let output = "find . -name 'my  file.txt'  -print";
    assert_eq!(normalize_command_output(output), "find . -name 'my  file.txt' -print");
}

#[test]
fn normalize_leaves_other_commands_alone() {
    assert_eq!(normalize_command_output("ls  -la  "), "ls  -la  ");
    assert_eq!(normalize_command_output("find .\n  -print"), "find .\n  -print");
    assert_eq!(normalize_command_output("  find  a\\  b \"x  y\"  "), "find a\\  b \"x  y\"");
}

#[test]
fn test_template_with_variable_engine() {
    let template = Template::new("{{greeting}} {{name}}!");
    let mut vars = StringMap::new();
    vars.insert("greeting".to_string(), "Hi".to_string());
    vars.insert("name".to_string(), "World".to_string());

    let result = template.render(&vars);
    assert_eq!(result, "Hi World!");
}

#[test]
fn test_form_extension_integration() {
    let mut fields = StringMap::new();
    fields.insert(
        "name".to_string(),
        FieldConfig {
            field_type: None,
            multiline: None,
            default: None,
            placeholder: Some("Your name".to_string()),
            values: None,
            trim_string_values: None,
            depends_on: None,
        },
    );

    let mut values = StringMap::new();
    values.insert("name".to_string(), "Alice".to_string());

    let result = FormExtension::render_form("Hello [[name]]!", &fields, &values);
    assert_eq!(result, "Hello Alice!");
}

#[test]
fn template_leaves_unknown_placeholders_and_repeats() {
    let template = Template::new("{{a}}-{{a}}-{{b}}-[[a]]");
    let mut vars = StringMap::new();
    vars.insert("a".to_string(), "1".to_string());
    assert_eq!(template.render(&vars), "1-1-{{b}}-[[a]]");
    assert_eq!(Template::new("plain").render(&StringMap::new()), "plain");
}

#[test]
fn cursor_position_is_a_byte_offset() {
    assert_eq!(Template::new("cd $|$ && ls").cursor_position(), Some(3));
    assert_eq!(Template::new("é$|$").cursor_position(), Some(2));
    assert_eq!(Template::new("no marker").cursor_position(), None);
}

#[test]
fn default_values_follow_the_fallback_order() {
    let mut check = field("flag");
    check.field_type = FieldType::Checkbox;
    let mut with_default = field("title");
    with_default.default = Some("My ticket".to_string());
    let mut choice = field("category");
    choice.field_type = FieldType::Choice;
    choice.values = Some(vec!["Fruits".to_string(), "Animals".to_string()]);
    let mut child = field("item");
    child.depends_on = Some("category".to_string());
    let mut dm = StringMap::new();
    dm.insert("Fruits".to_string(), vec!["Apple".to_string(), "Banana".to_string()]);
    child.depends_map = Some(dm);
    let mut hinted = field("path");
    hinted.placeholder = Some("./".to_string());
    let bare = field("bare");

    let result = default_form_result(&[check, with_default, choice, child, hinted, bare]);
    let v = &result.values;
    assert_eq!(v.get("flag").map(String::as_str), Some("false"));
    assert_eq!(v.get("title").map(String::as_str), Some("My ticket"));
    assert_eq!(v.get("category").map(String::as_str), Some("Fruits"));
    assert_eq!(v.get("item").map(String::as_str), Some("Apple"));
    assert_eq!(v.get("path").map(String::as_str), Some("./"));
    assert_eq!(v.get("bare").map(String::as_str), Some(""));
    assert_eq!(v.len(), 6);
}

#[test]
fn truncate_cuts_with_dots() {
    assert_eq!(truncate("short", 37), "short");
    assert_eq!(truncate("abcdefghij", 8), "abcde...");
    assert_eq!(truncate("abcdef", 2), "...");
    assert_eq!(truncate("exactly", 7), "exactly");
}

#[test]
fn boundary_checks() {
    let text = chars_of("aé");
    assert!(boundary_at(&text, 0));
    assert!(boundary_at(&text, 1));
    assert!(!boundary_at(&text, 2));
    assert!(boundary_at(&text, 3));
    assert!(!boundary_at(&text, 4));
}

#[test]
fn expand_path_reads_home() {
    assert_eq!(expand_path("~/.config/x", "/home/u"), "/home/u/.config/x");
    assert_eq!(expand_path("~/.config/x", "/home/u/"), "/home/u/.config/x");
    assert_eq!(expand_path("~/x", ""), "x");
    assert_eq!(expand_path("/etc/x", "/home/u"), "/etc/x");
    assert_eq!(expand_path("~user/x", "/home/u"), "~user/x");
    assert_eq!(expand_path("~//abs", "/home/u"), "/abs");
}

#[test]
fn first_form_variable_is_found() {
    let vars = vec![var("now", "date"), var("form", "form"), var("f2", "form")];
    assert_eq!(form_var_index(&vars), Some(1));
    assert_eq!(form_var_index(&vars[..1]), None);
}

#[test]
fn form_values_bound_under_both_names() {
    let mut vars = StringMap::new();
    let mut values = StringMap::new();
    values.insert("path".to_string(), "/tmp".to_string());
    values.insert("name".to_string(), "*.rs".to_string());
    add_form_values(&mut vars, "form", &values);
    assert_eq!(vars.get("form.path").map(String::as_str), Some("/tmp"));
    assert_eq!(vars.get("path").map(String::as_str), Some("/tmp"));
    assert_eq!(vars.get("form.name").map(String::as_str), Some("*.rs"));
    assert_eq!(vars.get("name").map(String::as_str), Some("*.rs"));
    assert_eq!(vars.len(), 4);
}

#[test]
fn resolved_variables_do_not_replace_form_values() {
    let mut vars = StringMap::new();
    vars.insert("name".to_string(), "from form".to_string());
    let mut resolved = StringMap::new();
    resolved.insert("name".to_string(), "resolved".to_string());
    resolved.insert("now".to_string(), "2026-06-17".to_string());
    add_missing(&mut vars, &resolved);
    assert_eq!(vars.get("name").map(String::as_str), Some("from form"));
    assert_eq!(vars.get("now").map(String::as_str), Some("2026-06-17"));
}

#[test]
fn tidying_twice_changes_nothing() {
    for s in ["  find  .\t-name 'a  b'   -print ", "find \\  x", "ls   -l", "find a\nb"] {
        let once = normalize_command_output(s);
        assert_eq!(normalize_command_output(&once), once);
    }
}
