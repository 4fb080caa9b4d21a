use texpand::config::{FieldConfig, VariableDef};
use texpand::fields::{build_fields_from_form_var, build_form_fields, parse_depends_map};
use texpand::form::{
    cascade_items, clean_label, display_label, filter_options, header_title, interactive_terminal,
    is_checked, plan_form, position_of, search_results, select_items, trigger_title, FieldType,
    FormField, Widget,
};
use texpand::strmap::StringMap;
use texpand::yaml::YamlValue;

fn s(text: &str) -> YamlValue {
    YamlValue::String(text.to_string())
}

fn seq(items: &[&str]) -> YamlValue {
    YamlValue::Sequence(items.iter().map(|i| s(i)).collect())
}

fn map(entries: Vec<(&str, YamlValue)>) -> YamlValue {
    YamlValue::Mapping(entries.into_iter().map(|(k, v)| (s(k), v)).collect())
}

fn field_config() -> FieldConfig {
    FieldConfig {
        field_type: None,
        multiline: None,
        default: None,
        placeholder: None,
        values: None,
        trim_string_values: None,
        depends_on: None,
    }
}

fn text_field(name: &str) -> FormField {
    FormField {
        name: name.to_string(),
        label: format!("{}:", name),
        section: None,
        field_type: FieldType::Text,
        default: None,
        placeholder: None,
        values: None,
        multiline: false,
        depends_on: None,
        depends_map: None,
    }
}

#[test]
fn test_filter_options_matches_substrings_case_insensitive() {
    let options = vec!["Alpha".to_string(), "postgresql".to_string(), "Fox".to_string()];
    assert_eq!(filter_options(&options, "post"), vec!["postgresql".to_string()]);
    assert_eq!(filter_options(&options, "FO"), vec!["Fox".to_string()]);
}

#[test]
fn test_filter_options_returns_all_for_empty_query() {
    let options = vec!["A".to_string(), "B".to_string()];
    assert_eq!(filter_options(&options, ""), options);
}

#[test]
fn filter_options_trims_query_and_keeps_order() {
    let options = vec![
        "Alpha".to_string(),
        "postgresql".to_string(),
        "postgresql-contrib".to_string(),
        "Fox".to_string(),
    ];
    let filtered = filter_options(&options, "  POST  ");
    assert_eq!(filtered, vec!["postgresql".to_string(), "postgresql-contrib".to_string()]);
    assert_eq!(filter_options(&options, "   "), options);
}

#[test]
fn test_build_form_fields_keeps_text_inputs_in_mixed_forms() {
    let mut fields: StringMap<FieldConfig> = StringMap::new();
    let mut title = field_config();
    title.default = Some("My ticket".to_string());
    title.placeholder = Some("Enter title".to_string());
    fields.insert("title".to_string(), title);
    let mut item = field_config();
    item.field_type = Some("choice".to_string());
    item.depends_on = Some("category".to_string());
    item.values = Some(map(vec![("Fruits", seq(&["Apple", "Banana"]))]));
    fields.insert("item".to_string(), item);

    let built = build_form_fields(Some(&fields));
    assert_eq!(built.len(), 2);

    let title = built.iter().find(|field| field.name == "title").unwrap();
    assert_eq!(title.field_type, FieldType::Text);
    assert_eq!(title.default.as_deref(), Some("My ticket"));

    let item = built.iter().find(|field| field.name == "item").unwrap();
    assert_eq!(item.field_type, FieldType::Choice);
    assert_eq!(item.depends_on.as_deref(), Some("category"));
    assert!(item.depends_map.is_some());
}

fn cascade_form_var() -> VariableDef {
    let layout = "Metadata\n  - Title: [[title]]\n\nSearch Criteria\n  - Category: [[category]]\n  - Item: [[item]]\n";
    let fields = map(vec![
        ("title", map(vec![("placeholder", s("Enter a title"))])),
        ("category", map(vec![("type", s("choice")), ("values", seq(&["Fruits", "Animals"]))])),
        (
            "item",
            map(vec![
                ("type", s("choice")),
                ("depends_on", s("category")),
                (
                    "values",
                    map(vec![
                        ("Fruits", seq(&["Apple", "Banana"])),
                        ("Animals", seq(&["Cat", "Dog"])),
                    ]),
                ),
            ]),
        ),
    ]);
    VariableDef {
        name: "form".to_string(),
        var_type: "form".to_string(),
        params: Some(map(vec![("layout", s(layout)), ("fields", fields)])),
    }
}

#[test]
fn test_build_fields_from_form_var_supports_text_and_cascade_fields() {
    let var = cascade_form_var();
    let fields = build_fields_from_form_var(&var);

    assert_eq!(fields.len(), 3);
    assert_eq!(fields[0].name, "title");
    assert_eq!(fields[0].section.as_deref(), Some("Metadata"));
    assert_eq!(fields[0].field_type, FieldType::Text);
    assert_eq!(fields[1].field_type, FieldType::Choice);
    assert_eq!(fields[1].section.as_deref(), Some("Search Criteria"));
    assert_eq!(fields[2].depends_on.as_deref(), Some("category"));
    assert!(fields[2].depends_map.is_some());
}

#[test]
fn form_var_fields_details() {
    let fields = build_fields_from_form_var(&cascade_form_var());
    assert_eq!(fields[0].label, "- Title:");
    assert_eq!(fields[0].placeholder.as_deref(), Some("Enter a title"));
    assert_eq!(fields[1].name, "category");
    assert_eq!(fields[1].values, Some(vec!["Fruits".to_string(), "Animals".to_string()]));
    assert_eq!(fields[2].values, None);
    let dm = fields[2].depends_map.as_ref().unwrap();
    assert_eq!(dm.get("Animals"), Some(&vec!["Cat".to_string(), "Dog".to_string()]));
}

#[test]
fn form_var_without_layout_has_no_fields() {
    let var = VariableDef {
        name: "f".to_string(),
        var_type: "form".to_string(),
        params: Some(map(vec![("fields", map(vec![]))])),
    };
    assert!(build_fields_from_form_var(&var).is_empty());
    let var = VariableDef { name: "f".to_string(), var_type: "form".to_string(), params: None };
    assert!(build_fields_from_form_var(&var).is_empty());
}

#[test]
fn form_var_several_fields_on_one_line() {
    let var = VariableDef {
        name: "f".to_string(),
        var_type: "form".to_string(),
        params: Some(map(vec![("layout", s("From [[a]] to [[b]]"))])),
    };
    let fields = build_fields_from_form_var(&var);
    assert_eq!(fields.len(), 2);
    assert_eq!(fields[0].label, "From:");
    assert_eq!(fields[1].label, "b:");
    assert_eq!(fields[0].section, None);
}

#[test]
fn build_form_fields_maps_types() {
    let mut fields: StringMap<FieldConfig> = StringMap::new();
    for (name, kind) in [("a", "list"), ("b", "boolean"), ("c", "secret"), ("d", "other")] {
        let mut c = field_config();
        c.field_type = Some(kind.to_string());
        fields.insert(name.to_string(), c);
    }
    let built = build_form_fields(Some(&fields));
    let kinds: Vec<FieldType> = built.iter().map(|f| f.field_type).collect();
    assert_eq!(kinds, vec![FieldType::List, FieldType::Checkbox, FieldType::Password, FieldType::Text]);
    assert_eq!(built[0].label, "a:");
    assert!(build_form_fields(None).is_empty());
}

#[test]
fn depends_map_skips_empty_lists_and_rejects_non_mappings() {
    let v = map(vec![("A", seq(&["x"])), ("B", seq(&[]))]);
    let m = parse_depends_map(&v).unwrap();
    assert_eq!(m.len(), 1);
    assert!(m.get("B").is_none());
    assert!(parse_depends_map(&seq(&["x"])).is_none());
}

#[test]
fn labels_are_cleaned_and_shown() {
    assert_eq!(clean_label("  - Title: "), "Title");
    assert_eq!(clean_label("│ Name │"), "Name");
    assert_eq!(display_label("- Package:", true), "  - Package (/ search):");
    assert_eq!(display_label("- Package:", false), "  - Package:");
    assert_eq!(display_label("Pick (/ search)", true), "  - Pick (/ search):");
}

#[test]
fn title_carries_trigger() {
    let t = trigger_title("cli-expander", ":findx");
    assert_eq!(t, "cli-expander\u{1f}:findx");
    assert_eq!(header_title(&t), ":findx");
    assert_eq!(header_title("plain"), "plain");
}

#[test]
fn select_and_search_helpers() {
    let values = vec!["a".to_string(), "b".to_string()];
    assert_eq!(
        select_items(&values, true),
        vec![("- a".to_string(), "a".to_string()), ("- b".to_string(), "b".to_string())]
    );
    assert_eq!(select_items(&values, false)[1], ("b".to_string(), "b".to_string()));
    assert_eq!(position_of(&values, "b"), Some(1));
    assert_eq!(position_of(&values, "c"), None);
    let (count, items) = search_results(&values, "A");
    assert_eq!(count, "1 match");
    assert_eq!(items, vec!["a".to_string()]);
    let (count, items) = search_results(&values, "zz");
    assert_eq!(count, "0 matches");
    assert_eq!(items, vec!["No matches".to_string()]);
    let (count, _) = search_results(&values, "");
    assert_eq!(count, "2 matches");
}

#[test]
fn cascade_items_indent_options() {
    let mut m: StringMap<Vec<String>> = StringMap::new();
    m.insert("Fruits".to_string(), vec!["Apple".to_string()]);
    assert_eq!(cascade_items(&m, "Fruits"), vec![("  Apple".to_string(), "Apple".to_string())]);
    assert!(cascade_items(&m, "Cars").is_empty());
}

#[test]
fn checkbox_defaults() {
    assert!(is_checked(&Some("Yes".to_string())));
    assert!(is_checked(&Some("1".to_string())));
    assert!(!is_checked(&Some("no".to_string())));
    assert!(!is_checked(&None));
}

#[test]
fn terminal_check() {
    assert!(interactive_terminal(true, Some("xterm-256color")));
    assert!(!interactive_terminal(true, Some("dumb")));
    assert!(!interactive_terminal(true, None));
    assert!(!interactive_terminal(false, Some("xterm")));
}

#[test]
fn plan_lays_out_sections_and_cascades() {
    let mut category = text_field("category");
    category.field_type = FieldType::Choice;
    category.section = Some("Criteria".to_string());
    category.values = Some(vec!["Fruits".to_string(), "Animals".to_string()]);
    category.default = Some("Animals".to_string());
    let mut item = text_field("item");
    item.field_type = FieldType::List;
    item.section = Some("Criteria".to_string());
    item.depends_on = Some("category".to_string());
    let mut dm: StringMap<Vec<String>> = StringMap::new();
    dm.insert("Animals".to_string(), vec!["Cat".to_string(), "Dog".to_string()]);
    item.depends_map = Some(dm);
    let mut secret = text_field("token");
    secret.field_type = FieldType::Password;
    secret.placeholder = Some("paste".to_string());

    let plan = plan_form(&[category, item, secret]);
    assert_eq!(plan.len(), 3);
    assert_eq!(plan[0].heading.as_deref(), Some("Criteria"));
    assert_eq!(plan[1].heading, None);
    assert_eq!(plan[0].label, "  - category (/ search):");
    match &plan[0].widget {
        Widget::Select { selected, .. } => assert_eq!(*selected, Some(1)),
        _ => panic!("category is a select"),
    }
    match &plan[1].widget {
        Widget::Select { items, selected, .. } => {
            assert_eq!(items[0], ("- Cat".to_string(), "Cat".to_string()));
            assert_eq!(*selected, Some(0));
        }
        _ => panic!("item is a select"),
    }
    assert_eq!(plan[1].cascade_parent.as_deref(), Some("category"));
    match &plan[2].widget {
        Widget::Edit { content, secret } => {
            assert_eq!(content, "paste");
            assert!(*secret);
        }
        _ => panic!("token is an edit"),
    }
}

#[test]
fn filter_lowered_uses_the_given_lowercase_forms() {
    let pairs = vec![
        ("Alpha".to_string(), "alpha".to_string()),
        ("POST".to_string(), "post".to_string()),
        ("Other".to_string(), "xpostx".to_string()),
    ];
    assert_eq!(
        texpand::form::filter_lowered(&pairs, "post"),
        vec!["POST".to_string(), "Other".to_string()]
    );
    assert_eq!(texpand::form::filter_lowered(&pairs, "").len(), 3);
    assert!(texpand::form::filter_lowered(&pairs, "POST").is_empty());
}
