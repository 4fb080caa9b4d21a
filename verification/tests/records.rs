use texpand::config::{Config, MatchFile};
use texpand::records::{
    configs_describable_check, extract_tags, find_record, merge_records, records_to_csv, records_to_json,
    search_records, TriggerRecord,
};

fn record(trigger: &str, description: &str, source_file: &str) -> TriggerRecord {
    TriggerRecord {
        trigger: trigger.to_string(),
        description: description.to_string(),
        category: "cat".to_string(),
        trigger_type: "text".to_string(),
        tags: "t".to_string(),
        source_file: source_file.to_string(),
    }
}

fn text_match(trigger: &str, replace: &str) -> MatchFile {
    MatchFile {
        trigger: Some(trigger.to_string()),
        triggers: None,
        replace: Some(replace.to_string()),
        form: None,
        form_fields: None,
        vars: None,
        force_mode: None,
        propagate_case: None,
        word: None,
        image_path: None,
        markdown: None,
        html: None,
        search_label: None,
    }
}

#[test]
fn test_from_configs_empty() {
    let records = TriggerRecord::from_configs(&[]);
    assert!(records.is_empty());
}

#[test]
fn test_to_csv_string_quoting() {
    let r = TriggerRecord {
        trigger: ":test".to_string(),
        description: "A test with \"quotes\"".to_string(),
        category: "test".to_string(),
        trigger_type: "text".to_string(),
        tags: "test, demo".to_string(),
        source_file: "test.yml".to_string(),
    };
    let csv = r.to_csv_string();
    assert!(csv.contains("\"A test with \"\"quotes\"\"\""));
}

#[test]
fn test_merge_manual_preserved() {
    let auto = vec![TriggerRecord {
        trigger: ":hello".to_string(),
        description: "Hello!".to_string(),
        category: "base".to_string(),
        trigger_type: "text".to_string(),
        tags: "hello".to_string(),
        source_file: "base.yml".to_string(),
    }];
    let existing = vec![TriggerRecord {
        trigger: ":manual-trigger".to_string(),
        description: "Manual one".to_string(),
        category: "custom".to_string(),
        trigger_type: "text".to_string(),
        tags: "manual".to_string(),
        source_file: "manual:2026-06-15".to_string(),
    }];
    let merged = merge_records(auto, existing);
    assert!(merged.iter().any(|r| r.trigger == ":manual-trigger"));
    assert!(merged.iter().any(|r| r.trigger == ":hello"));
}

#[test]
fn test_extract_tags() {
    let tags = extract_tags(":findx", "Build find command with options");
    assert!(tags.contains("find"));
}

#[test]
fn csv_row_is_exact() {
    let r = TriggerRecord {
        trigger: ":t".to_string(),
        description: "say \"hi\"".to_string(),
        category: "base".to_string(),
        trigger_type: "form".to_string(),
        tags: "a \"b\"".to_string(),
        source_file: "base".to_string(),
    };
    assert_eq!(r.to_csv_string(), ":t,\"say \"\"hi\"\"\",base,form,base");
}

#[test]
fn records_to_csv_has_header_and_rows() {
    let out = records_to_csv(&[record(":a", "A", "x"), record(":b", "B", "y")]);
    assert_eq!(
        out,
        "trigger,description,category,type,source_file\n\
         :a,\"A\",cat,text,x\n\
         :b,\"B\",cat,text,y\n"
    );
    assert_eq!(records_to_csv(&[]), "trigger,description,category,type,source_file\n");
}

#[test]
fn merge_orders_by_trigger_and_manual_wins() {
    let auto = vec![record(":b", "auto b", "base"), record(":a", "auto a", "base")];
    let existing = vec![
        record(":b", "hand b", "manual:2026-01-01"),
        record(":c", "old c", "base"),
    ];
    let merged = merge_records(auto, existing);
    let triggers: Vec<&str> = merged.iter().map(|r| r.trigger.as_str()).collect();
    assert_eq!(triggers, vec![":a", ":b"]);
    assert_eq!(merged[1].description, "hand b");
}

#[test]
fn merge_last_record_of_a_trigger_wins() {
    let auto = vec![record(":x", "first", "base"), record(":x", "second", "base")];
    let merged = merge_records(auto, vec![]);
    assert_eq!(merged.len(), 1);
    assert_eq!(merged[0].description, "second");
}

#[test]
fn extract_tags_exact() {
    assert_eq!(
        extract_tags(":findx", "Build find command with options"),
        "findx, build, find, command, with, options"
    );
    assert_eq!(extract_tags(":hello", "Hello World!"), "hello, world!");
    assert_eq!(extract_tags("plain", "a an the"), "the");
    assert_eq!(extract_tags(":go!", ""), "go");
}

#[test]
fn extract_tags_keeps_eight() {
    let tags = extract_tags(":x", "one two three four five six seven eight nine ten");
    assert_eq!(tags, "x, one, two, three, four, five, six, seven");
}

#[test]
fn from_configs_lists_each_trigger() {
    let mut greet = text_match(":hello", "Hello World!");
    greet.triggers = Some(vec![":hi".to_string()]);
    let mut form = text_match(":hello", "");
    form.replace = None;
    form.form = Some("Name: [[name]]".to_string());
    let configs = vec![(
        "/home/u/base.yml".to_string(),
        Config { matches: vec![greet, form], params: None },
    )];
    assert!(configs_describable_check(&configs));
    let records = TriggerRecord::from_configs(&configs);
    assert_eq!(records.len(), 3);
    assert_eq!(records[0].trigger, ":hello");
    assert_eq!(records[0].description, "Hello World!");
    assert_eq!(records[0].category, "base");
    assert_eq!(records[0].trigger_type, "text");
    assert_eq!(records[0].tags, "hello, world!");
    assert_eq!(records[0].source_file, "/home/u/base.yml");
    assert_eq!(records[1].trigger, ":hi");
    assert_eq!(records[2].trigger, ":hello [1]");
    assert_eq!(records[2].trigger_type, "form");
    assert_eq!(records[2].description, "Name: [[name]]");
}

#[test]
fn from_configs_cuts_long_descriptions() {
    let long = "x".repeat(100);
    let configs = vec![(String::new(), Config { matches: vec![text_match(":long", &long)], params: None })];
    assert!(configs_describable_check(&configs));
    let records = TriggerRecord::from_configs(&configs);
    assert_eq!(records[0].description, format!("{}...", "x".repeat(77)));
    assert_eq!(records[0].category, "unknown");
}

#[test]
fn describable_check_rejects_a_cut_inside_a_character() {
    let text = format!("{}é{}", "x".repeat(76), "y".repeat(10));
    let configs = vec![("e.yml".to_string(), Config { matches: vec![text_match(":e", &text)], params: None })];
    assert!(!configs_describable_check(&configs));
}

#[test]
fn search_is_case_insensitive_over_fields() {
    let mut tagged = record(":zz", "nothing", "b");
    tagged.tags = "Docker, compose".to_string();
    let records = vec![record(":Hello", "greeting", "a"), tagged, record(":bye", "farewell", "c")];
    let found = search_records(&records, "HELLO");
    assert_eq!(found.len(), 1);
    assert_eq!(found[0].trigger, ":Hello");
    let found = search_records(&records, "docker");
    assert_eq!(found.len(), 1);
    assert_eq!(found[0].trigger, ":zz");
    assert_eq!(search_records(&records, "").len(), 3);
    assert!(search_records(&records, "missing").is_empty());
}

#[test]
fn find_record_returns_first_exact_trigger() {
    let records = vec![record(":a", "1", "x"), record(":b", "2", "x"), record(":b", "3", "x")];
    assert_eq!(find_record(&records, ":b"), Some(1));
    assert_eq!(find_record(&records, ":c"), None);
    assert_eq!(find_record(&records, ":A"), None);
}

#[test]
fn tags_from_word_keys() {
    let keys: Vec<String> = ["build", "find", "it", "find", "command"].iter().map(|s| s.to_string()).collect();
    assert_eq!(texpand::records::tags_from_words(":findx", &keys), "findx, build, find, command");
    assert_eq!(texpand::records::tags_from_words("x", &[]), "");
}

#[test]
fn search_lowered_reads_the_lowered_copy() {
    let shown = record(":Deploy", "Ship it", "x");
    let mut low = record(":deploy", "ship it", "x");
    low.category = "ops".to_string();
    let pairs = vec![(shown, low)];
    let found = texpand::records::search_lowered(&pairs, "ops");
    assert_eq!(found.len(), 1);
    assert_eq!(found[0].trigger, ":Deploy");
    assert!(texpand::records::search_lowered(&pairs, "Ship").is_empty());
}

#[test]
fn readme_row_for_a_file_path() {
    let configs = vec![(
        "/home/u/base.yml".to_string(),
        Config { matches: vec![text_match(":hello", "Hello World!")], params: None },
    )];
    let records = TriggerRecord::from_configs(&configs);
    assert_eq!(
        records_to_csv(&records),
        "trigger,description,category,type,source_file\n:hello,\"Hello World!\",base,text,/home/u/base.yml\n"
    );
}

#[test]
fn from_sources_uses_the_given_stems() {
    let configs = vec![
        ("a/one.yml".to_string(), Config { matches: vec![text_match(":a", "A")], params: None }),
        ("b".to_string(), Config { matches: vec![text_match(":b", "B")], params: None }),
    ];
    let records = TriggerRecord::from_sources(&configs, &[Some("first".to_string()), None]);
    assert_eq!(records[0].category, "first");
    assert_eq!(records[0].source_file, "a/one.yml");
    assert_eq!(records[1].category, "unknown");
    assert_eq!(records[1].source_file, "b");
}

#[test]
fn merging_twice_changes_nothing() {
    let auto = vec![record(":b", "auto b", "base"), record(":a", "auto a", "base")];
    let existing = vec![record(":b", "hand b", "manual:x"), record(":c", "hand c", "manual:y")];
    let once = merge_records(auto, existing.clone());
    let twice = merge_records(once.clone(), existing);
    let a: Vec<(String, String)> = once.iter().map(|r| (r.trigger.clone(), r.description.clone())).collect();
    let b: Vec<(String, String)> = twice.iter().map(|r| (r.trigger.clone(), r.description.clone())).collect();
    assert_eq!(a, b);
}

#[test]
fn categories_are_file_stems() {
    let paths = ["/home/u/base.yml", "conf/.bashrc", "x/a.b.c", "plain", "dir/"];
    let configs: Vec<(String, Config)> = paths
        .iter()
        .enumerate()
        .map(|(i, p)| {
            let t = format!(":t{}", i);
            (p.to_string(), Config { matches: vec![text_match(&t, "X")], params: None })
        })
        .collect();
    let records = TriggerRecord::from_configs(&configs);
    let categories: Vec<&str> = records.iter().map(|r| r.category.as_str()).collect();
    assert_eq!(categories, vec!["base", ".bashrc", "a.b", "plain", "dir"]);
    assert_eq!(records[0].source_file, "/home/u/base.yml");
}

#[test]
fn a_path_without_a_file_name_is_unknown() {
    let configs = vec![("a/..".to_string(), Config { matches: vec![text_match(":u", "U")], params: None })];
    let records = TriggerRecord::from_configs(&configs);
    assert_eq!(records[0].category, "unknown");
}

#[test]
fn records_to_json_is_pretty_and_sorted_by_key() {
    let records = vec![record(":a", "say \"hi\"", "f.yml")];
    assert_eq!(
        records_to_json(&records),
        "[\n  {\n    \"category\": \"cat\",\n    \"description\": \"say \\\"hi\\\"\",\n    \"source_file\": \"f.yml\",\n    \"tags\": \"t\",\n    \"trigger\": \":a\",\n    \"type\": \"text\"\n  }\n]"
    );
    assert_eq!(records_to_json(&[]), "[]");
}

#[test]
fn to_json_value_holds_every_field() {
    let v = record(":a", "d", "f.yml").to_json_value();
    assert_eq!(v["trigger"], ":a");
    assert_eq!(v["description"], "d");
    assert_eq!(v["category"], "cat");
    assert_eq!(v["type"], "text");
    assert_eq!(v["tags"], "t");
    assert_eq!(v["source_file"], "f.yml");
}

#[test]
fn a_cloned_record_is_equal_field_by_field() {
    let r = record(":a", "d", "f.yml");
    let c = r.clone();
    assert_eq!(c.to_csv_string(), r.to_csv_string());
    assert_eq!(c.tags, r.tags);
}
