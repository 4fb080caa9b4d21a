use texpand::config::{Config, MatchFile};
use texpand::matcher::Matcher;

fn make_match(trigger: &str, replace: &str) -> MatchFile {
    MatchFile {
        trigger: Some(trigger.to_string()),
        triggers: None,
        replace: Some(replace.to_string()),
        form: None,
        form_fields: None,
        vars: None,
        force_mode: None,
        propagate_case: None,
        word: None,
        image_path: None,
        markdown: None,
        html: None,
        search_label: None,
    }
}

#[test]
fn test_simple_match() {
    let matcher = Matcher::new(vec![make_match(":greet", "Hello there!")]);
    let result = matcher.find_best("say :greet");
    assert!(result.is_some());
    assert_eq!(result.unwrap().matched_text, ":greet");
}

#[test]
fn test_no_match_within_word() {
    let matcher = Matcher::new(vec![make_match(":greet", "Hello!")]);
    let result = matcher.find_best("my:greet");
    assert!(result.is_none());
}

#[test]
fn test_match_at_start() {
    let matcher = Matcher::new(vec![make_match(":hi", "world")]);
    let result = matcher.find_best(":hi");
    assert!(result.is_some());
}

#[test]
fn test_longest_match_wins() {
    let matcher = Matcher::new(vec![make_match(":g", "short"), make_match(":greet", "long")]);
    let result = matcher.find_best("type :greet");
    assert!(result.is_some());
    assert_eq!(result.unwrap().matched_text, ":greet");
}

#[test]
fn matcher_test_multiple_triggers() {
    let mut m = make_match(":hello", "world");
    m.triggers = Some(vec!["hi".to_string(), "hey".to_string()]);
    let matcher = Matcher::new(vec![m]);

    assert!(matcher.find_best("say hi").is_some());
    assert!(matcher.find_best("say hey").is_some());
}

#[test]
fn test_no_match_empty_input() {
    let matcher = Matcher::new(vec![make_match(":greet", "Hello!")]);
    assert!(matcher.find_best("").is_none());
}

#[test]
fn test_match_disambiguation() {
    let matcher = Matcher::new(vec![
        make_match(":quote", "Quote one"),
        make_match(":quote", "Quote two"),
        make_match(":quote", "Quote three"),
    ]);
    let result = matcher.find_all(":quote");
    assert_eq!(result.matches.len(), 3);
}

#[test]
fn test_trigger_with_prefix() {
    let matcher = Matcher::new(vec![make_match("git!rel", "release")]);
    assert!(matcher.find_best("run git!rel").is_some());
    assert!(matcher.find_best("nogit!rel").is_none());
}

#[test]
fn test_no_match_inside_word() {
    let matcher = Matcher::new(vec![make_match("ls", "list")]);
    let result = matcher.find_best("callsls");
    assert!(result.is_none());
}

#[test]
fn test_tab_complete_context() {
    let matcher = Matcher::new(vec![make_match(":now", "date")]);
    assert!(matcher.find_best("echo :now").is_some());
}

#[test]
fn test_match_engine_with_real_config() {
    let matches = vec![
        make_match(":greet", "Hello World!"),
        make_match("git!rel", "git add . && git commit"),
    ];

    let matcher = Matcher::new(matches);

    // Test basic match
    let result = matcher.find_best("say :greet");
    assert!(result.is_some());
    assert_eq!(result.unwrap().matched_text, ":greet");

    // Test git-style trigger
    let result = matcher.find_best("run git!rel");
    assert!(result.is_some());
    assert_eq!(result.unwrap().matched_text, "git!rel");

    // Test no match inside word
    let result = matcher.find_best("my:greet");
    assert!(result.is_none());
}

#[test]
fn test_matcher_with_from_files() {
    let config1 = Config { matches: vec![make_match(":hello", "world")], params: None };
    let config2 = Config { matches: vec![make_match(":bye", "goodbye")], params: None };

    let files = vec![("f1.yml".to_string(), config1), ("f2.yml".to_string(), config2)];

    let matcher = Matcher::from_files(files);
    assert!(matcher.find_best("say :hello").is_some());
    assert!(matcher.find_best("say :bye").is_some());
}

#[test]
fn find_all_lists_longest_first_then_in_order() {
    let mut a = make_match("b", "first");
    a.triggers = Some(vec!["ab".to_string()]);
    let matcher = Matcher::new(vec![a, make_match("ab", "second"), make_match("xab", "third")]);
    let result = matcher.find_all("ab");
    let found: Vec<(&str, &str)> = result
        .matches
        .iter()
        .map(|m| (m.matched_text.as_str(), m.replace.as_deref().unwrap()))
        .collect();
    assert_eq!(found, vec![("ab", "first"), ("ab", "second")]);
    let result = matcher.find_all("x ab");
    assert_eq!(result.matches.len(), 2);
    let result = matcher.find_all("x b");
    assert_eq!(result.matches.len(), 1);
    assert_eq!(result.matches[0].matched_text, "b");
}

#[test]
fn find_best_keeps_match_details() {
    let mut f = make_match(":form", "");
    f.replace = None;
    f.form = Some("Name: [[name]]".to_string());
    let matcher = Matcher::new(vec![f]);
    let m = matcher.find_best("go\t:form").unwrap();
    assert_eq!(m.form.as_deref(), Some("Name: [[name]]"));
    assert!(m.replace.is_none());
    assert_eq!(m.source.form.as_deref(), Some("Name: [[name]]"));
}

#[test]
fn longer_trigger_by_bytes_wins_over_earlier() {
    let matcher = Matcher::new(vec![make_match("é", "accent"), make_match("e", "plain")]);
    assert!(matcher.find_best("café").is_none());
    let m = matcher.find_best("é").unwrap();
    assert_eq!(m.replace.as_deref(), Some("accent"));
}

#[test]
fn matches_lists_every_loaded_match() {
    let config = Config { matches: vec![make_match(":a", "1"), make_match(":b", "2")], params: None };
    let matcher = Matcher::from_files(vec![("x.yml".to_string(), config)]);
    assert_eq!(matcher.matches().len(), 2);
    assert_eq!(matcher.matches()[1].trigger.as_deref(), Some(":b"));
}
