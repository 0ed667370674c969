use ecooff::names::NameSet;
use ecooff::rule::{
    clean, format_config, parse, save_text, strings, valid_names, Config, ConfigError,
    EditableConfig,
};

fn names(v: &[&str]) -> Vec<String> {
    v.iter().map(|s| s.to_string()).collect()
}

fn sorted(set: &NameSet) -> Vec<String> {
    set.sorted()
}

#[test]
fn config_round_trip() {
    let input = EditableConfig {
        scan_interval_secs: 12,
        allow: vec!["Code.exe".into(), "code.exe".into()],
        allow_parent: vec!["orca.exe".into()],
        deny: vec!["System".into()],
    };
    let text = format_config(&input);
    let config = parse(&text);
    assert_eq!(config.scan_interval_secs, 12);
    assert!(config.rule.allow_name.contains("code.exe"));
    assert!(config.rule.allow_parent.contains("orca.exe"));
    assert!(config.rule.deny_name.contains("system"));
}

#[test]
fn format_config_exact_text() {
    let input = EditableConfig {
        scan_interval_secs: 20,
        allow: names(&["python.exe", "node.exe"]),
        allow_parent: vec![],
        deny: names(&["svchost.exe"]),
    };
    assert_eq!(
        format_config(&input),
        "scan_interval_secs = 20\n\nallow = [\n  \"python.exe\",\n  \"node.exe\",\n]\n\nallow_parent = []\n\ndeny = [\n  \"svchost.exe\",\n]\n"
    );
}

#[test]
fn parse_readme_example() {
    let text = "scan_interval_secs = 20\nallow = [\"python.exe\", \"node.exe\", \"Code.exe\"]\nallow_parent = [\"Code.exe\"]\ndeny = [\"svchost.exe\", \"explorer.exe\"]\n";
    let config = parse(text);
    assert_eq!(config.scan_interval_secs, 20);
    assert_eq!(sorted(&config.rule.allow_name), names(&["code.exe", "node.exe", "python.exe"]));
    assert_eq!(sorted(&config.rule.allow_parent), names(&["code.exe"]));
    assert_eq!(sorted(&config.rule.deny_name), names(&["explorer.exe", "svchost.exe"]));
}

#[test]
fn parse_defaults_for_empty_text() {
    let config = parse("");
    assert_eq!(config.scan_interval_secs, 60);
    assert_eq!(config.rule.allow_name.len(), 0);
    assert_eq!(config.rule.allow_parent.len(), 0);
    assert_eq!(config.rule.deny_name.len(), 0);
    let d = Config::default();
    assert_eq!(d.scan_interval_secs, 60);
    assert!(d.rule.allow_name.is_empty());
}

#[test]
fn parse_ignores_invalid_intervals() {
    assert_eq!(parse("scan_interval_secs = 0").scan_interval_secs, 60);
    assert_eq!(parse("scan_interval_secs = 3601").scan_interval_secs, 60);
    assert_eq!(parse("scan_interval_secs = abc").scan_interval_secs, 60);
    assert_eq!(parse("scan_interval_secs = -5").scan_interval_secs, 60);
    assert_eq!(parse("scan_interval_secs = 3600").scan_interval_secs, 3600);
    assert_eq!(parse("scan_interval_secs = 1").scan_interval_secs, 1);
    assert_eq!(parse("scan_interval_secs = +7").scan_interval_secs, 7);
    assert_eq!(parse("  scan_interval_secs=  45  # comment").scan_interval_secs, 45);
    assert_eq!(
        parse("scan_interval_secs = 99999999999999999999999").scan_interval_secs,
        60
    );
}

#[test]
fn parse_comments_unknown_keys_and_repeats() {
    let text = "# header\nunknown = [\"a.exe\"]\nno equals sign here\nallow = [\"A.exe\"] # trailing\n\nallow = [\"b.exe\"]\r\n";
    let config = parse(text);
    assert_eq!(sorted(&config.rule.allow_name), names(&["a.exe", "b.exe"]));
    assert_eq!(config.rule.deny_name.len(), 0);
}

#[test]
fn parse_multi_line_list_and_escapes() {
    let text = "deny = [\n  \"One.exe\",   # first\n  \"a\\\"b\",\n  \"c\\\\d\"\n]\nallow = [\"x.exe\"]\n";
    let config = parse(text);
    assert_eq!(sorted(&config.rule.deny_name), names(&["a\"b", "c\\d", "one.exe"]));
    assert_eq!(sorted(&config.rule.allow_name), names(&["x.exe"]));
}

#[test]
fn parse_unclosed_list_takes_rest_of_text() {
    let text = "allow = [\n\"a.exe\",\n\"b.exe\"";
    let config = parse(text);
    assert_eq!(sorted(&config.rule.allow_name), names(&["a.exe", "b.exe"]));
}

#[test]
fn clean_strips_comment_and_whitespace() {
    assert_eq!(clean("  allow = [] # note"), "allow = []");
    assert_eq!(clean("#only comment"), "");
    assert_eq!(clean("\t x \u{3000}"), "x");
}

#[test]
fn strings_reads_quoted_items() {
    assert_eq!(strings("[\"a\", \"b\"]"), names(&["a", "b"]));
    assert_eq!(strings("[\"a\\\"q\", \"unterminated"), names(&["a\"q"]));
    assert_eq!(strings("no quotes"), Vec::<String>::new());
    assert_eq!(strings("\"x\\\\\""), names(&["x\\"]));
}

#[test]
fn valid_names_trims_dedups_and_skips_empty() {
    let out = valid_names(names(&["  Code.exe ", "code.exe", "", "   ", "node.exe", "CODE.EXE"])).unwrap();
    assert_eq!(out, names(&["Code.exe", "node.exe"]));
}

#[test]
fn valid_names_rejects_forbidden_characters() {
    assert_eq!(
        valid_names(names(&["ok.exe", " bad\"name "])),
        Err(ConfigError::InvalidName("bad\"name".to_string()))
    );
    assert_eq!(
        valid_names(names(&["a\\b"])),
        Err(ConfigError::InvalidName("a\\b".to_string()))
    );
    assert_eq!(
        valid_names(names(&["tab\tinside"])),
        Err(ConfigError::InvalidName("tab\tinside".to_string()))
    );
    assert_eq!(
        valid_names(names(&["first\u{7f}", "second\""])),
        Err(ConfigError::InvalidName("first\u{7f}".to_string()))
    );
}

#[test]
fn valid_names_is_idempotent() {
    let once = valid_names(names(&[" B.exe", "b.EXE", "c.exe ", ""])).unwrap();
    let twice = valid_names(once.clone()).unwrap();
    assert_eq!(once, twice);
}

#[test]
fn save_text_checks_interval_and_names() {
    let mut c = EditableConfig {
        scan_interval_secs: 0,
        allow: names(&["a.exe"]),
        allow_parent: vec![],
        deny: vec![],
    };
    assert_eq!(save_text(c_clone(&c)), Err(ConfigError::IntervalOutOfRange));
    c.scan_interval_secs = 3601;
    assert_eq!(save_text(c_clone(&c)), Err(ConfigError::IntervalOutOfRange));
    c.scan_interval_secs = 30;
    c.deny = names(&["bad\\x"]);
    assert_eq!(save_text(c_clone(&c)), Err(ConfigError::InvalidName("bad\\x".to_string())));
    c.deny = names(&[" Svchost.exe ", "svchost.exe"]);
    let text = save_text(c_clone(&c)).unwrap();
    assert_eq!(
        text,
        "scan_interval_secs = 30\n\nallow = [\n  \"a.exe\",\n]\n\nallow_parent = []\n\ndeny = [\n  \"Svchost.exe\",\n]\n"
    );
}

fn c_clone(c: &EditableConfig) -> EditableConfig {
    EditableConfig {
        scan_interval_secs: c.scan_interval_secs,
        allow: c.allow.clone(),
        allow_parent: c.allow_parent.clone(),
        deny: c.deny.clone(),
    }
}

#[test]
fn saved_config_reads_back() {
    let c = EditableConfig {
        scan_interval_secs: 300,
        allow: names(&[" Python.exe", "node.exe", "PYTHON.EXE"]),
        allow_parent: names(&["Code.exe"]),
        deny: names(&["explorer.exe", ""]),
    };
    let text = save_text(c).unwrap();
    let config = parse(&text);
    assert_eq!(config.scan_interval_secs, 300);
    assert_eq!(sorted(&config.rule.allow_name), names(&["node.exe", "python.exe"]));
    assert_eq!(sorted(&config.rule.allow_parent), names(&["code.exe"]));
    assert_eq!(sorted(&config.rule.deny_name), names(&["explorer.exe"]));
}

#[test]
fn config_reload_is_stable() {
    let text = "scan_interval_secs = 15\nallow = [\"B.exe\", \"a.exe\"]\ndeny = [\"Z.exe\"]\n";
    let first = parse(text);
    let editable = EditableConfig::from(&first);
    assert_eq!(editable.scan_interval_secs, 15);
    assert_eq!(editable.allow, names(&["a.exe", "b.exe"]));
    assert_eq!(editable.allow_parent, Vec::<String>::new());
    assert_eq!(editable.deny, names(&["z.exe"]));
    let again = parse(&format_config(&editable));
    assert_eq!(again.scan_interval_secs, first.scan_interval_secs);
    assert_eq!(sorted(&again.rule.allow_name), sorted(&first.rule.allow_name));
    assert_eq!(sorted(&again.rule.allow_parent), sorted(&first.rule.allow_parent));
    assert_eq!(sorted(&again.rule.deny_name), sorted(&first.rule.deny_name));
}

#[test]
fn round_trip_out_of_range_interval_reads_default() {
    let input = EditableConfig {
        scan_interval_secs: 0,
        allow: vec![],
        allow_parent: vec![],
        deny: vec![],
    };
    assert_eq!(parse(&format_config(&input)).scan_interval_secs, 60);
}

#[test]
fn config_error_messages() {
    assert_eq!(ConfigError::IntervalOutOfRange.message(), "扫描间隔须为 1–3600 秒");
    assert_eq!(
        ConfigError::InvalidName("a\"b".to_string()).message(),
        "无效进程名：a\"b"
    );
}

#[test]
fn name_set_operations() {
    let mut s = NameSet::new();
    assert!(s.is_empty());
    s.insert("b".to_string());
    s.insert("a".to_string());
    s.insert("b".to_string());
    assert_eq!(s.len(), 2);
    assert!(s.contains("a"));
    assert!(!s.contains("A"));
    assert_eq!(s.sorted(), names(&["a", "b"]));
    let t = s.clone();
    assert_eq!(t.sorted(), names(&["a", "b"]));
}

#[test]
fn editable_config_lists_are_sorted() {
    let config = parse("allow = [\"zeta\", \"Alpha\", \"beta\", \"\u{e9}t\u{e9}\"]");
    let e = EditableConfig::from(&config);
    assert_eq!(e.scan_interval_secs, 60);
    assert_eq!(e.allow, names(&["alpha", "beta", "zeta", "\u{e9}t\u{e9}"]));
}

#[test]
fn dashboard_save_keeps_config() {
    let text = "scan_interval_secs = 90\nallow = [\"Zed.exe\", \"alpha.exe\"]\nallow_parent = [\"Code.exe\"]\ndeny = [\"svchost.exe\"]\n";
    let loaded = parse(text);
    let shown = EditableConfig::from(&loaded);
    let saved = save_text(shown).unwrap();
    let reloaded = parse(&saved);
    assert_eq!(reloaded.scan_interval_secs, loaded.scan_interval_secs);
    assert_eq!(sorted(&reloaded.rule.allow_name), sorted(&loaded.rule.allow_name));
    assert_eq!(sorted(&reloaded.rule.allow_parent), sorted(&loaded.rule.allow_parent));
    assert_eq!(sorted(&reloaded.rule.deny_name), sorted(&loaded.rule.deny_name));
}

#[test]
fn saving_trims_names_read_with_spaces() {
    let loaded = parse("allow = [\" a.exe \", \"\"]");
    assert_eq!(sorted(&loaded.rule.allow_name), names(&["", " a.exe "]));
    let reloaded = parse(&save_text(EditableConfig::from(&loaded)).unwrap());
    assert_eq!(sorted(&reloaded.rule.allow_name), names(&["a.exe"]));
}

#[test]
fn comment_sign_in_name_does_not_survive() {
    let input = EditableConfig {
        scan_interval_secs: 10,
        allow: names(&["a#b"]),
        allow_parent: vec![],
        deny: vec![],
    };
    let config = parse(&format_config(&input));
    assert_eq!(config.rule.allow_name.len(), 0);
}

#[test]
fn reload_keeps_current_config_when_reading_fails() {
    let current = parse("scan_interval_secs = 5\nallow = [\"a.exe\"]");
    let kept = ecooff::rule::reloaded(current, None);
    assert_eq!(kept.scan_interval_secs, 5);
    assert!(kept.rule.allow_name.contains("a.exe"));
    let fresh = ecooff::rule::reloaded(kept, Some(parse("scan_interval_secs = 7")));
    assert_eq!(fresh.scan_interval_secs, 7);
    assert!(fresh.rule.allow_name.is_empty());
}
