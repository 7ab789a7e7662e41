use dadophoros::rule_files::{list_all, load_dir, set_enabled, RuleFile};
use dadophoros::rules::{
    default_priority, default_true, evaluate, match_port, match_string, matches_one, Action, Duration, Match,
    MatchField, MatchOp, MatchValue, Rule,
};
use dadophoros::toml_text::{set_flag, toml_escape};

fn text(s: &str) -> MatchValue {
    MatchValue::Str(s.to_string())
}

fn clause(field: MatchField, op: MatchOp, value: MatchValue) -> Match {
    Match { field, op, value }
}

fn rule(id: &str, action: Action, matches: Vec<Match>) -> Rule {
    Rule {
        id: Some(id.to_string()),
        priority: 100,
        enabled: true,
        action,
        duration: Duration::Persistent,
        matches,
    }
}

fn file(name: &str, rule: Option<Rule>) -> RuleFile {
    RuleFile {
        name: name.as_bytes().to_vec(),
        path: format!("/r/{name}"),
        contents: String::new(),
        rule,
    }
}

#[test]
fn first_match_wins() {
    let rules = [
        rule("a", Action::Allow, vec![clause(MatchField::DestPort, MatchOp::Exact, MatchValue::Num(22))]),
        rule("b", Action::Deny, vec![clause(MatchField::DestHost, MatchOp::Suffix, text(".example.com"))]),
        rule("c", Action::Allow, vec![]),
    ];
    let v = evaluate(&rules, None, Some("x.example.com"), None, 443).unwrap();
    assert_eq!((v.action, v.rule_id.as_str()), (Action::Deny, "b"));
    let v = evaluate(&rules, None, Some("x.example.com"), None, 22).unwrap();
    assert_eq!(v.rule_id, "a");
    let v = evaluate(&rules, None, None, None, 443).unwrap();
    assert_eq!(v.rule_id, "c");
    assert!(evaluate(&rules[..2], None, None, None, 443).is_none());
    assert!(evaluate(&[], None, None, None, 1).is_none());
}

#[test]
fn clauses_are_joined_by_and() {
    let r = [rule(
        "apt",
        Action::Allow,
        vec![
            clause(MatchField::ProcessPath, MatchOp::Exact, text("/usr/bin/apt")),
            clause(MatchField::DestHost, MatchOp::Suffix, text(".ubuntu.com")),
            clause(MatchField::DestPort, MatchOp::In, MatchValue::NumList(vec![80, 443])),
        ],
    )];
    let hit = |exe, host, port| evaluate(&r, exe, host, None, port).is_some();
    assert!(hit(Some("/usr/bin/apt"), Some("archive.ubuntu.com"), 80));
    assert!(!hit(Some("/usr/bin/apt"), Some("archive.ubuntu.com"), 22));
    assert!(!hit(Some("/usr/bin/apt"), Some("ubuntu.com"), 80));
    assert!(!hit(None, Some("archive.ubuntu.com"), 80));
}

#[test]
fn texts_meet_their_operators() {
    assert!(match_string(MatchOp::Exact, &text("ab"), "ab"));
    assert!(!match_string(MatchOp::Exact, &text("ab"), "abc"));
    assert!(match_string(MatchOp::Prefix, &text("ab"), "abc"));
    assert!(!match_string(MatchOp::Prefix, &text("bc"), "abc"));
    assert!(match_string(MatchOp::Suffix, &text("bc"), "abc"));
    assert!(!match_string(MatchOp::Suffix, &text("ab"), "abc"));
    assert!(match_string(MatchOp::Contains, &text("b"), "abc"));
    assert!(!match_string(MatchOp::Contains, &text("x"), "abc"));
    let list = MatchValue::StrList(vec!["a".to_string(), "b".to_string()]);
    assert!(match_string(MatchOp::In, &list, "b"));
    assert!(!match_string(MatchOp::In, &list, "c"));
    assert!(!match_string(MatchOp::In, &text("a"), "a"));
    assert!(!match_string(MatchOp::Exact, &MatchValue::Num(1), "1"));
}

#[test]
fn ports_meet_their_operators() {
    assert!(match_port(MatchOp::Exact, &MatchValue::Num(443), 443));
    assert!(!match_port(MatchOp::Exact, &MatchValue::Num(443), 80));
    assert!(match_port(MatchOp::In, &MatchValue::NumList(vec![80, 443]), 443));
    assert!(!match_port(MatchOp::In, &MatchValue::NumList(vec![80, 443]), 22));
    assert!(!match_port(MatchOp::Prefix, &MatchValue::Num(4), 443));
    assert!(!match_port(MatchOp::Exact, &text("443"), 443));
}

#[test]
fn a_fact_that_is_not_known_is_empty() {
    let m = clause(MatchField::DestHost, MatchOp::Exact, text(""));
    assert!(matches_one(&m, None, None, None, 1));
    assert!(!matches_one(&m, None, Some("h"), None, 1));
    let m = clause(MatchField::DestIp, MatchOp::Prefix, text("10."));
    assert!(matches_one(&m, None, None, Some("10.0.0.1"), 1));
    assert!(!matches_one(&m, Some("10."), Some("10."), None, 1));
}

#[test]
fn a_rule_without_a_name_is_shown_as_unknown() {
    let mut r = rule("x", Action::Deny, vec![]);
    r.id = None;
    assert_eq!(evaluate(&[r], None, None, None, 1).unwrap().rule_id, "?");
}

#[test]
fn defaults_and_words() {
    assert!(default_true());
    assert_eq!(default_priority(), 100);
    assert_eq!(Duration::default(), Duration::Persistent);
    assert_eq!(Duration::Once.as_str(), "once");
    assert_eq!(Duration::Session.as_str(), "session");
    assert_eq!(Duration::Persistent.as_str(), "persistent");
    assert_eq!(Action::Deny.as_str(), "deny");
}

#[test]
fn rules_load_in_priority_order() {
    let ranked = |id: Option<&str>, priority: u32, enabled: bool| {
        let mut r = rule("", Action::Deny, vec![]);
        r.id = id.map(str::to_owned);
        r.priority = priority;
        r.enabled = enabled;
        Some(r)
    };
    let files = || {
        vec![
            file("late.toml", ranked(None, 200, true)),
            file("off.toml", ranked(Some("off"), 1, false)),
            file("b.toml", ranked(Some("b"), 50, true)),
            file("broken.toml", None),
            file("a.toml", ranked(Some("a"), 50, true)),
            file("notes.txt", ranked(Some("notes"), 0, true)),
            file(".toml", ranked(Some("hidden"), 0, true)),
        ]
    };
    let ids: Vec<String> = load_dir(files()).into_iter().map(|r| r.id.unwrap()).collect();
    assert_eq!(ids, vec!["b", "a", "late"]);
    let listed: Vec<String> = list_all(files()).into_iter().map(|l| l.id).collect();
    assert_eq!(listed, vec!["off", "b", "a", "late"]);
}

#[test]
fn clauses_are_summed_up() {
    let s = |m: Match| m.summary();
    assert_eq!(
        s(clause(MatchField::DestHost, MatchOp::Suffix, text(".doubleclick.net"))),
        "dest_host suffix .doubleclick.net"
    );
    assert_eq!(s(clause(MatchField::DestPort, MatchOp::Exact, MatchValue::Num(443))), "dest_port exact 443");
    assert_eq!(
        s(clause(MatchField::DestPort, MatchOp::In, MatchValue::NumList(vec![80, 443]))),
        "dest_port in [80, 443]"
    );
    assert_eq!(
        s(clause(MatchField::ProcessPath, MatchOp::In, MatchValue::StrList(vec!["a".to_string()]))),
        "process_path in [a]"
    );
}

#[test]
fn the_enabled_flag_is_set_in_place() {
    assert_eq!(set_flag("enabled = true\naction = \"deny\"\n", false), "enabled = false\naction = \"deny\"\n");
    assert_eq!(set_flag("# c\n  enabled=false # off\n", true), "# c\n  enabled=true # off\n");
    assert_eq!(set_flag("action = \"deny\"\n", false), "enabled = false\naction = \"deny\"\n");
    // Only the top table counts.
    assert_eq!(set_flag("[[match]]\nenabled = true\n", false), "enabled = false\n[[match]]\nenabled = true\n");
    let twice = set_flag(&set_flag("a = 1\n", true), false);
    assert_eq!(twice, set_flag("a = 1\n", false));
    let table = set_flag("priority = 1\naction = \"deny\"\n", false).parse::<toml::Table>().unwrap();
    assert_eq!(table["enabled"].as_bool(), Some(false));
    assert_eq!(table["priority"].as_integer(), Some(1));
}

#[test]
fn the_enabled_key_may_be_quoted() {
    assert_eq!(set_flag("\"enabled\" = false\n", true), "\"enabled\" = true\n");
    assert_eq!(set_flag("'enabled'=true", false), "'enabled'=false");
    assert_eq!(set_flag("\"\\u0065nable\\U00000064\" = true\n", false), "\"\\u0065nable\\U00000064\" = false\n");
    assert_eq!(set_flag("\"Enabled\" = true\n", false), "enabled = false\n\"Enabled\" = true\n");
    assert_eq!(set_flag("enabled_at = true\n", false), "enabled = false\nenabled_at = true\n");
}

// Sets the flag both ways; the file must read as before but for it.
fn switches(contents: &str) {
    let mut before = contents.parse::<toml::Table>().unwrap();
    before.remove("enabled");
    for enabled in [true, false] {
        let mut after = set_flag(contents, enabled).parse::<toml::Table>().unwrap();
        assert_eq!(after.remove("enabled").and_then(|v| v.as_bool()), Some(enabled));
        assert_eq!(after, before);
    }
}

#[test]
fn setting_the_flag_leaves_one_setting() {
    switches("");
    switches("\"enabled\" = false\naction = \"deny\"\n");
    switches("'enabled' = true # on\r\naction = \"deny\"\r\n");
    switches("\t\"\\U00000065nabled\"\t=\ttrue\n[t]\nenabled = false\n");
    // A line inside an array is no header.
    switches("tags = [\n  [1, 2],\n[3], # ]\n]\nenabled = true\n");
    switches("tags = [\n[\"]\"],\n['['],\n]\n\"enabled\" = false\n[[match]]\nenabled = 1\n");
    // Nor is one inside a string, and such a line sets nothing.
    switches("note = \"\"\"\n[x]\nenabled = true\n\\\"\"\"quotes\"\" \"\"\"\"\"\nenabled = false\n");
    switches("note = '''\n[x]\nenabled = true\n\\'''''\nenabled = true\n");
    switches("note = \"\"\"\nenabled = true\n\"\"\"\n");
    switches("a = \"\"\nb = ''\nc = \"#[\\\"\"\nd = '\\'\nenabled = true\n");
    switches("\"a = [\" = { b = [1], c = \"}\" }\n# it's [ \"\nenabled = false\n");
    switches("\u{feff}enabled = true\n");
    switches("\u{feff}a = 1\n");
}

#[test]
fn quoted_values_are_escaped() {
    assert_eq!(toml_escape("a\\b\"c"), "a\\\\b\\\"c");
    assert_eq!(toml_escape("plain"), "plain");
    let doc = format!("v = \"{}\"", toml_escape("x\\\"y"));
    assert_eq!(doc.parse::<toml::Table>().unwrap()["v"].as_str(), Some("x\\\"y"));
}

#[test]
fn a_rule_is_switched_by_its_effective_id() {
    let mut nameless = rule("", Action::Deny, vec![]);
    nameless.id = None;
    let mut f = file("stem.toml", Some(nameless));
    f.contents = "enabled = true\n".to_string();
    let files = [file("x.toml", Some(rule("x", Action::Deny, vec![]))), f];
    let edit = set_enabled(&files, "stem", false).unwrap();
    assert_eq!((edit.path.as_str(), edit.contents.as_str()), ("/r/stem.toml", "enabled = false\n"));
    assert_eq!(set_enabled(&files, "gone", true).unwrap_err(), "no rule with id gone");
}
