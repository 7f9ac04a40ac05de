use zj_hooks::config::{hook_name_of, parse_config, Config, ConfigError, RawConfig};
use zj_hooks::dispatcher::Dispatcher;
use zj_hooks::event::{map_event, Event, EventKind, SessionEntry, TabEntry};
use zj_hooks::hook::{push_decimal, replace_based_on_event, Hook};
use zj_hooks::text::{lex_less, str_eq};
use zj_hooks::tokenizer::commandline_parser;

fn raw(entries: &[(&str, &str)]) -> RawConfig {
    let mut r = RawConfig::new();
    for (k, v) in entries {
        r.insert(k.to_string(), v.to_string());
    }
    r
}

fn strings(v: &[&str]) -> Vec<String> {
    v.iter().map(|s| s.to_string()).collect()
}

#[test]
pub fn test_commandline_parser() {
    let input = "pwd";
    let result = commandline_parser(input);
    let expected = Vec::from(["pwd"]);
    assert_eq!(result, expected);

    let input = "bash -c \"pwd | base64 -c \\\"bla\\\"\"";
    let result = commandline_parser(input);
    let expected = Vec::from(["bash", "-c", "pwd | base64 -c \\\"bla\\\""]);
    assert_eq!(result, expected);

    let input = "bash -c \"pwd | base64 -c 'bla' | xxd\"";
    let result = commandline_parser(input);
    let expected = Vec::from(["bash", "-c", "pwd | base64 -c 'bla' | xxd"]);
    assert_eq!(result, expected);
}

#[test]
fn unterminated_group_is_flushed() {
    assert_eq!(commandline_parser("echo \"abc def"), strings(&["echo", "abc def"]));
    assert_eq!(commandline_parser("echo 'x"), strings(&["echo", "x"]));
}

#[test]
fn escape_outside_group_drops_backslash() {
    assert_eq!(commandline_parser("a\\ b"), strings(&["a b"]));
    assert_eq!(commandline_parser("\\\"x"), strings(&["\"x"]));
}

#[test]
fn escape_inside_group_keeps_backslash() {
    assert_eq!(commandline_parser("'a\\'b'"), strings(&["a\\'b"]));
}

#[test]
fn empty_and_spaced_input() {
    assert_eq!(commandline_parser(""), Vec::<String>::new());
    assert_eq!(commandline_parser("a  b"), strings(&["a", "", "b"]));
    assert_eq!(commandline_parser("'' x"), strings(&["", "", "x"]));
}

#[test]
fn string_helpers() {
    assert!(lex_less("abc", "abd"));
    assert!(lex_less("ab", "abc"));
    assert!(!lex_less("abc", "abc"));
    assert!(!lex_less("b", "abc"));
    assert!(str_eq("tab", "tab"));
    assert!(!str_eq("tab", "tabs"));
}

#[test]
fn event_vocabulary() {
    assert_eq!(map_event("session"), Some(EventKind::Session));
    assert_eq!(map_event("mode"), Some(EventKind::Mode));
    assert_eq!(map_event("pane"), Some(EventKind::Pane));
    assert_eq!(map_event("tab"), Some(EventKind::Tab));
    assert_eq!(map_event("bogus"), None);
    assert_eq!(map_event("Tab"), None);
}

#[test]
fn hook_names_from_keys() {
    assert_eq!(hook_name_of("hook_foo_command"), "foo");
    assert_eq!(hook_name_of("hook_foo_event"), "foo");
    assert_eq!(hook_name_of("hook_a_b_command"), "a_b");
    assert_eq!(hook_name_of("hook_foo_"), "foo_");
    assert_eq!(hook_name_of("hook_x"), "hook");
}

#[test]
fn raw_config_insert_and_get() {
    let mut r = raw(&[("b", "1"), ("a", "2")]);
    assert_eq!(r.get("a"), Some(&"2".to_string()));
    r.insert("a".to_string(), "3".to_string());
    assert_eq!(r.get("a"), Some(&"3".to_string()));
    assert_eq!(r.get("b"), Some(&"1".to_string()));
    assert_eq!(r.get("c"), None);
}

#[test]
fn parses_single_session_hook() {
    let c = Config::new(raw(&[("hook_foo_command", "echo hi"), ("hook_foo_event", "session")]))
        .unwrap();
    assert_eq!(c.hooks().len(), 1);
    assert_eq!(c.names(), &strings(&["foo"]));
    assert_eq!(c.hooks()[0].event_kind(), EventKind::Session);
    assert_eq!(c.hooks()[0].command(), &strings(&["echo", "hi"]));
}

#[test]
fn session_hook_renders_session_name() {
    let c = Config::new(raw(&[
        ("hook_foo_command", "echo {{session_name}}"),
        ("hook_foo_event", "session"),
    ]))
    .unwrap();
    let event = Event::SessionUpdate(vec![
        SessionEntry { name: "other".to_string(), is_current_session: false },
        SessionEntry { name: "main".to_string(), is_current_session: true },
    ]);
    assert_eq!(c.process_hooks(event), vec![strings(&["echo", "main"])]);
}

#[test]
fn missing_event_is_reported() {
    let r = parse_config(&raw(&[("hook_foo_command", "echo hi")]));
    match r {
        Err(ConfigError::MissingArgument { argument_name }) => {
            assert_eq!(argument_name, "hook_foo_event")
        }
        _ => panic!("expected a missing argument"),
    }
}

#[test]
fn missing_command_is_reported() {
    let r = parse_config(&raw(&[("hook_foo_event", "mode")]));
    match r {
        Err(ConfigError::MissingArgument { argument_name }) => {
            assert_eq!(argument_name, "hook_foo_command")
        }
        _ => panic!("expected a missing argument"),
    }
}

#[test]
fn unknown_event_is_reported() {
    let r = parse_config(&raw(&[("hook_foo_command", "echo hi"), ("hook_foo_event", "bogus")]));
    match r {
        Err(ConfigError::UnknownEvent { event_name }) => assert_eq!(event_name, "bogus"),
        _ => panic!("expected an unknown event"),
    }
}

#[test]
fn first_failing_key_decides_the_error() {
    let r = parse_config(&raw(&[
        ("hook_b_command", "x"),
        ("hook_b_event", "bogus"),
        ("hook_a_command", "y"),
    ]));
    match r {
        Err(ConfigError::MissingArgument { argument_name }) => {
            assert_eq!(argument_name, "hook_a_event")
        }
        _ => panic!("expected a missing argument"),
    }
}

#[test]
fn other_keys_are_ignored_and_names_sorted() {
    let c = Config::new(raw(&[
        ("hook_b_command", "run b"),
        ("hook_b_event", "tab"),
        ("unrelated", "value"),
        ("hook_a_b_command", "run ab"),
        ("hook_a_b_event", "pane"),
        ("hook_a_command", "run a"),
        ("hook_a_event", "mode"),
    ]))
    .unwrap();
    assert_eq!(c.names(), &strings(&["a", "a_b", "b"]));
    assert_eq!(c.hooks()[0].event_kind(), EventKind::Mode);
    assert_eq!(c.hooks()[1].event_kind(), EventKind::Pane);
    assert_eq!(c.hooks()[2].command(), &strings(&["run", "b"]));
}

#[test]
fn empty_configuration_has_no_hooks() {
    let c = Config::new(RawConfig::new()).unwrap();
    assert!(c.hooks().is_empty());
    assert!(Config::default().hooks().is_empty());
}

#[test]
fn tab_hook_never_runs_on_mode_event() {
    let h = Hook::new(EventKind::Tab, "echo {{active_tab_name}}");
    assert_eq!(h.run_if_needed(&Event::ModeUpdate("Locked".to_string())), None);
    assert!(!h.is_event(&Event::ModeUpdate("Normal".to_string())));
    assert!(!h.is_event(&Event::Other));
    assert!(h.is_event(&Event::TabUpdate(vec![])));
}

#[test]
fn parsing_twice_gives_equal_hooks() {
    let r = raw(&[
        ("hook_x_command", "notify-send 'a b'"),
        ("hook_x_event", "tab"),
        ("hook_y_command", "ls"),
        ("hook_y_event", "pane"),
    ]);
    let c1 = parse_config(&r).unwrap();
    let c2 = parse_config(&r).unwrap();
    assert_eq!(c1.names(), c2.names());
    assert_eq!(c1.hooks().len(), c2.hooks().len());
    for i in 0..c1.hooks().len() {
        assert_eq!(c1.hooks()[i].event_kind(), c2.hooks()[i].event_kind());
        assert_eq!(c1.hooks()[i].command(), c2.hooks()[i].command());
    }
}

#[test]
fn end_to_end_mode_hook() {
    let c = Config::new(raw(&[
        ("hook_a_command", "notify-send {{mode}}"),
        ("hook_a_event", "mode"),
    ]))
    .unwrap();
    let out = c.process_hooks(Event::ModeUpdate("Locked".to_string()));
    assert_eq!(out, vec![strings(&["notify-send", "Locked"])]);
    assert!(c.process_hooks(Event::PaneUpdate).is_empty());
}

#[test]
fn all_matching_hooks_run_in_order() {
    let c = Config::new(raw(&[
        ("hook_b_command", "second {{mode}}"),
        ("hook_b_event", "mode"),
        ("hook_a_command", "first"),
        ("hook_a_event", "mode"),
        ("hook_c_command", "never"),
        ("hook_c_event", "tab"),
    ]))
    .unwrap();
    let out = c.process_hooks(Event::ModeUpdate("Normal".to_string()));
    assert_eq!(out, vec![strings(&["first"]), strings(&["second", "Normal"])]);
}

#[test]
fn tab_placeholders_are_rendered() {
    let event = Event::TabUpdate(vec![
        TabEntry { position: 0, name: "a".to_string(), active: false },
        TabEntry { position: 12, name: "code".to_string(), active: true },
    ]);
    let out = replace_based_on_event(
        &event,
        strings(&["tab-{{active_tab_position}}", "{{active_tab_name}}:{{active_tab_name}}"]),
    );
    assert_eq!(out, strings(&["tab-12", "code:code"]));
}

#[test]
fn missing_payload_leaves_tokens() {
    let tokens = strings(&["{{active_tab_name}}", "{{session_name}}"]);
    let out = replace_based_on_event(&Event::TabUpdate(vec![]), tokens.clone());
    assert_eq!(out, tokens);
    let sessions = vec![SessionEntry { name: "s".to_string(), is_current_session: false }];
    let out = replace_based_on_event(&Event::SessionUpdate(sessions), tokens.clone());
    assert_eq!(out, tokens);
}

#[test]
fn placeholders_of_other_kinds_stay() {
    let out = replace_based_on_event(
        &Event::ModeUpdate("Locked".to_string()),
        strings(&["{{session_name}}", "{{mode}}{{mode}}", "{mode}"]),
    );
    assert_eq!(out, strings(&["{{session_name}}", "LockedLocked", "{mode}"]));
    let out = replace_based_on_event(&Event::PaneUpdate, strings(&["{{mode}}"]));
    assert_eq!(out, strings(&["{{mode}}"]));
}

#[test]
fn decimal_digits() {
    let mut s = String::from("p");
    push_decimal(0, &mut s);
    push_decimal(907, &mut s);
    assert_eq!(s, "p0907");
}

#[test]
fn retained_error_suppresses_all_hooks() {
    let d = Dispatcher::load(raw(&[
        ("hook_a_command", "notify-send {{mode}}"),
        ("hook_a_event", "mode"),
        ("hook_b_command", "x"),
    ]));
    match &d.error {
        Some(ConfigError::MissingArgument { argument_name }) => {
            assert_eq!(argument_name, "hook_b_event")
        }
        _ => panic!("expected a missing argument"),
    }
    assert!(d.config.hooks().is_empty());
    assert!(d.process(Event::ModeUpdate("Locked".to_string())).is_empty());
}

#[test]
fn dispatcher_runs_matching_hooks() {
    let d = Dispatcher::load(raw(&[
        ("hook_a_command", "notify-send {{mode}}"),
        ("hook_a_event", "mode"),
    ]));
    assert!(d.error.is_none());
    assert_eq!(
        d.process(Event::ModeUpdate("Locked".to_string())),
        vec![strings(&["notify-send", "Locked"])]
    );
    assert!(Dispatcher::default().process(Event::ModeUpdate("Locked".to_string())).is_empty());
}

#[test]
fn empty_command_is_reported_missing() {
    let r = parse_config(&raw(&[("hook_x_command", ""), ("hook_x_event", "tab")]));
    match r {
        Err(ConfigError::MissingArgument { argument_name }) => {
            assert_eq!(argument_name, "hook_x_command")
        }
        _ => panic!("expected a missing argument"),
    }
    let c = Config::new(raw(&[("hook_x_command", "''"), ("hook_x_event", "tab")])).unwrap();
    assert_eq!(c.hooks()[0].command(), &strings(&[""]));
}
