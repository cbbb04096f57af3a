use cline::{Cli, CountingExec, NoComplete, RegisterError, StaticComplete};

fn path(parts: &[&str]) -> Vec<String> {
    parts.iter().map(|p| p.to_string()).collect()
}

fn strings(parts: &[&str]) -> Vec<String> {
    parts.iter().map(|p| p.to_string()).collect()
}

#[test]
fn test_register_and_execute() {
    let mut cli: Cli<CountingExec, NoComplete> = Cli::new();
    cli.register(path(&["foo", "bar"]), CountingExec::new()).ok();
    cli.exec("foo bar");
    let h = cli.handler_at(&path(&["foo", "bar"])).expect("handler must be attached");
    assert!(h.exec_cb.calls == 1);
}

#[test]
fn test_register_and_execute_multiple_times() {
    let mut cli: Cli<CountingExec, NoComplete> = Cli::new();
    cli.register(path(&["foo", "bar"]), CountingExec::new()).ok();
    cli.exec("foo bar");
    cli.exec("foo bar");
    let h = cli.handler_at(&path(&["foo", "bar"])).expect("handler must be attached");
    assert!(h.exec_cb.calls == 2);
}

#[test]
fn test_complete_empty_single_cmd() {
    let mut cli: Cli<CountingExec, NoComplete> = Cli::new();
    cli.register(path(&["foo"]), CountingExec::new()).ok();
    assert!(strings(&["foo"]) == cli.complete(""));
    assert!(strings(&["foo"]) == cli.complete("f"));
    assert!(strings(&["foo"]) == cli.complete("  f"));
    assert!(cli.complete("foo").is_empty());
}

#[test]
fn test_complete_with_dynamic() {
    let mut cli: Cli<CountingExec, StaticComplete> = Cli::new();
    cli.register_dyn_complete(
        path(&["foo"]),
        CountingExec::new(),
        StaticComplete::new(strings(&["bar", "baz"])),
    )
    .ok();
    assert!(strings(&["foo"]) == cli.complete("f"));
    assert!(strings(&["bar", "baz"]) == cli.complete("foo a b"));
}

#[test]
fn test_complete_multi_cmd() {
    let mut cli: Cli<CountingExec, NoComplete> = Cli::new();
    cli.register(path(&["foo", "bar"]), CountingExec::new()).ok();
    assert!(strings(&["foo"]) == cli.complete("f"));
    assert!(strings(&["bar"]) == cli.complete("foo"));
    assert!(strings(&["bar"]) == cli.complete("foo b"));
}

#[test]
fn test_register_and_execute_with_arguments() {
    let mut cli: Cli<CountingExec, NoComplete> = Cli::new();
    cli.register(path(&["foo"]), CountingExec::new()).ok();
    cli.exec("foo bar baz");
    let h = cli.handler_at(&path(&["foo"])).expect("handler must be attached");
    assert!(h.exec_cb.calls == 1);
    assert!(h.exec_cb.last_args == strings(&["foo", "bar", "baz"]));
}

#[test]
fn empty_path_is_rejected() {
    let mut cli: Cli<CountingExec, StaticComplete> = Cli::new();
    let r = cli.register(Vec::new(), CountingExec::new());
    assert!(r == Err(RegisterError::EmptyPath));
    // the failure installs nothing: no fallback handler answers an unmatched
    // line, and nothing is offered for completion
    assert!(cli.complete("").is_empty());
    let empty: Vec<String> = Vec::new();
    assert!(cli.handler_at(&empty).is_none());
    let r2 = cli.register_dyn_complete(
        Vec::new(),
        CountingExec::new(),
        StaticComplete::new(strings(&["x"])),
    );
    assert!(r2 == Err(RegisterError::EmptyPath));
}

#[test]
fn sibling_commands_complete_as_a_set() {
    let mut cli: Cli<CountingExec, NoComplete> = Cli::new();
    cli.register(path(&["foo", "bar"]), CountingExec::new()).ok();
    cli.register(path(&["foo", "baz"]), CountingExec::new()).ok();
    let mut after_foo = cli.complete("foo");
    after_foo.sort();
    assert!(after_foo == strings(&["bar", "baz"]));
    assert!(strings(&["foo"]) == cli.complete("f"));
}

#[test]
fn dynamic_completion_on_exact_match_uses_callback_alone() {
    let mut cli: Cli<CountingExec, StaticComplete> = Cli::new();
    cli.register_dyn_complete(
        path(&["foo"]),
        CountingExec::new(),
        StaticComplete::new(strings(&["bar", "baz"])),
    )
    .ok();
    // a literal child exists below "foo", but the exact match asks the
    // callback alone
    cli.register(path(&["foo", "child"]), CountingExec::new()).ok();
    assert!(strings(&["bar", "baz"]) == cli.complete("foo"));
    // the callback saw the empty-string sentinel, meaning "nothing further
    // typed"
    let h = cli.handler_at(&path(&["foo"])).expect("handler must be attached");
    let cb = h.complete_cb.as_ref().expect("dynamic callback must be attached");
    assert!(cb.calls == 1);
    assert!(cb.last_args == strings(&[""]));
}

#[test]
fn dynamic_completion_receives_unmatched_and_remaining_tokens() {
    let mut cli: Cli<CountingExec, StaticComplete> = Cli::new();
    cli.register_dyn_complete(
        path(&["foo"]),
        CountingExec::new(),
        StaticComplete::new(strings(&["s1"])),
    )
    .ok();
    let out = cli.complete("foo a b");
    assert!(out == strings(&["s1"]));
    let h = cli.handler_at(&path(&["foo"])).expect("handler must be attached");
    let cb = h.complete_cb.as_ref().expect("dynamic callback must be attached");
    assert!(cb.last_args == strings(&["a", "b"]));
}

#[test]
fn full_line_is_passed_when_descent_stops_midway() {
    let mut cli: Cli<CountingExec, NoComplete> = Cli::new();
    cli.register(path(&["foo"]), CountingExec::new()).ok();
    cli.register(path(&["foo", "bar"]), CountingExec::new()).ok();
    cli.exec("foo baz");
    let h = cli.handler_at(&path(&["foo"])).expect("handler must be attached");
    assert!(h.exec_cb.calls == 1);
    assert!(h.exec_cb.last_args == strings(&["foo", "baz"]));
    let deep = cli.handler_at(&path(&["foo", "bar"])).expect("handler must be attached");
    assert!(deep.exec_cb.calls == 0);
}

#[test]
fn prefix_and_longer_path_coexist() {
    let mut cli: Cli<CountingExec, NoComplete> = Cli::new();
    cli.register(path(&["foo", "bar"]), CountingExec::new()).ok();
    cli.register(path(&["foo"]), CountingExec::new()).ok();
    cli.exec("foo bar");
    cli.exec("foo");
    let deep = cli.handler_at(&path(&["foo", "bar"])).expect("handler must be attached");
    assert!(deep.exec_cb.calls == 1);
    assert!(deep.exec_cb.last_args == strings(&["foo", "bar"]));
    let shallow = cli.handler_at(&path(&["foo"])).expect("handler must be attached");
    assert!(shallow.exec_cb.calls == 1);
    assert!(shallow.exec_cb.last_args == strings(&["foo"]));
}

#[test]
fn reregistering_replaces_the_handler() {
    let mut cli: Cli<CountingExec, NoComplete> = Cli::new();
    cli.register(path(&["foo"]), CountingExec::new()).ok();
    cli.exec("foo");
    cli.register(path(&["foo"]), CountingExec::new()).ok();
    let h = cli.handler_at(&path(&["foo"])).expect("handler must be attached");
    assert!(h.exec_cb.calls == 0);
    cli.exec("foo");
    let h = cli.handler_at(&path(&["foo"])).expect("handler must be attached");
    assert!(h.exec_cb.calls == 1);
}

#[test]
fn unmatched_exec_is_a_silent_no_op() {
    let mut cli: Cli<CountingExec, NoComplete> = Cli::new();
    cli.register(path(&["foo"]), CountingExec::new()).ok();
    cli.exec("bar");
    cli.exec("");
    let h = cli.handler_at(&path(&["foo"])).expect("handler must be attached");
    assert!(h.exec_cb.calls == 0);
}

#[test]
fn whitespace_is_collapsed_and_trimmed() {
    let mut cli: Cli<CountingExec, NoComplete> = Cli::new();
    cli.register(path(&["foo", "bar"]), CountingExec::new()).ok();
    cli.exec("   foo \t bar  ");
    let h = cli.handler_at(&path(&["foo", "bar"])).expect("handler must be attached");
    assert!(h.exec_cb.calls == 1);
    assert!(h.exec_cb.last_args == strings(&["foo", "bar"]));
}

#[test]
fn deep_paths_complete_level_by_level() {
    let mut cli: Cli<CountingExec, NoComplete> = Cli::new();
    cli.register(path(&["a", "b", "c"]), CountingExec::new()).ok();
    assert!(strings(&["a"]) == cli.complete(""));
    assert!(strings(&["b"]) == cli.complete("a"));
    assert!(strings(&["c"]) == cli.complete("a b"));
    assert!(cli.complete("a b c").is_empty());
    cli.exec("a b c");
    let h = cli.handler_at(&path(&["a", "b", "c"])).expect("handler must be attached");
    assert!(h.exec_cb.calls == 1);
    assert!(h.exec_cb.last_args == strings(&["a", "b", "c"]));
}

#[test]
fn completion_offers_prefix_matching_children_beside_dynamic_results() {
    let mut cli: Cli<CountingExec, StaticComplete> = Cli::new();
    cli.register_dyn_complete(
        path(&["foo"]),
        CountingExec::new(),
        StaticComplete::new(strings(&["dyn1"])),
    )
    .ok();
    cli.register(path(&["foo", "bar"]), CountingExec::new()).ok();
    cli.register(path(&["foo", "qux"]), CountingExec::new()).ok();
    // "b" matches no child of "foo": dynamic results come first, then the
    // children that "b" prefixes
    let out = cli.complete("foo b");
    assert!(out == strings(&["dyn1", "bar"]));
}
