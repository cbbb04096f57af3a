use cline::{session_step, Cli, CountingExec, Direction, Key, NoComplete, StaticComplete};

fn strings(parts: &[&str]) -> Vec<String> {
    parts.iter().map(|p| p.to_string()).collect()
}

#[test]
fn printable_keys_append_and_echo() {
    let mut cli: Cli<CountingExec, NoComplete> = Cli::new();
    let mut buffer = String::new();
    let out = session_step(&mut cli, &mut buffer, Key::Char('f'));
    assert!(out.keep_running);
    assert!(out.echo == vec!['f']);
    assert!(out.suggestions.is_none());
    assert!(out.tail.is_empty());
    let out = session_step(&mut cli, &mut buffer, Key::Digit(7));
    assert!(out.echo == vec!['7']);
    let out = session_step(&mut cli, &mut buffer, Key::Symbol('!'));
    assert!(out.echo == vec!['!']);
    let out = session_step(&mut cli, &mut buffer, Key::Whitespace);
    assert!(out.echo == vec![' ']);
    assert!(buffer == "f7! ");
}

#[test]
fn erasing_keys_drop_the_last_character() {
    let mut cli: Cli<CountingExec, NoComplete> = Cli::new();
    let mut buffer = String::from("ab");
    let out = session_step(&mut cli, &mut buffer, Key::Backspace);
    assert!(buffer == "a");
    assert!(out.echo == vec![8 as char, ' ', 8 as char]);
    let out = session_step(&mut cli, &mut buffer, Key::Del);
    assert!(buffer.is_empty());
    assert!(out.echo == vec![8 as char, ' ', 8 as char]);
    // erasing an already empty line still echoes the destructive backspace
    let out = session_step(&mut cli, &mut buffer, Key::Del);
    assert!(buffer.is_empty());
    assert!(out.echo == vec![8 as char, ' ', 8 as char]);
}

#[test]
fn tab_suggests_without_touching_the_buffer() {
    let mut cli: Cli<CountingExec, NoComplete> = Cli::new();
    cli.register(strings(&["foo", "bar"]), CountingExec::new()).ok();
    let mut buffer = String::from("f");
    let out = session_step(&mut cli, &mut buffer, Key::Tab);
    assert!(out.keep_running);
    assert!(buffer == "f");
    assert!(out.echo == vec!['\n']);
    assert!(out.suggestions == Some(strings(&["foo"])));
    let tail: String = out.tail.iter().collect();
    assert!(tail == "\n>> f");
}

#[test]
fn newline_executes_and_clears_the_buffer() {
    let mut cli: Cli<CountingExec, NoComplete> = Cli::new();
    cli.register(strings(&["foo", "bar"]), CountingExec::new()).ok();
    let mut buffer = String::from("foo bar");
    let out = session_step(&mut cli, &mut buffer, Key::Newline);
    assert!(out.keep_running);
    assert!(buffer.is_empty());
    assert!(out.echo == vec!['\n']);
    let tail: String = out.tail.iter().collect();
    assert!(tail == ">> ");
    let h = cli.handler_at(&strings(&["foo", "bar"])).expect("handler must be attached");
    assert!(h.exec_cb.calls == 1);
    assert!(h.exec_cb.last_args == strings(&["foo", "bar"]));
}

#[test]
fn ctrl_c_ends_the_session() {
    let mut cli: Cli<CountingExec, NoComplete> = Cli::new();
    let mut buffer = String::from("typed");
    let out = session_step(&mut cli, &mut buffer, Key::Etx);
    assert!(!out.keep_running);
    assert!(out.echo == vec!['\n']);
    assert!(buffer == "typed");
}

#[test]
fn arrow_keys_do_nothing() {
    let mut cli: Cli<CountingExec, NoComplete> = Cli::new();
    let mut buffer = String::from("abc");
    let out = session_step(&mut cli, &mut buffer, Key::Arrow(Direction::Up));
    assert!(out.keep_running);
    assert!(out.echo.is_empty());
    assert!(out.tail.is_empty());
    assert!(buffer == "abc");
}

#[test]
fn tab_with_dynamic_suggestions() {
    let mut cli: Cli<CountingExec, StaticComplete> = Cli::new();
    cli.register_dyn_complete(
        strings(&["session"]),
        CountingExec::new(),
        StaticComplete::new(strings(&["s1", "s2"])),
    )
    .ok();
    let mut buffer = String::from("session");
    let out = session_step(&mut cli, &mut buffer, Key::Tab);
    assert!(out.suggestions == Some(strings(&["s1", "s2"])));
}
