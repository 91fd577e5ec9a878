use vexc_core::registry::Registry;
use vexc_core::session::{
    check_payload, diagnostic_line, parse_session_id, resolve_shell, spawn_args_for_lowercase, terminal_spawn_args, validate_server_command, validate_terminal_size,
    ProtocolSession, SessionError, SessionStatus, TerminalReader, TerminalSession,
};

#[test]
fn write_after_close_fails_without_effect() {
    let mut session = TerminalSession::new(1, String::from("bash"), String::from("/tmp"));
    assert_eq!(session.check_write("ls\n"), Ok(true));
    assert_eq!(session.check_write(""), Ok(false));
    session.mark_closed();
    assert_eq!(session.check_write("ls\n"), Err(SessionError::NotRunning));
    assert_eq!(session.status, SessionStatus::Closed);

    let mut registry: Registry<TerminalSession> = Registry::new();
    let id = registry.next_id().expect("an id");
    assert!(registry.insert(id, TerminalSession::new(id, String::from("sh"), String::from("/"))));
    assert!(registry.remove(id).is_some());
    assert!(registry.get(id).is_none());
}

#[test]
fn zero_sized_resize_fails_and_keeps_geometry() {
    let mut session = TerminalSession::new(3, String::from("bash"), String::from("/tmp"));
    assert_eq!(session.apply_resize(0, 40), Err(SessionError::InvalidSize));
    assert_eq!(session.apply_resize(100, 0), Err(SessionError::InvalidSize));
    assert_eq!((session.cols, session.rows), (120, 30));
    assert_eq!(session.apply_resize(100, 40), Ok(()));
    assert_eq!((session.cols, session.rows), (100, 40));
    assert_eq!(validate_terminal_size(0, 1), Err(SessionError::InvalidSize));
    assert_eq!(validate_terminal_size(1, 1), Ok(()));
}

#[test]
fn closing_an_unknown_or_removed_id_is_a_no_op() {
    let mut registry: Registry<u32> = Registry::new();
    assert!(registry.remove(7).is_none());
    let id = registry.next_id().expect("an id");
    assert!(registry.insert(id, 10));
    assert_eq!(registry.remove(id), Some(10));
    assert_eq!(registry.remove(id), None);
    assert!(registry.ids().is_empty());
}

#[test]
fn only_one_of_two_removals_gets_the_session() {
    let mut registry: Registry<&str> = Registry::new();
    let a = registry.next_id().expect("an id");
    let b = registry.next_id().expect("an id");
    assert!(registry.insert(b, "second"));
    assert!(registry.insert(a, "first"));
    assert!(!registry.insert(a, "again"));
    assert_eq!(registry.ids(), vec![a, b]);
    let first = registry.remove(a);
    let second = registry.remove(a);
    assert_eq!([first, second].iter().filter(|r| r.is_some()).count(), 1);
    assert_eq!(registry.ids(), vec![b]);
    assert_eq!(registry.get(b), Some(&"second"));
}

#[test]
fn ids_are_never_reused() {
    let mut registry: Registry<()> = Registry::new();
    let a = registry.next_id().unwrap();
    registry.insert(a, ());
    registry.remove(a);
    let b = registry.next_id().unwrap();
    assert!(b > a);
}

#[test]
fn terminal_state_changes() {
    let mut session = TerminalSession::new(12, String::from("bash"), String::from("/home"));
    assert_eq!(session.title, "Terminal 12");
    assert_eq!(session.id_text(), "terminal-12");
    session.append_output("hello");
    assert_eq!(session.snapshot().buffer, "hello");
    session.clear();
    assert_eq!(session.buffer, "");
    session.mark_disconnected();
    assert_eq!(session.info().status, "disconnected");
    session.mark_closed();
    session.mark_disconnected();
    assert_eq!(session.status, SessionStatus::Closed);
    assert_eq!(session.status.label(), "closed");
}

#[test]
fn protocol_sends_are_framed_or_refused() {
    let mut session = ProtocolSession::new(2, String::from("rls"), String::from("/src"));
    assert_eq!(session.id_text(), "lsp-2");
    assert_eq!(session.check_send("  \n"), Err(SessionError::EmptyPayload));
    assert_eq!(
        session.check_send("{}"),
        Ok(b"Content-Length: 2\r\n\r\n{}".to_vec())
    );
    session.mark_disconnected();
    assert_eq!(session.check_send("{}"), Err(SessionError::NotRunning));
    assert_eq!(session.info().status, "disconnected");
}

#[test]
fn commands_and_shells_are_resolved() {
    assert_eq!(validate_server_command("   "), Err(SessionError::EmptyCommand));
    assert_eq!(validate_server_command(" rust-analyzer "), Ok(String::from("rust-analyzer")));
    assert_eq!(resolve_shell(None), "powershell.exe");
    assert_eq!(resolve_shell(Some("  ")), "powershell.exe");
    assert_eq!(resolve_shell(Some(" bash ")), "bash");
    assert_eq!(
        terminal_spawn_args("C:\\Windows\\PowerShell.EXE"),
        vec!["-NoLogo", "-NoProfile", "-ExecutionPolicy", "Bypass"]
    );
    assert_eq!(terminal_spawn_args("PWSH").len(), 4);
    assert!(terminal_spawn_args("bash").is_empty());
}

#[test]
fn missing_sessions_are_not_found() {
    let mut registry: Registry<u8> = Registry::new();
    assert_eq!(registry.require(1), Err(SessionError::NotFound));
    let id = registry.next_id().unwrap();
    registry.insert(id, 9);
    assert_eq!(registry.require(id), Ok(&9));
}

#[test]
fn session_ids_read_back() {
    assert_eq!(parse_session_id("terminal-", "terminal-42"), Some(42));
    assert_eq!(parse_session_id("terminal-", "terminal-042"), None);
    assert_eq!(parse_session_id("terminal-", "terminal-+4"), None);
    assert_eq!(parse_session_id("terminal-", "terminal-"), None);
    assert_eq!(parse_session_id("terminal-", "lsp-1"), None);
    assert_eq!(parse_session_id("lsp-", "lsp-18446744073709551615"), Some(u64::MAX));
    assert_eq!(parse_session_id("lsp-", "lsp-18446744073709551616"), None);
}

#[test]
fn payloads_and_diagnostics_are_checked() {
    assert_eq!(check_payload(" \t\n"), Err(SessionError::EmptyPayload));
    assert_eq!(check_payload(" x "), Ok(()));
    assert_eq!(diagnostic_line("  warning: x \n"), Some(String::from("warning: x")));
    assert_eq!(diagnostic_line(" \r\n"), None);
}

#[test]
fn terminal_reader_announces_only_settled_text() {
    let mut reader = TerminalReader::new();
    let bytes = "a😀".as_bytes();
    assert_eq!(reader.on_read(&bytes[..2]), Some(String::from("a")));
    assert_eq!(reader.on_read(&bytes[2..4]), None);
    assert_eq!(reader.pending.len(), 3);
    assert_eq!(reader.on_read(&bytes[4..]), Some(String::from("😀")));
    assert_eq!(reader.on_end(), None);
    assert_eq!(reader.on_read(&[0xe2, 0x82]), None);
    assert_eq!(reader.on_end(), Some(String::from("\u{fffd}")));
    assert!(reader.pending.is_empty());
}

#[test]
fn spawn_arguments_follow_the_lowercase_name() {
    assert_eq!(spawn_args_for_lowercase("/usr/bin/pwsh").len(), 4);
    assert_eq!(spawn_args_for_lowercase("powershell.exe")[0], "-NoLogo");
    assert!(spawn_args_for_lowercase("PowerShell.exe").is_empty());
    assert!(spawn_args_for_lowercase("zsh").is_empty());
}
