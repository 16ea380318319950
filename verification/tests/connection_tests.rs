use ide_server::connection::{respond, Action, Connection, ConnectionError};
use ide_server::protocol::{Command, Outgoing, Reply, TerminalCreated};
use ide_server::terminal::Base64Error;

fn create(c: &mut Connection<String>) -> u64 {
    match c.dispatch(Command::TerminalCreate { cols: 80, rows: 24 }) {
        Action::SpawnTerminal { terminal_id, cols, rows } => {
            assert_eq!((cols, rows), (80, 24));
            terminal_id
        }
        _ => panic!("expected a spawn"),
    }
}

#[test]
fn terminal_ids_start_at_one_and_are_never_reused() {
    let mut c: Connection<String> = Connection::new();
    assert_eq!(c.next_terminal_id(), 1);
    let first = create(&mut c);
    assert_eq!(first, 1);
    c.add_terminal(first, "shell one".to_string());
    let second = create(&mut c);
    assert_eq!(second, 2);
    c.add_terminal(second, "shell two".to_string());
    match c.dispatch(Command::TerminalClose { terminal_id: first }) {
        Action::Closed { session } => assert_eq!(session, "shell one"),
        _ => panic!("expected close"),
    }
    let third = create(&mut c);
    assert_eq!(third, 3);
}

#[test]
fn failed_spawn_still_consumes_the_id() {
    let mut c: Connection<String> = Connection::new();
    let first = create(&mut c);
    assert_eq!(first, 1);
    assert!(!c.has_terminal(1));
    assert_eq!(create(&mut c), 2);
}

#[test]
fn input_to_a_live_terminal_is_decoded() {
    let mut c: Connection<String> = Connection::new();
    let id = create(&mut c);
    c.add_terminal(id, "s".to_string());
    match c.dispatch(Command::TerminalInput { terminal_id: id, data: "aGk=".to_string() }) {
        Action::WriteTerminal { terminal_id, bytes } => {
            assert_eq!(terminal_id, id);
            assert_eq!(bytes, b"hi".to_vec());
        }
        _ => panic!("expected a write"),
    }
}

#[test]
fn input_that_is_not_base64_fails_with_its_message() {
    let mut c: Connection<String> = Connection::new();
    let id = create(&mut c);
    c.add_terminal(id, "s".to_string());
    match c.dispatch(Command::TerminalInput { terminal_id: id, data: "!!!!".to_string() }) {
        Action::Fail(e) => {
            assert_eq!(e, ConnectionError::InputDecode(Base64Error::InvalidByte(0, 33)));
            assert_eq!(e.message(), "decoding terminal input: Invalid symbol 33, offset 0.");
        }
        _ => panic!("expected a failure"),
    }
}

#[test]
fn requests_on_unknown_terminals_fail() {
    let mut c: Connection<String> = Connection::new();
    for command in [
        Command::TerminalInput { terminal_id: 5, data: "aGk=".to_string() },
        Command::TerminalResize { terminal_id: 5, cols: 1, rows: 1 },
        Command::TerminalClose { terminal_id: 5 },
    ] {
        match c.dispatch(command) {
            Action::Fail(e) => {
                assert_eq!(e, ConnectionError::UnknownTerminal(5));
                assert_eq!(e.message(), "unknown terminal 5");
            }
            _ => panic!("expected a failure"),
        }
    }
    assert!(c.terminal(5).is_err());
}

#[test]
fn closed_terminal_is_unknown_afterwards() {
    let mut c: Connection<String> = Connection::new();
    let id = create(&mut c);
    c.add_terminal(id, "s".to_string());
    assert!(matches!(c.dispatch(Command::TerminalClose { terminal_id: id }), Action::Closed { .. }));
    assert!(matches!(
        c.dispatch(Command::TerminalResize { terminal_id: id, cols: 2, rows: 2 }),
        Action::Fail(ConnectionError::UnknownTerminal(1))
    ));
}

#[test]
fn resize_and_workspace_requests_pass_through() {
    let mut c: Connection<String> = Connection::new();
    let id = create(&mut c);
    c.add_terminal(id, "s".to_string());
    assert!(matches!(
        c.dispatch(Command::TerminalResize { terminal_id: id, cols: 100, rows: 40 }),
        Action::ResizeTerminal { terminal_id: 1, cols: 100, rows: 40 }
    ));
    assert!(matches!(c.dispatch(Command::WorkspaceInfo), Action::WorkspaceInfo));
    match c.dispatch(Command::WorktreeEntries { path: "src".to_string() }) {
        Action::WorktreeEntries { path } => assert_eq!(path, "src"),
        _ => panic!(),
    }
    match c.dispatch(Command::BufferRead { path: "a.rs".to_string() }) {
        Action::ReadBuffer { path } => assert_eq!(path, "a.rs"),
        _ => panic!(),
    }
}

#[test]
fn terminal_gives_a_mutable_session() {
    let mut c: Connection<String> = Connection::new();
    let id = create(&mut c);
    c.add_terminal(id, "s".to_string());
    c.terminal(id).unwrap().push('!');
    match c.dispatch(Command::TerminalClose { terminal_id: id }) {
        Action::Closed { session } => assert_eq!(session, "s!"),
        _ => panic!(),
    }
}

#[test]
fn responses_echo_the_request_id() {
    assert_eq!(respond(7, Ok(Reply::Null)), Outgoing::Response { id: 7, ok: Reply::Null });
    assert_eq!(
        respond(8, Ok(Reply::TerminalCreated(TerminalCreated { terminal_id: 2 }))),
        Outgoing::Response { id: 8, ok: Reply::TerminalCreated(TerminalCreated { terminal_id: 2 }) }
    );
    assert_eq!(
        respond(9, Err("unknown terminal 3".to_string())),
        Outgoing::Error { id: 9, error: "unknown terminal 3".to_string() }
    );
}
