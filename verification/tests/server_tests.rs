use resp_server::server::{dispatch_buffer, Action, Registry};

fn reply_of(a: Action) -> (Vec<u8>, usize) {
    match a {
        Action::Reply { bytes, consumed } => (bytes, consumed),
        _ => panic!("expected a reply"),
    }
}

#[test]
fn dispatch_ping_gets_pong() {
    let buffer = b"*1\r\n$4\r\nPING\r\n".to_vec();
    let (bytes, consumed) = reply_of(dispatch_buffer(&buffer));
    assert_eq!(bytes, b"+PONG\r\n".to_vec());
    assert_eq!(consumed, buffer.len());
}

#[test]
fn dispatch_unknown_command_gets_pong() {
    let buffer = b"*2\r\n$3\r\nFOO\r\n$1\r\nx\r\n".to_vec();
    let (bytes, consumed) = reply_of(dispatch_buffer(&buffer));
    assert_eq!(bytes, b"+PONG\r\n".to_vec());
    assert_eq!(consumed, buffer.len());
}

#[test]
fn dispatch_echo_command_must_match_exactly() {
    let buffer = b"*2\r\n$5\r\nECHOX\r\n$1\r\nx\r\n".to_vec();
    let (bytes, _) = reply_of(dispatch_buffer(&buffer));
    assert_eq!(bytes, b"+PONG\r\n".to_vec());
}

#[test]
fn dispatch_echo_builds_bulk_reply() {
    let buffer = b"*3\r\n$4\r\nECHO\r\n$2\r\nhi\r\n$5\r\nthere\r\n".to_vec();
    let (bytes, consumed) = reply_of(dispatch_buffer(&buffer));
    assert_eq!(bytes, b"$8\r\nhi there\r\n".to_vec());
    assert_eq!(consumed, buffer.len());
}

#[test]
fn dispatch_echo_with_no_arguments_replies_empty_bulk() {
    let buffer = b"*1\r\n$4\r\nECHO\r\n".to_vec();
    let (bytes, consumed) = reply_of(dispatch_buffer(&buffer));
    assert_eq!(bytes, b"$0\r\n\r\n".to_vec());
    assert_eq!(consumed, buffer.len());
}

#[test]
fn dispatch_empty_buffer_skips() {
    let buffer: Vec<u8> = Vec::new();
    assert!(matches!(dispatch_buffer(&buffer), Action::Skip));
}

#[test]
fn dispatch_incomplete_frame_waits() {
    let buffer = b"*2\r\n$4\r\nECHO\r\n$5\r\nhel".to_vec();
    assert!(matches!(dispatch_buffer(&buffer), Action::Wait));
}

#[test]
fn dispatch_malformed_buffer_closes() {
    let buffer = b"PING\r\n".to_vec();
    assert!(matches!(dispatch_buffer(&buffer), Action::Close));
}

#[test]
fn accept_assigns_fresh_increasing_ids() {
    let mut registry = Registry::new();
    let a = registry.accept_connection();
    let b = registry.accept_connection();
    assert_eq!(a, 1);
    assert_eq!(b, 2);
    assert_eq!(registry.connection_ids(), vec![1, 2]);
}

#[test]
fn append_to_unknown_id_reports_absence() {
    let mut registry = Registry::new();
    assert!(!registry.append_bytes(7, b"x"));
    let _ = registry.accept_connection();
    assert!(registry.append_bytes(1, b"x"));
}

#[test]
fn poll_answers_a_buffered_request() {
    let mut registry = Registry::new();
    let id = registry.accept_connection();
    assert!(registry.append_bytes(id, b"*1\r\n$4\r\nPING\r\n"));
    let (bytes, consumed) = reply_of(registry.poll_connection(id));
    assert_eq!(bytes, b"+PONG\r\n".to_vec());
    assert_eq!(consumed, 14);
    assert!(matches!(registry.poll_connection(id), Action::Skip));
}

#[test]
fn partial_request_accumulates_without_premature_error() {
    let mut registry = Registry::new();
    let id = registry.accept_connection();
    assert!(registry.append_bytes(id, b"*2\r\n$4\r\nECHO\r\n$5\r"));
    assert!(matches!(registry.poll_connection(id), Action::Wait));
    assert!(registry.append_bytes(id, b"\nhello\r\n"));
    let (bytes, _) = reply_of(registry.poll_connection(id));
    assert_eq!(bytes, b"$5\r\nhello\r\n".to_vec());
    assert!(matches!(registry.poll_connection(id), Action::Skip));
}

#[test]
fn empty_buffer_is_skipped_indefinitely() {
    let mut registry = Registry::new();
    let id = registry.accept_connection();
    assert!(matches!(registry.poll_connection(id), Action::Skip));
    assert!(matches!(registry.poll_connection(id), Action::Skip));
    assert_eq!(registry.connection_ids(), vec![id]);
}

#[test]
fn removal_leaves_other_connections_untouched() {
    let mut registry = Registry::new();
    let a = registry.accept_connection();
    let b = registry.accept_connection();
    assert!(registry.append_bytes(b, b"*1\r\n$4\r\nPING\r\n"));
    assert!(registry.remove_connection(a));
    assert_eq!(registry.connection_ids(), vec![b]);
    let (bytes, _) = reply_of(registry.poll_connection(b));
    assert_eq!(bytes, b"+PONG\r\n".to_vec());
    assert!(!registry.remove_connection(a));
}

#[test]
fn interleaved_clients_each_get_their_own_reply() {
    let mut registry = Registry::new();
    let a = registry.accept_connection();
    let b = registry.accept_connection();
    assert!(registry.append_bytes(a, b"*2\r\n$4\r\nECHO\r\n"));
    assert!(registry.append_bytes(b, b"*1\r\n"));
    assert!(registry.append_bytes(a, b"$3\r\none\r\n"));
    assert!(registry.append_bytes(b, b"$4\r\nPING\r\n"));
    let (reply_a, _) = reply_of(registry.poll_connection(a));
    let (reply_b, _) = reply_of(registry.poll_connection(b));
    assert_eq!(reply_a, b"$3\r\none\r\n".to_vec());
    assert_eq!(reply_b, b"+PONG\r\n".to_vec());
}

#[test]
fn pipelined_commands_are_served_in_order() {
    let mut registry = Registry::new();
    let id = registry.accept_connection();
    assert!(registry.append_bytes(id, b"*1\r\n$4\r\nPING\r\n*2\r\n$4\r\nECHO\r\n$2\r\nok\r\n"));
    let (first, _) = reply_of(registry.poll_connection(id));
    assert_eq!(first, b"+PONG\r\n".to_vec());
    let (second, _) = reply_of(registry.poll_connection(id));
    assert_eq!(second, b"$2\r\nok\r\n".to_vec());
    assert!(matches!(registry.poll_connection(id), Action::Skip));
}

#[test]
fn malformed_buffer_leads_to_close_and_removal() {
    let mut registry = Registry::new();
    let id = registry.accept_connection();
    assert!(registry.append_bytes(id, b"garbage"));
    assert!(matches!(registry.poll_connection(id), Action::Close));
    assert!(registry.remove_connection(id));
    assert!(matches!(registry.poll_connection(id), Action::Skip));
}

#[test]
fn dispatch_phase_scans_every_connection_once() {
    let mut registry = Registry::new();
    let a = registry.accept_connection();
    let b = registry.accept_connection();
    let c = registry.accept_connection();
    assert!(registry.append_bytes(a, b"*1\r\n$4\r\nPING\r\n"));
    assert!(registry.append_bytes(c, b"nonsense"));
    let (writes, removals) = registry.dispatch_phase();
    assert_eq!(writes.len(), 1);
    assert_eq!(writes[0].0, a);
    assert_eq!(writes[0].1, b"+PONG\r\n".to_vec());
    assert_eq!(removals, vec![c]);
    assert!(registry.remove_connection(c));
    assert_eq!(registry.connection_ids(), vec![a, b]);
    let (writes, removals) = registry.dispatch_phase();
    assert!(writes.is_empty());
    assert!(removals.is_empty());
}
