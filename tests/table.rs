use doosknet::{
    send, send_all, send_all_msg, send_msg, serialize_packet, Connection, ConnectionTable,
    Packet, JOIN_NOTICE, SERVER_USERNAME, WELCOME_NOTICE,
};

fn messages(table: &ConnectionTable, token: usize) -> Vec<(String, String)> {
    table
        .get(token)
        .expect("connection")
        .outgoing()
        .iter()
        .map(|p| (p.sender.clone(), p.message.clone()))
        .collect()
}

fn notice(text: &str) -> (String, String) {
    (SERVER_USERNAME.to_string(), text.to_string())
}

#[test]
fn accept_assigns_increasing_tokens_and_greets() {
    let mut table = ConnectionTable::new();
    assert_eq!(table.accept(), Some(1));
    assert_eq!(messages(&table, 1), vec![notice(WELCOME_NOTICE)]);
    assert_eq!(table.accept(), Some(2));
    assert_eq!(messages(&table, 1), vec![notice(WELCOME_NOTICE), notice(JOIN_NOTICE)]);
    assert_eq!(messages(&table, 2), vec![notice(WELCOME_NOTICE)]);
    assert_eq!(table.len(), 2);
}

#[test]
fn tokens_are_not_reused_after_removal() {
    let mut table = ConnectionTable::new();
    assert_eq!(table.accept(), Some(1));
    table.mark_disconnected(1);
    table.sweep();
    assert_eq!(table.len(), 0);
    assert_eq!(table.accept(), Some(2));
    assert!(table.get(1).is_none());
}

#[test]
fn broadcast_reaches_every_connection_once() {
    let mut table = ConnectionTable::new();
    for _ in 0..3 {
        table.accept();
    }
    let frame = serialize_packet(Packet::new("Bob", "hello all"));
    table.receive(2, &frame);
    let delivered = table.process_incoming();
    assert_eq!(delivered.len(), 1);
    assert_eq!(delivered[0].message, "hello all");
    for token in 1..=3 {
        let got = messages(&table, token);
        let count = got.iter().filter(|m| m.1 == "hello all").count();
        assert_eq!(count, 1);
        assert_eq!(got.last().unwrap(), &("Bob".to_string(), "hello all".to_string()));
    }
}

#[test]
fn zero_length_read_disconnects_and_sweep_removes() {
    let mut table = ConnectionTable::new();
    table.accept();
    table.accept();
    table.receive(1, &[]);
    assert!(table.get(1).unwrap().is_disconnected());
    table.sweep();
    assert!(table.get(1).is_none());
    assert_eq!(table.len(), 1);
    // events for the removed identifier are ignored
    table.receive(1, &[1, 2, 3]);
    table.mark_disconnected(1);
    assert!(table.pending_output(1).is_empty());
    assert_eq!(table.len(), 1);
    assert!(!table.get(2).unwrap().is_disconnected());
}

#[test]
fn oversize_header_removes_the_connection() {
    let mut table = ConnectionTable::new();
    table.accept();
    table.accept();
    table.receive(1, &[0, 0, 0, 0, 0, 0, 1, 0, 9, 9]);
    let delivered = table.process_incoming();
    assert!(delivered.is_empty());
    assert!(table.get(1).is_none());
    assert!(table.get(2).is_some());
}

#[test]
fn overflowing_read_disconnects() {
    let mut table = ConnectionTable::new();
    table.accept();
    table.receive(1, &vec![0u8; 1000]);
    assert!(!table.get(1).unwrap().is_disconnected());
    assert_eq!(table.get(1).unwrap().buffer().filled(), 1000);
    table.receive(1, &vec![0u8; 100]);
    assert!(table.get(1).unwrap().is_disconnected());
    assert_eq!(table.get(1).unwrap().buffer().filled(), 1000);
}

#[test]
fn partial_frame_survives_the_cycle() {
    let mut table = ConnectionTable::new();
    table.accept();
    let frame = serialize_packet(Packet::new("Jib", "split"));
    table.receive(1, &frame[..10]);
    assert!(table.process_incoming().is_empty());
    assert_eq!(table.get(1).unwrap().buffer().as_slice(), &frame[..10]);
    table.receive(1, &frame[10..]);
    let delivered = table.process_incoming();
    assert_eq!(delivered.len(), 1);
    assert_eq!(delivered[0].sender, "Jib");
    assert_eq!(table.get(1).unwrap().buffer().filled(), 0);
}

#[test]
fn pending_output_resumes_after_partial_write() {
    let mut table = ConnectionTable::new();
    table.accept();
    let welcome = serialize_packet(Packet::new(SERVER_USERNAME, WELCOME_NOTICE));
    let first = table.pending_output(1);
    assert_eq!(first, welcome);
    table.record_sent(1, 5);
    let rest = table.pending_output(1);
    assert_eq!(rest, welcome[5..].to_vec());
    table.record_sent(1, rest.len());
    assert!(table.pending_output(1).is_empty());
    assert!(table.get(1).unwrap().outgoing().is_empty());
}

#[test]
fn connection_send_and_send_msg() {
    let mut c = Connection::new(7);
    assert_eq!(c.token(), 7);
    assert!(!c.is_disconnected());
    send(Packet::new("Bob", "hi"), &mut c);
    assert!(send_msg("notice", &mut c));
    assert!(!send_msg(&"x".repeat(300), &mut c));
    let got: Vec<(String, String)> =
        c.outgoing().iter().map(|p| (p.sender.clone(), p.message.clone())).collect();
    assert_eq!(got, vec![("Bob".to_string(), "hi".to_string()), notice("notice")]);
    let frame = c.pending_output();
    assert_eq!(frame, serialize_packet(Packet::new("Bob", "hi")));
    c.record_sent(frame.len());
    c.receive(&[]);
    assert!(c.is_disconnected());
}

#[test]
fn send_all_and_send_all_msg() {
    let mut table = ConnectionTable::new();
    table.accept();
    table.accept();
    send_all(Packet::new("Jim", "yo"), &mut table);
    assert!(send_all_msg("bye", &mut table));
    assert!(!send_all_msg(&"y".repeat(400), &mut table));
    for token in 1..=2 {
        let got = messages(&table, token);
        let n = got.len();
        assert_eq!(got[n - 2], ("Jim".to_string(), "yo".to_string()));
        assert_eq!(got[n - 1], notice("bye"));
    }
}
