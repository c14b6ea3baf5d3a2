use marrow::client::{
    has_key_extension, identity_file_name, is_white_space, map_err_str, outbound_message, show_messages, trim,
    DecryptedMessage,
};
use marrow::codec::{MarrowRequest, MarrowResponse};
use marrow::identity::Identity;
use marrow::node::{
    plan_command, CommandStep, NetworkCommand, NetworkEvent, PeerMessage, PendingResponses,
    Reaction,
};
use marrow::storage::{MessageDirection, StoredMessage};

#[test]
fn trim_removes_surrounding_white_space() {
    assert_eq!(trim("  bob \t\n"), "bob");
    assert_eq!(trim("a b"), "a b");
    assert_eq!(trim("   "), "");
    assert_eq!(trim(""), "");
    assert_eq!(trim("\u{3000}x\u{a0}"), "x");
    for c in ['a', '0', '_', '\u{200b}'] {
        assert!(!is_white_space(c));
        assert_eq!(is_white_space(c), c.is_whitespace());
    }
    for c in [' ', '\t', '\n', '\r', '\u{b}', '\u{c}', '\u{85}', '\u{a0}', '\u{1680}', '\u{2000}', '\u{200a}', '\u{2028}', '\u{2029}', '\u{202f}', '\u{205f}', '\u{3000}'] {
        assert!(is_white_space(c));
        assert_eq!(is_white_space(c), c.is_whitespace());
    }
    for s in ["  x  ", "\u{2003}mixed words\u{2009}", "\t\t", "plain"] {
        assert_eq!(trim(s), s.trim());
    }
}

#[test]
fn identity_file_name_uses_alias_or_key_prefix() {
    let hex = "0123456789abcdef0123456789abcdef0123456789abcdef0123456789abcdef";
    assert_eq!(identity_file_name(Some("  alice "), hex), "alice.key");
    assert_eq!(identity_file_name(Some("work laptop"), hex), "work laptop.key");
    assert_eq!(identity_file_name(Some("   "), hex), "identity_01234567.key");
    assert_eq!(identity_file_name(None, hex), "identity_01234567.key");

    let identity = Identity::from_bytes(&[9u8; 32]);
    let public = identity.public_hex();
    let name = identity_file_name(None, &public);
    assert_eq!(name, format!("identity_{}.key", &public[..8]));
    assert!(has_key_extension(&name));
    assert!(has_key_extension(&identity_file_name(Some(" x "), hex)));
}

#[test]
fn key_files_are_recognised_by_extension() {
    assert!(has_key_extension("alice.key"));
    assert!(has_key_extension("identity_01234567.key"));
    assert!(has_key_extension("..key"));
    assert!(!has_key_extension(".key"));
    assert!(!has_key_extension("key"));
    assert!(!has_key_extension("alice.keys"));
    assert!(!has_key_extension("alice.KEY"));
    assert!(!has_key_extension("vault.redb"));
}

#[test]
fn sent_message_is_stored_and_shown() {
    let m = outbound_message("s1".to_string(), "abcd".to_string(), "hé", 1700);
    assert_eq!(m.session_id, "s1");
    assert_eq!(m.sender_pubkey_hex, "abcd");
    assert_eq!(m.ciphertext, "hé".as_bytes().to_vec());
    assert_eq!(m.ciphertext, vec![0x68, 0xc3, 0xa9]);
    assert_eq!(m.timestamp, 1700);
    assert_eq!(m.direction, MessageDirection::Outbound);
    assert_eq!(m.sequence_number, 0);

    let shown = DecryptedMessage::from_stored(&m);
    assert_eq!(shown.payload_hex, "68c3a9");
    assert_eq!(shown.session_id, "s1");
    assert_eq!(shown.sender_pubkey_hex, "abcd");
    assert_eq!(shown.timestamp, 1700);
    assert_eq!(shown.direction, MessageDirection::Outbound);
    assert_eq!(shown.sequence_number, 0);
}

#[test]
fn session_messages_are_shown_in_order() {
    let inbound = StoredMessage {
        session_id: "s".to_string(),
        sender_pubkey_hex: "peer".to_string(),
        ciphertext: vec![0xff, 0x00],
        timestamp: 5,
        direction: MessageDirection::Inbound,
        sequence_number: 7,
    };
    let outbound = outbound_message("s".to_string(), "me".to_string(), "", 6);
    let shown = show_messages(&vec![inbound, outbound]);
    assert_eq!(shown.len(), 2);
    assert_eq!(shown[0].payload_hex, "ff00");
    assert_eq!(shown[0].direction, MessageDirection::Inbound);
    assert_eq!(shown[0].sequence_number, 7);
    assert_eq!(shown[1].payload_hex, "");
    assert_eq!(shown[1].sender_pubkey_hex, "me");
    assert!(show_messages(&vec![]).is_empty());
}

#[test]
fn commands_become_network_steps() {
    match plan_command(NetworkCommand::StartListening { addr: "/ip4/0.0.0.0/tcp/0".to_string() }) {
        CommandStep::Listen { addr } => assert_eq!(addr, "/ip4/0.0.0.0/tcp/0"),
        other => panic!("unexpected step {other:?}"),
    }
    match plan_command(NetworkCommand::Dial { peer_id: vec![1, 2], addr: "/ip4/1.2.3.4/tcp/9".to_string() }) {
        CommandStep::Dial { peer_id, addr } => {
            assert_eq!(peer_id, vec![1, 2]);
            assert_eq!(addr, "/ip4/1.2.3.4/tcp/9");
        }
        other => panic!("unexpected step {other:?}"),
    }
    match plan_command(NetworkCommand::SendFrame { peer_id: vec![3], data: vec![4, 5] }) {
        CommandStep::SendRequest { peer_id, request } => {
            assert_eq!(peer_id, vec![3]);
            assert_eq!(request, MarrowRequest(vec![4, 5]));
        }
        other => panic!("unexpected step {other:?}"),
    }
}

#[test]
fn requests_are_delivered_and_acknowledged() {
    let mut pending: PendingResponses<&str> = PendingResponses::new();
    match pending.react(PeerMessage::Request { peer_id: vec![8], request: MarrowRequest(vec![1, 2, 3]) }) {
        Reaction::Deliver { event: NetworkEvent::FrameReceived { peer_id, data }, ack } => {
            assert_eq!(peer_id, vec![8]);
            assert_eq!(data, vec![1, 2, 3]);
            assert_eq!(ack, MarrowResponse(vec![1]));
        }
        other => panic!("unexpected reaction {other:?}"),
    }
}

#[test]
fn a_response_answers_its_command_once() {
    let mut pending: PendingResponses<&str> = PendingResponses::new();
    pending.request_sent(1, "first");
    pending.request_sent(2, "second");
    assert!(pending.is_waiting(1));
    match pending.react(PeerMessage::Response { request_id: 1, response: MarrowResponse(vec![9]) }) {
        Reaction::Complete { reply, data } => {
            assert_eq!(reply, "first");
            assert_eq!(data, vec![9]);
        }
        other => panic!("unexpected reaction {other:?}"),
    }
    assert!(!pending.is_waiting(1));
    assert!(pending.is_waiting(2));
    assert!(matches!(
        pending.react(PeerMessage::Response { request_id: 1, response: MarrowResponse(vec![9]) }),
        Reaction::Ignore
    ));
    assert!(matches!(
        pending.react(PeerMessage::Response { request_id: 3, response: MarrowResponse(vec![]) }),
        Reaction::Ignore
    ));
    pending.request_sent(2, "again");
    match pending.react(PeerMessage::Response { request_id: 2, response: MarrowResponse(vec![]) }) {
        Reaction::Complete { reply, .. } => assert_eq!(reply, "again"),
        other => panic!("unexpected reaction {other:?}"),
    }
}

#[test]
fn errors_are_reported_as_their_text() {
    assert_eq!(map_err_str("Storage not initialized"), "Storage not initialized");
    assert_eq!(map_err_str(42), "42");
    let parse_error = "x".parse::<u8>().unwrap_err();
    assert_eq!(map_err_str(&parse_error), parse_error.to_string());
}
