use wschat::chat::{ChatClient, ChatServer};
use wschat::frame::encode_frame;
use wschat::messages::{encode_client_msg, encode_server_msg, ClientMessage, ServerMessage};
use wschat::session::{handle_frame_payload, writer_step, WriterAction};

fn register(server: &mut ChatServer, client_id: i64, name: &str) {
    server.handle_client_msg(
        ClientMessage::UsernameRegistration { name: String::from(name) },
        client_id,
    );
}

#[test]
fn join_greets_with_ack_and_roster() {
    let mut server = ChatServer::new();
    server.add_client(ChatClient::new(7));
    let msgs = server.drain_outbound(7);
    assert_eq!(
        msgs,
        vec![
            ServerMessage::ClientAcknowledgement { client_id: 7 },
            ServerMessage::ClientIdUsernameMappings { client_id_usernames: vec![] },
        ]
    );
}

#[test]
fn roster_lists_only_named_sessions() {
    let mut server = ChatServer::new();
    server.add_client(ChatClient::new(1));
    server.add_client(ChatClient::new(2));
    register(&mut server, 1, "alice");
    server.add_client(ChatClient::new(5));
    let msgs = server.drain_outbound(5);
    assert_eq!(msgs.len(), 2);
    assert_eq!(msgs[0], ServerMessage::ClientAcknowledgement { client_id: 5 });
    match &msgs[1] {
        ServerMessage::ClientIdUsernameMappings { client_id_usernames } => {
            assert_eq!(client_id_usernames.len(), 1);
            assert_eq!(client_id_usernames[0].client_id, 1);
            assert_eq!(client_id_usernames[0].username, "alice");
        },
        other => panic!("expected a roster, got {:?}", other),
    }
}

#[test]
fn register_username_first_wins() {
    let mut server = ChatServer::new();
    assert!(server.register_username(&String::from("alice")));
    assert!(!server.register_username(&String::from("alice")));
    assert!(server.register_username(&String::from("Alice")));
}

#[test]
fn racing_registrations_one_wins_one_rejected() {
    let mut server = ChatServer::new();
    server.add_client(ChatClient::new(1));
    server.add_client(ChatClient::new(2));
    server.drain_outbound(1);
    server.drain_outbound(2);

    register(&mut server, 1, "alice");
    register(&mut server, 2, "alice");

    let winner = server.drain_outbound(1);
    assert_eq!(
        winner,
        vec![ServerMessage::UsernameRegistration { name: String::from("alice"), client_id: 1 }]
    );
    let loser = server.drain_outbound(2);
    assert_eq!(
        loser,
        vec![
            ServerMessage::UsernameRegistration { name: String::from("alice"), client_id: 1 },
            ServerMessage::UsernameInUse { name: String::from("alice") },
        ]
    );
    // the name is held exactly once: a further attempt by a third session fails
    server.add_client(ChatClient::new(3));
    server.drain_outbound(3);
    register(&mut server, 3, "alice");
    let third = server.drain_outbound(3);
    assert_eq!(third, vec![ServerMessage::UsernameInUse { name: String::from("alice") }]);
}

#[test]
fn leaving_releases_the_username() {
    let mut server = ChatServer::new();
    let first = ChatClient::new(1);
    server.add_client(ChatClient::new(1));
    register(&mut server, 1, "bob");
    server.rm_client(&first);
    assert!(!server.has_client_with_id(1));

    server.add_client(ChatClient::new(2));
    server.drain_outbound(2);
    register(&mut server, 2, "bob");
    let msgs = server.drain_outbound(2);
    assert_eq!(
        msgs,
        vec![ServerMessage::UsernameRegistration { name: String::from("bob"), client_id: 2 }]
    );
}

#[test]
fn broadcast_reaches_all_live_sessions_and_no_departed_one() {
    let mut server = ChatServer::new();
    for id in [1i64, 2, 3, 4] {
        server.add_client(ChatClient::new(id));
        server.drain_outbound(id);
    }
    let fourth = ChatClient::new(4);
    server.rm_client(&fourth);

    server.dispatch_message(ServerMessage::TextMessage { message: String::from("hi"), client_id: 42 });
    for id in [1i64, 2, 3] {
        let msgs = server.drain_outbound(id);
        assert_eq!(
            msgs,
            vec![ServerMessage::TextMessage { message: String::from("hi"), client_id: 42 }]
        );
    }
    assert!(!server.has_client_with_id(4));
    assert_eq!(server.drain_outbound(4), vec![]);
}

#[test]
fn reregistering_own_name_is_a_noop() {
    let mut server = ChatServer::new();
    server.add_client(ChatClient::new(1));
    server.add_client(ChatClient::new(2));
    register(&mut server, 1, "alice");
    server.drain_outbound(1);
    server.drain_outbound(2);

    register(&mut server, 1, "alice");
    assert_eq!(server.drain_outbound(1), vec![]);
    assert_eq!(server.drain_outbound(2), vec![]);
}

#[test]
fn renaming_releases_the_previous_name() {
    let mut server = ChatServer::new();
    server.add_client(ChatClient::new(1));
    register(&mut server, 1, "alice");
    register(&mut server, 1, "bob");
    server.drain_outbound(1);

    // "alice" is free again
    server.add_client(ChatClient::new(2));
    server.drain_outbound(2);
    register(&mut server, 2, "alice");
    let msgs = server.drain_outbound(2);
    assert_eq!(
        msgs,
        vec![ServerMessage::UsernameRegistration { name: String::from("alice"), client_id: 2 }]
    );
}

#[test]
fn text_messages_carry_the_sender() {
    let mut server = ChatServer::new();
    server.add_client(ChatClient::new(9));
    server.drain_outbound(9);
    server.handle_client_msg(ClientMessage::TextMessage { message: String::from("hello") }, 9);
    let msgs = server.drain_outbound(9);
    assert_eq!(
        msgs,
        vec![ServerMessage::TextMessage { message: String::from("hello"), client_id: 9 }]
    );
}

#[test]
fn queued_messages_survive_joining() {
    let mut server = ChatServer::new();
    let mut client = ChatClient::new(3);
    client.send_msg(ServerMessage::UserHangup { client_id: 11 });
    server.add_client(client);
    let msgs = server.drain_outbound(3);
    assert_eq!(msgs.len(), 3);
    assert_eq!(msgs[0], ServerMessage::UserHangup { client_id: 11 });
    assert_eq!(msgs[1], ServerMessage::ClientAcknowledgement { client_id: 3 });
}

#[test]
fn random_ids_start_unnamed() {
    let client = ChatClient::with_random_id();
    assert!(client.name.is_none());
}

#[test]
fn writer_stops_on_own_hangup_only() {
    let own = ServerMessage::UserHangup { client_id: 5 };
    assert!(matches!(writer_step(&own, 5), WriterAction::Stop));

    let other = ServerMessage::UserHangup { client_id: 6 };
    match writer_step(&other, 5) {
        WriterAction::Send(bytes) => {
            assert_eq!(bytes, encode_frame(&encode_server_msg(&other)));
        },
        WriterAction::Stop => panic!("a hangup for another session must be forwarded"),
    }

    let text = ServerMessage::TextMessage { message: String::from("hi"), client_id: 5 };
    match writer_step(&text, 5) {
        WriterAction::Send(bytes) => {
            assert_eq!(bytes, encode_frame(&encode_server_msg(&text)));
        },
        WriterAction::Stop => panic!("a text message must be forwarded"),
    }
}

#[test]
fn reader_handles_valid_payloads_and_drops_garbage() {
    let mut server = ChatServer::new();
    server.add_client(ChatClient::new(1));
    server.drain_outbound(1);

    let payload = encode_client_msg(&ClientMessage::UsernameRegistration {
        name: String::from("carol"),
    });
    assert!(handle_frame_payload(&mut server, 1, &payload));
    let msgs = server.drain_outbound(1);
    assert_eq!(
        msgs,
        vec![ServerMessage::UsernameRegistration { name: String::from("carol"), client_id: 1 }]
    );

    assert!(!handle_frame_payload(&mut server, 1, b"not a message"));
    assert_eq!(server.drain_outbound(1), vec![]);
}
