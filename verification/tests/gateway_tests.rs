use chat_gateway::gateway::{Chat, Gateway, LookupResult};
use chat_gateway::token::{check_login, encode_jwt, TOKEN_TTL_SECONDS};
use chat_gateway::Error;
use chrono::Utc;
use uuid::Uuid;

fn now_ts() -> u64 {
    Utc::now().timestamp() as u64
}

#[test]
fn handshake_success_creates_session() {
    let secret = b"test-secret-for-ci";
    let id = Uuid::new_v4().as_u128();
    let now = now_ts();
    let token = encode_jwt(id, secret, now).expect("encode should succeed");
    let header = format!("Bearer {token}");
    let identity = check_login(Some(&header), secret, now).expect("gate should pass");
    assert_eq!(identity, id);

    let mut gw = Gateway::new();
    gw.register(7, identity, LookupResult::Found).expect("register should succeed");
    let recipients = gw.handle_join(7, String::from("lobby"));
    assert_eq!(recipients, vec![7]);
}

#[test]
fn handshake_rejected_for_unknown_identity() {
    let mut gw = Gateway::new();
    let err = gw.register(7, 42, LookupResult::NotFound).err().expect("should be refused");
    assert!(matches!(err, Error::RecordNotFound));
    assert!(gw.members_of(&String::from("lobby")).is_empty());
}

#[test]
fn handshake_rejected_when_storage_unreachable() {
    let mut gw = Gateway::new();
    let err = gw
        .register(7, 42, LookupResult::Unavailable(String::from("connection refused")))
        .err()
        .expect("should be refused");
    assert!(matches!(err, Error::QueryFailed(_)));
    assert!(gw.members_of(&String::from("lobby")).is_empty());
}

#[test]
fn expired_handshake_has_no_side_effects() {
    let secret = b"test-secret-for-ci";
    let id = Uuid::new_v4().as_u128();
    let issued: u64 = 1_700_000_000;
    let token = encode_jwt(id, secret, issued).expect("encode should succeed");
    let header = format!("Bearer {token}");
    let later = issued + TOKEN_TTL_SECONDS + 60;
    let err = check_login(Some(&header), secret, later).err().expect("must be refused");
    assert!(matches!(err, Error::DecodeJwtFailed(_)));

    let gw = Gateway::new();
    assert!(gw.members_of(&String::from("lobby")).is_empty());
}

#[test]
fn join_is_idempotent() {
    let mut gw = Gateway::new();
    gw.register(1, 11, LookupResult::Found).unwrap();
    gw.handle_join(1, String::from("roomA"));
    let recipients = gw.handle_join(1, String::from("roomA"));
    assert_eq!(recipients, vec![1]);
    assert_eq!(gw.members_of(&String::from("roomA")), vec![1]);
}

#[test]
fn join_leaves_previous_room() {
    let mut gw = Gateway::new();
    gw.register(1, 11, LookupResult::Found).unwrap();
    gw.handle_join(1, String::from("roomA"));
    gw.handle_join(1, String::from("roomB"));
    assert!(gw.members_of(&String::from("roomA")).is_empty());
    assert_eq!(gw.members_of(&String::from("roomB")), vec![1]);
}

#[test]
fn broadcast_reaches_every_member_including_sender() {
    let mut gw = Gateway::new();
    gw.register(1, 11, LookupResult::Found).unwrap();
    gw.register(2, 22, LookupResult::Found).unwrap();
    gw.register(3, 33, LookupResult::Found).unwrap();
    gw.handle_join(1, String::from("lobby"));
    gw.handle_join(2, String::from("lobby"));
    gw.handle_join(3, String::from("elsewhere"));

    let msg = Chat {
        content: String::from("hi"),
        user_id: 11,
        group_id: String::from("lobby"),
    };
    let out = gw.handle_message(msg, 1234);
    assert_eq!(out.recipients, vec![1, 2]);
    assert_eq!(out.reply.content, "hi");
    assert_eq!(out.reply.user_id, 11);
    assert_eq!(out.reply.group_id, "lobby");
    assert_eq!(out.reply.created_at, 1234);
}

#[test]
fn message_scenario_in_lobby() {
    let send_time = now_ts();
    let mut gw = Gateway::new();
    gw.register(1, 11, LookupResult::Found).unwrap();
    gw.register(2, 22, LookupResult::Found).unwrap();
    let back_a = gw.handle_join(1, String::from("lobby"));
    assert_eq!(back_a, vec![1]);
    let back_b = gw.handle_join(2, String::from("lobby"));
    assert_eq!(back_b, vec![1, 2]);

    let msg = Chat {
        content: String::from("hi"),
        user_id: 11,
        group_id: String::from("lobby"),
    };
    let out = gw.handle_message_now(msg);
    assert_eq!(out.recipients, vec![1, 2]);
    assert_eq!(out.reply.content, "hi");
    assert_eq!(out.reply.user_id, 11);
    assert_eq!(out.reply.group_id, "lobby");
    assert!(out.reply.created_at >= send_time);
    assert_eq!(out.record.created_at, out.reply.created_at);
}

#[test]
fn broadcast_survives_persistence_failure() {
    let mut gw = Gateway::new();
    gw.register(1, 11, LookupResult::Found).unwrap();
    gw.register(2, 22, LookupResult::Found).unwrap();
    gw.handle_join(1, String::from("lobby"));
    gw.handle_join(2, String::from("lobby"));

    let msg = Chat {
        content: String::from("hi"),
        user_id: 11,
        group_id: String::from("lobby"),
    };
    let out = gw.handle_message(msg, 99);

    // The storage collaborator is unreachable: the write fails, the failure
    // is observed and swallowed, and the broadcast list stands unchanged.
    let persisted: Result<(), Error> = Err(Error::DatabaseConnectionFailed);
    assert!(persisted.is_err());
    assert_eq!(out.recipients, vec![1, 2]);
    assert_eq!(out.record.content, "hi");
    assert_eq!(out.record.author_id, 11);
    assert_eq!(out.record.room_id, "lobby");
    assert_eq!(out.record.created_at, out.reply.created_at);
}

#[test]
fn disconnect_releases_membership() {
    let mut gw = Gateway::new();
    gw.register(1, 11, LookupResult::Found).unwrap();
    gw.register(2, 22, LookupResult::Found).unwrap();
    gw.handle_join(1, String::from("lobby"));
    gw.handle_join(2, String::from("lobby"));
    gw.handler_disconnect(1);
    assert_eq!(gw.members_of(&String::from("lobby")), vec![2]);
    gw.handler_disconnect(2);
    assert!(gw.members_of(&String::from("lobby")).is_empty());
}

#[test]
fn disconnect_of_unknown_connection_changes_nothing() {
    let mut gw = Gateway::new();
    gw.register(1, 11, LookupResult::Found).unwrap();
    gw.handle_join(1, String::from("lobby"));
    gw.handler_disconnect(99);
    assert_eq!(gw.members_of(&String::from("lobby")), vec![1]);
}

#[test]
fn one_identity_may_hold_several_connections() {
    let mut gw = Gateway::new();
    gw.register(1, 11, LookupResult::Found).unwrap();
    gw.register(2, 11, LookupResult::Found).unwrap();
    gw.handle_join(1, String::from("lobby"));
    gw.handle_join(2, String::from("lobby"));
    assert_eq!(gw.members_of(&String::from("lobby")), vec![1, 2]);
}
