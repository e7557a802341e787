use wildforge::host::{
    chat_action, count_chunk_request, count_command, cycled_role, entry_accepted, granted_view_distance, moderation_message,
    moderation_request_refusal, ChatAction, ModerationAction, Role,
};
use wildforge::planet::{ChunkPos, Face};

#[test]
fn remote_moderation_requests_are_refused_or_carried_out() {
    assert_eq!(
        moderation_request_refusal(4, 4, true, Role::Owner, ModerationAction::Kick),
        Some("That player cannot be moderated from this session.")
    );
    assert_eq!(
        moderation_request_refusal(4, 0, true, Role::Owner, ModerationAction::Kick),
        Some("That player cannot be moderated from this session.")
    );
    assert_eq!(
        moderation_request_refusal(4, 5, false, Role::Owner, ModerationAction::Kick),
        Some("That player cannot be moderated from this session.")
    );
    assert_eq!(
        moderation_request_refusal(4, 5, true, Role::Moderator, ModerationAction::Allow),
        Some("Your server role does not permit that action.")
    );
    assert_eq!(moderation_request_refusal(4, 5, true, Role::Moderator, ModerationAction::Kick), None);
}

#[test]
fn role_cycle_promotes_players_and_demotes_everyone_else() {
    assert_eq!(cycled_role(Role::Player), Role::Moderator);
    assert_eq!(cycled_role(Role::Moderator), Role::Player);
    assert_eq!(cycled_role(Role::Owner), Role::Player);
}

#[test]
fn moderation_messages_name_what_happened() {
    let done: Result<bool, String> = Ok(true);
    assert_eq!(moderation_message(ModerationAction::Kick, "ada", Role::Player, &done), "ada kicked");
    assert_eq!(
        moderation_message(ModerationAction::Mute { seconds: 60 }, "ada", Role::Player, &done),
        "player muted for 60 seconds"
    );
    assert_eq!(
        moderation_message(ModerationAction::Ban { seconds: Some(3600) }, "ada", Role::Player, &done),
        "ada banned for 3600 seconds"
    );
    assert_eq!(
        moderation_message(ModerationAction::Ban { seconds: None }, "ada", Role::Player, &done),
        "ada permanently banned"
    );
    assert_eq!(moderation_message(ModerationAction::Allow, "ada", Role::Player, &done), "player added to allowlist");
    assert_eq!(
        moderation_message(ModerationAction::CycleRole, "ada", Role::Moderator, &done),
        format!("role set to {:?}", Role::Moderator)
    );
    assert_eq!(
        moderation_message(ModerationAction::Kick, "ada", Role::Player, &Ok(false)),
        "Player is no longer connected."
    );
    assert_eq!(
        moderation_message(ModerationAction::Kick, "ada", Role::Player, &Err("disk full".to_string())),
        "Moderation failed: disk full"
    );
}

#[test]
fn chat_is_rate_limited_truncated_and_routed() {
    assert_eq!(chat_action(5, false, "hi"), (5, ChatAction::Refuse));
    assert_eq!(chat_action(0, true, "hi"), (0, ChatAction::Refuse));
    assert_eq!(chat_action(2, false, "hello"), (3, ChatAction::Broadcast("hello".to_string())));
    let long: String = "é".repeat(250);
    match chat_action(0, false, &long) {
        (1, ChatAction::Broadcast(kept)) => assert_eq!(kept.chars().count(), 200),
        other => panic!("unexpected {other:?}"),
    }
    assert_eq!(chat_action(0, false, "!  stamp here"), (1, ChatAction::StampOnHostConsole));
    assert_eq!(chat_action(0, false, "!capture a"), (1, ChatAction::Command("!capture a".to_string())));
    assert_eq!(chat_action(0, false, "!stampede"), (1, ChatAction::Command("!stampede".to_string())));
}

#[test]
fn admission_budgets_and_entry() {
    let a = ChunkPos { face: Face::PosX, u: 0, v: 0 };
    let b = ChunkPos { face: Face::PosX, u: 16, v: 0 };
    assert!(entry_accepted(false, &vec![a, b], &vec![b, a]));
    assert!(!entry_accepted(false, &vec![a, b], &vec![a]));
    assert!(!entry_accepted(true, &vec![a], &vec![a]));
    assert!(entry_accepted(false, &Vec::new(), &Vec::new()));
    assert_eq!(granted_view_distance(0, 12), 2);
    assert_eq!(granted_view_distance(40, 12), 12);
    assert_eq!(granted_view_distance(7, 12), 7);
    assert_eq!(count_command(159, false), Some(160));
    assert_eq!(count_command(160, false), None);
    assert_eq!(count_command(160, true), Some(160));
    assert_eq!(count_chunk_request(31), Some(32));
    assert_eq!(count_chunk_request(32), None);
}
