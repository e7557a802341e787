use wildforge::host::{
    discovery_holder_at_writing_surface, moderation_action_allowed, shares_principal, AtprotoDid, DeviceKeyId,
    DiscoveryTargetSnap, ModerationAction, PendingDiscovery, PendingDiscoveryKind, Principal, RecordHolderSnap, Role,
    DISCOVERY_SETTLE_MS,
};
use wildforge::planet::BlockPos;

#[test]
fn host_two_devices_for_one_did_share_an_active_principal() {
    let did = Principal::Atproto(AtprotoDid::parse("did:plc:sharedaccount").unwrap());
    let first = vec![did.clone(), Principal::LocalDevice(DeviceKeyId([1; 32]))];
    let second = vec![did, Principal::LocalDevice(DeviceKeyId([2; 32]))];
    assert!(shares_principal(&first, &second));
    assert!(!shares_principal(&first, &[Principal::LocalDevice(DeviceKeyId([3; 32]))]));
}

#[test]
fn host_remote_moderation_permissions_are_host_enforced() {
    assert!(!moderation_action_allowed(Role::Player, ModerationAction::Kick));
    assert!(moderation_action_allowed(Role::Moderator, ModerationAction::Kick));
    assert!(moderation_action_allowed(Role::Moderator, ModerationAction::Mute { seconds: 600 }));
    assert!(moderation_action_allowed(Role::Moderator, ModerationAction::Ban { seconds: Some(3600) }));
    assert!(!moderation_action_allowed(Role::Moderator, ModerationAction::Ban { seconds: None }));
    assert!(!moderation_action_allowed(Role::Moderator, ModerationAction::CycleRole));
    assert!(moderation_action_allowed(Role::Admin, ModerationAction::Ban { seconds: None }));
    assert!(moderation_action_allowed(Role::Admin, ModerationAction::Allow));
    assert!(moderation_action_allowed(Role::Admin, ModerationAction::CycleRole));
    assert!(!moderation_action_allowed(Role::Owner, ModerationAction::Mute { seconds: 0 }));
    assert!(!moderation_action_allowed(Role::Owner, ModerationAction::Ban { seconds: Some(86_401) }));
}

#[test]
fn host_discovery_completion_requires_a_matching_host_elapsed_ticket() {
    let began: u64 = 5_000;
    let target = DiscoveryTargetSnap::Region;
    let pending = PendingDiscovery { kind: PendingDiscoveryKind::Observation(target), began_ms: began };
    assert!(!pending.settled_for(PendingDiscoveryKind::Observation(target), began + DISCOVERY_SETTLE_MS - 1));
    assert!(!pending.settled_for(
        PendingDiscoveryKind::Observation(DiscoveryTargetSnap::Held { slot: 2 }),
        began + DISCOVERY_SETTLE_MS
    ));
    assert!(pending.settled_for(PendingDiscoveryKind::Observation(target), began + DISCOVERY_SETTLE_MS));
}

#[test]
fn host_placed_folio_copying_requires_physical_writing_surface_adjacency() {
    let writing = BlockPos::of_world(0, 80, 0).unwrap();
    assert!(discovery_holder_at_writing_surface(RecordHolderSnap::Inventory { slot: 2 }, writing));
    assert!(discovery_holder_at_writing_surface(
        RecordHolderSnap::Folio { pos: BlockPos::of_world(1, 80, 0).unwrap() },
        writing
    ));
    assert!(!discovery_holder_at_writing_surface(
        RecordHolderSnap::Folio { pos: BlockPos::of_world(2, 80, 0).unwrap() },
        writing
    ));
}
