use chat_core::state::ChatCore;
use chat_core::ChatError;
use chat_core::ReceiverIdentity;
use chat_core::UserStatus;

const ALICE: u64 = 11;
const BOB: u64 = 22;
const CAROL: u64 = 33;

fn store_with(users: &[u64]) -> ChatCore {
    let mut core = ChatCore::init();
    for &u in users {
        core.identity_connected(u);
    }
    core
}

#[test]
fn connect_creates_online_user() {
    let mut core = ChatCore::init();
    assert!(core.get_user(ALICE).is_none());
    core.identity_connected(ALICE);
    let u = core.get_user(ALICE).unwrap();
    assert_eq!(u.identity, ALICE);
    assert!(matches!(u.status, UserStatus::Online));
    assert_eq!(u.username, None);
    assert_eq!(u.avatar, None);
    assert!(u.groups.is_empty());
}

#[test]
fn disconnect_marks_offline_at_time() {
    let mut core = store_with(&[ALICE]);
    core.identity_disconnected(ALICE, 77);
    let u = core.get_user(ALICE).unwrap();
    assert!(matches!(u.status, UserStatus::Offline { at: 77 }));
    core.identity_connected(ALICE);
    assert!(matches!(core.get_user(ALICE).unwrap().status, UserStatus::Online));
}

#[test]
fn stale_disconnect_changes_nothing() {
    let mut core = store_with(&[ALICE]);
    core.identity_disconnected(BOB, 5);
    assert!(core.get_user(BOB).is_none());
    assert_eq!(core.users.len(), 1);
}

#[test]
fn username_is_trimmed() {
    let mut core = store_with(&[ALICE]);
    assert_eq!(core.set_user_username(ALICE, Some("  bob  ".to_string())), Ok(()));
    assert_eq!(core.get_user(ALICE).unwrap().username.as_deref(), Some("bob"));
}

#[test]
fn whitespace_username_stored_as_absent() {
    let mut core = store_with(&[ALICE]);
    assert_eq!(core.set_user_username(ALICE, Some("   ".to_string())), Ok(()));
    assert_eq!(core.get_user(ALICE).unwrap().username, None);
    assert_eq!(core.set_user_username(ALICE, Some("".to_string())), Ok(()));
    assert_eq!(core.get_user(ALICE).unwrap().username, None);
}

#[test]
fn username_for_unknown_user_is_not_found() {
    let mut core = ChatCore::init();
    assert_eq!(
        core.set_user_username(ALICE, Some("x".to_string())),
        Err(ChatError::NotFound)
    );
}

#[test]
fn clearing_username_twice_is_idempotent() {
    let mut core = store_with(&[ALICE]);
    core.set_user_username(ALICE, Some("bob".to_string())).unwrap();
    core.set_user_username(ALICE, None).unwrap();
    let after_once = core.get_user(ALICE).unwrap().username.clone();
    core.set_user_username(ALICE, None).unwrap();
    let after_twice = core.get_user(ALICE).unwrap().username.clone();
    assert_eq!(after_once, None);
    assert_eq!(after_once, after_twice);
    assert_eq!(core.users.len(), 1);
}

#[test]
fn user_avatar_boundary() {
    let mut core = store_with(&[ALICE]);
    let just_fits = vec![0u8; 1_000_000];
    assert_eq!(core.set_user_avatar(ALICE, Some(just_fits.clone())), Ok(()));
    assert_eq!(core.get_user(ALICE).unwrap().avatar.as_ref().unwrap().len(), 1_000_000);
    let too_big = vec![0u8; 1_000_001];
    assert_eq!(
        core.set_user_avatar(ALICE, Some(too_big)),
        Err(ChatError::ValidationFailed)
    );
    // the rejected call left the row unchanged
    assert_eq!(core.get_user(ALICE).unwrap().avatar, Some(just_fits));
}

#[test]
fn group_avatar_boundary() {
    let mut core = store_with(&[ALICE]);
    core.create_group(ALICE, None, None, &vec![]).unwrap();
    let gid = core.groups[0].id;
    assert_eq!(core.set_group_avatar(gid, Some(vec![1u8; 1_000_000])), Ok(()));
    assert_eq!(
        core.set_group_avatar(gid, Some(vec![1u8; 1_000_001])),
        Err(ChatError::ValidationFailed)
    );
    assert_eq!(core.get_group(gid).unwrap().avatar.as_ref().unwrap().len(), 1_000_000);
}

#[test]
fn create_group_makes_caller_owner_and_member() {
    let mut core = store_with(&[ALICE, BOB]);
    assert_eq!(
        core.create_group(ALICE, Some(" my group ".to_string()), None, &vec![BOB]),
        Ok(())
    );
    let g = core.get_group(1).unwrap();
    assert_eq!(g.id, 1);
    assert_eq!(g.owner, ALICE);
    assert_eq!(g.name.as_deref(), Some("my group"));
    let mut members = g.users.clone();
    members.sort();
    assert_eq!(members, vec![ALICE, BOB]);
    assert_eq!(core.get_user(ALICE).unwrap().groups, vec![1]);
    assert_eq!(core.get_user(BOB).unwrap().groups, vec![1]);
}

#[test]
fn create_group_by_unknown_caller_is_not_found() {
    let mut core = ChatCore::init();
    assert_eq!(
        core.create_group(ALICE, None, None, &vec![]),
        Err(ChatError::NotFound)
    );
    assert!(core.groups.is_empty());
}

#[test]
fn group_ids_increase_and_are_never_reused() {
    let mut core = store_with(&[ALICE]);
    core.create_group(ALICE, None, None, &vec![]).unwrap();
    core.create_group(ALICE, None, None, &vec![]).unwrap();
    assert_eq!(core.groups[0].id, 1);
    assert_eq!(core.groups[1].id, 2);
    core.delete_group(2).unwrap();
    core.create_group(ALICE, None, None, &vec![]).unwrap();
    assert_eq!(core.groups[1].id, 3);
}

#[test]
fn add_group_users_skips_unknown_identities() {
    let mut core = store_with(&[ALICE, BOB]);
    core.create_group(ALICE, None, None, &vec![]).unwrap();
    assert_eq!(core.add_group_users(1, &vec![BOB, 999]), Ok(()));
    let mut members = core.get_group(1).unwrap().users.clone();
    members.sort();
    assert_eq!(members, vec![ALICE, BOB]);
}

#[test]
fn add_group_users_is_a_set_union() {
    let mut core = store_with(&[ALICE, BOB]);
    core.create_group(ALICE, None, None, &vec![BOB]).unwrap();
    let members_before = core.get_group(1).unwrap().users.clone();
    let groups_before = core.get_user(BOB).unwrap().groups.clone();
    // adding an already-present identity changes nothing observable
    assert_eq!(core.add_group_users(1, &vec![BOB, BOB]), Ok(()));
    assert_eq!(core.get_group(1).unwrap().users, members_before);
    assert_eq!(core.get_user(BOB).unwrap().groups, groups_before);
}

#[test]
fn batch_over_one_thousand_is_rejected() {
    let mut core = store_with(&[ALICE]);
    core.create_group(ALICE, None, None, &vec![]).unwrap();
    let batch: Vec<u64> = (0..1001).collect();
    assert_eq!(core.add_group_users(1, &batch), Err(ChatError::ValidationFailed));
    assert_eq!(core.remove_group_users(1, &batch), Err(ChatError::ValidationFailed));
    let exact: Vec<u64> = (1000..2000).collect();
    assert_eq!(core.add_group_users(1, &exact), Ok(()));
}

#[test]
fn remove_group_users_never_removes_owner() {
    let mut core = store_with(&[ALICE, BOB]);
    core.create_group(ALICE, None, None, &vec![BOB]).unwrap();
    assert_eq!(core.remove_group_users(1, &vec![ALICE, BOB]), Ok(()));
    assert_eq!(core.get_group(1).unwrap().users, vec![ALICE]);
    assert_eq!(core.get_user(ALICE).unwrap().groups, vec![1]);
    assert!(core.get_user(BOB).unwrap().groups.is_empty());
}

#[test]
fn set_group_owner_requires_current_owner() {
    let mut core = store_with(&[ALICE, BOB, CAROL]);
    core.create_group(ALICE, None, None, &vec![]).unwrap();
    assert_eq!(core.set_group_owner(BOB, 1, BOB), Err(ChatError::Unauthorized));
    assert_eq!(core.set_group_owner(ALICE, 1, 999), Err(ChatError::NotFound));
    assert_eq!(core.set_group_owner(ALICE, 1, BOB), Ok(()));
    assert_eq!(core.get_group(1).unwrap().owner, BOB);
}

#[test]
fn group_rename_is_open_to_any_caller() {
    let mut core = store_with(&[ALICE]);
    core.create_group(ALICE, Some("old".to_string()), None, &vec![]).unwrap();
    assert_eq!(core.set_group_name(1, Some("  new  ".to_string())), Ok(()));
    assert_eq!(core.get_group(1).unwrap().name.as_deref(), Some("new"));
    assert_eq!(core.set_group_name(1, None), Ok(()));
    assert_eq!(core.get_group(1).unwrap().name, None);
    assert_eq!(core.set_group_name(9, None), Err(ChatError::NotFound));
}

#[test]
fn message_length_boundary() {
    let mut core = store_with(&[ALICE, BOB]);
    let fits = "a".repeat(65_535);
    assert_eq!(
        core.send_message(ALICE, ReceiverIdentity::User { identity: BOB }, fits, 1),
        Ok(())
    );
    let over = "a".repeat(65_536);
    assert_eq!(
        core.send_message(ALICE, ReceiverIdentity::User { identity: BOB }, over, 1),
        Err(ChatError::ValidationFailed)
    );
    assert_eq!(core.messages.len(), 1);
}

#[test]
fn send_to_unknown_receiver_is_not_found() {
    let mut core = store_with(&[ALICE]);
    assert_eq!(
        core.send_message(ALICE, ReceiverIdentity::User { identity: BOB }, "hi".to_string(), 1),
        Err(ChatError::NotFound)
    );
    assert_eq!(
        core.send_message(ALICE, ReceiverIdentity::Group { id: 7 }, "hi".to_string(), 1),
        Err(ChatError::NotFound)
    );
    assert!(core.messages.is_empty());
}

#[test]
fn update_preserves_id_sender_and_created_at() {
    let mut core = store_with(&[ALICE, BOB]);
    core.send_message(ALICE, ReceiverIdentity::User { identity: BOB }, "first".to_string(), 10)
        .unwrap();
    let id = core.messages[0].id;
    assert_eq!(core.update_message(ALICE, id, "second".to_string(), 20), Ok(()));
    let m = &core.messages[0];
    assert_eq!(m.id, id);
    assert_eq!(m.sender, ALICE);
    assert_eq!(m.created_at, 10);
    assert_eq!(m.updated_at, 20);
    assert_eq!(m.message, "second");
    assert_eq!(m.receiver, ReceiverIdentity::User { identity: BOB });
}

#[test]
fn only_the_sender_may_edit_or_delete() {
    let mut core = store_with(&[ALICE, BOB]);
    core.send_message(ALICE, ReceiverIdentity::User { identity: BOB }, "hi".to_string(), 1)
        .unwrap();
    let id = core.messages[0].id;
    assert_eq!(
        core.update_message(BOB, id, "hacked".to_string(), 2),
        Err(ChatError::Unauthorized)
    );
    assert_eq!(core.delete_message(BOB, id), Err(ChatError::Unauthorized));
    assert_eq!(core.messages[0].message, "hi");
    assert_eq!(core.delete_message(ALICE, id), Ok(()));
    assert!(core.messages.is_empty());
    assert_eq!(core.delete_message(ALICE, id), Err(ChatError::NotFound));
    assert_eq!(
        core.update_message(ALICE, id, "x".to_string(), 3),
        Err(ChatError::NotFound)
    );
}
