use chat_core::state::ChatCore;
use chat_core::ChatError;
use chat_core::ReceiverIdentity;

const ALICE: u64 = 1;
const BOB: u64 = 2;
const CAROL: u64 = 3;

fn store_with(users: &[u64]) -> ChatCore {
    let mut core = ChatCore::init();
    for &u in users {
        core.identity_connected(u);
    }
    core
}

/// Both sides of the membership relation, read back from the rows.
fn membership_consistent(core: &ChatCore) -> bool {
    for u in &core.users {
        for gid in &u.groups {
            match core.get_group(*gid) {
                Some(g) => {
                    if !g.users.contains(&u.identity) {
                        return false;
                    }
                }
                None => return false,
            }
        }
    }
    for g in &core.groups {
        for member in &g.users {
            match core.get_user(*member) {
                Some(u) => {
                    if !u.groups.contains(&g.id) {
                        return false;
                    }
                }
                None => return false,
            }
        }
    }
    true
}

#[test]
fn membership_stays_mutual_through_every_procedure() {
    let mut core = store_with(&[ALICE, BOB, CAROL]);
    core.create_group(ALICE, None, None, &vec![BOB]).unwrap();
    assert!(membership_consistent(&core));
    core.add_group_users(1, &vec![CAROL, CAROL, 999]).unwrap();
    assert!(membership_consistent(&core));
    core.remove_group_users(1, &vec![ALICE, BOB]).unwrap();
    assert!(membership_consistent(&core));
    core.create_group(CAROL, None, None, &vec![ALICE, BOB]).unwrap();
    assert!(membership_consistent(&core));
    core.set_group_owner(CAROL, 2, ALICE).unwrap();
    assert!(membership_consistent(&core));
    core.delete_group(1).unwrap();
    assert!(membership_consistent(&core));
    core.identity_disconnected(BOB, 9);
    assert!(membership_consistent(&core));
}

#[test]
fn groups_view_shows_exactly_the_callers_groups() {
    let mut core = store_with(&[ALICE, BOB]);
    core.create_group(ALICE, Some("a".to_string()), None, &vec![]).unwrap();
    core.create_group(BOB, Some("b".to_string()), None, &vec![ALICE]).unwrap();
    let for_alice = core.groups(ALICE);
    let mut ids: Vec<u64> = for_alice.iter().map(|g| g.id).collect();
    ids.sort();
    assert_eq!(ids, vec![1, 2]);
    let for_bob = core.groups(BOB);
    assert_eq!(for_bob.len(), 1);
    assert_eq!(for_bob[0].id, 2);
    assert!(core.groups(CAROL).is_empty());
}

#[test]
fn messages_view_filters_by_entitlement_without_duplicates() {
    let mut core = store_with(&[ALICE, BOB, CAROL]);
    core.create_group(ALICE, None, None, &vec![BOB]).unwrap();
    // user A in group G sends a message to G
    core.send_message(ALICE, ReceiverIdentity::Group { id: 1 }, "to group".to_string(), 5)
        .unwrap();
    // member B sees it exactly once
    let for_bob = core.messages(BOB);
    assert_eq!(for_bob.len(), 1);
    assert_eq!(for_bob[0].message, "to group");
    assert_eq!(for_bob[0].sender, ALICE);
    // sender A sees it exactly once too, through the sender branch
    let for_alice = core.messages(ALICE);
    assert_eq!(for_alice.len(), 1);
    assert_eq!(for_alice[0].id, for_bob[0].id);
    // non-member C sees nothing
    assert!(core.messages(CAROL).is_empty());
}

#[test]
fn direct_messages_reach_both_ends_only() {
    let mut core = store_with(&[ALICE, BOB, CAROL]);
    core.send_message(ALICE, ReceiverIdentity::User { identity: BOB }, "psst".to_string(), 1)
        .unwrap();
    assert_eq!(core.messages(ALICE).len(), 1);
    assert_eq!(core.messages(BOB).len(), 1);
    assert!(core.messages(CAROL).is_empty());
}

#[test]
fn self_addressed_message_appears_once() {
    let mut core = store_with(&[ALICE]);
    core.send_message(ALICE, ReceiverIdentity::User { identity: ALICE }, "memo".to_string(), 1)
        .unwrap();
    assert_eq!(core.messages(ALICE).len(), 1);
}

#[test]
fn deleting_a_group_retracts_every_membership() {
    let mut core = store_with(&[ALICE, BOB, CAROL]);
    core.create_group(ALICE, None, None, &vec![BOB, CAROL]).unwrap();
    core.send_message(BOB, ReceiverIdentity::Group { id: 1 }, "kept".to_string(), 2)
        .unwrap();
    assert_eq!(core.delete_group(1), Ok(()));
    assert!(core.get_group(1).is_none());
    for who in [ALICE, BOB, CAROL] {
        assert!(core.get_user(who).unwrap().groups.is_empty());
        assert!(core.groups(who).is_empty());
    }
    // messages addressed to the group are not retroactively invalidated
    assert_eq!(core.messages.len(), 1);
    // the sender still sees its own outgoing message
    assert_eq!(core.messages(BOB).len(), 1);
    assert!(core.messages(CAROL).is_empty());
}

#[test]
fn deleting_an_unknown_group_is_not_found_and_changes_nothing() {
    let mut core = store_with(&[ALICE]);
    core.create_group(ALICE, None, None, &vec![]).unwrap();
    assert_eq!(core.delete_group(42), Err(ChatError::NotFound));
    assert_eq!(core.groups.len(), 1);
    assert_eq!(core.get_user(ALICE).unwrap().groups, vec![1]);
}

#[test]
fn view_updates_follow_membership_changes() {
    let mut core = store_with(&[ALICE, BOB]);
    core.create_group(ALICE, None, None, &vec![]).unwrap();
    core.send_message(ALICE, ReceiverIdentity::Group { id: 1 }, "early".to_string(), 1)
        .unwrap();
    assert!(core.messages(BOB).is_empty());
    core.add_group_users(1, &vec![BOB]).unwrap();
    assert_eq!(core.messages(BOB).len(), 1);
    core.remove_group_users(1, &vec![BOB]).unwrap();
    assert!(core.messages(BOB).is_empty());
}
