//! Lifecycle hooks and the user-row mutation procedures.

use vstd::prelude::*;

use crate::rows::ChatError;
use crate::rows::UserStatus;
use crate::rows::User;
use crate::rows::UserView;
use crate::rows::bytes_view;
use crate::rows::text_view;
use crate::state::ChatCore;
use crate::state::StateView;
use crate::state::lemma_user_index_is;
use crate::membership::lemma_map_values_update;
use crate::text::MAX_AVATAR_BYTES;
use crate::text::normalize_name;
use crate::text::normalized;

verus! {

/// Exactly the user row at `i` was replaced by `qu`; everything else stands.
pub open spec fn only_user_changed(pre: StateView, post: StateView, i: int, qu: UserView) -> bool {
    &&& post.users == pre.users.update(i, qu)
    &&& post.groups == pre.groups
    &&& post.messages == pre.messages
    &&& post.next_group_id == pre.next_group_id
    &&& post.next_message_id == pre.next_message_id
}

/// Replacing a user row without touching its key or its group list
/// preserves well-formedness.
pub proof fn lemma_user_payload_update_wf(pre: StateView, post: StateView, i: int, qu: UserView)
    requires
        pre.wf(),
        0 <= i < pre.users.len(),
        qu.identity == pre.users[i].identity,
        qu.groups == pre.users[i].groups,
        only_user_changed(pre, post, i, qu),
    ensures
        post.wf(),
{
    assert forall|j: int| 0 <= j < post.groups.len() implies post.has_user(
        #[trigger] post.groups[j].owner,
    ) by {
        assert(pre.has_user(pre.groups[j].owner));
        let k = pre.user_index(pre.groups[j].owner);
        assert(post.users[k].identity == post.groups[j].owner);
    }
    assert forall|j: int, k: int|
        0 <= j < post.groups.len() && 0 <= k < post.groups[j].users.len() implies post.has_user(
        #[trigger] post.groups[j].users[k],
    ) by {
        let id = post.groups[j].users[k];
        assert(pre.has_user(id));
        let q = pre.user_index(id);
        assert(post.users[q].identity == id);
    }
}

/// A fresh user row with an empty group list can join the store.
pub proof fn lemma_new_user_wf(pre: StateView, post: StateView, nu: UserView)
    requires
        pre.wf(),
        !pre.has_user(nu.identity),
        nu.groups == Seq::<u64>::empty(),
        post.users == pre.users.push(nu),
        post.groups == pre.groups,
        post.messages == pre.messages,
        post.next_group_id == pre.next_group_id,
        post.next_message_id == pre.next_message_id,
    ensures
        post.wf(),
{
    let n = pre.users.len() as int;
    assert forall|i: int, j: int|
        0 <= i < post.users.len() && 0 <= j < post.users.len() && i != j implies post.users[i].identity
        != post.users[j].identity by {
        if i < n && j < n {
        } else if i == n {
            assert(pre.users[j].identity != nu.identity);
        } else {
            assert(pre.users[i].identity != nu.identity);
        }
    }
    assert(post.keys_unique());
    assert(post.member_lists_clean());
    assert forall|i: int, k: int|
        0 <= i < post.users.len() && 0 <= k < post.users[i].groups.len() implies post.has_group(
        #[trigger] post.users[i].groups[k],
    ) by {
        assert(i < n);
        assert(pre.has_group(pre.users[i].groups[k]));
    }
    assert forall|j: int, k: int|
        0 <= j < post.groups.len() && 0 <= k < post.groups[j].users.len() implies post.has_user(
        #[trigger] post.groups[j].users[k],
    ) by {
        let id = post.groups[j].users[k];
        assert(pre.has_user(id));
        let q = pre.user_index(id);
        assert(post.users[q].identity == id);
    }
    assert forall|j: int| 0 <= j < post.groups.len() implies post.has_user(
        #[trigger] post.groups[j].owner,
    ) by {
        assert(pre.has_user(pre.groups[j].owner));
        let q = pre.user_index(pre.groups[j].owner);
        assert(post.users[q].identity == post.groups[j].owner);
    }
    assert(post.references_resolve());
    assert forall|i: int, j: int|
        0 <= i < post.users.len() && 0 <= j < post.groups.len() implies (
    (#[trigger] post.users[i].groups).contains(post.groups[j].id) <==> (
    #[trigger] post.groups[j].users).contains(post.users[i].identity)) by {
        if i < n {
        } else {
            assert(!post.users[i].groups.contains(post.groups[j].id));
            if pre.groups[j].users.contains(nu.identity) {
                let k = choose|k: int|
                    0 <= k < pre.groups[j].users.len() && pre.groups[j].users[k] == nu.identity;
                assert(pre.has_user(pre.groups[j].users[k]));
            }
        }
    }
    assert(post.ids_bounded());
}

impl ChatCore {
    /// A session opened for `caller`: mark the user online, creating the
    /// row — no name, no avatar, no groups — on first connection.
    pub fn identity_connected(&mut self, caller: u64)
        requires
            old(self).wf(),
        ensures
            final(self).wf(),
            final(self)@.has_user(caller),
            old(self)@.has_user(caller) ==> only_user_changed(
                old(self)@,
                final(self)@,
                old(self)@.user_index(caller),
                UserView { status: UserStatus::Online, ..old(self)@.user_of(caller) },
            ),
            !old(self)@.has_user(caller) ==> {
                &&& final(self)@.users == old(self)@.users.push(
                    UserView {
                        identity: caller,
                        status: UserStatus::Online,
                        username: None,
                        avatar: None,
                        groups: Seq::<u64>::empty(),
                    },
                )
                &&& final(self)@.groups == old(self)@.groups
                &&& final(self)@.messages == old(self)@.messages
                &&& final(self)@.next_group_id == old(self)@.next_group_id
                &&& final(self)@.next_message_id == old(self)@.next_message_id
            },
    {
        let ghost pre = self@;
        match self.find_user_index(caller) {
            Some(ui) => {
                let mut u = self.users.remove(ui);
                u.status = UserStatus::Online;
                self.users.insert(ui, u);
                proof {
                    assert(self.users@ =~= old(self).users@.update(
                        ui as int,
                        self.users@[ui as int],
                    ));
                    lemma_map_values_update(
                        old(self).users@,
                        |x: User| x@,
                        ui as int,
                        self.users@[ui as int],
                    );
                    lemma_user_index_is(pre, ui as int);
                    assert(self@.users =~= pre.users.update(
                        ui as int,
                        UserView { status: UserStatus::Online, ..pre.user_of(caller) },
                    ));
                    lemma_user_payload_update_wf(
                        pre,
                        self@,
                        ui as int,
                        UserView { status: UserStatus::Online, ..pre.user_of(caller) },
                    );
                    assert(self@.users[ui as int].identity == caller);
                }
            },
            None => {
                self.users.push(
                    User {
                        identity: caller,
                        status: UserStatus::Online,
                        username: None,
                        avatar: None,
                        groups: Vec::new(),
                    },
                );
                proof {
                    assert(self@.users =~= pre.users.push(
                        UserView {
                            identity: caller,
                            status: UserStatus::Online,
                            username: None,
                            avatar: None,
                            groups: Seq::<u64>::empty(),
                        },
                    ));
                    lemma_new_user_wf(pre, self@, self@.users.last());
                    assert(self@.users[pre.users.len() as int].identity == caller);
                }
            },
        }
    }

    /// A session closed for `caller`: mark the user offline at `now`.
    /// A disconnect for an untracked identity is a stale session: the store
    /// stands unchanged, and reporting is left to the embedding.
    pub fn identity_disconnected(&mut self, caller: u64, now: u64)
        requires
            old(self).wf(),
        ensures
            final(self).wf(),
            old(self)@.has_user(caller) ==> only_user_changed(
                old(self)@,
                final(self)@,
                old(self)@.user_index(caller),
                UserView { status: UserStatus::Offline { at: now }, ..old(self)@.user_of(caller) },
            ),
            !old(self)@.has_user(caller) ==> final(self)@ == old(self)@,
    {
        let ghost pre = self@;
        match self.find_user_index(caller) {
            Some(ui) => {
                let mut u = self.users.remove(ui);
                u.status = UserStatus::Offline { at: now };
                self.users.insert(ui, u);
                proof {
                    assert(self.users@ =~= old(self).users@.update(
                        ui as int,
                        self.users@[ui as int],
                    ));
                    lemma_map_values_update(
                        old(self).users@,
                        |x: User| x@,
                        ui as int,
                        self.users@[ui as int],
                    );
                    lemma_user_index_is(pre, ui as int);
                    assert(self@.users =~= pre.users.update(
                        ui as int,
                        UserView {
                            status: UserStatus::Offline { at: now },
                            ..pre.user_of(caller)
                        },
                    ));
                    lemma_user_payload_update_wf(
                        pre,
                        self@,
                        ui as int,
                        UserView {
                            status: UserStatus::Offline { at: now },
                            ..pre.user_of(caller)
                        },
                    );
                }
            },
            None => {},
        }
    }

    /// Stores the caller's display name: trimmed, an empty or
    /// all-whitespace name as absent. The caller must already exist.
    pub fn set_user_username(&mut self, caller: u64, username: Option<String>) -> (r: Result<
        (),
        ChatError,
    >)
        requires
            old(self).wf(),
        ensures
            final(self).wf(),
            r is Ok <==> old(self)@.has_user(caller),
            r is Err ==> r == Err::<(), ChatError>(ChatError::NotFound) && final(self)@ == old(
                self,
            )@,
            r is Ok ==> only_user_changed(
                old(self)@,
                final(self)@,
                old(self)@.user_index(caller),
                UserView {
                    username: normalized(text_view(username)),
                    ..old(self)@.user_of(caller)
                },
            ),
    {
        let ghost pre = self@;
        let Some(ui) = self.find_user_index(caller) else {
            return Err(ChatError::NotFound);
        };
        let stored = normalize_name(username);
        let mut u = self.users.remove(ui);
        u.username = stored;
        self.users.insert(ui, u);
        proof {
            assert(self.users@ =~= old(self).users@.update(ui as int, self.users@[ui as int]));
            lemma_map_values_update(
                old(self).users@,
                |x: User| x@,
                ui as int,
                self.users@[ui as int],
            );
            lemma_user_index_is(pre, ui as int);
            assert(self@.users =~= pre.users.update(
                ui as int,
                UserView { username: normalized(text_view(username)), ..pre.user_of(caller) },
            ));
            lemma_user_payload_update_wf(
                pre,
                self@,
                ui as int,
                UserView { username: normalized(text_view(username)), ..pre.user_of(caller) },
            );
        }
        Ok(())
    }

    /// Stores the caller's avatar. A present avatar over `MAX_AVATAR_BYTES`
    /// bytes is rejected before any row is touched; the caller must exist.
    pub fn set_user_avatar(&mut self, caller: u64, avatar: Option<Vec<u8>>) -> (r: Result<
        (),
        ChatError,
    >)
        requires
            old(self).wf(),
        ensures
            final(self).wf(),
            r is Ok <==> (bytes_view(avatar) matches Some(b) ==> b.len() <= MAX_AVATAR_BYTES)
                && old(self)@.has_user(caller),
            r is Err ==> final(self)@ == old(self)@,
            r == if bytes_view(avatar) matches Some(b) && b.len() > MAX_AVATAR_BYTES {
                Err::<(), ChatError>(ChatError::ValidationFailed)
            } else if !old(self)@.has_user(caller) {
                Err::<(), ChatError>(ChatError::NotFound)
            } else {
                Ok::<(), ChatError>(())
            },
            r is Ok ==> only_user_changed(
                old(self)@,
                final(self)@,
                old(self)@.user_index(caller),
                UserView { avatar: bytes_view(avatar), ..old(self)@.user_of(caller) },
            ),
    {
        let ghost pre = self@;
        if let Some(bytes) = &avatar {
            if bytes.len() > MAX_AVATAR_BYTES {
                return Err(ChatError::ValidationFailed);
            }
        }
        let Some(ui) = self.find_user_index(caller) else {
            return Err(ChatError::NotFound);
        };
        let mut u = self.users.remove(ui);
        u.avatar = avatar;
        self.users.insert(ui, u);
        proof {
            assert(self.users@ =~= old(self).users@.update(ui as int, self.users@[ui as int]));
            lemma_map_values_update(
                old(self).users@,
                |x: User| x@,
                ui as int,
                self.users@[ui as int],
            );
            lemma_user_index_is(pre, ui as int);
            assert(self@.users =~= pre.users.update(
                ui as int,
                UserView { avatar: self@.users[ui as int].avatar, ..pre.user_of(caller) },
            ));
            lemma_user_payload_update_wf(
                pre,
                self@,
                ui as int,
                self@.users[ui as int],
            );
        }
        Ok(())
    }
}

} // verus!
