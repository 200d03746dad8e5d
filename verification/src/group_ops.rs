//! The group mutation procedures.

use vstd::prelude::*;

use crate::rows::ChatError;
use crate::rows::Group;
use crate::rows::GroupView;
use crate::rows::UserView;
use crate::rows::bytes_view;
use crate::rows::text_view;
use crate::state::ChatCore;
use crate::state::StateView;
use crate::state::lemma_group_index_is;
use crate::membership::add_id;
use crate::membership::drained_to;
use crate::membership::grows_to;
use crate::membership::lemma_map_values_update;
use crate::membership::link_applied;
use crate::text::MAX_AVATAR_BYTES;
use crate::text::normalize_name;
use crate::text::normalized;

verus! {

/// Largest batch of identities one add or remove call may carry.
pub const MAX_BATCH_IDENTITIES: usize = 1000;

/// Exactly the group row at `j` was replaced by `qg`; everything else stands.
pub open spec fn only_group_changed(pre: StateView, post: StateView, j: int, qg: GroupView) -> bool {
    &&& post.users == pre.users
    &&& post.groups == pre.groups.update(j, qg)
    &&& post.messages == pre.messages
    &&& post.next_group_id == pre.next_group_id
    &&& post.next_message_id == pre.next_message_id
}

/// Replacing a group row without touching its id or its member list — and
/// keeping an owner that resolves — preserves well-formedness.
pub proof fn lemma_group_payload_update_wf(pre: StateView, post: StateView, j: int, qg: GroupView)
    requires
        pre.wf(),
        0 <= j < pre.groups.len(),
        qg.id == pre.groups[j].id,
        qg.users == pre.groups[j].users,
        pre.has_user(qg.owner),
        only_group_changed(pre, post, j, qg),
    ensures
        post.wf(),
{
    assert forall|i: int, k: int|
        0 <= i < post.users.len() && 0 <= k < post.users[i].groups.len() implies post.has_group(
        #[trigger] post.users[i].groups[k],
    ) by {
        let id = post.users[i].groups[k];
        assert(pre.has_group(id));
        let q = pre.group_index(id);
        assert(post.groups[q].id == id);
    }
}

impl ChatCore {
    /// Stores the group's display name, trimmed, an empty result as absent.
    /// Any caller may rename any known group.
    pub fn set_group_name(&mut self, group_id: u64, name: Option<String>) -> (r: Result<
        (),
        ChatError,
    >)
        requires
            old(self).wf(),
        ensures
            final(self).wf(),
            r is Ok <==> old(self)@.has_group(group_id),
            r is Err ==> r == Err::<(), ChatError>(ChatError::NotFound) && final(self)@ == old(
                self,
            )@,
            r is Ok ==> only_group_changed(
                old(self)@,
                final(self)@,
                old(self)@.group_index(group_id),
                GroupView {
                    name: normalized(text_view(name)),
                    ..old(self)@.group_of(group_id)
                },
            ),
    {
        let ghost pre = self@;
        let Some(gj) = self.find_group_index(group_id) else {
            return Err(ChatError::NotFound);
        };
        let stored = normalize_name(name);
        let mut g = self.groups.remove(gj);
        g.name = stored;
        self.groups.insert(gj, g);
        proof {
            assert(self.groups@ =~= old(self).groups@.update(gj as int, self.groups@[gj as int]));
            lemma_map_values_update(
                old(self).groups@,
                |x: Group| x@,
                gj as int,
                self.groups@[gj as int],
            );
            lemma_group_index_is(pre, gj as int);
            assert(self@.groups =~= pre.groups.update(
                gj as int,
                GroupView { name: normalized(text_view(name)), ..pre.group_of(group_id) },
            ));
            lemma_group_payload_update_wf(
                pre,
                self@,
                gj as int,
                GroupView { name: normalized(text_view(name)), ..pre.group_of(group_id) },
            );
        }
        Ok(())
    }

    /// Stores the group's avatar; a present avatar over `MAX_AVATAR_BYTES`
    /// bytes is rejected before any row is touched.
    pub fn set_group_avatar(&mut self, group_id: u64, avatar: Option<Vec<u8>>) -> (r: Result<
        (),
        ChatError,
    >)
        requires
            old(self).wf(),
        ensures
            final(self).wf(),
            r is Err ==> final(self)@ == old(self)@,
            r == if bytes_view(avatar) matches Some(b) && b.len() > MAX_AVATAR_BYTES {
                Err::<(), ChatError>(ChatError::ValidationFailed)
            } else if !old(self)@.has_group(group_id) {
                Err::<(), ChatError>(ChatError::NotFound)
            } else {
                Ok::<(), ChatError>(())
            },
            r is Ok ==> only_group_changed(
                old(self)@,
                final(self)@,
                old(self)@.group_index(group_id),
                GroupView { avatar: bytes_view(avatar), ..old(self)@.group_of(group_id) },
            ),
    {
        let ghost pre = self@;
        if let Some(bytes) = &avatar {
            if bytes.len() > MAX_AVATAR_BYTES {
                return Err(ChatError::ValidationFailed);
            }
        }
        let Some(gj) = self.find_group_index(group_id) else {
            return Err(ChatError::NotFound);
        };
        let mut g = self.groups.remove(gj);
        g.avatar = avatar;
        self.groups.insert(gj, g);
        proof {
            assert(self.groups@ =~= old(self).groups@.update(gj as int, self.groups@[gj as int]));
            lemma_map_values_update(
                old(self).groups@,
                |x: Group| x@,
                gj as int,
                self.groups@[gj as int],
            );
            lemma_group_index_is(pre, gj as int);
            assert(self@.groups =~= pre.groups.update(
                gj as int,
                GroupView { avatar: self@.groups[gj as int].avatar, ..pre.group_of(group_id) },
            ));
            lemma_group_payload_update_wf(pre, self@, gj as int, self@.groups[gj as int]);
        }
        Ok(())
    }

    /// Hands the group to a new owner. Only the current owner may transfer
    /// ownership, and the new owner must be a known user.
    pub fn set_group_owner(&mut self, caller: u64, group_id: u64, new_owner: u64) -> (r: Result<
        (),
        ChatError,
    >)
        requires
            old(self).wf(),
        ensures
            final(self).wf(),
            r is Err ==> final(self)@ == old(self)@,
            r == if !old(self)@.has_group(group_id) {
                Err::<(), ChatError>(ChatError::NotFound)
            } else if old(self)@.group_of(group_id).owner != caller {
                Err::<(), ChatError>(ChatError::Unauthorized)
            } else if !old(self)@.has_user(new_owner) {
                Err::<(), ChatError>(ChatError::NotFound)
            } else {
                Ok::<(), ChatError>(())
            },
            r is Ok ==> only_group_changed(
                old(self)@,
                final(self)@,
                old(self)@.group_index(group_id),
                GroupView { owner: new_owner, ..old(self)@.group_of(group_id) },
            ),
    {
        let ghost pre = self@;
        let Some(gj) = self.find_group_index(group_id) else {
            return Err(ChatError::NotFound);
        };
        proof {
            lemma_group_index_is(pre, gj as int);
        }
        if self.groups[gj].owner != caller {
            return Err(ChatError::Unauthorized);
        }
        if self.find_user_index(new_owner).is_none() {
            return Err(ChatError::NotFound);
        }
        let mut g = self.groups.remove(gj);
        g.owner = new_owner;
        self.groups.insert(gj, g);
        proof {
            assert(self.groups@ =~= old(self).groups@.update(gj as int, self.groups@[gj as int]));
            lemma_map_values_update(
                old(self).groups@,
                |x: Group| x@,
                gj as int,
                self.groups@[gj as int],
            );
            assert(self@.groups =~= pre.groups.update(
                gj as int,
                GroupView { owner: new_owner, ..pre.group_of(group_id) },
            ));
            lemma_group_payload_update_wf(pre, self@, gj as int, self@.groups[gj as int]);
        }
        Ok(())
    }
}

/// The identities of a batch that resolve to known users.
pub open spec fn joined_of(pre: StateView, ids: Seq<u64>) -> Set<u64> {
    ids.to_set().filter(|x: u64| pre.has_user(x))
}

/// One user row across a batch add: the key and payload stand; the group
/// list gains `gid` exactly when the identity is in the joining set.
pub open spec fn user_gains(pu: UserView, qu: UserView, gid: u64, joined: Set<u64>) -> bool {
    &&& qu.identity == pu.identity
    &&& qu.status == pu.status
    &&& qu.username == pu.username
    &&& qu.avatar == pu.avatar
    &&& if joined.contains(pu.identity) {
        grows_to(pu.groups, set![gid], qu.groups)
    } else {
        qu.groups == pu.groups
    }
}

/// A batch add against the group at `gi`: the group's member set gains
/// exactly `joined`, each joined user's group set gains the group's id,
/// and nothing else moves.
pub open spec fn add_effect(pre: StateView, post: StateView, gi: int, joined: Set<u64>) -> bool {
    let gid = pre.groups[gi].id;
    &&& post.users.len() == pre.users.len()
    &&& forall|i: int|
        0 <= i < pre.users.len() ==> user_gains(pre.users[i], #[trigger] post.users[i], gid, joined)
    &&& post.groups.len() == pre.groups.len()
    &&& forall|j: int| 0 <= j < pre.groups.len() && j != gi ==> post.groups[j] == pre.groups[j]
    &&& post.groups[gi].id == gid
    &&& post.groups[gi].owner == pre.groups[gi].owner
    &&& post.groups[gi].name == pre.groups[gi].name
    &&& post.groups[gi].avatar == pre.groups[gi].avatar
    &&& grows_to(pre.groups[gi].users, joined, post.groups[gi].users)
    &&& post.messages == pre.messages
    &&& post.next_group_id == pre.next_group_id
    &&& post.next_message_id == pre.next_message_id
}

/// A batch add that has joined nobody yet has changed nothing.
pub proof fn lemma_add_effect_init(pre: StateView, gi: int)
    requires
        pre.wf(),
        0 <= gi < pre.groups.len(),
    ensures
        add_effect(pre, pre, gi, Set::<u64>::empty()),
{
    assert forall|i: int| 0 <= i < pre.users.len() implies user_gains(
        pre.users[i],
        #[trigger] pre.users[i],
        pre.groups[gi].id,
        Set::<u64>::empty(),
    ) by {
    }
    assert(pre.groups[gi].users.subrange(0, pre.groups[gi].users.len() as int) =~= pre.groups[
        gi
    ].users);
    assert(pre.groups[gi].users.to_set() =~= pre.groups[gi].users.to_set().union(
        Set::<u64>::empty(),
    ));
}

/// Linking one more known user extends a batch add by that identity.
pub proof fn lemma_add_effect_step(
    pre: StateView,
    mid: StateView,
    post: StateView,
    gi: int,
    ui: int,
    joined: Set<u64>,
)
    requires
        pre.wf(),
        0 <= gi < pre.groups.len(),
        0 <= ui < pre.users.len(),
        add_effect(pre, mid, gi, joined),
        link_applied(mid, post, gi, ui),
    ensures
        add_effect(pre, post, gi, joined.insert(pre.users[ui].identity)),
{
    broadcast use vstd::seq_lib::lemma_seq_contains_after_push;

    let gid = pre.groups[gi].id;
    let uid = pre.users[ui].identity;
    let joined2 = joined.insert(uid);
    assert(mid.users[ui].identity == uid);
    assert(mid.groups[gi].id == gid);
    // the user at ui now carries gid
    let mu = mid.users[ui].groups;
    let qu = add_id(mu, gid);
    assert(post.users[ui].groups == qu);
    if joined.contains(uid) {
        assert(grows_to(pre.users[ui].groups, set![gid], mu));
        assert(mu.to_set().contains(gid));
        assert(mu.contains(gid));
        assert(qu == mu);
    } else {
        assert(mu == pre.users[ui].groups);
        if mu.contains(gid) {
            assert(qu == mu);
            assert(mu.subrange(0, mu.len() as int) =~= mu);
            assert(mu.to_set() =~= mu.to_set().union(set![gid]));
        } else {
            assert(qu == mu.push(gid));
            assert(qu.subrange(0, mu.len() as int) =~= mu);
            assert(qu.to_set() =~= mu.to_set().union(set![gid]));
            assert forall|a: int, b: int|
                0 <= a < qu.len() && 0 <= b < qu.len() && a != b implies qu[a] != qu[b] by {
                if a < mu.len() && b < mu.len() {
                    assert(mu[a] != mu[b]);
                } else if a == mu.len() {
                    assert(!mu.contains(qu[a]));
                } else if b == mu.len() {
                    assert(!mu.contains(qu[b]));
                }
            }
        }
    }
    assert forall|i: int| 0 <= i < pre.users.len() implies user_gains(
        pre.users[i],
        #[trigger] post.users[i],
        gid,
        joined2,
    ) by {
        if i != ui {
            assert(post.users[i] == mid.users[i]);
            if pre.users[i].identity == uid {
                assert(pre.users[i].identity != pre.users[ui].identity || i == ui);
            }
            if joined.contains(pre.users[i].identity) {
            } else if joined2.contains(pre.users[i].identity) {
                assert(pre.users[i].identity == uid);
            }
        } else {
            assert(user_gains(pre.users[ui], post.users[ui], gid, joined2));
        }
    }
    // the group side
    let mg = mid.groups[gi].users;
    let qg = add_id(mg, uid);
    assert(post.groups[gi].users == qg);
    assert(grows_to(pre.groups[gi].users, joined, mg));
    if mg.contains(uid) {
        assert(qg == mg);
        assert(mg.to_set() =~= pre.groups[gi].users.to_set().union(joined2));
    } else {
        assert(qg == mg.push(uid));
        assert(qg.subrange(0, pre.groups[gi].users.len() as int) =~= mg.subrange(
            0,
            pre.groups[gi].users.len() as int,
        ));
        assert forall|y: u64| qg.contains(y) implies mg.contains(y) || y == uid by {
            let q = choose|q: int| 0 <= q < qg.len() && qg[q] == y;
            if q < mg.len() {
                assert(mg[q] == y);
            }
        }
        assert(qg.to_set() =~= mg.to_set().insert(uid));
        assert(qg.to_set() =~= pre.groups[gi].users.to_set().union(joined2));
        assert forall|a: int, b: int|
            0 <= a < qg.len() && 0 <= b < qg.len() && a != b implies qg[a] != qg[b] by {
            if a < mg.len() && b < mg.len() {
                assert(mg[a] != mg[b]);
            } else if a == mg.len() {
                assert(!mg.contains(qg[a]));
            } else if b == mg.len() {
                assert(!mg.contains(qg[b]));
            }
        }
    }
    assert forall|j: int| 0 <= j < pre.groups.len() && j != gi implies post.groups[j] == pre.groups[
        j
    ] by {
        assert(post.groups[j] == mid.groups[j]);
    }
}

/// The joining set of a batch, one identity longer.
pub proof fn lemma_joined_take_step(pre: StateView, ids: Seq<u64>, k: int)
    requires
        0 <= k < ids.len(),
    ensures
        joined_of(pre, ids.take(k + 1)) == if pre.has_user(ids[k]) {
            joined_of(pre, ids.take(k)).insert(ids[k])
        } else {
            joined_of(pre, ids.take(k))
        },
{
    let shorter = ids.take(k);
    let longer = ids.take(k + 1);
    assert forall|y: u64| longer.contains(y) implies shorter.contains(y) || y == ids[k] by {
        let q = choose|q: int| 0 <= q < longer.len() && longer[q] == y;
        if q < k {
            assert(shorter[q] == y);
        }
    }
    assert forall|y: u64| shorter.contains(y) implies longer.contains(y) by {
        let q = choose|q: int| 0 <= q < shorter.len() && shorter[q] == y;
        assert(longer[q] == y);
    }
    assert(longer[k] == ids[k]);
    assert(longer.contains(ids[k]));
    if pre.has_user(ids[k]) {
        assert(joined_of(pre, longer) =~= joined_of(pre, shorter).insert(ids[k]));
    } else {
        assert(joined_of(pre, longer) =~= joined_of(pre, shorter));
    }
}

impl ChatCore {
    /// Joins every identity of the batch that resolves to a known user to
    /// the group at `gi`; the others are passed over.
    fn link_batch(&mut self, gi: usize, user_identities: &Vec<u64>)
        requires
            old(self).wf(),
            gi < old(self)@.groups.len(),
        ensures
            final(self).wf(),
            add_effect(
                old(self)@,
                final(self)@,
                gi as int,
                joined_of(old(self)@, user_identities@),
            ),
    {
        let ghost pre = self@;
        proof {
            lemma_add_effect_init(pre, gi as int);
            assert(user_identities@.take(0) =~= Seq::<u64>::empty());
            assert(joined_of(pre, user_identities@.take(0)) =~= Set::<u64>::empty());
        }
        let n = user_identities.len();
        for k in 0..n
            invariant
                self.wf(),
                n == user_identities.len(),
                gi < pre.groups.len(),
                pre.wf(),
                add_effect(pre, self@, gi as int, joined_of(pre, user_identities@.take(k as int))),
        {
            let id = user_identities[k];
            let ghost joined = joined_of(pre, user_identities@.take(k as int));
            proof {
                lemma_joined_take_step(pre, user_identities@, k as int);
            }
            let ghost mid = self@;
            match self.find_user_index(id) {
                Some(ui) => {
                    proof {
                        assert(mid.users[ui as int].identity == id);
                        assert(pre.users[ui as int].identity == id);
                        assert(pre.has_user(id));
                    }
                    self.link(gi, ui);
                    proof {
                        lemma_add_effect_step(pre, mid, self@, gi as int, ui as int, joined);
                    }
                },
                None => {
                    proof {
                        if pre.has_user(id) {
                            let q = pre.user_index(id);
                            assert(mid.users[q].identity == id);
                            assert(mid.has_user(id));
                        }
                    }
                },
            }
        }
        proof {
            assert(user_identities@.take(n as int) =~= user_identities@);
        }
    }

    /// Adds a batch of users to a group. Batches over
    /// `MAX_BATCH_IDENTITIES` are rejected outright; identities that do not
    /// resolve to a user are passed over, which is not an error.
    pub fn add_group_users(&mut self, group_id: u64, user_identities: &Vec<u64>) -> (r: Result<
        (),
        ChatError,
    >)
        requires
            old(self).wf(),
        ensures
            final(self).wf(),
            r is Err ==> final(self)@ == old(self)@,
            r == if user_identities@.len() > MAX_BATCH_IDENTITIES {
                Err::<(), ChatError>(ChatError::ValidationFailed)
            } else if !old(self)@.has_group(group_id) {
                Err::<(), ChatError>(ChatError::NotFound)
            } else {
                Ok::<(), ChatError>(())
            },
            r is Ok ==> add_effect(
                old(self)@,
                final(self)@,
                old(self)@.group_index(group_id),
                joined_of(old(self)@, user_identities@),
            ),
    {
        if user_identities.len() > MAX_BATCH_IDENTITIES {
            return Err(ChatError::ValidationFailed);
        }
        let Some(gj) = self.find_group_index(group_id) else {
            return Err(ChatError::NotFound);
        };
        proof {
            lemma_group_index_is(self@, gj as int);
        }
        self.link_batch(gj, user_identities);
        Ok(())
    }
}

/// What `create_group` does: one fresh group row owned by the caller, the
/// caller plus every resolving identity of the batch as members, the
/// matching gain in each member's group set, and a bumped group counter.
pub open spec fn create_applied(
    pre: StateView,
    post: StateView,
    caller: u64,
    name: Option<Seq<char>>,
    avatar: Option<Seq<u8>>,
    ids: Seq<u64>,
) -> bool {
    let gid = pre.next_group_id;
    let ng = post.groups.last();
    &&& post.groups.len() == pre.groups.len() + 1
    &&& forall|j: int| 0 <= j < pre.groups.len() ==> post.groups[j] == pre.groups[j]
    &&& ng.id == gid
    &&& ng.owner == caller
    &&& ng.name == normalized(name)
    &&& ng.avatar == avatar
    &&& grows_to(seq![caller], joined_of(pre, ids), ng.users)
    &&& post.users.len() == pre.users.len()
    &&& forall|i: int|
        0 <= i < pre.users.len() ==> user_gains(
            pre.users[i],
            #[trigger] post.users[i],
            gid,
            joined_of(pre, ids).insert(caller),
        )
    &&& post.messages == pre.messages
    &&& post.next_group_id == pre.next_group_id + 1
    &&& post.next_message_id == pre.next_message_id
}

/// A fresh group row with no members, a known owner and the next id can
/// join the store.
pub proof fn lemma_new_group_wf(pre: StateView, post: StateView, ng: GroupView)
    requires
        pre.wf(),
        pre.next_group_id < u64::MAX,
        ng.users == Seq::<u64>::empty(),
        pre.has_user(ng.owner),
        ng.id == pre.next_group_id,
        post.users == pre.users,
        post.groups == pre.groups.push(ng),
        post.messages == pre.messages,
        post.next_group_id == pre.next_group_id + 1,
        post.next_message_id == pre.next_message_id,
    ensures
        post.wf(),
{
    let n = pre.groups.len() as int;
    assert forall|i: int, j: int|
        0 <= i < post.groups.len() && 0 <= j < post.groups.len() && i != j implies post.groups[i].id
        != post.groups[j].id by {
        if i < n && j < n {
        } else if i == n {
            assert(pre.groups[j].id < pre.next_group_id);
        } else {
            assert(pre.groups[i].id < pre.next_group_id);
        }
    }
    assert(post.keys_unique());
    assert(post.member_lists_clean());
    assert forall|i: int, k: int|
        0 <= i < post.users.len() && 0 <= k < post.users[i].groups.len() implies post.has_group(
        #[trigger] post.users[i].groups[k],
    ) by {
        let id = post.users[i].groups[k];
        assert(pre.has_group(id));
        let q = pre.group_index(id);
        assert(post.groups[q].id == id);
    }
    assert forall|j: int, k: int|
        0 <= j < post.groups.len() && 0 <= k < post.groups[j].users.len() implies post.has_user(
        #[trigger] post.groups[j].users[k],
    ) by {
        assert(j < n);
        assert(pre.has_user(pre.groups[j].users[k]));
    }
    assert forall|j: int| 0 <= j < post.groups.len() implies post.has_user(
        #[trigger] post.groups[j].owner,
    ) by {
        if j < n {
            assert(pre.has_user(pre.groups[j].owner));
        }
    }
    assert(post.references_resolve());
    assert forall|i: int, j: int|
        0 <= i < post.users.len() && 0 <= j < post.groups.len() implies (
    (#[trigger] post.users[i].groups).contains(post.groups[j].id) <==> (
    #[trigger] post.groups[j].users).contains(post.users[i].identity)) by {
        if j < n {
        } else {
            assert(!post.groups[j].users.contains(post.users[i].identity));
            if post.users[i].groups.contains(ng.id) {
                let k = choose|k: int|
                    0 <= k < pre.users[i].groups.len() && pre.users[i].groups[k] == ng.id;
                assert(pre.has_group(pre.users[i].groups[k]));
                let q = pre.group_index(ng.id);
                assert(pre.groups[q].id < pre.next_group_id);
            }
        }
    }
    assert(post.ids_bounded());
}

/// Growing twice by the same id grows once.
pub proof fn lemma_grows_trans(a: Seq<u64>, b: Seq<u64>, c: Seq<u64>, x: u64)
    requires
        grows_to(a, set![x], b),
        grows_to(b, set![x], c),
    ensures
        grows_to(a, set![x], c),
{
    assert forall|q: int| 0 <= q < a.len() implies c[q] == a[q] by {
        assert(b.subrange(0, a.len() as int)[q] == a[q]);
        assert(c.subrange(0, b.len() as int)[q] == b[q]);
    }
    assert(c.subrange(0, a.len() as int) =~= a);
    assert(c.to_set() =~= a.to_set().union(set![x]));
}

impl ChatCore {
    /// Creates a group owned by the caller, with the caller as first member,
    /// the given name and avatar, and the resolving identities of the batch
    /// joined — all as one atomic operation. The caller must exist, a
    /// present avatar must fit `MAX_AVATAR_BYTES`, and the batch must fit
    /// `MAX_BATCH_IDENTITIES`; on any failure nothing changes.
    pub fn create_group(
        &mut self,
        caller: u64,
        name: Option<String>,
        avatar: Option<Vec<u8>>,
        user_identities: &Vec<u64>,
    ) -> (r: Result<(), ChatError>)
        requires
            old(self).wf(),
            old(self)@.next_group_id < u64::MAX,
        ensures
            final(self).wf(),
            r is Err ==> final(self)@ == old(self)@,
            r == if !old(self)@.has_user(caller) {
                Err::<(), ChatError>(ChatError::NotFound)
            } else if bytes_view(avatar) matches Some(b) && b.len() > MAX_AVATAR_BYTES {
                Err::<(), ChatError>(ChatError::ValidationFailed)
            } else if user_identities@.len() > MAX_BATCH_IDENTITIES {
                Err::<(), ChatError>(ChatError::ValidationFailed)
            } else {
                Ok::<(), ChatError>(())
            },
            r is Ok ==> create_applied(
                old(self)@,
                final(self)@,
                caller,
                text_view(name),
                bytes_view(avatar),
                user_identities@,
            ),
    {
        let ghost pre = self@;
        let Some(ui) = self.find_user_index(caller) else {
            return Err(ChatError::NotFound);
        };
        if let Some(bytes) = &avatar {
            if bytes.len() > MAX_AVATAR_BYTES {
                return Err(ChatError::ValidationFailed);
            }
        }
        if user_identities.len() > MAX_BATCH_IDENTITIES {
            return Err(ChatError::ValidationFailed);
        }
        let gid = self.next_group_id;
        self.next_group_id = gid + 1;
        let stored_name = normalize_name(name);
        let gi = self.groups.len();
        self.groups.push(
            Group { id: gid, owner: caller, name: stored_name, avatar, users: Vec::new() },
        );
        proof {
            assert(pre.users[ui as int].identity == caller);
            assert(pre.has_user(caller));
            assert(self@.groups =~= pre.groups.push(self@.groups.last()));
            lemma_new_group_wf(pre, self@, self@.groups.last());
        }
        let ghost mid0 = self@;
        self.link(gi, ui);
        let ghost mid1 = self@;
        proof {
            assert(mid0.groups[gi as int].users =~= Seq::<u64>::empty());
            assert(mid1.groups[gi as int].users == add_id(Seq::<u64>::empty(), caller));
            assert(!Seq::<u64>::empty().contains(caller));
            assert(mid1.groups[gi as int].users =~= seq![caller]);
        }
        self.link_batch(gi, user_identities);
        proof {
            let post = self@;
            let ids = user_identities@;
            // the joining set reads the same against any of the stages,
            // since no stage changes the set of identities
            assert forall|y: u64| mid1.has_user(y) implies pre.has_user(y) by {
                let q = choose|q: int| 0 <= q < mid1.users.len() && mid1.users[q].identity == y;
                assert(pre.users[q].identity == y);
            }
            assert forall|y: u64| pre.has_user(y) implies mid1.has_user(y) by {
                let q = choose|q: int| 0 <= q < pre.users.len() && pre.users[q].identity == y;
                assert(mid1.users[q].identity == y);
            }
            let joined = joined_of(pre, ids);
            assert(joined_of(mid1, ids) =~= joined);
            assert(add_effect(mid1, post, gi as int, joined));
            // the new group's member list
            assert(seq![caller].no_duplicates());
            assert(seq![caller][0] == caller);
            assert(seq![caller].contains(caller));
            assert(seq![caller].to_set() =~= Set::<u64>::empty().insert(caller));
            assert(grows_to(seq![caller], joined, post.groups.last().users));
            // each user row, straight from the first state
            assert forall|i: int| 0 <= i < pre.users.len() implies user_gains(
                pre.users[i],
                #[trigger] post.users[i],
                gid,
                joined.insert(caller),
            ) by {
                assert(user_gains(mid1.users[i], post.users[i], gid, joined));
                if i != ui {
                    assert(mid1.users[i] == pre.users[i]);
                    if pre.users[i].identity == caller {
                        assert(pre.users[i].identity != pre.users[ui as int].identity || i == ui);
                    }
                } else {
                    let a = pre.users[ui as int].groups;
                    let b = mid1.users[ui as int].groups;
                    assert(b == add_id(a, gid));
                    crate::membership::lemma_add_id_grows(a, gid);
                    if joined.contains(caller) {
                        lemma_grows_trans(a, b, post.users[i].groups, gid);
                    } else {
                        assert(post.users[i].groups == b);
                    }
                }
            }
        }
        Ok(())
    }
}

/// The identities of a batch that resolve to known users and are not the
/// group's current owner — those a batch remove actually parts.
pub open spec fn parted_of(pre: StateView, gi: int, ids: Seq<u64>) -> Set<u64> {
    ids.to_set().filter(|x: u64| pre.has_user(x) && x != pre.groups[gi].owner)
}

/// One user row across a batch remove: the key and payload stand; the
/// group list loses `gid` exactly when the identity is in the parted set.
pub open spec fn user_parts(pu: UserView, qu: UserView, gid: u64, parted: Set<u64>) -> bool {
    &&& qu.identity == pu.identity
    &&& qu.status == pu.status
    &&& qu.username == pu.username
    &&& qu.avatar == pu.avatar
    &&& if parted.contains(pu.identity) {
        drained_to(pu.groups, set![gid], qu.groups)
    } else {
        qu.groups == pu.groups
    }
}

/// A batch remove against the group at `gi`: the group's member set loses
/// exactly `parted`, each parted user's group set loses the group's id,
/// and nothing else moves.
pub open spec fn remove_effect(pre: StateView, post: StateView, gi: int, parted: Set<u64>) -> bool {
    let gid = pre.groups[gi].id;
    &&& post.users.len() == pre.users.len()
    &&& forall|i: int|
        0 <= i < pre.users.len() ==> user_parts(pre.users[i], #[trigger] post.users[i], gid, parted)
    &&& post.groups.len() == pre.groups.len()
    &&& forall|j: int| 0 <= j < pre.groups.len() && j != gi ==> post.groups[j] == pre.groups[j]
    &&& post.groups[gi].id == gid
    &&& post.groups[gi].owner == pre.groups[gi].owner
    &&& post.groups[gi].name == pre.groups[gi].name
    &&& post.groups[gi].avatar == pre.groups[gi].avatar
    &&& drained_to(pre.groups[gi].users, parted, post.groups[gi].users)
    &&& post.messages == pre.messages
    &&& post.next_group_id == pre.next_group_id
    &&& post.next_message_id == pre.next_message_id
}

/// A batch remove that has parted nobody yet has changed nothing.
pub proof fn lemma_remove_effect_init(pre: StateView, gi: int)
    requires
        pre.wf(),
        0 <= gi < pre.groups.len(),
    ensures
        remove_effect(pre, pre, gi, Set::<u64>::empty()),
{
    assert(pre.groups[gi].users.to_set() =~= pre.groups[gi].users.to_set().difference(
        Set::<u64>::empty(),
    ));
}

/// Unlinking one more member extends a batch remove by that identity.
pub proof fn lemma_remove_effect_step(
    pre: StateView,
    mid: StateView,
    post: StateView,
    gi: int,
    ui: int,
    parted: Set<u64>,
)
    requires
        pre.wf(),
        0 <= gi < pre.groups.len(),
        0 <= ui < pre.users.len(),
        remove_effect(pre, mid, gi, parted),
        crate::membership::unlink_applied(mid, post, gi, ui),
    ensures
        remove_effect(pre, post, gi, parted.insert(pre.users[ui].identity)),
{
    let gid = pre.groups[gi].id;
    let uid = pre.users[ui].identity;
    let parted2 = parted.insert(uid);
    assert(mid.users[ui].identity == uid);
    assert(mid.groups[gi].id == gid);
    // the user at ui no longer carries gid
    if parted.contains(uid) {
        assert(drained_to(pre.users[ui].groups, set![gid], mid.users[ui].groups));
        assert(post.users[ui].groups.to_set() =~= pre.users[ui].groups.to_set().difference(
            set![gid],
        ));
    } else {
        assert(mid.users[ui].groups == pre.users[ui].groups);
    }
    assert forall|i: int| 0 <= i < pre.users.len() implies user_parts(
        pre.users[i],
        #[trigger] post.users[i],
        gid,
        parted2,
    ) by {
        if i != ui {
            assert(post.users[i] == mid.users[i]);
            if pre.users[i].identity == uid {
                assert(pre.users[i].identity != pre.users[ui].identity || i == ui);
            }
        }
    }
    // the group side
    assert(drained_to(pre.groups[gi].users, parted, mid.groups[gi].users));
    assert(post.groups[gi].users.to_set() =~= pre.groups[gi].users.to_set().difference(parted2));
    assert forall|j: int| 0 <= j < pre.groups.len() && j != gi implies post.groups[j] == pre.groups[
        j
    ] by {
        assert(post.groups[j] == mid.groups[j]);
    }
}

/// The parted set of a batch, one identity longer.
pub proof fn lemma_parted_take_step(pre: StateView, gi: int, ids: Seq<u64>, k: int)
    requires
        0 <= k < ids.len(),
        0 <= gi < pre.groups.len(),
    ensures
        parted_of(pre, gi, ids.take(k + 1)) == if pre.has_user(ids[k]) && ids[k] != pre.groups[
            gi
        ].owner {
            parted_of(pre, gi, ids.take(k)).insert(ids[k])
        } else {
            parted_of(pre, gi, ids.take(k))
        },
{
    let shorter = ids.take(k);
    let longer = ids.take(k + 1);
    assert forall|y: u64| longer.contains(y) implies shorter.contains(y) || y == ids[k] by {
        let q = choose|q: int| 0 <= q < longer.len() && longer[q] == y;
        if q < k {
            assert(shorter[q] == y);
        }
    }
    assert forall|y: u64| shorter.contains(y) implies longer.contains(y) by {
        let q = choose|q: int| 0 <= q < shorter.len() && shorter[q] == y;
        assert(longer[q] == y);
    }
    assert(longer[k] == ids[k]);
    assert(longer.contains(ids[k]));
    if pre.has_user(ids[k]) && ids[k] != pre.groups[gi].owner {
        assert(parted_of(pre, gi, longer) =~= parted_of(pre, gi, shorter).insert(ids[k]));
    } else {
        assert(parted_of(pre, gi, longer) =~= parted_of(pre, gi, shorter));
    }
}

impl ChatCore {
    /// Removes a batch of users from a group. Batches over
    /// `MAX_BATCH_IDENTITIES` are rejected outright; identities that do not
    /// resolve are passed over, and the group's current owner is never
    /// removed by this path, even when explicitly listed.
    pub fn remove_group_users(&mut self, group_id: u64, user_identities: &Vec<u64>) -> (r: Result<
        (),
        ChatError,
    >)
        requires
            old(self).wf(),
        ensures
            final(self).wf(),
            r is Err ==> final(self)@ == old(self)@,
            r == if user_identities@.len() > MAX_BATCH_IDENTITIES {
                Err::<(), ChatError>(ChatError::ValidationFailed)
            } else if !old(self)@.has_group(group_id) {
                Err::<(), ChatError>(ChatError::NotFound)
            } else {
                Ok::<(), ChatError>(())
            },
            r is Ok ==> remove_effect(
                old(self)@,
                final(self)@,
                old(self)@.group_index(group_id),
                parted_of(old(self)@, old(self)@.group_index(group_id), user_identities@),
            ),
            r is Ok ==> {
                let gi = old(self)@.group_index(group_id);
                let owner = old(self)@.groups[gi].owner;
                old(self)@.groups[gi].users.contains(owner) ==> final(self)@.groups[
                    gi
                ].users.contains(owner)
            },
    {
        if user_identities.len() > MAX_BATCH_IDENTITIES {
            return Err(ChatError::ValidationFailed);
        }
        let ghost pre = self@;
        let Some(gj) = self.find_group_index(group_id) else {
            return Err(ChatError::NotFound);
        };
        proof {
            lemma_group_index_is(pre, gj as int);
            lemma_remove_effect_init(pre, gj as int);
            assert(user_identities@.take(0) =~= Seq::<u64>::empty());
            assert(parted_of(pre, gj as int, user_identities@.take(0)) =~= Set::<u64>::empty());
        }
        let owner = self.groups[gj].owner;
        let n = user_identities.len();
        for k in 0..n
            invariant
                self.wf(),
                n == user_identities.len(),
                gj < pre.groups.len(),
                pre.wf(),
                owner == pre.groups[gj as int].owner,
                remove_effect(
                    pre,
                    self@,
                    gj as int,
                    parted_of(pre, gj as int, user_identities@.take(k as int)),
                ),
        {
            let id = user_identities[k];
            let ghost parted = parted_of(pre, gj as int, user_identities@.take(k as int));
            proof {
                lemma_parted_take_step(pre, gj as int, user_identities@, k as int);
            }
            let ghost mid = self@;
            if id != owner {
                match self.find_user_index(id) {
                    Some(ui) => {
                        proof {
                            assert(mid.users[ui as int].identity == id);
                            assert(pre.users[ui as int].identity == id);
                            assert(pre.has_user(id));
                        }
                        self.unlink(gj, ui);
                        proof {
                            lemma_remove_effect_step(pre, mid, self@, gj as int, ui as int, parted);
                        }
                    },
                    None => {
                        proof {
                            if pre.has_user(id) {
                                let q = pre.user_index(id);
                                assert(mid.users[q].identity == id);
                                assert(mid.has_user(id));
                            }
                        }
                    },
                }
            }
        }
        proof {
            assert(user_identities@.take(n as int) =~= user_identities@);
            let parted = parted_of(pre, gj as int, user_identities@);
            assert(!parted.contains(owner));
            if pre.groups[gj as int].users.contains(owner) {
                assert(pre.groups[gj as int].users.to_set().contains(owner));
                assert(self@.groups[gj as int].users.to_set().contains(owner));
            }
        }
        Ok(())
    }
}

/// A copy of a list of ids.
pub(crate) fn clone_ids(v: &Vec<u64>) -> (r: Vec<u64>)
    ensures
        r@ == v@,
{
    let mut r: Vec<u64> = Vec::new();
    let n = v.len();
    for i in 0..n
        invariant
            n == v.len(),
            r@ == v@.take(i as int),
    {
        r.push(v[i]);
        proof {
            assert(v@.take(i + 1) =~= v@.take(i as int).push(v@[i as int]));
        }
    }
    proof {
        assert(v@.take(n as int) =~= v@);
    }
    r
}

/// What `delete_group` does: the group row at `gi` is gone, every former
/// member's group set lost its id, and nothing else moved — messages
/// addressed to the group remain.
pub open spec fn delete_applied(pre: StateView, post: StateView, gi: int) -> bool {
    let gid = pre.groups[gi].id;
    &&& post.groups == pre.groups.remove(gi)
    &&& post.users.len() == pre.users.len()
    &&& forall|i: int|
        0 <= i < pre.users.len() ==> user_parts(
            pre.users[i],
            #[trigger] post.users[i],
            gid,
            pre.groups[gi].users.to_set(),
        )
    &&& post.messages == pre.messages
    &&& post.next_group_id == pre.next_group_id
    &&& post.next_message_id == pre.next_message_id
}

/// Deleting a group row after retracting it from every member preserves
/// well-formedness.
pub proof fn lemma_delete_group_wf(pre: StateView, post: StateView, gi: int)
    requires
        pre.wf(),
        0 <= gi < pre.groups.len(),
        delete_applied(pre, post, gi),
    ensures
        post.wf(),
{
    let gid = pre.groups[gi].id;
    let n = pre.groups.len() as int;
    assert(forall|j: int|
        0 <= j < post.groups.len() ==> post.groups[j] == (if j < gi {
            pre.groups[j]
        } else {
            pre.groups[j + 1]
        }));
    assert forall|i: int, j: int|
        0 <= i < post.groups.len() && 0 <= j < post.groups.len() && i != j implies post.groups[i].id
        != post.groups[j].id by {
        let pi: int = if i < gi {
            i
        } else {
            i + 1
        };
        let pj: int = if j < gi {
            j
        } else {
            j + 1
        };
        assert(pre.groups[pi].id != pre.groups[pj].id);
    }
    assert(post.keys_unique());
    assert(post.member_lists_clean());
    assert forall|i: int, k: int|
        0 <= i < post.users.len() && 0 <= k < post.users[i].groups.len() implies post.has_group(
        #[trigger] post.users[i].groups[k],
    ) by {
        let id = post.users[i].groups[k];
        assert(post.users[i].groups.contains(id));
        if pre.groups[gi].users.to_set().contains(pre.users[i].identity) {
            assert(post.users[i].groups.to_set().contains(id));
            assert(pre.users[i].groups.contains(id) && id != gid);
        } else {
            assert(pre.users[i].groups.contains(id));
            assert(pre.users[i].groups.contains(gid) <==> pre.groups[gi].users.contains(
                pre.users[i].identity,
            ));
            assert(!pre.groups[gi].users.to_set().contains(pre.users[i].identity));
            assert(!pre.groups[gi].users.contains(pre.users[i].identity));
            assert(id != gid);
        }
        assert(pre.has_group(id));
        let q = pre.group_index(id);
        assert(pre.groups[q].id == id && q != gi);
        if q < gi {
            assert(post.groups[q].id == id);
        } else {
            assert(post.groups[q - 1].id == id);
        }
    }
    assert forall|j: int, k: int|
        0 <= j < post.groups.len() && 0 <= k < post.groups[j].users.len() implies post.has_user(
        #[trigger] post.groups[j].users[k],
    ) by {
        let pj: int = if j < gi {
            j
        } else {
            j + 1
        };
        let id = post.groups[j].users[k];
        assert(pre.groups[pj].users[k] == id);
        assert(pre.has_user(id));
        let q = pre.user_index(id);
        assert(post.users[q].identity == id);
    }
    assert forall|j: int| 0 <= j < post.groups.len() implies post.has_user(
        #[trigger] post.groups[j].owner,
    ) by {
        let pj: int = if j < gi {
            j
        } else {
            j + 1
        };
        assert(pre.has_user(pre.groups[pj].owner));
        let q = pre.user_index(pre.groups[pj].owner);
        assert(post.users[q].identity == post.groups[j].owner);
    }
    assert(post.references_resolve());
    assert forall|i: int, j: int|
        0 <= i < post.users.len() && 0 <= j < post.groups.len() implies (
    (#[trigger] post.users[i].groups).contains(post.groups[j].id) <==> (
    #[trigger] post.groups[j].users).contains(post.users[i].identity)) by {
        let pj: int = if j < gi {
            j
        } else {
            j + 1
        };
        let id = post.groups[j].id;
        assert(post.groups[j] == pre.groups[pj]);
        assert(id != gid);
        assert(pre.users[i].groups.contains(id) <==> pre.groups[pj].users.contains(
            pre.users[i].identity,
        ));
        if pre.groups[gi].users.to_set().contains(pre.users[i].identity) {
            assert(post.users[i].groups.to_set() =~= pre.users[i].groups.to_set().difference(
                set![gid],
            ));
            assert(post.users[i].groups.contains(id) <==> post.users[i].groups.to_set().contains(
                id,
            ));
            assert(post.users[i].groups.contains(id) <==> pre.users[i].groups.contains(id));
        }
    }
    assert(post.ids_bounded());
}

impl ChatCore {
    /// Deletes a group: retracts its id from every member's group set, then
    /// removes the row. Messages addressed to the group remain. The
    /// recorded owner must resolve to a known user — the store invariant
    /// guarantees it always does, so any caller can delete any known group;
    /// deletion is not restricted to the owner.
    pub fn delete_group(&mut self, group_id: u64) -> (r: Result<(), ChatError>)
        requires
            old(self).wf(),
        ensures
            final(self).wf(),
            r is Err ==> r == Err::<(), ChatError>(ChatError::NotFound) && final(self)@ == old(
                self,
            )@,
            r is Ok <==> old(self)@.has_group(group_id),
            r is Ok ==> delete_applied(old(self)@, final(self)@, old(self)@.group_index(group_id)),
    {
        let ghost pre = self@;
        let Some(gj) = self.find_group_index(group_id) else {
            return Err(ChatError::NotFound);
        };
        proof {
            lemma_group_index_is(pre, gj as int);
        }
        if self.find_user_index(self.groups[gj].owner).is_none() {
            proof {
                assert(pre.has_user(pre.groups[gj as int].owner));
            }
            return Err(ChatError::Unauthorized);
        }
        let gid = self.groups[gj].id;
        let members = clone_ids(&self.groups[gj].users);
        let ghost mv = pre.groups[gj as int].users;
        let n = members.len();
        for k in 0..n
            invariant
                n == members@.len(),
                members@ == mv,
                mv == pre.groups[gj as int].users,
                gid == pre.groups[gj as int].id,
                gj < pre.groups.len(),
                pre.wf(),
                self@.groups == pre.groups,
                self@.messages == pre.messages,
                self@.next_group_id == pre.next_group_id,
                self@.next_message_id == pre.next_message_id,
                self@.users.len() == pre.users.len(),
                forall|i: int|
                    0 <= i < pre.users.len() ==> user_parts(
                        pre.users[i],
                        #[trigger] self@.users[i],
                        gid,
                        mv.take(k as int).to_set(),
                    ),
        {
            let id = members[k];
            let ghost mid = self@;
            proof {
                assert(mv[k as int] == id);
                assert(mv.contains(id));
                assert(pre.has_user(id));
                let q = pre.user_index(id);
                assert(mid.users[q].identity == id);
                assert(mid.has_user(id));
            }
            let ui_opt = self.find_user_index(id);
            proof {
                assert(ui_opt is Some);
            }
            let ui = ui_opt.unwrap();
            proof {
                assert(mid.users[ui as int].identity == id);
                assert(pre.users[ui as int].identity == id);
                // members hold each identity once, so this row still
                // carries the group id
                assert(!mv.take(k as int).contains(id)) by {
                    if mv.take(k as int).contains(id) {
                        let q = choose|q: int|
                            0 <= q < k && mv.take(k as int)[q] == id;
                        assert(mv[q] == id && mv[k as int] == id && q != k);
                    }
                }
                assert(mid.users[ui as int].groups == pre.users[ui as int].groups);
                assert(pre.users[ui as int].groups.contains(gid) <==> pre.groups[
                    gj as int
                ].users.contains(pre.users[ui as int].identity));
                assert(pre.users[ui as int].groups.contains(gid));
            }
            let ghost users_mid = self.users@;
            let mut u = self.users.remove(ui);
            crate::membership::remove_id(&mut u.groups, gid);
            self.users.insert(ui, u);
            proof {
                assert(self.users@ =~= users_mid.update(ui as int, self.users@[ui as int]));
                lemma_map_values_update(
                    users_mid,
                    |x: crate::rows::User| x@,
                    ui as int,
                    self.users@[ui as int],
                );
                crate::membership::lemma_drained_step(
                    pre.users[ui as int].groups,
                    gid,
                    self@.users[ui as int].groups,
                );
                assert(mv.take(k + 1) =~= mv.take(k as int).push(id));
                assert forall|y: u64| mv.take(k + 1).contains(y) implies mv.take(
                    k as int,
                ).contains(y) || y == id by {
                    let q = choose|q: int| 0 <= q < k + 1 && #[trigger] mv.take(k + 1)[q] == y;
                    if q < k {
                        assert(mv.take(k as int)[q] == y);
                    }
                }
                assert forall|y: u64| mv.take(k as int).contains(y) implies mv.take(
                    k + 1,
                ).contains(y) by {
                    let q = choose|q: int| 0 <= q < k && mv.take(k as int)[q] == y;
                    assert(mv.take(k + 1)[q] == y);
                }
                assert(mv.take(k + 1)[k as int] == id);
                assert(mv.take(k + 1).contains(id));
                assert(mv.take(k + 1).to_set() =~= mv.take(k as int).to_set().insert(id));
                assert forall|i: int| 0 <= i < pre.users.len() implies user_parts(
                    pre.users[i],
                    #[trigger] self@.users[i],
                    gid,
                    mv.take(k + 1).to_set(),
                ) by {
                    if i != ui as int {
                        assert(self@.users[i] == mid.users[i]);
                        if pre.users[i].identity == id {
                            assert(pre.users[i].identity != pre.users[ui as int].identity || i
                                == ui as int);
                        }
                    }
                }
            }
        }
        let ghost groups_mid = self.groups@;
        let ghost state_mid = self@;
        self.groups.remove(gj);
        proof {
            assert(self.groups@ == groups_mid.remove(gj as int));
            crate::membership::lemma_map_values_remove(
                groups_mid,
                |x: Group| x@,
                gj as int,
            );
            assert(self@.groups =~= state_mid.groups.remove(gj as int));
            assert(self@.groups =~= pre.groups.remove(gj as int));
            assert(mv.take(n as int) =~= mv);
            lemma_delete_group_wf(pre, self@, gj as int);
        }
        Ok(())
    }
}

} // verus!
