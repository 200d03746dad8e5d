//! The single membership-update operations: `link` joins one user to one
//! group on both sides at once, `unlink` parts them. Every procedure that
//! changes membership goes through these, so the bidirectional invariant is
//! enforced in one place.
//!
//! Membership lists are duplicate-free vectors read as sets: contracts about
//! them speak of `to_set()` and leave the order of newly appended or
//! remaining entries open, as the store assigns no meaning to it.

use vstd::prelude::*;

use crate::rows::GroupView;
use crate::rows::UserView;
use crate::state::ChatCore;
use crate::state::StateView;

verus! {

/// The list with `x` appended, when absent; the list itself, when present.
pub open spec fn add_id(s: Seq<u64>, x: u64) -> Seq<u64> {
    if s.contains(x) {
        s
    } else {
        s.push(x)
    }
}

/// `t` is `s` with exactly the ids of `more` joined: the old entries stand
/// unchanged in front, nothing is duplicated, and as sets `t` is the union.
pub open spec fn grows_to(s: Seq<u64>, more: Set<u64>, t: Seq<u64>) -> bool {
    &&& t.len() >= s.len()
    &&& t.subrange(0, s.len() as int) == s
    &&& t.no_duplicates()
    &&& t.to_set() == s.to_set().union(more)
}

/// `t` is `s` with exactly the ids of `gone` parted, as sets.
pub open spec fn drained_to(s: Seq<u64>, gone: Set<u64>, t: Seq<u64>) -> bool {
    &&& t.no_duplicates()
    &&& t.to_set() == s.to_set().difference(gone)
}

/// Whether the list holds `x`.
pub fn contains_id(v: &Vec<u64>, x: u64) -> (r: bool)
    ensures
        r == v@.contains(x),
{
    let n = v.len();
    for i in 0..n
        invariant
            n == v.len(),
            forall|k: int| 0 <= k < i ==> v@[k] != x,
    {
        if v[i] == x {
            assert(v@.contains(x));
            return true;
        }
    }
    false
}

/// Appends `x` unless it is already there.
pub fn push_if_absent(v: &mut Vec<u64>, x: u64)
    ensures
        final(v)@ == add_id(old(v)@, x),
{
    if !contains_id(v, x) {
        v.push(x);
    }
}

/// Removes `x` from the list, if it is there.
pub fn remove_id(v: &mut Vec<u64>, x: u64)
    ensures
        !old(v)@.contains(x) ==> final(v)@ == old(v)@,
        old(v)@.contains(x) ==> exists|i: int|
            0 <= i < old(v)@.len() && old(v)@[i] == x && final(v)@ == old(v)@.remove(i),
{
    let mut i: usize = 0;
    while i < v.len()
        invariant
            i <= v@.len(),
            v@ == old(v)@,
            forall|k: int| 0 <= k < i ==> v@[k] != x,
        decreases v@.len() - i,
    {
        if v[i] == x {
            v.remove(i);
            proof {
                assert(old(v)@[i as int] == x && final(v)@ == old(v)@.remove(i as int));
            }
            return ;
        }
        i = i + 1;
    }
}

/// A duplicate-free list, shorter by a removal, stays duplicate-free, and
/// as a set loses exactly the removed entry.
pub proof fn lemma_remove_clean(s: Seq<u64>, i: int)
    requires
        s.no_duplicates(),
        0 <= i < s.len(),
    ensures
        s.remove(i).no_duplicates(),
        s.remove(i).to_set() == s.to_set().remove(s[i]),
{
    let t = s.remove(i);
    assert(forall|k: int|
        0 <= k < t.len() ==> t[k] == (if k < i {
            s[k]
        } else {
            s[k + 1]
        }));
    assert forall|y: u64| t.contains(y) implies s.contains(y) && y != s[i] by {
        let k = choose|k: int| 0 <= k < t.len() && t[k] == y;
        if k < i {
            assert(s[k] == y);
        } else {
            assert(s[k + 1] == y);
        }
    }
    assert forall|y: u64| s.contains(y) && y != s[i] implies t.contains(y) by {
        let k = choose|k: int| 0 <= k < s.len() && s[k] == y;
        if k < i {
            assert(t[k] == y);
        } else {
            assert(k != i);
            assert(t[k - 1] == y);
        }
    }
    assert(t.to_set() =~= s.to_set().remove(s[i]));
}

/// Appending an absent entry keeps a list duplicate-free and inserts it
/// into the set of entries.
pub proof fn lemma_push_clean(s: Seq<u64>, x: u64)
    requires
        s.no_duplicates(),
        !s.contains(x),
    ensures
        s.push(x).no_duplicates(),
        s.push(x).to_set() == s.to_set().insert(x),
        s.push(x).subrange(0, s.len() as int) == s,
{
    broadcast use vstd::seq_lib::lemma_seq_contains_after_push;

    let t = s.push(x);
    assert(t.subrange(0, s.len() as int) =~= s);
    assert(t.to_set() =~= s.to_set().insert(x));
}

/// `add_id` read at the set level, starting from any duplicate-free list.
pub proof fn lemma_add_id_grows(s: Seq<u64>, x: u64)
    requires
        s.no_duplicates(),
    ensures
        grows_to(s, set![x], add_id(s, x)),
{
    if s.contains(x) {
        assert(add_id(s, x).subrange(0, s.len() as int) =~= s);
        assert(s.to_set() =~= s.to_set().union(set![x]));
    } else {
        lemma_push_clean(s, x);
        assert(s.push(x).to_set() =~= s.to_set().union(set![x]));
    }
}

/// Mapping a view over a shortened sequence shortens the mapped sequence.
pub proof fn lemma_map_values_remove<A, B>(s: Seq<A>, f: spec_fn(A) -> B, i: int)
    requires
        0 <= i < s.len(),
    ensures
        s.remove(i).map_values(f) =~= s.map_values(f).remove(i),
{
    let t = s.remove(i);
    assert forall|k: int| 0 <= k < t.len() implies t.map_values(f)[k] == s.map_values(f).remove(
        i,
    )[k] by {
        if k < i {
            assert(t[k] == s[k]);
        } else {
            assert(t[k] == s[k + 1]);
        }
    }
}

/// Mapping a view over an updated sequence updates the mapped sequence.
pub proof fn lemma_map_values_update<A, B>(s: Seq<A>, f: spec_fn(A) -> B, i: int, v: A)
    requires
        0 <= i < s.len(),
    ensures
        s.update(i, v).map_values(f) =~= s.map_values(f).update(i, f(v)),
{
}

impl ChatCore {
    /// Joins the user at `ui` to the group at `gi`, on both sides at once.
    pub fn link(&mut self, gi: usize, ui: usize)
        requires
            old(self).wf(),
            gi < old(self)@.groups.len(),
            ui < old(self)@.users.len(),
        ensures
            final(self).wf(),
            link_applied(old(self)@, final(self)@, gi as int, ui as int),
    {
        let ghost pre = self@;
        let gid = self.groups[gi].id;
        let uid = self.users[ui].identity;
        let mut u = self.users.remove(ui);
        push_if_absent(&mut u.groups, gid);
        self.users.insert(ui, u);
        proof {
            assert(self.users@ =~= old(self).users@.update(ui as int, self.users@[ui as int]));
            lemma_map_values_update(
                old(self).users@,
                |x: crate::rows::User| x@,
                ui as int,
                self.users@[ui as int],
            );
        }
        let mut g = self.groups.remove(gi);
        push_if_absent(&mut g.users, uid);
        self.groups.insert(gi, g);
        proof {
            assert(self.groups@ =~= old(self).groups@.update(gi as int, self.groups@[gi as int]));
            lemma_map_values_update(
                old(self).groups@,
                |x: crate::rows::Group| x@,
                gi as int,
                self.groups@[gi as int],
            );
            let post = self@;
            assert(post.users =~= pre.users.update(
                ui as int,
                UserView { groups: add_id(pre.users[ui as int].groups, gid), ..pre.users[ui as int] },
            ));
            assert(post.groups =~= pre.groups.update(
                gi as int,
                GroupView {
                    users: add_id(pre.groups[gi as int].users, uid),
                    ..pre.groups[gi as int]
                },
            ));
            lemma_link_preserves_wf(pre, post, gi as int, ui as int);
        }
    }
}

/// What `link` does: the two rows gain each other's key, nothing else moves.
pub open spec fn link_applied(pre: StateView, post: StateView, gi: int, ui: int) -> bool {
    let gid = pre.groups[gi].id;
    let uid = pre.users[ui].identity;
    &&& post.users == pre.users.update(
        ui,
        UserView { groups: add_id(pre.users[ui].groups, gid), ..pre.users[ui] },
    )
    &&& post.groups == pre.groups.update(
        gi,
        GroupView { users: add_id(pre.groups[gi].users, uid), ..pre.groups[gi] },
    )
    &&& post.messages == pre.messages
    &&& post.next_group_id == pre.next_group_id
    &&& post.next_message_id == pre.next_message_id
}

impl ChatCore {
    /// Parts the user at `ui` from the group at `gi`, on both sides at once.
    pub fn unlink(&mut self, gi: usize, ui: usize)
        requires
            old(self).wf(),
            gi < old(self)@.groups.len(),
            ui < old(self)@.users.len(),
        ensures
            final(self).wf(),
            unlink_applied(old(self)@, final(self)@, gi as int, ui as int),
    {
        let ghost pre = self@;
        let gid = self.groups[gi].id;
        let uid = self.users[ui].identity;
        let mut u = self.users.remove(ui);
        remove_id(&mut u.groups, gid);
        self.users.insert(ui, u);
        proof {
            assert(self.users@ =~= old(self).users@.update(ui as int, self.users@[ui as int]));
            lemma_map_values_update(
                old(self).users@,
                |x: crate::rows::User| x@,
                ui as int,
                self.users@[ui as int],
            );
        }
        let mut g = self.groups.remove(gi);
        remove_id(&mut g.users, uid);
        self.groups.insert(gi, g);
        proof {
            assert(self.groups@ =~= old(self).groups@.update(gi as int, self.groups@[gi as int]));
            lemma_map_values_update(
                old(self).groups@,
                |x: crate::rows::Group| x@,
                gi as int,
                self.groups@[gi as int],
            );
            let post = self@;
            lemma_drained_step(pre.users[ui as int].groups, gid, post.users[ui as int].groups);
            lemma_drained_step(pre.groups[gi as int].users, uid, post.groups[gi as int].users);
            assert(unlink_applied(pre, post, gi as int, ui as int));
            lemma_unlink_preserves_wf(pre, post, gi as int, ui as int);
        }
    }
}

/// What `remove_id` leaves of a duplicate-free list, read at the set level.
pub proof fn lemma_drained_step(s: Seq<u64>, x: u64, t: Seq<u64>)
    requires
        s.no_duplicates(),
        !s.contains(x) ==> t == s,
        s.contains(x) ==> exists|i: int| 0 <= i < s.len() && s[i] == x && t == s.remove(i),
    ensures
        drained_to(s, set![x], t),
{
    if s.contains(x) {
        let i = choose|i: int| 0 <= i < s.len() && s[i] == x && t == s.remove(i);
        lemma_remove_clean(s, i);
        assert(t.to_set() =~= s.to_set().difference(set![x]));
    } else {
        assert(t.to_set() =~= s.to_set().difference(set![x]));
    }
}

/// What `unlink` does: the two rows lose each other's key, nothing else
/// moves; the remaining order of the two lists is left open.
pub open spec fn unlink_applied(pre: StateView, post: StateView, gi: int, ui: int) -> bool {
    let gid = pre.groups[gi].id;
    let uid = pre.users[ui].identity;
    &&& post.users.len() == pre.users.len()
    &&& forall|i: int| 0 <= i < pre.users.len() && i != ui ==> post.users[i] == pre.users[i]
    &&& post.users[ui].identity == uid
    &&& post.users[ui].status == pre.users[ui].status
    &&& post.users[ui].username == pre.users[ui].username
    &&& post.users[ui].avatar == pre.users[ui].avatar
    &&& drained_to(pre.users[ui].groups, set![gid], post.users[ui].groups)
    &&& post.groups.len() == pre.groups.len()
    &&& forall|j: int| 0 <= j < pre.groups.len() && j != gi ==> post.groups[j] == pre.groups[j]
    &&& post.groups[gi].id == gid
    &&& post.groups[gi].owner == pre.groups[gi].owner
    &&& post.groups[gi].name == pre.groups[gi].name
    &&& post.groups[gi].avatar == pre.groups[gi].avatar
    &&& drained_to(pre.groups[gi].users, set![uid], post.groups[gi].users)
    &&& post.messages == pre.messages
    &&& post.next_group_id == pre.next_group_id
    &&& post.next_message_id == pre.next_message_id
}

/// Unlinking one user-group pair preserves well-formedness.
pub proof fn lemma_unlink_preserves_wf(pre: StateView, post: StateView, gi: int, ui: int)
    requires
        pre.wf(),
        0 <= gi < pre.groups.len(),
        0 <= ui < pre.users.len(),
        unlink_applied(pre, post, gi, ui),
    ensures
        post.wf(),
{
    let gid = pre.groups[gi].id;
    let uid = pre.users[ui].identity;
    assert(post.keys_unique());
    assert(post.member_lists_clean());
    assert forall|i: int, k: int|
        0 <= i < post.users.len() && 0 <= k < post.users[i].groups.len() implies post.has_group(
        #[trigger] post.users[i].groups[k],
    ) by {
        let id = post.users[i].groups[k];
        assert(post.users[i].groups.contains(id));
        if i == ui {
            assert(post.users[i].groups.to_set().contains(id));
            assert(pre.users[i].groups.contains(id));
        }
        assert(pre.has_group(id));
        let j = pre.group_index(id);
        assert(post.groups[j].id == id);
    }
    assert forall|j: int, k: int|
        0 <= j < post.groups.len() && 0 <= k < post.groups[j].users.len() implies post.has_user(
        #[trigger] post.groups[j].users[k],
    ) by {
        let id = post.groups[j].users[k];
        assert(post.groups[j].users.contains(id));
        if j == gi {
            assert(post.groups[j].users.to_set().contains(id));
            assert(pre.groups[j].users.contains(id));
        }
        assert(pre.has_user(id));
        let i = pre.user_index(id);
        assert(post.users[i].identity == id);
    }
    assert forall|j: int| 0 <= j < post.groups.len() implies post.has_user(
        #[trigger] post.groups[j].owner,
    ) by {
        assert(pre.has_user(pre.groups[j].owner));
        let i = pre.user_index(pre.groups[j].owner);
        assert(post.users[i].identity == post.groups[j].owner);
    }
    assert(post.references_resolve());
    assert(post.membership_mutual()) by {
        assert forall|i: int, j: int|
            0 <= i < post.users.len() && 0 <= j < post.groups.len() implies (
        (#[trigger] post.users[i].groups).contains(post.groups[j].id) <==> (
        #[trigger] post.groups[j].users).contains(post.users[i].identity)) by {
            let pgid = pre.groups[j].id;
            let puid = pre.users[i].identity;
            if i == ui && j == gi {
                assert(!post.users[i].groups.to_set().contains(gid));
                assert(!post.groups[j].users.to_set().contains(uid));
                assert(!post.users[i].groups.contains(gid));
                assert(!post.groups[j].users.contains(uid));
            } else if i == ui {
                assert(pgid != gid);
                assert(post.users[i].groups.contains(pgid) == post.users[
                    i
                ].groups.to_set().contains(pgid));
                assert(post.users[i].groups.contains(pgid) == pre.users[i].groups.contains(pgid));
            } else if j == gi {
                assert(puid != uid);
                assert(post.groups[j].users.contains(puid) == post.groups[
                    j
                ].users.to_set().contains(puid));
                assert(post.groups[j].users.contains(puid) == pre.groups[j].users.contains(puid));
            }
        }
    }
    assert(post.ids_bounded());
}

/// Linking one user-group pair preserves well-formedness.
pub proof fn lemma_link_preserves_wf(pre: StateView, post: StateView, gi: int, ui: int)
    requires
        pre.wf(),
        0 <= gi < pre.groups.len(),
        0 <= ui < pre.users.len(),
        link_applied(pre, post, gi, ui),
    ensures
        post.wf(),
{
    broadcast use vstd::seq_lib::lemma_seq_contains_after_push;

    let gid = pre.groups[gi].id;
    let uid = pre.users[ui].identity;
    assert(post.keys_unique());
    assert(post.member_lists_clean()) by {
        lemma_add_id_grows(pre.users[ui].groups, gid);
        lemma_add_id_grows(pre.groups[gi].users, uid);
    }
    assert(post.references_resolve()) by {
        assert forall|i: int, k: int|
            0 <= i < post.users.len() && 0 <= k < post.users[i].groups.len() implies post.has_group(
            #[trigger] post.users[i].groups[k],
        ) by {
            let id = post.users[i].groups[k];
            assert(pre.users[i].groups.contains(id) || id == gid);
            assert(pre.has_group(id));
            let j = pre.group_index(id);
            assert(post.groups[j].id == id);
        }
        assert forall|j: int, k: int|
            0 <= j < post.groups.len() && 0 <= k < post.groups[j].users.len() implies post.has_user(
            #[trigger] post.groups[j].users[k],
        ) by {
            let id = post.groups[j].users[k];
            assert(pre.groups[j].users.contains(id) || id == uid);
            assert(pre.has_user(id));
            let i = pre.user_index(id);
            assert(post.users[i].identity == id);
        }
        assert forall|j: int| 0 <= j < post.groups.len() implies post.has_user(
            #[trigger] post.groups[j].owner,
        ) by {
            assert(pre.has_user(pre.groups[j].owner));
            let i = pre.user_index(pre.groups[j].owner);
            assert(post.users[i].identity == post.groups[j].owner);
        }
    }
    assert(post.membership_mutual()) by {
        assert forall|i: int, j: int|
            0 <= i < post.users.len() && 0 <= j < post.groups.len() implies (
        (#[trigger] post.users[i].groups).contains(post.groups[j].id) <==> (
        #[trigger] post.groups[j].users).contains(post.users[i].identity)) by {
            let pgid = pre.groups[j].id;
            let puid = pre.users[i].identity;
            if i == ui && j == gi {
                assert(post.users[i].groups.contains(gid));
                assert(post.groups[j].users.contains(uid));
            } else if i == ui {
                assert(pgid != gid);
                assert(post.users[i].groups.contains(pgid) == pre.users[i].groups.contains(pgid));
            } else if j == gi {
                assert(puid != uid);
                assert(post.groups[j].users.contains(puid) == pre.groups[j].users.contains(puid));
            }
        }
    }
    assert(post.ids_bounded());
}

} // verus!
