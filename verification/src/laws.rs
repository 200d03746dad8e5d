//! Laws that relate several procedures, stated over the same transition
//! relations the procedures' own contracts use.

use vstd::prelude::*;

use crate::rows::MessageView;
use crate::rows::ReceiverIdentity;
use crate::rows::UserView;
use crate::state::StateView;
use crate::state::lemma_message_index_is;
use crate::state::lemma_user_index_is;
use crate::membership::grows_to;
use crate::group_ops::add_effect;
use crate::user_ops::only_user_changed;
use crate::text::normalized;

verus! {

/// For every user row and group row of a well-formed store, the group's id
/// stands in the user's group list exactly when the user's identity stands
/// in the group's member list.
pub proof fn lemma_membership_mutual(s: StateView, i: int, j: int)
    requires
        s.wf(),
        0 <= i < s.users.len(),
        0 <= j < s.groups.len(),
    ensures
        s.users[i].groups.contains(s.groups[j].id) <==> s.groups[j].users.contains(
            s.users[i].identity,
        ),
{
}

/// Clearing a username is idempotent: a second clearing, applied to the
/// state the first one left, leaves that state exactly as it stands.
pub proof fn lemma_clear_username_idempotent(s0: StateView, s1: StateView, s2: StateView, caller: u64)
    requires
        s0.wf(),
        s1.wf(),
        s0.has_user(caller),
        only_user_changed(
            s0,
            s1,
            s0.user_index(caller),
            UserView { username: normalized(None), ..s0.user_of(caller) },
        ),
        s1.has_user(caller),
        only_user_changed(
            s1,
            s2,
            s1.user_index(caller),
            UserView { username: normalized(None), ..s1.user_of(caller) },
        ),
    ensures
        s2 == s1,
{
    let i = s0.user_index(caller);
    assert(s1.users[i].identity == caller);
    lemma_user_index_is(s1, i);
    let u1 = s1.users[i];
    assert(u1.username == normalized(None));
    assert(UserView { username: normalized(None), ..u1 } == u1);
    assert(s2.users =~= s1.users.update(i, u1));
    assert(s2.users =~= s1.users);
    assert(s2 =~~= s1);
}

/// A batch add is a set union: when every identity it actually joins is
/// already a member, the store stands exactly as before.
pub proof fn lemma_add_present_members_no_change(
    pre: StateView,
    post: StateView,
    gi: int,
    joined: Set<u64>,
)
    requires
        pre.wf(),
        0 <= gi < pre.groups.len(),
        add_effect(pre, post, gi, joined),
        joined.subset_of(pre.groups[gi].users.to_set()),
    ensures
        post == pre,
{
    broadcast use vstd::seq_lib::seq_to_set_is_finite;

    let gid = pre.groups[gi].id;
    let mg = pre.groups[gi].users;
    let t = post.groups[gi].users;
    assert(t.to_set() =~= mg.to_set());
    mg.unique_seq_to_set();
    t.unique_seq_to_set();
    assert(t.len() == mg.len());
    assert(t =~= t.subrange(0, mg.len() as int));
    assert(t =~= mg);
    assert forall|i: int| 0 <= i < pre.users.len() implies post.users[i] == pre.users[i] by {
        let pu = pre.users[i];
        let qu = post.users[i];
        if joined.contains(pu.identity) {
            assert(mg.to_set().contains(pu.identity));
            assert(mg.contains(pu.identity));
            assert(pu.groups.contains(gid));
            assert(grows_to(pu.groups, set![gid], qu.groups));
            assert(qu.groups.to_set() =~= pu.groups.to_set());
            pu.groups.unique_seq_to_set();
            qu.groups.unique_seq_to_set();
            assert(qu.groups =~= qu.groups.subrange(0, pu.groups.len() as int));
            assert(qu.groups =~= pu.groups);
            assert(qu =~~= pu);
        }
    }
    assert(post.users =~= pre.users);
    assert(post.groups[gi] =~~= pre.groups[gi]);
    assert(post.groups =~= pre.groups);
    assert(post =~~= pre);
}

/// Sending a message and then editing it preserves its id, sender and
/// creation time, and changes exactly the body and the update time.
pub proof fn lemma_send_then_update_round_trip(
    s0: StateView,
    s1: StateView,
    s2: StateView,
    caller: u64,
    receiver: ReceiverIdentity,
    body1: Seq<char>,
    now1: u64,
    body2: Seq<char>,
    now2: u64,
)
    requires
        s0.wf(),
        s1.wf(),
        s0.next_message_id < u64::MAX,
        s1.messages == s0.messages.push(
            MessageView {
                id: s0.next_message_id,
                receiver,
                sender: caller,
                message: body1,
                created_at: now1,
                updated_at: now1,
            },
        ),
        s2.messages == s1.messages.update(
            s1.message_index(s0.next_message_id),
            MessageView {
                message: body2,
                updated_at: now2,
                ..s1.message_of(s0.next_message_id)
            },
        ),
    ensures
        s2.messages.len() == s0.messages.len() + 1,
        s2.messages.last() == (MessageView {
            id: s0.next_message_id,
            receiver,
            sender: caller,
            message: body2,
            created_at: now1,
            updated_at: now2,
        }),
{
    let mid = s0.next_message_id;
    let k = s0.messages.len() as int;
    assert(s1.messages[k].id == mid);
    lemma_message_index_is(s1, k);
    assert(s1.message_index(mid) == k);
    assert(s2.messages.last() == s2.messages[k]);
}

} // verus!
