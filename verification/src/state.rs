//! The store: three keyed collections plus the two id counters, its ghost
//! view, and its well-formedness invariant.
//!
//! Membership between users and groups is recorded on both sides — a user's
//! `groups` list and a group's `users` list. Well-formedness ties the two
//! together: a group id stands in a user's list exactly when the user's
//! identity stands in the group's list.

use vstd::prelude::*;

use crate::rows::Group;
use crate::rows::GroupView;
use crate::rows::Message;
use crate::rows::MessageView;
use crate::rows::User;
use crate::rows::UserView;

verus! {

/// Ghost image of the whole store.
#[verifier::ext_equal]
pub ghost struct StateView {
    pub users: Seq<UserView>,
    pub groups: Seq<GroupView>,
    pub messages: Seq<MessageView>,
    pub next_group_id: u64,
    pub next_message_id: u64,
}

impl StateView {
    /// Some user row carries this identity.
    pub open spec fn has_user(self, identity: u64) -> bool {
        exists|i: int| 0 <= i < self.users.len() && self.users[i].identity == identity
    }

    /// The index of the user row with this identity (unique under `wf`).
    pub open spec fn user_index(self, identity: u64) -> int {
        choose|i: int| 0 <= i < self.users.len() && self.users[i].identity == identity
    }

    /// The user row with this identity.
    pub open spec fn user_of(self, identity: u64) -> UserView {
        self.users[self.user_index(identity)]
    }

    /// Some group row carries this id.
    pub open spec fn has_group(self, id: u64) -> bool {
        exists|j: int| 0 <= j < self.groups.len() && self.groups[j].id == id
    }

    /// The index of the group row with this id (unique under `wf`).
    pub open spec fn group_index(self, id: u64) -> int {
        choose|j: int| 0 <= j < self.groups.len() && self.groups[j].id == id
    }

    /// The group row with this id.
    pub open spec fn group_of(self, id: u64) -> GroupView {
        self.groups[self.group_index(id)]
    }

    /// Some message row carries this id.
    pub open spec fn has_message(self, id: u64) -> bool {
        exists|k: int| 0 <= k < self.messages.len() && self.messages[k].id == id
    }

    /// The index of the message row with this id (unique under `wf`).
    pub open spec fn message_index(self, id: u64) -> int {
        choose|k: int| 0 <= k < self.messages.len() && self.messages[k].id == id
    }

    /// The message row with this id.
    pub open spec fn message_of(self, id: u64) -> MessageView {
        self.messages[self.message_index(id)]
    }

    /// At most one row per key, in each of the three collections.
    pub open spec fn keys_unique(self) -> bool {
        &&& forall|i: int, j: int|
            0 <= i < j < self.users.len() ==> self.users[i].identity != self.users[j].identity
        &&& forall|i: int, j: int|
            0 <= i < j < self.groups.len() ==> self.groups[i].id != self.groups[j].id
        &&& forall|i: int, j: int|
            0 <= i < j < self.messages.len() ==> self.messages[i].id != self.messages[j].id
    }

    /// Both sides of the membership relation are duplicate-free lists.
    pub open spec fn member_lists_clean(self) -> bool {
        &&& forall|i: int|
            0 <= i < self.users.len() ==> (#[trigger] self.users[i].groups).no_duplicates()
        &&& forall|j: int|
            0 <= j < self.groups.len() ==> (#[trigger] self.groups[j].users).no_duplicates()
    }

    /// Every id either side of the membership relation names, and every
    /// group owner, resolves to an existing row.
    pub open spec fn references_resolve(self) -> bool {
        &&& forall|i: int, k: int|
            0 <= i < self.users.len() && 0 <= k < self.users[i].groups.len()
                ==> self.has_group(#[trigger] self.users[i].groups[k])
        &&& forall|j: int, k: int|
            0 <= j < self.groups.len() && 0 <= k < self.groups[j].users.len()
                ==> self.has_user(#[trigger] self.groups[j].users[k])
        &&& forall|j: int|
            0 <= j < self.groups.len() ==> self.has_user(#[trigger] self.groups[j].owner)
    }

    /// A group id stands in a user's group list exactly when the user's
    /// identity stands in the group's member list.
    pub open spec fn membership_mutual(self) -> bool {
        forall|i: int, j: int|
            0 <= i < self.users.len() && 0 <= j < self.groups.len() ==> (
            (#[trigger] self.users[i].groups).contains(self.groups[j].id)
                <==> (#[trigger] self.groups[j].users).contains(self.users[i].identity))
    }

    /// Assigned keys start above zero and stay below the counters, so a
    /// fresh key never collides with a live row.
    pub open spec fn ids_bounded(self) -> bool {
        &&& forall|j: int|
            0 <= j < self.groups.len() ==> 0 < (#[trigger] self.groups[j].id) < self.next_group_id
        &&& forall|k: int|
            0 <= k < self.messages.len() ==> 0 < (#[trigger] self.messages[k].id)
                < self.next_message_id
        &&& self.next_group_id >= 1
        &&& self.next_message_id >= 1
    }

    /// Well-formedness of the whole store; every procedure preserves it.
    pub open spec fn wf(self) -> bool {
        &&& self.keys_unique()
        &&& self.member_lists_clean()
        &&& self.references_resolve()
        &&& self.membership_mutual()
        &&& self.ids_bounded()
    }
}

/// The store itself: users keyed by identity, groups and messages keyed by
/// store-assigned, strictly increasing ids.
pub struct ChatCore {
    pub users: Vec<User>,
    pub groups: Vec<Group>,
    pub messages: Vec<Message>,
    pub next_group_id: u64,
    pub next_message_id: u64,
}

impl View for ChatCore {
    type V = StateView;

    open spec fn view(&self) -> StateView {
        StateView {
            users: self.users@.map_values(|u: User| u@),
            groups: self.groups@.map_values(|g: Group| g@),
            messages: self.messages@.map_values(|m: Message| m@),
            next_group_id: self.next_group_id,
            next_message_id: self.next_message_id,
        }
    }
}

impl ChatCore {
    /// Well-formedness, lifted to the executable store.
    pub open spec fn wf(&self) -> bool {
        self@.wf()
    }

    /// An empty store, as first published: no rows, counters at one.
    pub fn init() -> (s: ChatCore)
        ensures
            s@.users =~= Seq::<UserView>::empty(),
            s@.groups =~= Seq::<GroupView>::empty(),
            s@.messages =~= Seq::<MessageView>::empty(),
            s@.next_group_id == 1,
            s@.next_message_id == 1,
            s.wf(),
    {
        ChatCore {
            users: Vec::new(),
            groups: Vec::new(),
            messages: Vec::new(),
            next_group_id: 1,
            next_message_id: 1,
        }
    }

    /// The position of the user row with this identity, if there is one.
    pub fn find_user_index(&self, identity: u64) -> (r: Option<usize>)
        ensures
            match r {
                Some(i) => i < self.users.len() && self@.users[i as int].identity == identity,
                None => !self@.has_user(identity),
            },
    {
        let n = self.users.len();
        for i in 0..n
            invariant
                n == self.users.len(),
                forall|k: int| 0 <= k < i ==> self@.users[k].identity != identity,
        {
            if self.users[i].identity == identity {
                return Some(i);
            }
        }
        None
    }

    /// The position of the group row with this id, if there is one.
    pub fn find_group_index(&self, id: u64) -> (r: Option<usize>)
        ensures
            match r {
                Some(j) => j < self.groups.len() && self@.groups[j as int].id == id,
                None => !self@.has_group(id),
            },
    {
        let n = self.groups.len();
        for j in 0..n
            invariant
                n == self.groups.len(),
                forall|k: int| 0 <= k < j ==> self@.groups[k].id != id,
        {
            if self.groups[j].id == id {
                return Some(j);
            }
        }
        None
    }

    /// The position of the message row with this id, if there is one.
    pub fn find_message_index(&self, id: u64) -> (r: Option<usize>)
        ensures
            match r {
                Some(k) => k < self.messages.len() && self@.messages[k as int].id == id,
                None => !self@.has_message(id),
            },
    {
        let n = self.messages.len();
        for k in 0..n
            invariant
                n == self.messages.len(),
                forall|q: int| 0 <= q < k ==> self@.messages[q].id != id,
        {
            if self.messages[k].id == id {
                return Some(k);
            }
        }
        None
    }

    /// The user row carrying this identity, if there is one.
    pub fn get_user(&self, identity: u64) -> (r: Option<&User>)
        ensures
            match r {
                Some(u) => self@.has_user(identity) && exists|i: int|
                    0 <= i < self@.users.len() && self@.users[i].identity == identity && u@
                        == self@.users[i],
                None => !self@.has_user(identity),
            },
    {
        match self.find_user_index(identity) {
            Some(i) => Some(&self.users[i]),
            None => None,
        }
    }

    /// The group row carrying this id, if there is one.
    pub fn get_group(&self, id: u64) -> (r: Option<&Group>)
        ensures
            match r {
                Some(g) => self@.has_group(id) && exists|j: int|
                    0 <= j < self@.groups.len() && self@.groups[j].id == id && g@
                        == self@.groups[j],
                None => !self@.has_group(id),
            },
    {
        match self.find_group_index(id) {
            Some(j) => Some(&self.groups[j]),
            None => None,
        }
    }
}

/// Under key uniqueness, an index holding an identity is the user index.
pub proof fn lemma_user_index_is(s: StateView, i: int)
    requires
        s.keys_unique(),
        0 <= i < s.users.len(),
    ensures
        s.has_user(s.users[i].identity),
        s.user_index(s.users[i].identity) == i,
        s.user_of(s.users[i].identity) == s.users[i],
{
    let identity = s.users[i].identity;
    assert(s.has_user(identity));
    let j = s.user_index(identity);
    if i != j {
        assert(s.users[i].identity != s.users[j].identity);
    }
}

/// Under key uniqueness, an index holding a group id is the group index.
pub proof fn lemma_group_index_is(s: StateView, j: int)
    requires
        s.keys_unique(),
        0 <= j < s.groups.len(),
    ensures
        s.has_group(s.groups[j].id),
        s.group_index(s.groups[j].id) == j,
        s.group_of(s.groups[j].id) == s.groups[j],
{
    let id = s.groups[j].id;
    assert(s.has_group(id));
    let k = s.group_index(id);
    if j != k {
        assert(s.groups[j].id != s.groups[k].id);
    }
}

/// Under key uniqueness, an index holding a message id is the message index.
pub proof fn lemma_message_index_is(s: StateView, k: int)
    requires
        s.keys_unique(),
        0 <= k < s.messages.len(),
    ensures
        s.has_message(s.messages[k].id),
        s.message_index(s.messages[k].id) == k,
        s.message_of(s.messages[k].id) == s.messages[k],
{
    let id = s.messages[k].id;
    assert(s.has_message(id));
    let q = s.message_index(id);
    if k != q {
        assert(s.messages[k].id != s.messages[q].id);
    }
}

} // verus!
