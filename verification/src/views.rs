//! The two caller-scoped read views. Each returns copies of exactly the
//! rows the caller is entitled to see, and never mutates the store.

use vstd::prelude::*;

use crate::rows::Group;
use crate::rows::Message;
use crate::rows::MessageView;
use crate::rows::ReceiverIdentity;
use crate::rows::bytes_view;
use crate::rows::text_view;
use crate::state::ChatCore;
use crate::state::StateView;
use crate::state::lemma_group_index_is;
use crate::state::lemma_user_index_is;
use crate::group_ops::clone_ids;
use crate::membership::contains_id;

verus! {

/// A copy of an optional text field.
fn clone_text(o: &Option<String>) -> (r: Option<String>)
    ensures
        text_view(r) == text_view(*o),
{
    match o {
        Some(s) => Some(s.clone()),
        None => None,
    }
}

/// A copy of an optional binary field.
fn clone_bytes(o: &Option<Vec<u8>>) -> (r: Option<Vec<u8>>)
    ensures
        bytes_view(r) == bytes_view(*o),
{
    match o {
        Some(b) => {
            let c = b.clone();
            proof {
                assert forall|i: int| 0 <= i < b@.len() implies c@[i] == b@[i] by {
                    assert(vstd::pervasive::cloned::<u8>(b@[i], c@[i]));
                }
                assert(c@ =~= b@);
            }
            Some(c)
        },
        None => None,
    }
}

/// A copy of a group row, equal under the view.
fn duplicate_group(g: &Group) -> (r: Group)
    ensures
        r@ == g@,
{
    Group {
        id: g.id,
        owner: g.owner,
        name: clone_text(&g.name),
        avatar: clone_bytes(&g.avatar),
        users: clone_ids(&g.users),
    }
}

/// A copy of a message row, equal under the view.
fn duplicate_message(m: &Message) -> (r: Message)
    ensures
        r@ == m@,
{
    Message {
        id: m.id,
        receiver: m.receiver,
        sender: m.sender,
        message: m.message.clone(),
        created_at: m.created_at,
        updated_at: m.updated_at,
    }
}

/// Whether a caller is entitled to see a message: its own messages, those
/// addressed to it, and those addressed to a group it belongs to.
pub open spec fn sees_message(s: StateView, caller: u64, m: MessageView) -> bool {
    ||| m.sender == caller
    ||| m.receiver == (ReceiverIdentity::User { identity: caller })
    ||| match m.receiver {
        ReceiverIdentity::Group { id } => s.has_user(caller) && s.user_of(
            caller,
        ).groups.contains(id),
        ReceiverIdentity::User { .. } => false,
    }
}

impl ChatCore {
    /// Every group the caller belongs to, in the order of the caller's own
    /// group list; empty for an unknown caller. This is the sole
    /// authorization boundary for group visibility.
    pub fn groups(&self, caller: u64) -> (r: Vec<Group>)
        requires
            self.wf(),
        ensures
            !self@.has_user(caller) ==> r@.len() == 0,
            self@.has_user(caller) ==> {
                &&& r@.len() == self@.user_of(caller).groups.len()
                &&& forall|k: int|
                    0 <= k < r@.len() ==> (#[trigger] r@[k])@ == self@.group_of(
                        self@.user_of(caller).groups[k],
                    )
            },
    {
        let mut r: Vec<Group> = Vec::new();
        let Some(ui) = self.find_user_index(caller) else {
            return r;
        };
        proof {
            lemma_user_index_is(self@, ui as int);
        }
        let n = self.users[ui].groups.len();
        for k in 0..n
            invariant
                self.wf(),
                ui < self.users.len(),
                self@.user_index(caller) == ui as int,
                self@.users[ui as int].identity == caller,
                n == self@.users[ui as int].groups.len(),
                r@.len() == k,
                forall|q: int|
                    0 <= q < k ==> (#[trigger] r@[q])@ == self@.group_of(
                        self@.users[ui as int].groups[q],
                    ),
        {
            let gid = self.users[ui].groups[k];
            proof {
                assert(self@.users[ui as int].groups[k as int] == gid);
                assert(self@.has_group(gid));
            }
            let gj_opt = self.find_group_index(gid);
            proof {
                assert(gj_opt is Some);
            }
            let gj = gj_opt.unwrap();
            proof {
                lemma_group_index_is(self@, gj as int);
            }
            r.push(duplicate_group(&self.groups[gj]));
        }
        r
    }

    /// Every message the caller is entitled to see — sent by it, addressed
    /// to it, or addressed to a group it belongs to — each exactly once,
    /// in store order.
    pub fn messages(&self, caller: u64) -> (r: Vec<Message>)
        requires
            self.wf(),
        ensures
            r@.map_values(|m: Message| m@) == self@.messages.filter(
                |m: MessageView| sees_message(self@, caller, m),
            ),
    {
        let empty: Vec<u64> = Vec::new();
        let member_groups: &Vec<u64> = match self.find_user_index(caller) {
            Some(ui) => {
                proof {
                    lemma_user_index_is(self@, ui as int);
                }
                &self.users[ui].groups
            },
            None => &empty,
        };
        proof {
            assert(member_groups@ == if self@.has_user(caller) {
                self@.user_of(caller).groups
            } else {
                Seq::<u64>::empty()
            });
        }
        let ghost pred = |m: MessageView| sees_message(self@, caller, m);
        let mut r: Vec<Message> = Vec::new();
        let n = self.messages.len();
        proof {
            reveal(Seq::filter);
            assert(self@.messages.take(0) =~= Seq::<MessageView>::empty());
            assert(r@.map_values(|m: Message| m@) =~= self@.messages.take(0).filter(pred));
        }
        for k in 0..n
            invariant
                self.wf(),
                n == self@.messages.len(),
                member_groups@ == if self@.has_user(caller) {
                    self@.user_of(caller).groups
                } else {
                    Seq::<u64>::empty()
                },
                pred == (|m: MessageView| sees_message(self@, caller, m)),
                r@.map_values(|m: Message| m@) == self@.messages.take(k as int).filter(pred),
        {
            let m = &self.messages[k];
            proof {
                assert(m@ == self@.messages[k as int]);
            }
            let addressed = match &m.receiver {
                ReceiverIdentity::User { identity } => *identity == caller,
                ReceiverIdentity::Group { id } => contains_id(member_groups, *id),
            };
            let keep = m.sender == caller || addressed;
            proof {
                assert(keep == sees_message(self@, caller, m@));
            }
            let ghost r_before = r@;
            if keep {
                r.push(duplicate_message(m));
                proof {
                    assert(r@.map_values(|m: Message| m@) =~= r_before.map_values(
                        |m: Message| m@,
                    ).push(self@.messages[k as int]));
                }
            }
            proof {
                reveal(Seq::filter);
                let t = self@.messages.take(k + 1);
                assert(t.drop_last() =~= self@.messages.take(k as int));
                assert(t.last() == self@.messages[k as int]);
                assert(t.filter(pred) == if pred(t.last()) {
                    t.drop_last().filter(pred).push(t.last())
                } else {
                    t.drop_last().filter(pred)
                });
            }
        }
        proof {
            assert(self@.messages.take(n as int) =~= self@.messages);
        }
        r
    }
}

} // verus!
