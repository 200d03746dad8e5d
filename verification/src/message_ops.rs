//! The message mutation procedures.

use vstd::prelude::*;

use crate::rows::ChatError;
use crate::rows::Message;
use crate::rows::MessageView;
use crate::rows::ReceiverIdentity;
use crate::state::ChatCore;
use crate::state::StateView;
use crate::state::lemma_message_index_is;
use crate::membership::lemma_map_values_remove;
use crate::membership::lemma_map_values_update;
use crate::text::MAX_MESSAGE_CHARS;
use crate::text::check_message;

verus! {

/// Whether a receiver names an existing user or group.
pub open spec fn receiver_resolves(pre: StateView, receiver: ReceiverIdentity) -> bool {
    match receiver {
        ReceiverIdentity::User { identity } => pre.has_user(identity),
        ReceiverIdentity::Group { id } => pre.has_group(id),
    }
}

/// Changing or dropping message rows alone preserves the membership side
/// of well-formedness; only key uniqueness and id bounds are at stake.
pub proof fn lemma_messages_only_wf(pre: StateView, post: StateView)
    requires
        pre.wf(),
        post.users == pre.users,
        post.groups == pre.groups,
        post.next_group_id == pre.next_group_id,
        forall|i: int, j: int|
            0 <= i < j < post.messages.len() ==> post.messages[i].id != post.messages[j].id,
        forall|k: int|
            0 <= k < post.messages.len() ==> 0 < (#[trigger] post.messages[k].id)
                < post.next_message_id,
        post.next_message_id >= 1,
    ensures
        post.wf(),
{
}

impl ChatCore {
    /// Stores a message from the caller to the given receiver, stamped
    /// `now` on both timestamps. The body must fit `MAX_MESSAGE_CHARS` and
    /// the receiver must name an existing user or group.
    pub fn send_message(&mut self, caller: u64, receiver: ReceiverIdentity, message: String, now: u64) -> (r:
        Result<(), ChatError>)
        requires
            old(self).wf(),
            old(self)@.next_message_id < u64::MAX,
        ensures
            final(self).wf(),
            r is Err ==> final(self)@ == old(self)@,
            r == if message@.len() > MAX_MESSAGE_CHARS {
                Err::<(), ChatError>(ChatError::ValidationFailed)
            } else if !receiver_resolves(old(self)@, receiver) {
                Err::<(), ChatError>(ChatError::NotFound)
            } else {
                Ok::<(), ChatError>(())
            },
            r is Ok ==> {
                &&& final(self)@.messages == old(self)@.messages.push(
                    MessageView {
                        id: old(self)@.next_message_id,
                        receiver,
                        sender: caller,
                        message: message@,
                        created_at: now,
                        updated_at: now,
                    },
                )
                &&& final(self)@.users == old(self)@.users
                &&& final(self)@.groups == old(self)@.groups
                &&& final(self)@.next_group_id == old(self)@.next_group_id
                &&& final(self)@.next_message_id == old(self)@.next_message_id + 1
            },
    {
        let ghost pre = self@;
        if let Err(e) = check_message(message.as_str()) {
            return Err(e);
        }
        let resolves = match receiver {
            ReceiverIdentity::User { identity } => self.find_user_index(identity).is_some(),
            ReceiverIdentity::Group { id } => self.find_group_index(id).is_some(),
        };
        if !resolves {
            return Err(ChatError::NotFound);
        }
        let mid = self.next_message_id;
        self.next_message_id = mid + 1;
        self.messages.push(
            Message {
                id: mid,
                receiver,
                sender: caller,
                message,
                created_at: now,
                updated_at: now,
            },
        );
        proof {
            assert(self@.messages =~= pre.messages.push(self@.messages.last()));
            let post = self@;
            assert forall|i: int, j: int|
                0 <= i < j < post.messages.len() implies post.messages[i].id != post.messages[
                j
            ].id by {
                if j == pre.messages.len() as int {
                    assert(pre.messages[i].id < pre.next_message_id);
                }
            }
            lemma_messages_only_wf(pre, post);
        }
        Ok(())
    }

    /// Replaces the body of a message and stamps `updated_at` with `now`.
    /// Only the sender may edit; id, sender and `created_at` stand.
    pub fn update_message(&mut self, caller: u64, message_id: u64, message: String, now: u64) -> (r:
        Result<(), ChatError>)
        requires
            old(self).wf(),
        ensures
            final(self).wf(),
            r is Err ==> final(self)@ == old(self)@,
            r == if message@.len() > MAX_MESSAGE_CHARS {
                Err::<(), ChatError>(ChatError::ValidationFailed)
            } else if !old(self)@.has_message(message_id) {
                Err::<(), ChatError>(ChatError::NotFound)
            } else if old(self)@.message_of(message_id).sender != caller {
                Err::<(), ChatError>(ChatError::Unauthorized)
            } else {
                Ok::<(), ChatError>(())
            },
            r is Ok ==> {
                &&& final(self)@.messages == old(self)@.messages.update(
                    old(self)@.message_index(message_id),
                    MessageView {
                        message: message@,
                        updated_at: now,
                        ..old(self)@.message_of(message_id)
                    },
                )
                &&& final(self)@.users == old(self)@.users
                &&& final(self)@.groups == old(self)@.groups
                &&& final(self)@.next_group_id == old(self)@.next_group_id
                &&& final(self)@.next_message_id == old(self)@.next_message_id
            },
    {
        let ghost pre = self@;
        if let Err(e) = check_message(message.as_str()) {
            return Err(e);
        }
        let Some(mi) = self.find_message_index(message_id) else {
            return Err(ChatError::NotFound);
        };
        proof {
            lemma_message_index_is(pre, mi as int);
        }
        if self.messages[mi].sender != caller {
            return Err(ChatError::Unauthorized);
        }
        let mut m = self.messages.remove(mi);
        m.message = message;
        m.updated_at = now;
        self.messages.insert(mi, m);
        proof {
            assert(self.messages@ =~= old(self).messages@.update(
                mi as int,
                self.messages@[mi as int],
            ));
            lemma_map_values_update(
                old(self).messages@,
                |x: Message| x@,
                mi as int,
                self.messages@[mi as int],
            );
            let post = self@;
            assert(post.messages =~= pre.messages.update(
                mi as int,
                MessageView { message: message@, updated_at: now, ..pre.message_of(message_id) },
            ));
            assert forall|i: int, j: int|
                0 <= i < j < post.messages.len() implies post.messages[i].id != post.messages[
                j
            ].id by {
                assert(pre.messages[i].id != pre.messages[j].id);
            }
            lemma_messages_only_wf(pre, post);
        }
        Ok(())
    }

    /// Removes a message. Only the sender may delete.
    pub fn delete_message(&mut self, caller: u64, message_id: u64) -> (r: Result<(), ChatError>)
        requires
            old(self).wf(),
        ensures
            final(self).wf(),
            r is Err ==> final(self)@ == old(self)@,
            r == if !old(self)@.has_message(message_id) {
                Err::<(), ChatError>(ChatError::NotFound)
            } else if old(self)@.message_of(message_id).sender != caller {
                Err::<(), ChatError>(ChatError::Unauthorized)
            } else {
                Ok::<(), ChatError>(())
            },
            r is Ok ==> {
                &&& final(self)@.messages == old(self)@.messages.remove(
                    old(self)@.message_index(message_id),
                )
                &&& final(self)@.users == old(self)@.users
                &&& final(self)@.groups == old(self)@.groups
                &&& final(self)@.next_group_id == old(self)@.next_group_id
                &&& final(self)@.next_message_id == old(self)@.next_message_id
            },
    {
        let ghost pre = self@;
        let Some(mi) = self.find_message_index(message_id) else {
            return Err(ChatError::NotFound);
        };
        proof {
            lemma_message_index_is(pre, mi as int);
        }
        if self.messages[mi].sender != caller {
            return Err(ChatError::Unauthorized);
        }
        self.messages.remove(mi);
        proof {
            lemma_map_values_remove(old(self).messages@, |x: Message| x@, mi as int);
            let post = self@;
            assert(post.messages =~= pre.messages.remove(mi as int));
            assert(forall|j: int|
                0 <= j < post.messages.len() ==> post.messages[j] == (if j < mi as int {
                    pre.messages[j]
                } else {
                    pre.messages[j + 1]
                }));
            assert forall|i: int, j: int|
                0 <= i < j < post.messages.len() implies post.messages[i].id != post.messages[
                j
            ].id by {
                let pi: int = if i < mi as int {
                    i
                } else {
                    i + 1
                };
                let pj: int = if j < mi as int {
                    j
                } else {
                    j + 1
                };
                assert(pre.messages[pi].id != pre.messages[pj].id);
            }
            lemma_messages_only_wf(pre, post);
        }
        Ok(())
    }
}

} // verus!
