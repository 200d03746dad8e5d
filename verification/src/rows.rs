//! The row types of the store — users, groups, messages — together with the
//! ghost views that contracts speak about.
//!
//! Identities, group ids, message ids and timestamps are plain integers: the
//! surrounding platform hands the core a stable numeric identity per
//! authenticated principal and the current time per call.

use vstd::prelude::*;

verus! {

/// Presence of a user: online, offline since a given time, or on a call.
#[derive(Clone, Copy, PartialEq, Eq, Structural, Debug)]
pub enum UserStatus {
    Online,
    Offline { at: u64 },
    OnCall,
}

/// Destination of a message: a single user, or a group.
///
/// A closed sum, so that "both set" or "neither set" states cannot be written.
#[derive(Clone, Copy, PartialEq, Eq, Structural, Debug)]
pub enum ReceiverIdentity {
    User { identity: u64 },
    Group { id: u64 },
}

/// Which way a mutation procedure failed.
#[derive(Clone, Copy, PartialEq, Eq, Structural, Debug)]
pub enum ChatError {
    /// A referenced user, group or message does not exist.
    NotFound,
    /// The acting identity lacks rights over the target.
    Unauthorized,
    /// An argument breaks a size limit.
    ValidationFailed,
}

/// A user row. The key is `identity`; a user, once created, is never deleted.
pub struct User {
    pub identity: u64,
    pub status: UserStatus,
    pub username: Option<String>,
    pub avatar: Option<Vec<u8>>,
    /// Ids of the groups this user belongs to; holds no duplicates.
    pub groups: Vec<u64>,
}

/// A group row. The key is `id`, assigned by the store, never reused.
pub struct Group {
    pub id: u64,
    pub owner: u64,
    pub name: Option<String>,
    pub avatar: Option<Vec<u8>>,
    /// Identities of the members; holds no duplicates.
    pub users: Vec<u64>,
}

/// A message row. The key is `id`, assigned by the store, never reused.
pub struct Message {
    pub id: u64,
    pub receiver: ReceiverIdentity,
    pub sender: u64,
    pub message: String,
    pub created_at: u64,
    pub updated_at: u64,
}

/// Ghost image of a `User`.
#[verifier::ext_equal]
pub ghost struct UserView {
    pub identity: u64,
    pub status: UserStatus,
    pub username: Option<Seq<char>>,
    pub avatar: Option<Seq<u8>>,
    pub groups: Seq<u64>,
}

/// Ghost image of a `Group`.
#[verifier::ext_equal]
pub ghost struct GroupView {
    pub id: u64,
    pub owner: u64,
    pub name: Option<Seq<char>>,
    pub avatar: Option<Seq<u8>>,
    pub users: Seq<u64>,
}

/// Ghost image of a `Message`.
#[verifier::ext_equal]
pub ghost struct MessageView {
    pub id: u64,
    pub receiver: ReceiverIdentity,
    pub sender: u64,
    pub message: Seq<char>,
    pub created_at: u64,
    pub updated_at: u64,
}

/// The view of an optional text field.
pub open spec fn text_view(o: Option<String>) -> Option<Seq<char>> {
    match o {
        Some(s) => Some(s@),
        None => None,
    }
}

/// The view of an optional binary field.
pub open spec fn bytes_view(o: Option<Vec<u8>>) -> Option<Seq<u8>> {
    match o {
        Some(b) => Some(b@),
        None => None,
    }
}

impl View for User {
    type V = UserView;

    open spec fn view(&self) -> UserView {
        UserView {
            identity: self.identity,
            status: self.status,
            username: text_view(self.username),
            avatar: bytes_view(self.avatar),
            groups: self.groups@,
        }
    }
}

impl View for Group {
    type V = GroupView;

    open spec fn view(&self) -> GroupView {
        GroupView {
            id: self.id,
            owner: self.owner,
            name: text_view(self.name),
            avatar: bytes_view(self.avatar),
            users: self.users@,
        }
    }
}

impl View for Message {
    type V = MessageView;

    open spec fn view(&self) -> MessageView {
        MessageView {
            id: self.id,
            receiver: self.receiver,
            sender: self.sender,
            message: self.message@,
            created_at: self.created_at,
            updated_at: self.updated_at,
        }
    }
}

} // verus!
