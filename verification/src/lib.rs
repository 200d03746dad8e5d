//! Verified transactional core of a group-chat backend.
//!
//! The crate owns three keyed collections — users, groups, messages — and
//! exposes atomic mutation procedures (reducers) over them plus two
//! per-caller filtered read views. Every reducer preserves the store's
//! well-formedness, above all the bidirectional membership invariant:
//! a group id sits in a user's group set exactly when that user's identity
//! sits in the group's member set.

pub mod rows;
pub mod state;
pub mod group_ops;
pub mod laws;
pub mod membership;
pub mod message_ops;
pub mod text;
pub mod user_ops;
pub mod views;

pub use rows::ChatError;
pub use state::ChatCore;
pub use rows::Group;
pub use rows::Message;
pub use rows::ReceiverIdentity;
pub use rows::User;
pub use rows::UserStatus;
