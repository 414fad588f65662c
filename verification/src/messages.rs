//! The status of a cross-layer message, decided from what the database
//! reports about its nonce.

use vstd::prelude::*;

verus! {

/// The status of a cross-layer message.
#[derive(Debug, Clone, Copy, PartialEq, Eq, Structural)]
pub enum MessageStatus {
    /// The message existed and has been consumed.
    Spent,
    /// The message exists and is consumable.
    Unspent,
    /// No message with the nonce is known.
    NotFound,
}

/// The status of a message nonce: spent wins over unspent, and a nonce the
/// database knows nothing about is not found.
pub fn message_status(message_is_spent: bool, message_exists: bool) -> (r: MessageStatus)
    ensures
        r == if message_is_spent {
            MessageStatus::Spent
        } else if message_exists {
            MessageStatus::Unspent
        } else {
            MessageStatus::NotFound
        },
{
    if message_is_spent {
        MessageStatus::Spent
    } else if message_exists {
        MessageStatus::Unspent
    } else {
        MessageStatus::NotFound
    }
}

} // verus!
