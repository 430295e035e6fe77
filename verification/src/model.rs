//! The chat-list data that the library's logic reads.
use vstd::prelude::*;

verus! {

/// A chat's id, as the phone addresses it.
pub type ChatId = String;

/// What the prefetch reads of a chat in the chat list.
#[derive(Clone, Debug)]
pub struct Chat {
    pub id: ChatId,
    pub name: String,
    pub last_activity: i64,
    pub pinned: bool,
    pub pinned_at: i64,
    pub archived: bool,
}

impl Chat {
    /// A chat with no activity, not pinned and not archived.
    pub fn new(id: ChatId, name: String) -> (chat: Chat)
        ensures
            chat.id == id,
            chat.name == name,
            chat.last_activity == 0,
            !chat.pinned,
            chat.pinned_at == 0,
            !chat.archived,
    {
        Chat { id, name, last_activity: 0, pinned: false, pinned_at: 0, archived: false }
    }
}

} // verus!
