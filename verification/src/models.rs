//! Row types for the relational form of the persistent store: one row per
//! session, keyed by the chat id, holding the chain's text form.

use vstd::prelude::*;

verus! {

/// A stored row: a session's chat id and its serialized chain.
pub struct ChatChain {
    pub chat_id: i64,
    pub chain: String,
}

/// A row to be inserted, borrowing its fields from the caller.
pub struct NewChatChain<'a> {
    pub chat_id: &'a i64,
    pub chain: &'a String,
}

impl NewChatChain<'_> {
    pub fn new<'a>(chat_id: &'a i64, chain: &'a String) -> (r: NewChatChain<'a>)
        ensures
            r.chat_id == chat_id,
            r.chain == chain,
    {
        NewChatChain { chat_id, chain }
    }
}

} // verus!
