//! The chat history.
use vstd::prelude::*;

use crate::commands::search::turn;
use crate::text::chars;
use crate::text::edit;

verus! {

/// A chat session.
#[derive(Debug)]
pub struct ChatSession {
    /// Its identifier.
    pub id: String,
    /// Its name.
    pub title: Option<String>,
    /// When it began, in seconds since 1970.
    pub created_at: i64,
    /// When it was last used.
    pub updated_at: i64,
}

/// A message of a session.
#[derive(Debug)]
pub struct ChatMessage {
    /// Its identifier.
    pub id: String,
    /// Its session.
    pub session_id: String,
    /// Who speaks.
    pub role: String,
    /// What is said.
    pub content: String,
    /// The citations, as JSON.
    pub citations: Option<String>,
    /// The model that speaks.
    pub model: Option<String>,
    /// When it was said.
    pub timestamp: i64,
}

/// The memory of conversations.
#[derive(Clone, Copy, Debug)]
pub struct ConversationMemory;

impl ConversationMemory {
    /// The messages as turns: who speaks and what is said.
    pub fn context_pairs(messages: &Vec<ChatMessage>) -> (r: Vec<(String, String)>)
        ensures
            r@ == Seq::new(
                messages@.len(),
                |i: int| (messages@[i].role, messages@[i].content),
            ),
    {
        let ghost all = Seq::new(
            messages@.len(),
            |i: int| (messages@[i].role, messages@[i].content),
        );
        let mut out: Vec<(String, String)> = Vec::new();
        let mut i: usize = 0;
        while i < messages.len()
            invariant
                i <= messages@.len(),
                all == Seq::new(
                    messages@.len(),
                    |k: int| (messages@[k].role, messages@[k].content),
                ),
                out@ == all.take(i as int),
            decreases messages@.len() - i,
        {
            out.push((messages[i].role.clone(), messages[i].content.clone()));
            i += 1;
        }
        assert(all.take(messages@.len() as int) =~= all);
        out
    }

    /// The name of a session by its first message: its front, with an ellipsis
    /// where the message has more bytes than the name has characters at most.
    pub fn title_of(first: &str) -> (r: String)
        ensures
            r@ == edit::first_chars(first@, turn::TITLE_CHARS as int) + if chars::utf8_len(first@)
                > turn::TITLE_CHARS {
                "..."@
            } else {
                Seq::empty()
            },
    {
        let mut out: String = edit::take_chars(first, turn::TITLE_CHARS);
        let ghost front = out@;
        if chars::byte_len(first) > turn::TITLE_CHARS {
            out.append("...");
        }
        assert(front + Seq::<char>::empty() =~= front);
        out
    }
}

} // verus!
