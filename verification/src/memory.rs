//! The conversation-memory log: an append-per-key store of log entries,
//! one log per conversation ID, oldest entry first.

use vstd::prelude::*;

use crate::models::{ConversationContext, LogEntry, LogPayload};
use crate::registry::{key_in, key_idx, lemma_put_frame, lemma_remove_frame, val_of, Registry};

verus! {

/// The entry a payload appends.
pub open spec fn entry_of(p: LogPayload) -> LogEntry {
    LogEntry { role: p.role, content: p.content, agent_id: p.agent_id }
}

/// An in-memory store of conversation logs, keyed by conversation ID.
pub struct MemoryStore {
    conversations: Registry<Vec<LogEntry>>,
}

impl View for MemoryStore {
    type V = Seq<(Seq<char>, Vec<LogEntry>)>;

    closed spec fn view(&self) -> Seq<(Seq<char>, Vec<LogEntry>)> {
        self.conversations@
    }
}

impl MemoryStore {
    /// Conversation IDs are distinct.
    pub open spec fn wf(&self) -> bool {
        crate::registry::keys_distinct(self@)
    }

    /// An empty store.
    pub fn new() -> (r: Self)
        ensures
            r@.len() == 0,
            r.wf(),
    {
        MemoryStore { conversations: Registry::new() }
    }

    /// Appends the payload's entry to its conversation's log, creating the
    /// log when absent, and returns the updated log.
    pub fn log(&mut self, payload: LogPayload) -> (r: Vec<LogEntry>)
        requires
            old(self).wf(),
        ensures
            final(self).wf(),
            key_in(final(self)@, payload.conversation_id@),
            val_of(final(self)@, payload.conversation_id@)@ == if key_in(
                old(self)@,
                payload.conversation_id@,
            ) {
                val_of(old(self)@, payload.conversation_id@)@.push(entry_of(payload))
            } else {
                seq![entry_of(payload)]
            },
            forall|k: Seq<char>|
                k != payload.conversation_id@ ==> (#[trigger] key_in(final(self)@, k) <==> key_in(
                    old(self)@,
                    k,
                )),
            forall|k: Seq<char>|
                k != payload.conversation_id@ && key_in(old(self)@, k) ==> #[trigger] val_of(
                    final(self)@,
                    k,
                ) == val_of(old(self)@, k),
            r@ == val_of(final(self)@, payload.conversation_id@)@,
    {
        let ghost old_view = self@;
        let ghost cid = payload.conversation_id@;
        let entry = LogEntry { role: payload.role, content: payload.content, agent_id: payload.agent_id };
        let ghost entryg = entry;
        let prev = self.conversations.remove(&payload.conversation_id);
        let ghost mid_view = self@;
        proof {
            if key_in(old_view, cid) {
                lemma_remove_frame(old_view, mid_view, cid);
            }
        }
        let mut conv: Vec<LogEntry> = match prev {
            Some(v) => v,
            None => Vec::new(),
        };
        conv.push(entry);
        let ghost convv = conv@;
        let mut r: Vec<LogEntry> = Vec::new();
        let mut i: usize = 0;
        while i < conv.len()
            invariant
                i <= conv@.len(),
                conv@ == convv,
                r@ == convv.take(i as int),
            decreases conv@.len() - i,
        {
            r.push(conv[i].clone());
            proof {
                assert(r@ =~= convv.take(i + 1));
            }
            i += 1;
        }
        proof {
            assert(convv.take(convv.len() as int) =~= convv);
        }
        let _ = self.conversations.put(payload.conversation_id, conv);
        proof {
            lemma_put_frame(mid_view, self@, cid, conv);
            assert forall|k: Seq<char>|
                k != cid implies (#[trigger] key_in(self@, k) <==> key_in(old_view, k)) by {
                assert(key_in(mid_view, k) <==> key_in(old_view, k));
            }
            assert forall|k: Seq<char>|
                k != cid && key_in(old_view, k) implies #[trigger] val_of(self@, k) == val_of(
                old_view,
                k,
            ) by {
                assert(val_of(mid_view, k) == val_of(old_view, k));
            }
            if key_in(old_view, cid) {
                assert(convv =~= val_of(old_view, cid)@.push(entryg));
            } else {
                assert(convv =~= seq![entryg]);
            }
        }
        r
    }

    /// The log of a conversation, oldest first; `None` when the ID has
    /// never been logged to.
    pub fn get_conversation(&self, conversation_id: &String) -> (r: Option<Vec<LogEntry>>)
        requires
            self.wf(),
        ensures
            match r {
                Some(entries) => key_in(self@, conversation_id@) && entries@ == val_of(
                    self@,
                    conversation_id@,
                )@,
                None => !key_in(self@, conversation_id@),
            },
    {
        match self.conversations.get(conversation_id) {
            Some(conv) => {
                let ghost convv = conv@;
                let mut r: Vec<LogEntry> = Vec::new();
                let mut i: usize = 0;
                while i < conv.len()
                    invariant
                        i <= conv@.len(),
                        conv@ == convv,
                        r@ == convv.take(i as int),
                    decreases conv@.len() - i,
                {
                    r.push(conv[i].clone());
                    proof {
                        assert(r@ =~= convv.take(i + 1));
                    }
                    i += 1;
                }
                proof {
                    assert(convv.take(convv.len() as int) =~= convv);
                }
                Some(r)
            },
            None => None,
        }
    }

    /// The whole conversation as one record.
    pub fn get_context(&self, conversation_id: &String) -> (r: Option<ConversationContext>)
        requires
            self.wf(),
        ensures
            match r {
                Some(ctx) => key_in(self@, conversation_id@) && ctx.conversation_id@
                    == conversation_id@ && ctx.log_entries@ == val_of(self@, conversation_id@)@,
                None => !key_in(self@, conversation_id@),
            },
    {
        match self.get_conversation(conversation_id) {
            Some(entries) => Some(
                ConversationContext {
                    conversation_id: conversation_id.clone(),
                    log_entries: entries,
                },
            ),
            None => None,
        }
    }
}

} // verus!
