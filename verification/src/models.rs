//! The record types of the directory: agent, task and tool definitions,
//! and the entries of the conversation-memory log.

use vstd::prelude::*;

verus! {

/// The error kinds of the directory. `NotFound` situations (deregistering an
/// unknown ID) are treated as successful no-ops and never surface here.
#[derive(Debug, Clone, Copy, PartialEq, Eq, Structural)]
pub enum DiscoveryError {
    /// A definition with an empty ID was offered for registration.
    InvalidInput,
    /// An embedding's dimension differs from the one the vector index was
    /// constructed with.
    DimensionMismatch,
    /// The embedder produced no embedding for a text.
    EmbeddingUnavailable,
}

/// A named capability an agent claims to have. Skill names are matched
/// case-insensitively after trimming.
#[derive(Debug)]
pub struct Skill {
    pub name: String,
    pub description: String,
}

impl Clone for Skill {
    fn clone(&self) -> (r: Self)
        ensures
            r == *self,
    {
        Skill { name: self.name.clone(), description: self.description.clone() }
    }
}

/// The authoritative record of a registered agent.
#[derive(Debug)]
pub struct AgentDefinition {
    pub id: String,
    pub name: String,
    pub description: String,
    pub skills: Vec<Skill>,
}

/// The mathematical content of an `AgentDefinition`: the same fields, with
/// the skill list as a sequence.
pub struct AgentDefView {
    pub id: String,
    pub name: String,
    pub description: String,
    pub skills: Seq<Skill>,
}

impl View for AgentDefinition {
    type V = AgentDefView;

    open spec fn view(&self) -> AgentDefView {
        AgentDefView {
            id: self.id,
            name: self.name,
            description: self.description,
            skills: self.skills@,
        }
    }
}

impl Clone for AgentDefinition {
    fn clone(&self) -> (r: Self)
        ensures
            r@ == self@,
    {
        let mut skills: Vec<Skill> = Vec::new();
        let mut i: usize = 0;
        while i < self.skills.len()
            invariant
                i <= self.skills.len(),
                skills@ == self.skills@.take(i as int),
            decreases self.skills.len() - i,
        {
            skills.push(self.skills[i].clone());
            assert(self.skills@.take(i + 1int) == self.skills@.take(i as int).push(self.skills@[i as int]));
            i += 1;
        }
        assert(skills@ == self.skills@) by {
            assert(self.skills@.take(self.skills@.len() as int) =~= self.skills@);
        }
        AgentDefinition {
            id: self.id.clone(),
            name: self.name.clone(),
            description: self.description.clone(),
            skills,
        }
    }
}

/// The record of a registered task.
#[derive(Debug)]
pub struct TaskDefinition {
    pub id: String,
    pub name: String,
    pub description: String,
}

impl Clone for TaskDefinition {
    fn clone(&self) -> (r: Self)
        ensures
            r == *self,
    {
        TaskDefinition {
            id: self.id.clone(),
            name: self.name.clone(),
            description: self.description.clone(),
        }
    }
}

/// The record of a registered tool.
#[derive(Debug)]
pub struct ToolDefinition {
    pub id: String,
    pub name: String,
    pub description: String,
    pub input_schema: String,
}

impl Clone for ToolDefinition {
    fn clone(&self) -> (r: Self)
        ensures
            r == *self,
    {
        ToolDefinition {
            id: self.id.clone(),
            name: self.name.clone(),
            description: self.description.clone(),
            input_schema: self.input_schema.clone(),
        }
    }
}

/// Who produced a conversation-log entry.
#[derive(Debug, Clone, Copy, PartialEq, Eq, Structural)]
pub enum Role {
    User,
    Agent,
    System,
}

/// The display text of each role.
pub open spec fn role_label(r: Role) -> Seq<char> {
    match r {
        Role::User => "User"@,
        Role::Agent => "Agent"@,
        Role::System => "System"@,
    }
}

impl Role {
    /// The role's display text.
    pub fn label(&self) -> (r: String)
        ensures
            r@ == role_label(*self),
    {
        match self {
            Role::User => "User".to_owned(),
            Role::Agent => "Agent".to_owned(),
            Role::System => "System".to_owned(),
        }
    }
}

/// One entry of a conversation log.
#[derive(Debug)]
pub struct LogEntry {
    pub role: Role,
    pub content: String,
    pub agent_id: Option<String>,
}

impl Clone for LogEntry {
    fn clone(&self) -> (r: Self)
        ensures
            r == *self,
    {
        LogEntry {
            role: self.role,
            content: self.content.clone(),
            agent_id: match &self.agent_id {
                Some(s) => Some(s.clone()),
                None => None,
            },
        }
    }
}

/// What a caller hands to the memory log: an entry together with the
/// conversation it belongs to.
#[derive(Debug)]
pub struct LogPayload {
    pub conversation_id: String,
    pub role: Role,
    pub content: String,
    pub agent_id: Option<String>,
}

/// A whole conversation: its ID and its entries, oldest first.
#[derive(Debug)]
pub struct ConversationContext {
    pub conversation_id: String,
    pub log_entries: Vec<LogEntry>,
}

} // verus!
