use agent_directory::address::{get_agent_address, list_other_agents};
use agent_directory::memory::MemoryStore;
use agent_directory::models::{AgentDefinition, LogPayload, Role, Skill};

fn payload(cid: &str, role: Role, content: &str, agent_id: Option<&str>) -> LogPayload {
    LogPayload {
        conversation_id: cid.to_string(),
        role,
        content: content.to_string(),
        agent_id: agent_id.map(|s| s.to_string()),
    }
}

#[test]
fn log_appends_per_conversation() {
    let mut store = MemoryStore::new();
    let first = store.log(payload("c1", Role::User, "hi", None));
    assert_eq!(first.len(), 1);
    assert_eq!(first[0].content, "hi");
    let second = store.log(payload("c1", Role::Agent, "hello", Some("a1")));
    assert_eq!(second.len(), 2);
    assert_eq!(second[0].content, "hi");
    assert_eq!(second[1].content, "hello");
    assert_eq!(second[1].agent_id.as_deref(), Some("a1"));
    // a different conversation is untouched
    let other = store.log(payload("c2", Role::System, "boot", None));
    assert_eq!(other.len(), 1);
    let c1 = store.get_conversation(&"c1".to_string()).unwrap();
    assert_eq!(c1.len(), 2);
}

#[test]
fn unknown_conversation_is_none() {
    let store = MemoryStore::new();
    assert!(store.get_conversation(&"nope".to_string()).is_none());
    assert!(store.get_context(&"nope".to_string()).is_none());
}

#[test]
fn context_carries_id_and_entries() {
    let mut store = MemoryStore::new();
    store.log(payload("c1", Role::User, "one", None));
    store.log(payload("c1", Role::User, "two", None));
    let ctx = store.get_context(&"c1".to_string()).unwrap();
    assert_eq!(ctx.conversation_id, "c1");
    assert_eq!(ctx.log_entries.len(), 2);
    assert_eq!(ctx.log_entries[1].content, "two");
}

#[test]
fn role_labels() {
    assert_eq!(Role::User.label(), "User");
    assert_eq!(Role::Agent.label(), "Agent");
    assert_eq!(Role::System.label(), "System");
}

fn agent(id: &str, skills: &[&str]) -> AgentDefinition {
    AgentDefinition {
        id: id.to_string(),
        name: id.to_string(),
        description: String::new(),
        skills: skills
            .iter()
            .map(|s| Skill { name: (*s).to_string(), description: String::new() })
            .collect(),
    }
}

#[test]
fn agent_address_requires_a_skill() {
    let agents = vec![agent("a1", &["Math"]), agent("a2", &[])];
    let addr = get_agent_address(&agents, &"a1".to_string());
    assert_eq!(addr.as_deref(), Some("agent://a1/"));
    assert!(get_agent_address(&agents, &"a2".to_string()).is_none());
    assert!(get_agent_address(&agents, &"a3".to_string()).is_none());
}

#[test]
fn listing_other_agents_excludes_exactly_one_id() {
    let agents = vec![agent("a1", &[]), agent("a2", &[]), agent("a3", &[])];
    let others = list_other_agents(&agents, &"a2".to_string());
    let ids: Vec<&str> = others.iter().map(|d| d.id.as_str()).collect();
    assert_eq!(ids, vec!["a1", "a3"]);
    let all = list_other_agents(&agents, &"zz".to_string());
    assert_eq!(all.len(), 3);
}
