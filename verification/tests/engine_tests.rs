use agent_directory::engine::DiscoveryEngine;
use agent_directory::models::{AgentDefinition, DiscoveryError, Skill, TaskDefinition, ToolDefinition};

fn agent(id: &str, name: &str, description: &str, skills: &[&str]) -> AgentDefinition {
    let mut skill_list: Vec<Skill> = Vec::new();
    for s in skills {
        skill_list.push(Skill { name: (*s).to_string(), description: String::new() });
    }
    AgentDefinition {
        id: id.to_string(),
        name: name.to_string(),
        description: description.to_string(),
        skills: skill_list,
    }
}

fn ids_of(defs: &[AgentDefinition]) -> Vec<String> {
    let mut ids: Vec<String> = defs.iter().map(|d| d.id.clone()).collect();
    ids.sort();
    ids
}

#[test]
fn register_and_search_by_skill() {
    let mut eng = DiscoveryEngine::new(8);
    eng.register_agent(agent("a1", "Solver", "solves equations", &["Coding"])).unwrap();
    let found = eng.search_by_skill("coding");
    assert_eq!(ids_of(&found), vec!["a1".to_string()]);
    eng.deregister_agent(&"a1".to_string()).unwrap();
    let found = eng.search_by_skill("coding");
    assert!(found.is_empty());
}

#[test]
fn case_insensitive_skill_match_scenario() {
    let mut eng = DiscoveryEngine::new(8);
    eng.register_agent(agent("a1", "A1", "first", &["Math", "Algebra"])).unwrap();
    eng.register_agent(agent("a2", "A2", "second", &["math"])).unwrap();
    let found = eng.search_by_skill("MATH");
    assert_eq!(ids_of(&found), vec!["a1".to_string(), "a2".to_string()]);
    eng.deregister_agent(&"a1".to_string()).unwrap();
    let found = eng.search_by_skill("MATH");
    assert_eq!(ids_of(&found), vec!["a2".to_string()]);
}

#[test]
fn skill_names_are_trimmed() {
    let mut eng = DiscoveryEngine::new(8);
    eng.register_agent(agent("a1", "A1", "d", &["  Math  "])).unwrap();
    let found = eng.search_by_skill("math");
    assert_eq!(ids_of(&found), vec!["a1".to_string()]);
    let found = eng.search_by_skill(" MATH ");
    assert_eq!(ids_of(&found), vec!["a1".to_string()]);
}

#[test]
fn reregistration_drops_stale_skills() {
    let mut eng = DiscoveryEngine::new(8);
    eng.register_agent(agent("a1", "A1", "d", &["Sorting", "Parsing"])).unwrap();
    assert_eq!(ids_of(&eng.search_by_skill("sorting")), vec!["a1".to_string()]);
    eng.register_agent(agent("a1", "A1", "d", &["Parsing", "Printing"])).unwrap();
    assert!(eng.search_by_skill("sorting").is_empty());
    assert_eq!(ids_of(&eng.search_by_skill("parsing")), vec!["a1".to_string()]);
    assert_eq!(ids_of(&eng.search_by_skill("printing")), vec!["a1".to_string()]);
    assert_eq!(eng.list_agents().len(), 1);
}

#[test]
fn unknown_skill_gives_empty_not_error() {
    let mut eng = DiscoveryEngine::new(8);
    eng.register_agent(agent("a1", "A1", "d", &["Math"])).unwrap();
    let found: Vec<AgentDefinition> = eng.search_by_skill("no-such-skill");
    assert!(found.is_empty());
}

#[test]
fn deregister_is_idempotent() {
    let mut eng = DiscoveryEngine::new(8);
    eng.register_agent(agent("a1", "A1", "d", &["Math"])).unwrap();
    assert!(eng.deregister_agent(&"a1".to_string()).is_ok());
    assert_eq!(eng.list_agents().len(), 0);
    assert!(eng.deregister_agent(&"a1".to_string()).is_ok());
    assert_eq!(eng.list_agents().len(), 0);
    assert!(eng.deregister_agent(&"never-registered".to_string()).is_ok());
}

#[test]
fn empty_id_is_rejected_before_any_mutation() {
    let mut eng = DiscoveryEngine::new(8);
    let r = eng.register_agent(agent("", "A1", "d", &["Math"]));
    assert_eq!(r, Err(DiscoveryError::InvalidInput));
    assert!(eng.list_agents().is_empty());
    assert!(eng.search_by_skill("math").is_empty());

    let t = TaskDefinition { id: String::new(), name: "t".to_string(), description: "d".to_string() };
    assert_eq!(eng.register_task(t), Err(DiscoveryError::InvalidInput));
    let t = ToolDefinition {
        id: String::new(),
        name: "t".to_string(),
        description: "d".to_string(),
        input_schema: "{}".to_string(),
    };
    assert_eq!(eng.register_tool(t), Err(DiscoveryError::InvalidInput));
}

#[test]
fn reregistration_replaces_definition() {
    let mut eng = DiscoveryEngine::new(8);
    eng.register_agent(agent("a1", "Old", "old description", &["Math"])).unwrap();
    eng.register_agent(agent("a1", "New", "new description", &["Math"])).unwrap();
    let listed = eng.list_agents();
    assert_eq!(listed.len(), 1);
    assert_eq!(listed[0].name, "New");
    assert_eq!(listed[0].description, "new description");
}

#[test]
fn tasks_and_tools_round_trip() {
    let mut eng = DiscoveryEngine::new(8);
    assert!(eng.list_tasks().is_empty());
    assert!(eng.list_tools().is_empty());
    eng.register_task(TaskDefinition {
        id: "k1".to_string(),
        name: "task one".to_string(),
        description: "dd".to_string(),
    })
    .unwrap();
    eng.register_tool(ToolDefinition {
        id: "t1".to_string(),
        name: "tool one".to_string(),
        description: "d".to_string(),
        input_schema: "s".to_string(),
    })
    .unwrap();
    assert_eq!(eng.list_tasks().len(), 1);
    assert_eq!(eng.list_tasks()[0].id, "k1");
    assert_eq!(eng.list_tools().len(), 1);
    assert_eq!(eng.list_tools()[0].id, "t1");
}

#[test]
fn resources_text_is_exact() {
    let mut eng = DiscoveryEngine::new(8);
    assert_eq!(eng.list_available_resources(), "");
    eng.register_tool(ToolDefinition {
        id: "t1".to_string(),
        name: "tool".to_string(),
        description: "d".to_string(),
        input_schema: "s".to_string(),
    })
    .unwrap();
    eng.register_task(TaskDefinition {
        id: "k1".to_string(),
        name: "task".to_string(),
        description: "dd".to_string(),
    })
    .unwrap();
    eng.register_agent(agent("a1", "A1", "ad", &["Math"])).unwrap();
    let text = eng.list_available_resources();
    let expected = "* tool_id : t1 -- description : d -- arguments : s\n\
                    * task_id :  k1 -- description : dd\n\
                    * agent_id : a1 -- description :ad -- \n";
    assert_eq!(text, expected);
}

#[test]
fn resources_joins_lines_within_a_block() {
    let mut eng = DiscoveryEngine::new(8);
    eng.register_agent(agent("a1", "A1", "x", &[])).unwrap();
    eng.register_agent(agent("a2", "A2", "y", &[])).unwrap();
    let text = eng.list_available_resources();
    let expected = "* agent_id : a1 -- description :x -- \n\
                    * agent_id : a2 -- description :y -- \n";
    assert_eq!(text, expected);
}
