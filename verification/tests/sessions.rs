use mudcore::states::{ClientState, GameAction};
use mudcore::resolve::{Effect, ScriptOutcome, script_result_response, save_response};
use mudcore::kvmap::KvMap;

#[test]
fn script_states_are_per_session() {
    let mut alice = ClientState::new(Some(1));
    let mut bob = ClientState::new(Some(2));
    // Both run "the same script": each stores under the same key.
    alice.set_state(String::from("progress"), String::from("3"));
    bob.set_state(String::from("progress"), String::from("7"));
    assert_eq!(alice.get_state("progress").map(String::as_str), Some("3"));
    assert_eq!(bob.get_state("progress").map(String::as_str), Some("7"));
    // A key only one of them wrote is invisible to the other.
    alice.set_state(String::from("secret"), String::from("yes"));
    assert_eq!(bob.get_state("secret"), None);
}

#[test]
fn set_state_overwrites_in_place() {
    let mut c = ClientState::new(None);
    c.set_state(String::from("gold"), String::from("1"));
    c.set_state(String::from("gold"), String::from("2"));
    assert_eq!(c.get_state("gold").map(String::as_str), Some("2"));
    assert_eq!(c.client_script_states.len(), 1);
}

#[test]
fn fresh_session_defaults() {
    let c = ClientState::new(Some(4));
    assert_eq!(c.addr, Some(4));
    assert!(!c.is_edit_mode);
    assert_eq!(c.current_room, "nexus");
    assert_eq!(c.name, "");
    assert_eq!(c.client_script_states.len(), 0);
}

#[test]
fn action_handle_resolution() {
    match GameAction::PrintText(String::from("hi")).handle() {
        Effect::Respond(s) => assert_eq!(s, "hi"),
        _ => panic!("expected a response"),
    }
    match GameAction::Unhandled.handle() {
        Effect::Respond(s) => assert_eq!(s, "Unhandled"),
        _ => panic!("expected a response"),
    }
    match GameAction::RunScript(String::from("spell")).handle() {
        Effect::RunScript { path } => assert_eq!(path, "dyon/spell.dyon"),
        _ => panic!("expected a script request"),
    }
}

#[test]
fn script_outcome_responses() {
    assert_eq!(
        script_result_response(ScriptOutcome::Failed),
        "Code error, script did not return a String"
    );
    assert_eq!(
        script_result_response(ScriptOutcome::NonString),
        "Script returned non-string type in home fn"
    );
    assert_eq!(
        script_result_response(ScriptOutcome::Returned(String::from("done"))),
        "done"
    );
}

#[test]
fn save_responses() {
    assert_eq!(save_response(true), "Nice save!");
    assert_eq!(save_response(false), "Failed to save.");
}

#[test]
fn kvmap_upsert_semantics() {
    let mut m: KvMap<String> = KvMap::new();
    assert_eq!(m.len(), 0);
    assert!(!m.contains_key("a"));
    m.insert(String::from("a"), String::from("1"));
    m.insert(String::from("b"), String::from("2"));
    m.insert(String::from("a"), String::from("3"));
    assert_eq!(m.len(), 2);
    assert_eq!(m.get("a").map(String::as_str), Some("3"));
    assert_eq!(m.get("b").map(String::as_str), Some("2"));
    assert_eq!(m.get("c"), None);
    assert!(m.distinct_keys());
}
