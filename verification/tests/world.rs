use mudcore::states::{ServerState, ClientState};
use mudcore::dispatch::process_client_command;
use mudcore::resolve::Effect;

fn respond(state: &mut ServerState, client: &mut ClientState, line: &str) -> String {
    match process_client_command(&String::from(line), state, client) {
        Effect::Respond(s) => s,
        _ => panic!("expected a direct response"),
    }
}

#[test]
fn fresh_world_interact_with_sign() {
    let mut state = ServerState::new();
    let mut client = ClientState::new(None);
    assert_eq!(client.current_room, "nexus");
    let r = respond(&mut state, &mut client, "i sign read");
    assert_eq!(r, "Good job, you learned how to interact with objects!");
}

#[test]
fn fresh_world_missing_action() {
    let mut state = ServerState::new();
    let mut client = ClientState::new(None);
    let r = respond(&mut state, &mut client, "i sign dance");
    assert_eq!(r, "The object does not have that action");
}

#[test]
fn fresh_world_missing_object() {
    let mut state = ServerState::new();
    let mut client = ClientState::new(None);
    let r = respond(&mut state, &mut client, "i ghost read");
    assert_eq!(r, "The object does not exist");
}

#[test]
fn get_room_after_create() {
    let mut state = ServerState::new();
    state.new_room(&String::from("cave"));
    let room = state.get_room(&String::from("cave")).expect("created room must be found");
    assert_eq!(room.addr, "cave");
    assert_eq!(room.display, "");
    assert_eq!(room.links.len(), 0);
    assert!(state.get_room(&String::from("swamp")).is_none());
}

#[test]
fn create_room_keeps_existing() {
    let mut state = ServerState::new();
    let mut client = ClientState::new(None);
    // Put something in nexus, then try to create nexus again.
    let r = respond(&mut state, &mut client, "\\add rock");
    assert_eq!(r, "Added");
    state.new_room(&String::from("nexus"));
    let r = respond(&mut state, &mut client, "i rock missing");
    // The object is still there: only its action is missing.
    assert_eq!(r, "The object does not have that action");
}

#[test]
fn register_and_unregister_sessions() {
    let mut state = ServerState::new();
    state.register(5);
    state.register(7);
    state.register(5);
    assert_eq!(state.client_states, vec![5, 7, 5]);
    state.unregister(5);
    assert_eq!(state.client_states, vec![7]);
    // Idempotent: a second unregister of the same id is harmless.
    state.unregister(5);
    assert_eq!(state.client_states, vec![7]);
    state.unregister(7);
    assert!(state.client_states.is_empty());
}

#[test]
fn unknown_input_is_quiet() {
    let mut state = ServerState::new();
    let mut client = ClientState::new(None);
    assert_eq!(respond(&mut state, &mut client, ""), "The room is quiet.");
    assert_eq!(respond(&mut state, &mut client, "dance"), "The room is quiet.");
    assert_eq!(
        respond(&mut state, &mut client, "\\conjure"),
        "Nice builder command."
    );
}

#[test]
fn help_lists_play_commands() {
    let mut state = ServerState::new();
    let mut client = ClientState::new(None);
    let r = respond(&mut state, &mut client, "help");
    assert_eq!(
        r,
        "i - interacts with object: i {object} {action}\nlook - reads the object's display text: look {object}\nmove - moves through a link: move {link name}\nlogin - restores a session by name: login {name}\nhelp - you're here"
    );
}

#[test]
fn stale_room_pointer_fails_softly() {
    let mut state = ServerState::new();
    let mut client = ClientState::new(None);
    client.current_room = String::from("nowhere");
    assert_eq!(
        respond(&mut state, &mut client, "i sign read"),
        "You belong to an invalid room."
    );
    assert_eq!(
        respond(&mut state, &mut client, "look"),
        "You belong to an invalid room."
    );
    assert_eq!(
        respond(&mut state, &mut client, "move nexus"),
        "You belong to an invalid room."
    );
    assert_eq!(respond(&mut state, &mut client, "\\add rock"), "Not in a room?");
}
