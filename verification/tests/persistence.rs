use mudcore::states::{ServerState, ClientState};
use mudcore::dispatch::process_client_command;
use mudcore::resolve::Effect;

fn respond(state: &mut ServerState, client: &mut ClientState, line: &str) -> String {
    match process_client_command(&String::from(line), state, client) {
        Effect::Respond(s) => s,
        _ => panic!("expected a direct response"),
    }
}

#[test]
fn world_round_trip_preserves_contents() {
    let mut state = ServerState::new();
    let mut client = ClientState::new(None);
    respond(&mut state, &mut client, "\\add foo");
    respond(&mut state, &mut client, "\\action foo:read:PrintText Hello");
    respond(&mut state, &mut client, "\\describe \"foo\" A foo of renown.");
    respond(&mut state, &mut client, "\\link cave");
    let record = state.save();

    let mut restored = ServerState::load(record.as_str());
    let mut visitor = ClientState::new(None);
    assert_eq!(respond(&mut restored, &mut visitor, "i foo read"), "Hello");
    assert_eq!(respond(&mut restored, &mut visitor, "look foo"), "A foo of renown.");
    assert_eq!(
        respond(&mut restored, &mut visitor, "i sign read"),
        "Good job, you learned how to interact with objects!"
    );
    assert_eq!(respond(&mut restored, &mut visitor, "move cave"), "You move into cave");

    // Loading and saving again reproduces the identical record.
    assert_eq!(restored.save(), record);
}

#[test]
fn world_round_trip_with_marker_characters() {
    let mut state = ServerState::new();
    let mut client = ClientState::new(None);
    // Names and text holding the frame characters still round-trip exactly.
    respond(&mut state, &mut client, "\\add a;b\\c+d.e");
    respond(&mut state, &mut client, "\\action a;b\\c+d.e:read:PrintText odd ; text \\ here");
    let record = state.save();
    let mut restored = ServerState::load(record.as_str());
    let mut visitor = ClientState::new(None);
    assert_eq!(
        respond(&mut restored, &mut visitor, "i a;b\\c+d.e read"),
        "odd ; text \\ here"
    );
    assert_eq!(restored.save(), record);
}

#[test]
fn empty_or_corrupt_record_seeds_the_world() {
    let from_empty = ServerState::load("");
    let mut visitor = ClientState::new(None);
    let mut state = from_empty;
    assert_eq!(
        respond(&mut state, &mut visitor, "i sign read"),
        "Good job, you learned how to interact with objects!"
    );
    let mut from_garbage = ServerState::load("this is not a snapshot");
    assert_eq!(
        respond(&mut from_garbage, &mut visitor, "i sign read"),
        "Good job, you learned how to interact with objects!"
    );
    // A record that parses but holds no rooms also seeds the default world.
    let mut from_bare = ServerState::load(".");
    assert_eq!(
        respond(&mut from_bare, &mut visitor, "i sign read"),
        "Good job, you learned how to interact with objects!"
    );
}

#[test]
fn session_round_trip() {
    let state = ServerState::new();
    let mut client = ClientState::new(Some(12));
    client.is_edit_mode = true;
    client.current_room = String::from("cave");
    client.name = String::from("taylor");
    client.set_state(String::from("gold"), String::from("30"));
    client.set_state(String::from("quest"), String::from("begun"));

    let record = state.save_client(&client);
    let restored = state.load_client(record.as_str()).expect("saved session must load");
    assert_eq!(restored.addr, None);
    assert!(restored.is_edit_mode);
    assert_eq!(restored.current_room, "cave");
    assert_eq!(restored.name, "taylor");
    assert_eq!(restored.get_state("gold").map(String::as_str), Some("30"));
    assert_eq!(restored.get_state("quest").map(String::as_str), Some("begun"));
    assert_eq!(restored.get_state("silver"), None);
}

#[test]
fn corrupt_session_record_does_not_load() {
    let state = ServerState::new();
    assert!(state.load_client("").is_none());
    assert!(state.load_client("zzz").is_none());
    // A valid record followed by trailing junk is rejected whole.
    let client = ClientState::new(None);
    let mut record = state.save_client(&client);
    record.push('x');
    assert!(state.load_client(record.as_str()).is_none());
}

#[test]
fn login_applies_persisted_fields() {
    let mut state = ServerState::new();
    let mut client = ClientState::new(Some(3));
    client.name = String::from("sam");
    client.current_room = String::from("cave");
    client.set_state(String::from("key"), String::from("iron"));
    let record = state.save_client(&client);

    let mut fresh = ClientState::new(Some(9));
    match process_client_command(&String::from("login sam"), &mut state, &mut fresh) {
        Effect::LoadSession { name } => assert_eq!(name, "sam"),
        _ => panic!("expected a session load request"),
    }
    let loaded = state.load_client(record.as_str());
    let reply = mudcore::dispatch::login_apply(&mut fresh, loaded);
    assert_eq!(reply, "Session restored.");
    assert_eq!(fresh.addr, Some(9));
    assert_eq!(fresh.name, "sam");
    assert_eq!(fresh.current_room, "cave");
    assert_eq!(fresh.get_state("key").map(String::as_str), Some("iron"));

    let reply = mudcore::dispatch::login_apply(&mut fresh, None);
    assert_eq!(reply, "No such session.");
    // The session is untouched by a failed login.
    assert_eq!(fresh.name, "sam");
}

#[test]
fn login_usage_hint() {
    let mut state = ServerState::new();
    let mut client = ClientState::new(None);
    assert_eq!(respond(&mut state, &mut client, "login"), "login <name>");
}
