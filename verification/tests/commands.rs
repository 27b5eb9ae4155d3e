use mudcore::states::{ServerState, ClientState, GameAction};
use mudcore::dispatch::process_client_command;
use mudcore::resolve::Effect;

fn respond(state: &mut ServerState, client: &mut ClientState, line: &str) -> String {
    match process_client_command(&String::from(line), state, client) {
        Effect::Respond(s) => s,
        _ => panic!("expected a direct response"),
    }
}

#[test]
fn action_round_trip_prints_text() {
    let mut state = ServerState::new();
    let mut client = ClientState::new(None);
    assert_eq!(respond(&mut state, &mut client, "\\add foo"), "Added");
    assert_eq!(
        respond(&mut state, &mut client, "\\action foo:read:PrintText Hello"),
        "Done"
    );
    assert_eq!(respond(&mut state, &mut client, "i foo read"), "Hello");
}

#[test]
fn add_object_twice_resets_it() {
    let mut state = ServerState::new();
    let mut client = ClientState::new(None);
    assert_eq!(respond(&mut state, &mut client, "\\add foo"), "Added");
    assert_eq!(
        respond(&mut state, &mut client, "\\action foo:read:PrintText Hi"),
        "Done"
    );
    assert_eq!(respond(&mut state, &mut client, "i foo read"), "Hi");
    // The second add replaces the object: one object named foo, actions gone.
    assert_eq!(respond(&mut state, &mut client, "\\add foo"), "Added");
    assert_eq!(
        respond(&mut state, &mut client, "i foo read"),
        "The object does not have that action"
    );
    let look = respond(&mut state, &mut client, "look");
    assert_eq!(
        look,
        "The room is quiet... Except for a [@Csign].\n\n@CObjects:\nsign\n\nfoo\n\n@CLinks:\n"
    );
}

#[test]
fn move_gating() {
    let mut state = ServerState::new();
    let mut client = ClientState::new(None);
    // Not linked yet: the session stays where it is.
    assert_eq!(
        respond(&mut state, &mut client, "move cave"),
        "That area does not exist here."
    );
    assert_eq!(client.current_room, "nexus");
    // Link it (auto-creating the room), then the move succeeds.
    assert_eq!(respond(&mut state, &mut client, "\\link cave"), "Added");
    assert_eq!(respond(&mut state, &mut client, "move cave"), "You move into cave");
    assert_eq!(client.current_room, "cave");
}

#[test]
fn move_usage_hint() {
    let mut state = ServerState::new();
    let mut client = ClientState::new(None);
    assert_eq!(respond(&mut state, &mut client, "move"), "move <link name>");
    assert_eq!(client.current_room, "nexus");
}

#[test]
fn look_at_object_and_describe() {
    let mut state = ServerState::new();
    let mut client = ClientState::new(None);
    assert_eq!(
        respond(&mut state, &mut client, "look sign"),
        "Just a sign, I wonder what it says{@Cread}."
    );
    assert_eq!(respond(&mut state, &mut client, "\\add old lamp"), "Added");
    // A fresh object displays its own name.
    assert_eq!(respond(&mut state, &mut client, "look old lamp"), "old lamp");
    assert_eq!(
        respond(&mut state, &mut client, "\\describe \"old lamp\" A rusty lamp."),
        "Done"
    );
    assert_eq!(respond(&mut state, &mut client, "look old lamp"), "A rusty lamp.");
    assert_eq!(
        respond(&mut state, &mut client, "look ghost"),
        "The object does not exist"
    );
}

#[test]
fn describe_errors() {
    let mut state = ServerState::new();
    let mut client = ClientState::new(None);
    assert_eq!(
        respond(&mut state, &mut client, "\\describe lamp shiny"),
        "\\describe \"<object name>\" <description>"
    );
    assert_eq!(
        respond(&mut state, &mut client, "\\describe \"lamp\" shiny"),
        "Not a valid object."
    );
}

#[test]
fn add_action_errors() {
    let mut state = ServerState::new();
    let mut client = ClientState::new(None);
    assert_eq!(
        respond(&mut state, &mut client, "\\action foo"),
        "\\action <object name>:<action name>:<action string>"
    );
    assert_eq!(
        respond(&mut state, &mut client, "\\action ghost:read:PrintText Hi"),
        "Not a valid object."
    );
}

#[test]
fn add_and_link_usage_hints() {
    let mut state = ServerState::new();
    let mut client = ClientState::new(None);
    assert_eq!(respond(&mut state, &mut client, "\\add"), "\\add <object name>");
    assert_eq!(respond(&mut state, &mut client, "\\link"), "\\link <to place>");
}

#[test]
fn interact_usage_hint_and_spaced_names() {
    let mut state = ServerState::new();
    let mut client = ClientState::new(None);
    assert_eq!(respond(&mut state, &mut client, "i sign"), "i <object name> <action>");
    // The action is the word after the last space: object names may hold spaces.
    assert_eq!(respond(&mut state, &mut client, "\\add old lamp"), "Added");
    assert_eq!(
        respond(&mut state, &mut client, "\\action old lamp:rub:PrintText A genie appears!"),
        "Done"
    );
    assert_eq!(respond(&mut state, &mut client, "i old lamp rub"), "A genie appears!");
}

#[test]
fn unparsed_action_body_is_unhandled() {
    let mut state = ServerState::new();
    let mut client = ClientState::new(None);
    assert_eq!(respond(&mut state, &mut client, "\\add foo"), "Added");
    assert_eq!(
        respond(&mut state, &mut client, "\\action foo:poke:DoSomething else"),
        "Done"
    );
    assert_eq!(respond(&mut state, &mut client, "i foo poke"), "Unhandled");
}

#[test]
fn run_script_action_requests_the_script_file() {
    let mut state = ServerState::new();
    let mut client = ClientState::new(None);
    assert_eq!(respond(&mut state, &mut client, "\\add altar"), "Added");
    assert_eq!(
        respond(&mut state, &mut client, "\\action altar:pray:RunScript blessing"),
        "Done"
    );
    match process_client_command(&String::from("i altar pray"), &mut state, &mut client) {
        Effect::RunScript { path } => assert_eq!(path, "dyon/blessing.dyon"),
        _ => panic!("expected a script request"),
    }
}

#[test]
fn upload_script_effect() {
    let mut state = ServerState::new();
    let mut client = ClientState::new(None);
    match process_client_command(
        &String::from("\\script hello:fn main()#nend"),
        &mut state,
        &mut client,
    ) {
        Effect::WriteScript { path, contents, response } => {
            assert_eq!(path, "dyon/hello.dyon");
            assert_eq!(contents, "fn main()\nend");
            assert_eq!(response, "Wrote script hello.dyon");
        },
        _ => panic!("expected a script write"),
    }
}

#[test]
fn upload_script_without_contents() {
    let mut state = ServerState::new();
    let mut client = ClientState::new(None);
    match process_client_command(&String::from("\\script hello"), &mut state, &mut client) {
        Effect::Respond(r) => assert_eq!(r, "Must include script contents"),
        _ => panic!("expected a direct response"),
    }
    // Without even a name, the line is echoed back.
    match process_client_command(&String::from("\\script"), &mut state, &mut client) {
        Effect::Respond(r) => assert_eq!(r, "\\script"),
        _ => panic!("expected a direct response"),
    }
}

#[test]
fn save_command_yields_save_effect() {
    let mut state = ServerState::new();
    let mut client = ClientState::new(None);
    match process_client_command(&String::from("\\save"), &mut state, &mut client) {
        Effect::Save => {},
        _ => panic!("expected a save request"),
    }
}

#[test]
fn parse_from_string_grammar() {
    match GameAction::parse_from_string(String::from("PrintText Hello there")) {
        GameAction::PrintText(t) => assert_eq!(t, "Hello there"),
        _ => panic!("expected PrintText"),
    }
    match GameAction::parse_from_string(String::from("RunScript magic")) {
        GameAction::RunScript(t) => assert_eq!(t, "magic"),
        _ => panic!("expected RunScript"),
    }
    assert!(matches!(
        GameAction::parse_from_string(String::from("PrintText")),
        GameAction::Unhandled
    ));
    assert!(matches!(
        GameAction::parse_from_string(String::from("shout loudly")),
        GameAction::Unhandled
    ));
}
