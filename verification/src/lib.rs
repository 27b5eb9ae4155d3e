//! The session and world-state core of a line-based multiplayer text
//! adventure server.
//!
//! The world is a registry of rooms holding objects, whose named actions
//! answer with text or defer to a script engine; each connected player is a
//! session with a current room and a private script scratchpad. One entry
//! point, [`dispatch::process_client_command`], turns a decoded input line
//! plus session and world into an [`resolve::Effect`]: either the response
//! itself, or the one piece of outside work (a script run, a script write, a
//! snapshot, a session load) the surrounding server loop performs before it
//! answers. The persistence format and its parser live in [`persist`], with
//! the round trip proved; [`laws`] holds the properties that tie the
//! commands together.

pub mod command_handlers;
pub mod dispatch;
pub mod kvmap;
pub mod laws;
pub mod parse;
pub mod persist;
pub mod resolve;
pub mod states;
pub mod strutil;
