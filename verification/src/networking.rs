//! The client's side of the connection to a game server.

use crate::server::{is_fresh, started};
use vstd::prelude::*;

verus! {

/// What a client can ask of the game server it is connected to.
pub trait API {
    /// The state of the game server behind the connection.
    spec fn game(&self) -> crate::server::Server;

    /// Starts the game on the server.
    fn start_game(&mut self)
        requires
            old(self).game().wf(),
        ensures
            started(old(self).game(), final(self).game()),
    ;
}

// ----------------------------------------- LOCAL SERVER ----------------------------------------
/// A game server that runs inside the client.
pub struct LocalServer {
    server: crate::server::Server,
}

impl LocalServer {
    /// A connection to a fresh server inside the client.
    pub fn new() -> (local: LocalServer)
        ensures
            is_fresh(local.game()),
    {
        LocalServer { server: crate::server::Server::new() }
    }

    /// The server behind the connection.
    pub fn server(&self) -> (server: &crate::server::Server)
        ensures
            *server == self.game(),
    {
        &self.server
    }
}

impl API for LocalServer {
    closed spec fn game(&self) -> crate::server::Server {
        self.server
    }

    fn start_game(&mut self) {
        self.server.start_game();
    }
}

// ---------------------------------------- REMOTE SERVER ----------------------------------------
/// A game server that the client holds a replica of.
pub struct RemoteServer {
    server: crate::server::Server,
}

impl RemoteServer {
    /// A connection to a fresh replica.
    pub fn new() -> (remote: RemoteServer)
        ensures
            is_fresh(remote.game()),
    {
        RemoteServer { server: crate::server::Server::new() }
    }

    /// The replica behind the connection.
    pub fn server(&self) -> (server: &crate::server::Server)
        ensures
            *server == self.game(),
    {
        &self.server
    }
}

impl API for RemoteServer {
    closed spec fn game(&self) -> crate::server::Server {
        self.server
    }

    fn start_game(&mut self) {
        self.server.start_game();
    }
}

// ----------------------------------------- CONSTRUCTOR -----------------------------------------
/// The choices a client makes before it connects to a game server.
pub struct Server {
    difficulty: i8,
}

impl Server {
    /// The difficulty that was chosen.
    pub closed spec fn level(&self) -> i8 {
        self.difficulty
    }

    /// The choices of a client that has chosen nothing yet: difficulty 0.
    pub fn new() -> (choices: Server)
        ensures
            choices.level() == 0,
    {
        Server { difficulty: 0 }
    }

    /// The same choices with the difficulty set to `d`.
    pub fn difficulty(self, d: i8) -> (choices: Server)
        ensures
            choices.level() == d,
    {
        Server { difficulty: d }
    }

    /// Connects to a fresh server inside the client.
    pub fn local(&self) -> (local: LocalServer)
        ensures
            is_fresh(local.game()),
    {
        LocalServer::new()
    }

    /// Connects to a fresh replica of a server elsewhere.
    pub fn connect_to(&self) -> (remote: RemoteServer)
        ensures
            is_fresh(remote.game()),
    {
        RemoteServer::new()
    }
}

} // verus!
