//! One player's websocket session: reading the commands a client sends, and the
//! request to the lobby that each one makes.
use vstd::prelude::*;
use crate::games::{
    ChangeColor, ConnectToGame, CreateRoom, DisconnectFromGame, GameState, Kick, MakeMove, Offline,
    Online, PlaceFlag, ResetGame,
};
use crate::text::{parse_number, parsed_number, same_text, split_on_space, split_spaces};

verus! {

/// A command as a client writes it.
pub enum Command {
    /// The empty text: the client is still there.
    Heartbeat,
    /// `/gamestate`
    GameState,
    /// `/resetgame`
    ResetGame,
    /// `/changecolor`
    ChangeColor,
    /// `/joinroom <room>`
    JoinRoom(String),
    /// `/quitroom`
    QuitRoom,
    /// `/kick <player>`
    Kick(String),
    /// `/createroom <room> <size> <mines> <seats>`
    CreateRoom(String, u8, u8, u8),
    /// `/move <x> <y>`
    Move(usize, usize),
    /// `/flag <x> <y>`
    Flag(usize, usize),
    /// Any other text, which is ignored.
    Other,
}

/// A request from a session to the lobby.
pub enum Request {
    Online(Online),
    Offline(Offline),
    GameState(GameState),
    ResetGame(ResetGame),
    ChangeColor(ChangeColor),
    ConnectToGame(ConnectToGame),
    DisconnectFromGame(DisconnectFromGame),
    Kick(Kick),
    CreateRoom(CreateRoom),
    MakeMove(MakeMove),
    PlaceFlag(PlaceFlag),
}

/// What a session does with a command.
pub enum Reaction {
    /// Notes that the client is still there.
    Heartbeat,
    /// Sends a request to the lobby.
    Request(Request),
    /// Does nothing.
    Ignore,
}

/// The session of the user `username` at connection `conn`, in room `gameid` (empty
/// before the first room).
pub struct MyWs {
    pub gameid: String,
    pub username: String,
    pub conn: u64,
}

/// Piece `i` of the command text, the pieces being separated by single spaces.
pub open spec fn piece(t: Seq<char>, i: int) -> Seq<char> {
    split_on_space(t)[i]
}

/// How many pieces the command text has.
pub open spec fn piece_count(t: Seq<char>) -> nat {
    split_on_space(t).len()
}

/// Piece `i` read as a number no larger than `max`.
pub open spec fn piece_number(t: Seq<char>, i: int, max: nat) -> Option<nat> {
    parsed_number(piece(t, i), max)
}

/// The text is one of the commands that are matched whole.
pub open spec fn whole_command(t: Seq<char>) -> bool {
    t == ""@ || t == "/gamestate"@ || t == "/resetgame"@ || t == "/changecolor"@
}

/// A command with two numbers (`/move`, `/flag`) has them both.
pub open spec fn has_cell(t: Seq<char>) -> bool {
    &&& piece_count(t) >= 3
    &&& piece_number(t, 1, usize::MAX as nat) is Some
    &&& piece_number(t, 2, usize::MAX as nat) is Some
}

/// Reads what a client sent. The texts "", `/gamestate`, `/resetgame` and
/// `/changecolor` are matched whole; any other text is split at single spaces and its
/// first piece names the command. The answer is `None` for a command that lacks a piece
/// it needs or whose number does not read as one that fits (`u8` for the room
/// settings, `usize` for a cell); a text that names no command is `Other`.
pub fn parse_command(text: &str) -> (r: Option<Command>)
    ensures
        text@ == ""@ ==> r == Some(Command::Heartbeat),
        text@ == "/gamestate"@ ==> r == Some(Command::GameState),
        text@ == "/resetgame"@ ==> r == Some(Command::ResetGame),
        text@ == "/changecolor"@ ==> r == Some(Command::ChangeColor),
        !whole_command(text@) ==> {
            let t = text@;
            let w = piece(t, 0);
            &&& w == "/joinroom"@ ==> if piece_count(t) >= 2 {
                r matches Some(Command::JoinRoom(g)) && g@ == piece(t, 1)
            } else {
                r is None
            }
            &&& w == "/quitroom"@ ==> r == Some(Command::QuitRoom)
            &&& w == "/kick"@ ==> if piece_count(t) >= 2 {
                r matches Some(Command::Kick(g)) && g@ == piece(t, 1)
            } else {
                r is None
            }
            &&& w == "/createroom"@ ==> if piece_count(t) >= 5 && piece_number(t, 2, 255) is Some
                && piece_number(t, 3, 255) is Some && piece_number(t, 4, 255) is Some {
                r matches Some(Command::CreateRoom(g, size, mines, seats)) && g@ == piece(t, 1)
                    && Some(size as nat) == piece_number(t, 2, 255)
                    && Some(mines as nat) == piece_number(t, 3, 255)
                    && Some(seats as nat) == piece_number(t, 4, 255)
            } else {
                r is None
            }
            &&& w == "/move"@ ==> if has_cell(t) {
                r matches Some(Command::Move(x, y)) && Some(x as nat) == piece_number(t, 1, usize::MAX as nat)
                    && Some(y as nat) == piece_number(t, 2, usize::MAX as nat)
            } else {
                r is None
            }
            &&& w == "/flag"@ ==> if has_cell(t) {
                r matches Some(Command::Flag(x, y)) && Some(x as nat) == piece_number(t, 1, usize::MAX as nat)
                    && Some(y as nat) == piece_number(t, 2, usize::MAX as nat)
            } else {
                r is None
            }
            &&& w != "/joinroom"@ && w != "/quitroom"@ && w != "/kick"@ && w != "/createroom"@
                && w != "/move"@ && w != "/flag"@ ==> r == Some(Command::Other)
        },
{
    proof {
        reveal_strlit("");
        reveal_strlit("/gamestate");
        reveal_strlit("/resetgame");
        reveal_strlit("/changecolor");
        reveal_strlit("/joinroom");
        reveal_strlit("/quitroom");
        reveal_strlit("/kick");
        reveal_strlit("/createroom");
        reveal_strlit("/move");
        reveal_strlit("/flag");
        assert("/gamestate"@[1] != "/resetgame"@[1]);
        assert("/joinroom"@[1] != "/quitroom"@[1]);
        assert("/kick"@[1] != "/move"@[1]);
        assert("/kick"@[1] != "/flag"@[1]);
        assert("/move"@[1] != "/flag"@[1]);
    }
    if same_text(text, "") {
        return Some(Command::Heartbeat);
    }
    if same_text(text, "/gamestate") {
        return Some(Command::GameState);
    }
    if same_text(text, "/resetgame") {
        return Some(Command::ResetGame);
    }
    if same_text(text, "/changecolor") {
        return Some(Command::ChangeColor);
    }
    let pieces = split_spaces(text);
    let ghost ps = split_on_space(text@);
    proof {
        crate::text::lemma_split_nonempty(text@);
        assert(pieces@.len() == ps.len());
        assert forall|i: int| 0 <= i < ps.len() implies (#[trigger] pieces@[i])@ == ps[i] by {
            assert(pieces@.map_values(|p: String| p@)[i] == pieces@[i]@);
        }
    }
    let word = pieces[0].as_str();
    if same_text(word, "/joinroom") {
        if pieces.len() < 2 {
            return None;
        }
        return Some(Command::JoinRoom(pieces[1].clone()));
    }
    if same_text(word, "/quitroom") {
        return Some(Command::QuitRoom);
    }
    if same_text(word, "/kick") {
        if pieces.len() < 2 {
            return None;
        }
        return Some(Command::Kick(pieces[1].clone()));
    }
    if same_text(word, "/createroom") {
        if pieces.len() < 5 {
            return None;
        }
        let size = parse_number(pieces[2].as_str(), 255);
        let mines = parse_number(pieces[3].as_str(), 255);
        let seats = parse_number(pieces[4].as_str(), 255);
        return match (size, mines, seats) {
            (Some(a), Some(b), Some(c)) => Some(Command::CreateRoom(pieces[1].clone(), a as u8, b as u8, c as u8)),
            _ => None,
        };
    }
    if same_text(word, "/move") || same_text(word, "/flag") {
        if pieces.len() < 3 {
            return None;
        }
        let x = parse_number(pieces[1].as_str(), usize::MAX as u64);
        let y = parse_number(pieces[2].as_str(), usize::MAX as u64);
        return match (x, y) {
            (Some(a), Some(b)) => if same_text(word, "/move") {
                Some(Command::Move(a as usize, b as usize))
            } else {
                Some(Command::Flag(a as usize, b as usize))
            },
            _ => None,
        };
    }
    Some(Command::Other)
}

impl MyWs {
    /// A session for the user `username` at connection `conn`, in no room yet.
    pub fn new(username: String, conn: u64) -> (r: Self)
        ensures
            r.username == username,
            r.conn == conn,
            r.gameid@ == Seq::<char>::empty(),
    {
        MyWs { gameid: String::new(), username, conn }
    }

    /// When the session starts, the lobby hears that the user is online.
    pub fn started(&self) -> (r: Request)
        ensures
            r matches Request::Online(m) && m.username == self.username && m.addr == self.conn,
    {
        Request::Online(Online { username: self.username.clone(), addr: self.conn })
    }

    /// When the client closes the session, or it fails, the user leaves the room and
    /// goes offline, in that order.
    pub fn closing(&self) -> (r: (Request, Request))
        ensures
            r.0 matches Request::DisconnectFromGame(m) && m.username == self.username
                && m.addr == self.conn && m.gameid == self.gameid,
            r.1 matches Request::Offline(m) && m.username == self.username && m.addr == self.conn,
    {
        (
            Request::DisconnectFromGame(DisconnectFromGame {
                username: self.username.clone(),
                addr: self.conn,
                gameid: self.gameid.clone(),
            }),
            Request::Offline(Offline { username: self.username.clone(), addr: self.conn }),
        )
    }

    /// When the client has been silent too long, the user goes offline and leaves the
    /// room, in that order.
    pub fn timed_out(&self) -> (r: (Request, Request))
        ensures
            r.0 matches Request::Offline(m) && m.username == self.username && m.addr == self.conn,
            r.1 matches Request::DisconnectFromGame(m) && m.username == self.username
                && m.addr == self.conn && m.gameid == self.gameid,
    {
        (
            Request::Offline(Offline { username: self.username.clone(), addr: self.conn }),
            Request::DisconnectFromGame(DisconnectFromGame {
                username: self.username.clone(),
                addr: self.conn,
                gameid: self.gameid.clone(),
            }),
        )
    }

    /// What the session does with a command: the request each command makes, with the
    /// session's user, connection and room filled in; joining or creating a room also
    /// makes it the session's room.
    pub fn handle(&mut self, cmd: Command) -> (r: Reaction)
        ensures
            final(self).username == old(self).username,
            final(self).conn == old(self).conn,
            cmd matches Command::JoinRoom(g) ==> final(self).gameid == g,
            cmd matches Command::CreateRoom(g, _, _, _) ==> final(self).gameid == g,
            !(cmd is JoinRoom || cmd is CreateRoom) ==> final(self).gameid == old(self).gameid,
            cmd is Heartbeat ==> r is Heartbeat,
            cmd is Other ==> r is Ignore,
            cmd is GameState ==> (r matches Reaction::Request(Request::GameState(m))
                && m.addr == old(self).conn && m.username == old(self).username),
            cmd is ResetGame ==> (r matches Reaction::Request(Request::ResetGame(m)) && m.gameid == old(self).gameid),
            cmd is ChangeColor ==> (r matches Reaction::Request(Request::ChangeColor(m))
                && m.username == old(self).username && m.gameid == old(self).gameid),
            cmd matches Command::JoinRoom(g) ==> (r matches Reaction::Request(Request::ConnectToGame(m))
                && m.gameid == g && m.addr == old(self).conn && m.username == old(self).username),
            cmd is QuitRoom ==> (r matches Reaction::Request(Request::DisconnectFromGame(m))
                && m.username == old(self).username && m.addr == old(self).conn && m.gameid == old(self).gameid),
            cmd matches Command::Kick(t) ==> (r matches Reaction::Request(Request::Kick(m))
                && m.gameid == old(self).gameid && m.username == old(self).username && m.target_username == t),
            cmd matches Command::CreateRoom(g, size, mines, seats) ==> (r matches Reaction::Request(Request::CreateRoom(m))
                && m.gameid == g && m.username == old(self).username && m.addr == old(self).conn
                && m.gamesize == size && m.mines == mines && m.maxplayers == seats),
            cmd matches Command::Move(x, y) ==> (r matches Reaction::Request(Request::MakeMove(m))
                && m.gameid == old(self).gameid && m.username == old(self).username && m.addr == old(self).conn
                && m.x == x && m.y == y),
            cmd matches Command::Flag(x, y) ==> (r matches Reaction::Request(Request::PlaceFlag(m))
                && m.gameid == old(self).gameid && m.name == old(self).username && m.addr == old(self).conn
                && m.x == x && m.y == y),
    {
        match cmd {
            Command::Heartbeat => Reaction::Heartbeat,
            Command::GameState => Reaction::Request(Request::GameState(GameState {
                addr: self.conn,
                username: self.username.clone(),
            })),
            Command::ResetGame => Reaction::Request(Request::ResetGame(ResetGame { gameid: self.gameid.clone() })),
            Command::ChangeColor => Reaction::Request(Request::ChangeColor(ChangeColor {
                username: self.username.clone(),
                gameid: self.gameid.clone(),
            })),
            Command::JoinRoom(g) => {
                let request = ConnectToGame { gameid: g.clone(), addr: self.conn, username: self.username.clone() };
                self.gameid = g;
                Reaction::Request(Request::ConnectToGame(request))
            },
            Command::QuitRoom => Reaction::Request(Request::DisconnectFromGame(DisconnectFromGame {
                username: self.username.clone(),
                addr: self.conn,
                gameid: self.gameid.clone(),
            })),
            Command::Kick(t) => Reaction::Request(Request::Kick(Kick {
                gameid: self.gameid.clone(),
                username: self.username.clone(),
                target_username: t,
            })),
            Command::CreateRoom(g, size, mines, seats) => {
                let request = CreateRoom {
                    gameid: g.clone(),
                    username: self.username.clone(),
                    addr: self.conn,
                    gamesize: size,
                    mines,
                    maxplayers: seats,
                };
                self.gameid = g;
                Reaction::Request(Request::CreateRoom(request))
            },
            Command::Move(x, y) => Reaction::Request(Request::MakeMove(MakeMove {
                gameid: self.gameid.clone(),
                username: self.username.clone(),
                addr: self.conn,
                x,
                y,
            })),
            Command::Flag(x, y) => Reaction::Request(Request::PlaceFlag(PlaceFlag {
                gameid: self.gameid.clone(),
                name: self.username.clone(),
                addr: self.conn,
                x,
                y,
            })),
            Command::Other => Reaction::Ignore,
        }
    }
}

} // verus!
