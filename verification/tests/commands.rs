use minesweeper_server::session::{parse_command, Command, MyWs, Reaction, Request};

#[test]
fn whole_commands() {
    assert!(matches!(parse_command(""), Some(Command::Heartbeat)));
    assert!(matches!(parse_command("/gamestate"), Some(Command::GameState)));
    assert!(matches!(parse_command("/resetgame"), Some(Command::ResetGame)));
    assert!(matches!(parse_command("/changecolor"), Some(Command::ChangeColor)));
    assert!(matches!(parse_command("/gamestate "), Some(Command::Other)));
    assert!(matches!(parse_command("/quitroom"), Some(Command::QuitRoom)));
    assert!(matches!(parse_command("/quitroom now"), Some(Command::QuitRoom)));
}

#[test]
fn join_and_kick_take_the_second_piece() {
    match parse_command("/joinroom r1") {
        Some(Command::JoinRoom(g)) => assert_eq!(g, "r1"),
        _ => panic!("not a join"),
    }
    match parse_command("/joinroom  r1") {
        Some(Command::JoinRoom(g)) => assert_eq!(g, ""),
        _ => panic!("not a join"),
    }
    match parse_command("/kick bob extra") {
        Some(Command::Kick(t)) => assert_eq!(t, "bob"),
        _ => panic!("not a kick"),
    }
    assert!(parse_command("/joinroom").is_none());
    assert!(parse_command("/kick").is_none());
}

#[test]
fn create_room_reads_three_small_numbers() {
    match parse_command("/createroom r1 5 3 4") {
        Some(Command::CreateRoom(g, size, mines, seats)) => {
            assert_eq!(g, "r1");
            assert_eq!((size, mines, seats), (5, 3, 4));
        }
        _ => panic!("not a room"),
    }
    match parse_command("/createroom r1 +10 007 255") {
        Some(Command::CreateRoom(_, size, mines, seats)) => assert_eq!((size, mines, seats), (10, 7, 255)),
        _ => panic!("not a room"),
    }
    assert!(parse_command("/createroom r1 5 3").is_none());
    assert!(parse_command("/createroom r1 256 3 4").is_none());
    assert!(parse_command("/createroom r1 5 -3 4").is_none());
    assert!(parse_command("/createroom r1 5 3 x").is_none());
    assert!(parse_command("/createroom r1 5 3 ").is_none());
}

#[test]
fn move_and_flag_read_two_cell_numbers() {
    assert!(matches!(parse_command("/move 3 4"), Some(Command::Move(3, 4))));
    assert!(matches!(parse_command("/move +3 007"), Some(Command::Move(3, 7))));
    assert!(matches!(parse_command("/flag 0 12 more"), Some(Command::Flag(0, 12))));
    assert!(parse_command("/move 3").is_none());
    assert!(parse_command("/move 3 y").is_none());
    assert!(parse_command("/flag + 1").is_none());
    assert!(parse_command("/flag 99999999999999999999999 1").is_none());
}

#[test]
fn anything_else_is_ignored() {
    assert!(matches!(parse_command("/hello"), Some(Command::Other)));
    assert!(matches!(parse_command("hello world"), Some(Command::Other)));
    assert!(matches!(parse_command(" /move 1 2"), Some(Command::Other)));
    let mut ws = MyWs::new("ann".to_string(), 7);
    assert!(matches!(ws.handle(Command::Other), Reaction::Ignore));
    assert!(matches!(ws.handle(Command::Heartbeat), Reaction::Heartbeat));
}

#[test]
fn a_session_fills_in_user_connection_and_room() {
    let mut ws = MyWs::new("ann".to_string(), 7);
    assert_eq!(ws.gameid, "");
    match ws.started() {
        Request::Online(m) => assert_eq!((m.username.as_str(), m.addr), ("ann", 7)),
        _ => panic!("not online"),
    }
    match ws.handle(Command::JoinRoom("r1".to_string())) {
        Reaction::Request(Request::ConnectToGame(m)) => {
            assert_eq!((m.gameid.as_str(), m.username.as_str(), m.addr), ("r1", "ann", 7))
        }
        _ => panic!("not a join"),
    }
    assert_eq!(ws.gameid, "r1");
    match ws.handle(Command::Move(1, 2)) {
        Reaction::Request(Request::MakeMove(m)) => {
            assert_eq!((m.gameid.as_str(), m.username.as_str(), m.addr, m.x, m.y), ("r1", "ann", 7, 1, 2))
        }
        _ => panic!("not a move"),
    }
    match ws.handle(Command::Flag(3, 4)) {
        Reaction::Request(Request::PlaceFlag(m)) => {
            assert_eq!((m.gameid.as_str(), m.name.as_str(), m.addr, m.x, m.y), ("r1", "ann", 7, 3, 4))
        }
        _ => panic!("not a flag"),
    }
    match ws.handle(Command::Kick("bob".to_string())) {
        Reaction::Request(Request::Kick(m)) => {
            assert_eq!((m.gameid.as_str(), m.username.as_str(), m.target_username.as_str()), ("r1", "ann", "bob"))
        }
        _ => panic!("not a kick"),
    }
    match ws.handle(Command::CreateRoom("r2".to_string(), 5, 3, 4)) {
        Reaction::Request(Request::CreateRoom(m)) => {
            assert_eq!((m.gameid.as_str(), m.username.as_str(), m.addr), ("r2", "ann", 7));
            assert_eq!((m.gamesize, m.mines, m.maxplayers), (5, 3, 4));
        }
        _ => panic!("not a room"),
    }
    assert_eq!(ws.gameid, "r2");
    match ws.handle(Command::ResetGame) {
        Reaction::Request(Request::ResetGame(m)) => assert_eq!(m.gameid, "r2"),
        _ => panic!("not a reset"),
    }
    match ws.handle(Command::ChangeColor) {
        Reaction::Request(Request::ChangeColor(m)) => assert_eq!((m.gameid.as_str(), m.username.as_str()), ("r2", "ann")),
        _ => panic!("not a recolour"),
    }
    match ws.handle(Command::GameState) {
        Reaction::Request(Request::GameState(m)) => assert_eq!((m.username.as_str(), m.addr), ("ann", 7)),
        _ => panic!("not a state"),
    }
    match ws.handle(Command::QuitRoom) {
        Reaction::Request(Request::DisconnectFromGame(m)) => {
            assert_eq!((m.gameid.as_str(), m.username.as_str(), m.addr), ("r2", "ann", 7))
        }
        _ => panic!("not a quit"),
    }
    assert_eq!(ws.gameid, "r2");
}

#[test]
fn closing_leaves_then_goes_offline_and_a_timeout_the_other_way() {
    let mut ws = MyWs::new("ann".to_string(), 7);
    ws.handle(Command::JoinRoom("r1".to_string()));
    match ws.closing() {
        (Request::DisconnectFromGame(d), Request::Offline(o)) => {
            assert_eq!((d.gameid.as_str(), d.username.as_str(), d.addr), ("r1", "ann", 7));
            assert_eq!((o.username.as_str(), o.addr), ("ann", 7));
        }
        _ => panic!("wrong order"),
    }
    match ws.timed_out() {
        (Request::Offline(o), Request::DisconnectFromGame(d)) => {
            assert_eq!((o.username.as_str(), o.addr), ("ann", 7));
            assert_eq!(d.gameid, "r1");
        }
        _ => panic!("wrong order"),
    }
}
