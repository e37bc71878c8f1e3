use minesweeper_server::games::{
    ChangeColor, ConnectToGame, CreateRoom, Delivery, DisconnectFromGame, GameList, GameState, Games, Kick,
    MakeMove, Offline, Online, PlaceFlag, ResetGame,
};

fn texts(out: &[Delivery]) -> Vec<(u64, String)> {
    out.iter().map(|d| (d.to, d.msg.data.clone())).collect()
}

fn m(to: u64, s: &str) -> (u64, String) {
    (to, s.to_string())
}

fn online(g: &mut Games, name: &str, addr: u64) {
    let mut out = Vec::new();
    g.online(Online { username: name.to_string(), addr }, &mut out);
}

fn create(g: &mut Games, room: &str, name: &str, addr: u64, size: u8, mines: u8, seats: u8) -> Vec<(u64, String)> {
    let mut out = Vec::new();
    g.create_room(
        CreateRoom { gameid: room.to_string(), username: name.to_string(), addr, gamesize: size, mines, maxplayers: seats },
        &mut out,
    );
    texts(&out)
}

fn join(g: &mut Games, room: &str, name: &str, addr: u64) -> (Result<String, ()>, Vec<(u64, String)>) {
    let mut out = Vec::new();
    let r = g.connect_to_game(ConnectToGame { gameid: room.to_string(), addr, username: name.to_string() }, &mut out);
    (r, texts(&out))
}

fn color(g: &Games, room: usize, seat: usize) -> String {
    g.game_list[room].1.sessions[seat].color.clone()
}

#[test]
fn online_greets_and_lists_once() {
    let mut g = Games::new();
    let mut out = Vec::new();
    g.online(Online { username: "ann".to_string(), addr: 1 }, &mut out);
    g.online(Online { username: "ann".to_string(), addr: 1 }, &mut out);
    g.online(Online { username: "ann".to_string(), addr: 2 }, &mut out);
    assert_eq!(texts(&out), vec![m(1, "/online ann"), m(1, "/online ann"), m(2, "/online ann")]);
    assert_eq!(g.user_list, vec![("ann".to_string(), 1), ("ann".to_string(), 2)]);
}

#[test]
fn offline_forgets_only_that_connection() {
    let mut g = Games::new();
    online(&mut g, "ann", 1);
    online(&mut g, "ann", 2);
    online(&mut g, "bob", 3);
    g.offline(Offline { username: "ann".to_string(), addr: 1 });
    assert_eq!(g.user_list, vec![("ann".to_string(), 2), ("bob".to_string(), 3)]);
    g.offline(Offline { username: "carl".to_string(), addr: 1 });
    assert_eq!(g.user_list.len(), 2);
}

#[test]
fn online_then_offline_leaves_the_users_as_they_were() {
    let mut g = Games::new();
    online(&mut g, "bob", 3);
    let before = g.user_list.clone();
    online(&mut g, "ann", 1);
    g.offline(Offline { username: "ann".to_string(), addr: 1 });
    assert_eq!(g.user_list, before);
}

#[test]
fn create_room_seats_the_creator_and_tells_everyone() {
    let mut g = Games::new();
    online(&mut g, "ann", 1);
    online(&mut g, "bob", 2);
    let sent = create(&mut g, "r1", "ann", 1, 2, 0, 3);
    let c = color(&g, 0, 0);
    assert_eq!(
        sent,
        vec![
            m(1, "/joinedroom 2"),
            m(1, "/gamestate 9 9 9 9"),
            m(1, "/updaterooms"),
            m(2, "/updaterooms"),
            m(1, "/moderator"),
            m(1, "/playernum 1/3"),
            (1, format!("/players ann {}", c)),
        ]
    );
    assert_eq!(g.game_list.len(), 1);
    assert_eq!(g.game_list[0].0, "r1");
    assert_eq!(g.game_list[0].1.map_size, 2);
    assert_eq!(g.game_list[0].1.maxplayers, 3);
    assert_eq!(g.game_list(GameList), Ok("{\"games\":[[\"r1\",\"1\",\"3\"]]}".to_string()));
}

#[test]
fn game_list_of_an_empty_lobby() {
    let g = Games::new();
    assert_eq!(g.game_list(GameList), Ok("{\"games\":[]}".to_string()));
}

#[test]
fn game_list_quotes_room_names() {
    let mut g = Games::new();
    create(&mut g, "a\"b", "ann", 1, 1, 0, 2);
    create(&mut g, "c", "bob", 2, 1, 0, 12);
    assert_eq!(
        g.game_list(GameList),
        Ok("{\"games\":[[\"a\\\"b\",\"1\",\"2\"],[\"c\",\"1\",\"12\"]]}".to_string())
    );
}

#[test]
fn creating_a_second_room_leaves_the_first_behind() {
    let mut g = Games::new();
    create(&mut g, "r1", "ann", 1, 1, 0, 2);
    let sent = create(&mut g, "r2", "ann", 1, 1, 0, 2);
    assert_eq!(sent[0], m(1, "/quitedroom"));
    assert_eq!(g.game_list(GameList), Ok("{\"games\":[[\"r1\",\"0\",\"2\"],[\"r2\",\"1\",\"2\"]]}".to_string()));
}

#[test]
fn creating_a_room_whose_name_is_taken_joins_the_first() {
    let mut g = Games::new();
    create(&mut g, "r1", "ann", 1, 1, 0, 2);
    create(&mut g, "r1", "bob", 2, 1, 0, 2);
    assert_eq!(g.game_list.len(), 2);
    assert_eq!(g.game_list[0].1.sessions.len(), 2);
    assert_eq!(g.game_list[0].1.sessions[1].name, "bob");
    assert_eq!(g.game_list[1].1.sessions.len(), 0);
}

#[test]
fn joining_a_room_with_a_free_seat() {
    let mut g = Games::new();
    online(&mut g, "ann", 1);
    online(&mut g, "bob", 2);
    create(&mut g, "r1", "ann", 1, 2, 0, 2);
    let (r, sent) = join(&mut g, "r1", "bob", 2);
    assert_eq!(r, Ok("connected".to_string()));
    let (ca, cb) = (color(&g, 0, 0), color(&g, 0, 1));
    assert_ne!(ca, cb);
    let players = format!("/players ann {} bob {}", ca, cb);
    assert_eq!(
        sent,
        vec![
            m(2, "/joinedroom 2"),
            m(2, "/gamestate 9 9 9 9"),
            m(2, "/flag"),
            m(1, "/updaterooms"),
            m(2, "/updaterooms"),
            m(1, "/moderator"),
            m(1, "/playernum 2/2"),
            (1, players.clone()),
            m(2, "/playernum 2/2"),
            (2, players),
        ]
    );
    assert_eq!(g.game_list(GameList), Ok("{\"games\":[[\"r1\",\"2\",\"2\"]]}".to_string()));
}

#[test]
fn a_full_room_refuses() {
    let mut g = Games::new();
    create(&mut g, "r1", "ann", 1, 2, 0, 1);
    let (r, sent) = join(&mut g, "r1", "bob", 2);
    assert_eq!(r, Err(()));
    assert!(sent.is_empty());
    assert_eq!(g.game_list[0].1.sessions.len(), 1);
    let (r, _) = join(&mut g, "nowhere", "bob", 2);
    assert_eq!(r, Err(()));
}

#[test]
fn joining_again_takes_the_seat_given_up() {
    let mut g = Games::new();
    create(&mut g, "r1", "ann", 1, 2, 0, 1);
    let (r, sent) = join(&mut g, "r1", "ann", 1);
    assert_eq!(r, Ok("connected".to_string()));
    assert_eq!(sent[0], m(1, "/quitedroom"));
    assert_eq!(g.game_list[0].1.sessions.len(), 1);
}

#[test]
fn a_refused_join_still_leaves_the_old_room() {
    let mut g = Games::new();
    create(&mut g, "r1", "ann", 1, 2, 0, 1);
    create(&mut g, "r2", "bob", 2, 2, 0, 1);
    let (r, sent) = join(&mut g, "r2", "ann", 1);
    assert_eq!(r, Err(()));
    assert_eq!(sent, vec![m(1, "/quitedroom")]);
    assert_eq!(g.game_list[0].1.sessions.len(), 0);
}

#[test]
fn joining_a_lost_game_says_so() {
    let mut g = Games::new();
    create(&mut g, "r1", "ann", 1, 1, 1, 2);
    let mut out = Vec::new();
    g.make_move(MakeMove { gameid: "r1".to_string(), username: "ann".to_string(), addr: 1, x: 0, y: 0 }, &mut out);
    let (r, sent) = join(&mut g, "r1", "bob", 2);
    assert_eq!(r, Ok("connected".to_string()));
    assert_eq!(sent[0..3].to_vec(), vec![m(2, "/joinedroom 1"), m(2, "/gamestate 10"), m(2, "/gameover")]);
}

#[test]
fn flags_and_moves_reach_every_player() {
    let mut g = Games::new();
    create(&mut g, "r1", "ann", 1, 2, 0, 2);
    join(&mut g, "r1", "bob", 2);
    let (ca, cb) = (color(&g, 0, 0), color(&g, 0, 1));

    let flag = PlaceFlag { gameid: "r1".to_string(), name: "bob".to_string(), addr: 2, x: 1, y: 1 };
    assert!(g.flag_allowed(&flag));
    let mut out = Vec::new();
    g.place_flag(flag, &mut out);
    let moved_b = format!("/moved 1 1 {}", cb);
    assert_eq!(
        texts(&out),
        vec![m(1, "/flag 1 1"), (1, moved_b.clone()), m(2, "/flag 1 1"), (2, moved_b)]
    );
    assert!(g.game_list[0].1.is_flag(1, 1));

    let mut out = Vec::new();
    let blocked = MakeMove { gameid: "r1".to_string(), username: "ann".to_string(), addr: 1, x: 1, y: 1 };
    g.make_move(blocked, &mut out);
    assert!(out.is_empty());

    let step = MakeMove { gameid: "r1".to_string(), username: "ann".to_string(), addr: 1, x: 0, y: 0 };
    assert!(g.move_allowed(&step));
    g.make_move(step, &mut out);
    let moved_a = format!("/moved 0 0 {}", ca);
    assert_eq!(
        texts(&out),
        vec![m(1, "/gamestate 0 0 0 0"), (1, moved_a.clone()), m(2, "/gamestate 0 0 0 0"), (2, moved_a)]
    );
    assert!(!g.game_list[0].1.is_flag(1, 1));
}

#[test]
fn a_stranger_cannot_move_or_flag() {
    let mut g = Games::new();
    create(&mut g, "r1", "ann", 1, 2, 0, 2);
    let mut out = Vec::new();
    g.make_move(MakeMove { gameid: "r1".to_string(), username: "eve".to_string(), addr: 9, x: 0, y: 0 }, &mut out);
    g.place_flag(PlaceFlag { gameid: "r1".to_string(), name: "eve".to_string(), addr: 9, x: 0, y: 0 }, &mut out);
    assert!(out.is_empty());
    assert_eq!(g.game_list[0].1.get_game_state(), "/gamestate 9 9 9 9");
    assert_eq!(g.game_list[0].1.get_flags(), "/flag");
}

#[test]
fn out_of_board_requests_are_caught_before_the_call() {
    let mut g = Games::new();
    create(&mut g, "r1", "ann", 1, 2, 0, 2);
    let step = MakeMove { gameid: "r1".to_string(), username: "ann".to_string(), addr: 1, x: 2, y: 0 };
    assert!(!g.move_allowed(&step));
    let flag = PlaceFlag { gameid: "r1".to_string(), name: "ann".to_string(), addr: 1, x: 0, y: 5 };
    assert!(!g.flag_allowed(&flag));
    let elsewhere = MakeMove { gameid: "r2".to_string(), username: "ann".to_string(), addr: 1, x: 7, y: 7 };
    assert!(g.move_allowed(&elsewhere));
}

#[test]
fn losing_then_recolouring_then_starting_over() {
    let mut g = Games::new();
    create(&mut g, "r1", "ann", 1, 1, 1, 2);
    let ca = color(&g, 0, 0);
    let mut out = Vec::new();
    g.make_move(MakeMove { gameid: "r1".to_string(), username: "ann".to_string(), addr: 1, x: 0, y: 0 }, &mut out);
    assert_eq!(
        texts(&out),
        vec![m(1, "/gamestate 10"), (1, format!("/moved 0 0 {}", ca)), m(1, "/gameover ann")]
    );
    assert!(g.game_list[0].1.gameover);

    let mut out = Vec::new();
    g.change_color(ChangeColor { username: "ann".to_string(), gameid: "r1".to_string() }, &mut out);
    let c2 = color(&g, 0, 0);
    assert_ne!(c2, ca);
    assert_eq!(
        texts(&out),
        vec![m(1, "/moderator"), m(1, "/playernum 1/2"), (1, format!("/players ann {}", c2))]
    );

    let mut out = Vec::new();
    g.reset_game(ResetGame { gameid: "r1".to_string() }, &mut out);
    assert_eq!(texts(&out), vec![m(1, "/resetgame"), m(1, "/gamestate 9")]);
    assert!(!g.game_list[0].1.gameover);
}

#[test]
fn no_recolour_or_reset_while_playing() {
    let mut g = Games::new();
    create(&mut g, "r1", "ann", 1, 2, 0, 2);
    let ca = color(&g, 0, 0);
    let mut out = Vec::new();
    g.change_color(ChangeColor { username: "ann".to_string(), gameid: "r1".to_string() }, &mut out);
    g.reset_game(ResetGame { gameid: "r1".to_string() }, &mut out);
    assert!(out.is_empty());
    assert_eq!(color(&g, 0, 0), ca);
}

#[test]
fn game_state_goes_to_the_rooms_of_the_asker() {
    let mut g = Games::new();
    create(&mut g, "r1", "ann", 1, 1, 0, 2);
    create(&mut g, "r2", "bob", 2, 2, 0, 2);
    let mut out = Vec::new();
    g.game_state(GameState { addr: 2, username: "bob".to_string() }, &mut out);
    assert_eq!(texts(&out), vec![m(2, "/gamestate 9 9 9 9")]);
    let mut out = Vec::new();
    g.game_state(GameState { addr: 5, username: "eve".to_string() }, &mut out);
    assert!(out.is_empty());
}

#[test]
fn the_moderator_kicks_a_player() {
    let mut g = Games::new();
    online(&mut g, "ann", 1);
    online(&mut g, "bob", 2);
    create(&mut g, "r1", "ann", 1, 2, 0, 2);
    join(&mut g, "r1", "bob", 2);
    let ca = color(&g, 0, 0);

    let not_mod = Kick { gameid: "r1".to_string(), username: "bob".to_string(), target_username: "ann".to_string() };
    assert!(g.kick_allowed(&not_mod));
    let mut out = Vec::new();
    g.kick(not_mod, &mut out);
    assert!(out.is_empty());
    assert_eq!(g.game_list[0].1.sessions.len(), 2);

    let kick = Kick { gameid: "r1".to_string(), username: "ann".to_string(), target_username: "bob".to_string() };
    let mut out = Vec::new();
    g.kick(kick, &mut out);
    assert_eq!(
        texts(&out),
        vec![
            m(2, "/quitedroom"),
            m(1, "/gamestate 9 9 9 9"),
            m(1, "/flag"),
            m(1, "/moderator"),
            m(1, "/playernum 1/2"),
            (1, format!("/players ann {}", ca)),
            m(1, "/updaterooms"),
            m(2, "/updaterooms"),
        ]
    );
    assert_eq!(g.game_list[0].1.sessions.len(), 1);
}

#[test]
fn kicking_oneself_closes_the_room() {
    let mut g = Games::new();
    online(&mut g, "ann", 1);
    create(&mut g, "r1", "ann", 1, 2, 0, 2);
    let mut out = Vec::new();
    g.kick(Kick { gameid: "r1".to_string(), username: "ann".to_string(), target_username: "ann".to_string() }, &mut out);
    assert_eq!(texts(&out), vec![m(1, "/quitedroom"), m(1, "/updaterooms")]);
    assert!(g.game_list.is_empty());
}

#[test]
fn a_kick_past_an_empty_room_of_that_name_is_refused_before_the_call() {
    let mut g = Games::new();
    create(&mut g, "r1", "ann", 1, 1, 0, 2);
    create(&mut g, "r2", "ann", 1, 1, 0, 2);
    let kick = Kick { gameid: "r1".to_string(), username: "bob".to_string(), target_username: "ann".to_string() };
    assert_eq!(g.game_list[0].1.sessions.len(), 0);
    assert!(!g.kick_allowed(&kick));
}

#[test]
fn leaving_a_room_tells_the_others() {
    let mut g = Games::new();
    online(&mut g, "ann", 1);
    create(&mut g, "r1", "ann", 1, 1, 0, 2);
    join(&mut g, "r1", "bob", 2);
    let cb = color(&g, 0, 1);
    let mut out = Vec::new();
    g.disconnect_from_game(
        DisconnectFromGame { username: "ann".to_string(), addr: 1, gameid: "r1".to_string() },
        &mut out,
    );
    assert_eq!(
        texts(&out),
        vec![
            m(1, "/quitedroom"),
            m(2, "/gamestate 9"),
            m(2, "/flag"),
            m(2, "/moderator"),
            m(2, "/playernum 1/2"),
            (2, format!("/players bob {}", cb)),
            m(1, "/updaterooms"),
        ]
    );
}

#[test]
fn the_last_to_leave_closes_the_room() {
    let mut g = Games::new();
    online(&mut g, "ann", 1);
    create(&mut g, "r1", "ann", 1, 1, 0, 2);
    let mut out = Vec::new();
    g.disconnect_from_game(
        DisconnectFromGame { username: "ann".to_string(), addr: 1, gameid: "r1".to_string() },
        &mut out,
    );
    assert_eq!(texts(&out), vec![m(1, "/quitedroom"), m(1, "/updaterooms")]);
    assert_eq!(g.game_list(GameList), Ok("{\"games\":[]}".to_string()));
}

#[test]
fn leaving_an_unknown_room_does_nothing() {
    let mut g = Games::new();
    create(&mut g, "r1", "ann", 1, 1, 0, 2);
    let mut out = Vec::new();
    g.disconnect_from_game(
        DisconnectFromGame { username: "ann".to_string(), addr: 1, gameid: "zz".to_string() },
        &mut out,
    );
    assert!(out.is_empty());
    assert_eq!(g.game_list.len(), 1);
}

#[test]
fn leaving_a_room_one_is_not_in_still_refreshes_it() {
    let mut g = Games::new();
    online(&mut g, "eve", 5);
    create(&mut g, "r1", "ann", 1, 1, 0, 2);
    let ca = color(&g, 0, 0);
    let mut out = Vec::new();
    g.disconnect_from_game(
        DisconnectFromGame { username: "eve".to_string(), addr: 5, gameid: "r1".to_string() },
        &mut out,
    );
    assert_eq!(
        texts(&out),
        vec![
            m(1, "/gamestate 9"),
            m(1, "/flag"),
            m(1, "/moderator"),
            m(1, "/playernum 1/2"),
            (1, format!("/players ann {}", ca)),
            m(5, "/updaterooms"),
        ]
    );
}
