use minesweeper_server::minesweeper::{kth_free, pick_color, Minesweeper, Player, HIDDEN};

const PALETTE: [&str; 10] = [
    "#ff2919", "#ff6e19", "#fffb19", "#34ff19", "#19ff98", "#1925ff", "#8519ff", "#ff19d9", "#454545", "white",
];

fn player(name: &str, color: &str, addr: u64, flags: Vec<(usize, usize)>) -> Player {
    Player { name: name.to_string(), color: color.to_string(), addr, ready: false, flags }
}

fn room(map: Vec<Vec<u8>>, sessions: Vec<Player>) -> Minesweeper {
    let n = map.len();
    let bombs = map.iter().flatten().filter(|c| **c == 1).count() as u8;
    Minesweeper {
        map,
        sessions,
        maxplayers: 4,
        vision: vec![vec![HIDDEN; n]; n],
        map_size: n,
        bombs,
        gameover: false,
        started: false,
    }
}

fn mines(g: &Minesweeper) -> usize {
    g.map.iter().flatten().filter(|c| **c == 1).count()
}

#[test]
fn new_board_has_the_asked_mines_and_is_hidden() {
    for (size, bombs) in [(1usize, 0u8), (1, 1), (3, 5), (5, 25), (10, 30)] {
        let g = Minesweeper::new(size, bombs, 4);
        assert_eq!(g.map.len(), size);
        assert_eq!(g.vision.len(), size);
        assert!(g.map.iter().all(|r| r.len() == size && r.iter().all(|c| *c <= 1)));
        assert!(g.vision.iter().all(|r| r.iter().all(|c| *c == HIDDEN)));
        assert_eq!(mines(&g), bombs as usize);
        assert_eq!(g.bombs, bombs);
        assert_eq!(g.maxplayers, 4);
        assert!(!g.gameover && !g.started);
        assert!(g.sessions.is_empty());
    }
}

#[test]
fn empty_board_is_allowed() {
    let g = Minesweeper::new(0, 0, 2);
    assert_eq!(g.get_game_state(), "/gamestate");
}

#[test]
fn kth_free_counts_free_cells_row_by_row() {
    let map = vec![vec![1, 0, 0], vec![0, 1, 0], vec![0, 0, 1]];
    assert_eq!(kth_free(&map, 3, 0), (1, 0));
    assert_eq!(kth_free(&map, 3, 1), (2, 0));
    assert_eq!(kth_free(&map, 3, 2), (0, 1));
    assert_eq!(kth_free(&map, 3, 5), (1, 2));
}

#[test]
fn nearby_mines_counts_the_eight_neighbours() {
    let g = room(vec![vec![1, 0, 1], vec![0, 0, 0], vec![1, 1, 1]], vec![]);
    assert_eq!(g.nearby_mines(1, 1), 5);
    assert_eq!(g.nearby_mines(0, 0), 0);
    assert_eq!(g.nearby_mines(1, 0), 2);
    assert_eq!(g.nearby_mines(0, 1), 3);
    assert_eq!(g.nearby_mines(2, 2), 1);
}

#[test]
fn stepping_on_a_quiet_cell_uncovers_its_region() {
    let mut g = room(vec![vec![0, 0, 0], vec![0, 0, 0], vec![0, 0, 1]], vec![]);
    assert_eq!(g.step_on(0, 0), "moved");
    assert_eq!(g.vision, vec![vec![0, 0, 0], vec![0, 1, 1], vec![0, 1, HIDDEN]]);
    assert_eq!(g.get_game_state(), "/gamestate 0 0 0 0 1 1 0 1 9");
    assert!(!g.gameover);
    assert_eq!(g.step_on(0, 0), "not moving");
    assert_eq!(g.step_on(1, 1), "not moving");
}

#[test]
fn stepping_on_a_counted_cell_uncovers_only_it() {
    let mut g = room(vec![vec![0, 0, 0], vec![0, 0, 0], vec![0, 0, 1]], vec![]);
    assert_eq!(g.step_on(1, 1), "moved");
    assert_eq!(g.get_game_state(), "/gamestate 9 9 9 9 1 9 9 9 9");
}

#[test]
fn flood_stops_at_uncovered_cells_and_walls() {
    let mut g = room(
        vec![vec![0, 0, 1, 0, 0], vec![0, 0, 1, 0, 0], vec![1, 1, 1, 0, 0], vec![0, 0, 0, 0, 0], vec![0, 0, 0, 0, 0]],
        vec![],
    );
    assert_eq!(g.step_on(0, 0), "moved");
    assert_eq!(
        g.get_game_state(),
        "/gamestate 0 2 9 9 9 2 5 9 9 9 9 9 9 9 9 9 9 9 9 9 9 9 9 9 9"
    );
}

#[test]
fn stepping_on_a_mine_loses_and_shows_every_mine() {
    let ann = player("ann", "white", 1, vec![(0, 0)]);
    let mut g = room(vec![vec![1, 0, 0], vec![0, 0, 0], vec![0, 0, 1]], vec![ann]);
    assert_eq!(g.step_on(2, 2), "mine");
    assert!(g.gameover);
    assert_eq!(g.get_game_state(), "/gamestate 12 9 9 9 9 9 9 9 10");
    assert_eq!(g.sessions[0].flags, vec![(0, 0)]);
    assert_eq!(g.step_on(1, 1), "not moving");
    assert_eq!(g.get_game_state(), "/gamestate 12 9 9 9 9 9 9 9 10");
}

#[test]
fn unflagged_mines_show_as_mines_after_a_loss() {
    let mut g = room(vec![vec![1, 0, 0], vec![0, 0, 0], vec![0, 0, 1]], vec![]);
    assert_eq!(g.step_on(0, 0), "mine");
    assert_eq!(g.get_game_state(), "/gamestate 10 9 9 9 9 9 9 9 11");
}

#[test]
fn uncovering_takes_flags_away() {
    let ann = player("ann", "white", 1, vec![(1, 0), (2, 2), (2, 0)]);
    let mut g = room(vec![vec![0, 0, 0], vec![0, 0, 0], vec![0, 0, 1]], vec![ann]);
    assert_eq!(g.step_on(0, 0), "moved");
    assert_eq!(g.sessions[0].flags, vec![(2, 2)]);
    assert_eq!(g.sessions[0].name, "ann");
}

#[test]
fn place_flag_toggles() {
    let ann = player("ann", "white", 1, vec![]);
    let bob = player("bob", "#ff2919", 2, vec![]);
    let mut g = room(vec![vec![0, 0], vec![0, 1]], vec![ann, bob]);
    assert!(g.place_flag(1, 1, "bob".to_string()));
    assert_eq!(g.sessions[1].flags, vec![(1, 1)]);
    assert!(g.is_flag(1, 1));
    assert!(!g.is_flag(0, 1));
    assert_eq!(g.get_flags(), "/flag 1 1");
    // anyone takes away a flag that lies there
    assert!(g.place_flag(1, 1, "ann".to_string()));
    assert!(g.sessions[1].flags.is_empty());
    assert!(!g.is_flag(1, 1));
    // a stranger cannot place one
    assert!(!g.place_flag(0, 0, "eve".to_string()));
    assert_eq!(g.get_flags(), "/flag");
}

#[test]
fn place_flag_refuses_uncovered_cells_and_lost_games() {
    let ann = player("ann", "white", 1, vec![]);
    let mut g = room(vec![vec![0, 0], vec![0, 1]], vec![ann]);
    g.step_on(0, 0);
    assert!(!g.place_flag(0, 0, "ann".to_string()));
    g.gameover = true;
    assert!(!g.place_flag(0, 1, "ann".to_string()));
    // out of range is no panic once the game is lost
    assert!(!g.place_flag(7, 7, "ann".to_string()));
}

#[test]
fn get_flags_lists_every_players_flags() {
    let ann = player("ann", "white", 1, vec![(1, 0), (2, 1)]);
    let bob = player("bob", "#ff2919", 2, vec![(0, 2)]);
    let g = room(vec![vec![0; 3]; 3], vec![ann, bob]);
    assert_eq!(g.get_flags(), "/flag 1 0 2 1 0 2");
}

#[test]
fn reset_clears_view_flags_and_loss() {
    let ann = player("ann", "white", 1, vec![(1, 1)]);
    let mut g = room(vec![vec![1, 0, 0], vec![0, 0, 0], vec![0, 0, 1]], vec![ann]);
    g.step_on(0, 0);
    assert!(g.gameover);
    g.reset();
    assert!(!g.gameover);
    assert!(g.vision.iter().all(|r| r.iter().all(|c| *c == HIDDEN)));
    assert!(g.sessions[0].flags.is_empty());
    assert_eq!(g.sessions[0].name, "ann");
    assert_eq!(g.sessions[0].color, "white");
    assert_eq!(mines(&g), 2);
}

#[test]
fn gen_color_picks_a_free_palette_colour() {
    let mut g = room(vec![vec![0]], vec![]);
    for _ in 0..20 {
        let c = g.gen_color();
        assert!(PALETTE.contains(&c.as_str()));
    }
    g.sessions.push(player("a", "white", 1, vec![]));
    g.sessions.push(player("b", "#ff2919", 2, vec![]));
    for _ in 0..20 {
        let c = g.gen_color();
        assert!(PALETTE.contains(&c.as_str()));
        assert!(c != "white" && c != "#ff2919");
    }
}

#[test]
fn gen_color_is_pink_when_the_palette_is_worn() {
    let sessions = PALETTE.iter().enumerate().map(|(i, c)| player(&format!("p{}", i), c, i as u64, vec![])).collect();
    let g = room(vec![vec![0]], sessions);
    assert_eq!(g.gen_color(), "pink");
}

#[test]
fn pick_color_takes_the_first_free_one() {
    let order: Vec<String> = vec!["a".to_string(), "b".to_string(), "c".to_string()];
    let sessions = vec![player("x", "a", 1, vec![]), player("y", "c", 2, vec![])];
    assert_eq!(pick_color(&order, &sessions), "b");
    let sessions = vec![player("x", "a", 1, vec![]), player("y", "b", 2, vec![]), player("z", "c", 3, vec![])];
    assert_eq!(pick_color(&order, &sessions), "pink");
    assert_eq!(pick_color(&order, &vec![]), "a");
}

#[test]
fn add_and_remove_players() {
    let mut g = room(vec![vec![0]], vec![]);
    g.add_player(player("ann", "white", 1, vec![]));
    g.add_player(player("bob", "#ff2919", 2, vec![]));
    let p = g.remove_player(0);
    assert_eq!(p.name, "ann");
    assert_eq!(g.sessions.len(), 1);
    g.set_player_color(0, "#454545".to_string());
    assert_eq!(g.sessions[0].color, "#454545");
}

#[test]
fn flood_reaches_every_neighbour_of_a_quiet_cell() {
    let map = vec![
        vec![0, 0, 0, 0, 0, 0],
        vec![0, 0, 0, 0, 1, 0],
        vec![0, 0, 0, 0, 0, 0],
        vec![1, 0, 0, 0, 0, 0],
        vec![0, 0, 0, 1, 0, 0],
        vec![0, 0, 0, 0, 0, 1],
    ];
    let mut g = room(map.clone(), vec![]);
    assert_eq!(g.step_on(1, 0), "moved");
    let n = 6i64;
    for y in 0..6usize {
        for x in 0..6usize {
            let v = g.vision[y][x];
            if v != HIDDEN {
                assert_eq!(map[y][x], 0);
                assert_eq!(v, g.nearby_mines(x, y));
            }
            if v == 0 {
                for (dx, dy) in [(-1i64, -1i64), (0, -1), (1, -1), (-1, 0), (1, 0), (-1, 1), (0, 1), (1, 1)] {
                    let (a, c) = (x as i64 + dx, y as i64 + dy);
                    if 0 <= a && a < n && 0 <= c && c < n {
                        assert_ne!(g.vision[c as usize][a as usize], HIDDEN);
                    }
                }
            }
        }
    }
    assert_eq!(g.vision[5][5], HIDDEN);
}

#[test]
fn debug_pictures_of_board_and_view() {
    let mut g = room(vec![vec![1, 0, 0], vec![0, 0, 0], vec![0, 0, 0]], vec![]);
    assert_eq!(g.debug_picture(), "\n* 1 0 \n1 1 0 \n0 0 0 \n");
    assert_eq!(g.vision_picture(), "\n# # # \n# # # \n# # # \n");
    g.step_on(2, 2);
    assert_eq!(g.vision_picture(), "\n# 1 0 \n1 1 0 \n0 0 0 \n");
    let empty = Minesweeper::new(0, 0, 1);
    assert_eq!(empty.debug_picture(), "\n");
}
