//! One Minesweeper room: the hidden board, what the players see, and their flags.
use vstd::prelude::*;
use vstd::string::StringExecFns;
use crate::grid::{
    free_rank, grid_count, grid_of, in_bounds, is_square, lemma_free_cell_exists, lemma_free_rank_unique,
    lemma_grid_count_take_succ, lemma_grid_count_update, lemma_row_count_take_succ, lemma_zero_grid_counts,
    row_count,
};
use crate::text::{decimal, decimal_string};

verus! {

/// What a player sees of a cell that nobody has uncovered yet.
pub const HIDDEN: u8 = 9;
/// What the players see, after the game is lost, of the mine that was stepped on.
pub const STEPPED_MINE: u8 = 10;
/// What the players see, after the game is lost, of a mine that nobody flagged.
pub const MINE: u8 = 11;
/// What the players see, after the game is lost, of a mine that carries a flag.
pub const SOLVED_MINE: u8 = 12;

/// A player seated in a room. `addr` is the connection that the player's messages go to.
pub struct Player {
    pub name: String,
    pub color: String,
    pub addr: u64,
    pub ready: bool,
    pub flags: Vec<(usize, usize)>,
}

/// A room: an n-by-n board of mines (1) and free cells (0), and the players' view of it.
pub struct Minesweeper {
    pub map: Vec<Vec<u8>>,
    pub sessions: Vec<Player>,
    pub maxplayers: u8,
    pub vision: Vec<Vec<u8>>,
    pub map_size: usize,
    pub bombs: u8,
    pub gameover: bool,
    pub started: bool,
}

/// 1 if (x, y) is on the board and holds a mine, else 0.
pub open spec fn mine_at(b: Seq<Seq<u8>>, n: int, x: int, y: int) -> nat {
    if in_bounds(n, x, y) && b[y][x] == 1 { 1 } else { 0 }
}

/// The number of mines among the up to eight cells around (x, y).
pub open spec fn nearby_count(b: Seq<Seq<u8>>, n: int, x: int, y: int) -> nat {
    mine_at(b, n, x, y - 1) + mine_at(b, n, x - 1, y) + mine_at(b, n, x, y + 1)
        + mine_at(b, n, x + 1, y) + mine_at(b, n, x - 1, y - 1) + mine_at(b, n, x + 1, y - 1)
        + mine_at(b, n, x - 1, y + 1) + mine_at(b, n, x + 1, y + 1)
}

/// (a, c) is one of the eight cells around (x, y).
pub open spec fn adjacent(x: int, y: int, a: int, c: int) -> bool {
    &&& x - 1 <= a <= x + 1
    &&& y - 1 <= c <= y + 1
    &&& (a != x || c != y)
}

/// Horizontal step of direction `d`, in the order top, left, bottom, right,
/// top left, top right, bottom left, bottom right.
pub open spec fn dir_dx(d: int) -> int {
    if d == 1 || d == 4 || d == 6 { -1 } else if d == 3 || d == 5 || d == 7 { 1 } else { 0 }
}

/// Vertical step of direction `d` (see `dir_dx`).
pub open spec fn dir_dy(d: int) -> int {
    if d == 0 || d == 4 || d == 5 { -1 } else if d == 2 || d == 6 || d == 7 { 1 } else { 0 }
}

/// Some player holds a flag on (x, y).
pub open spec fn flagged(sessions: Seq<Player>, x: int, y: int) -> bool {
    exists|i: int, j: int|
        0 <= i < sessions.len() && 0 <= j < sessions[i].flags@.len()
            && #[trigger] sessions[i].flags@[j] == (x as usize, y as usize)
}

/// What a cell may show, given the board and whether the game is lost: hidden (never a
/// mine once the game is lost), the true count of mines around a free cell, or a mine
/// mark once the game is lost.
pub open spec fn cell_consistent(b: Seq<Seq<u8>>, n: int, v: u8, x: int, y: int, over: bool) -> bool {
    ||| v == HIDDEN && !(over && b[y][x] == 1)
    ||| v <= 8 && b[y][x] == 0 && v == nearby_count(b, n, x, y)
    ||| STEPPED_MINE <= v <= SOLVED_MINE && b[y][x] == 1 && over
}

/// The flag lies on the board, and on a hidden cell while the game goes on.
pub open spec fn flag_ok(f: (usize, usize), s: Seq<Seq<u8>>, n: int, over: bool) -> bool {
    &&& in_bounds(n, f.0 as int, f.1 as int)
    &&& !over ==> s[f.1 as int][f.0 as int] == HIDDEN
}

/// Every flag lies on the board, on a hidden cell while the game goes on, and no
/// cell carries two flags.
pub open spec fn flags_ok(sessions: Seq<Player>, s: Seq<Seq<u8>>, n: int, over: bool) -> bool {
    &&& forall|i: int, j: int|
        0 <= i < sessions.len() && 0 <= j < sessions[i].flags@.len()
            ==> #[trigger] flag_ok(sessions[i].flags@[j], s, n, over)
    &&& forall|i: int| 0 <= i < sessions.len() ==> (#[trigger] sessions[i].flags@).no_duplicates()
    &&& forall|i1: int, i2: int|
        0 <= i1 < sessions.len() && 0 <= i2 < sessions.len() && i1 != i2
            ==> (#[trigger] sessions[i1].flags@).disjoint(#[trigger] sessions[i2].flags@)
}

/// Uncovering spreads from cell `c` to cell `d`: `c` is a free cell with no mine
/// around it and `d` is one of its neighbours.
pub open spec fn spreads(b: Seq<Seq<u8>>, n: int, c: (int, int), d: (int, int)) -> bool {
    &&& b[c.1][c.0] == 0
    &&& nearby_count(b, n, c.0, c.1) == 0
    &&& adjacent(c.0, c.1, d.0, d.1)
}

/// A path of hidden cells on the board along which uncovering spreads.
pub open spec fn flood_path(b: Seq<Seq<u8>>, s: Seq<Seq<u8>>, n: int, p: Seq<(int, int)>) -> bool
    decreases p.len(),
{
    if p.len() == 0 {
        false
    } else {
        &&& in_bounds(n, p[0].0, p[0].1)
        &&& s[p[0].1][p[0].0] == HIDDEN
        &&& p.len() > 1 ==> spreads(b, n, p[0], p[1]) && flood_path(b, s, n, p.drop_first())
    }
}

/// Stepping on the hidden free cell (x, y) uncovers (a, c): some flood path leads there.
pub open spec fn in_flood(b: Seq<Seq<u8>>, s: Seq<Seq<u8>>, n: int, x: int, y: int, a: int, c: int) -> bool {
    exists|p: Seq<(int, int)>|
        #[trigger] flood_path(b, s, n, p) && p[0] == (x, y) && p.last() == (a, c)
}

/// Going from view `s0` to view `s1`, each cell either kept what it showed or was a
/// hidden cell that stepping on (x, y) uncovers, and now shows its count.
pub open spec fn uncovered_within(b: Seq<Seq<u8>>, s0: Seq<Seq<u8>>, s1: Seq<Seq<u8>>, n: int, x: int, y: int) -> bool {
    forall|c: int, a: int| in_bounds(n, a, c) ==> {
        ||| #[trigger] s1[c][a] == s0[c][a]
        ||| s0[c][a] == HIDDEN && s1[c][a] == nearby_count(b, n, a, c) && in_flood(b, s0, n, x, y, a, c)
    }
}

/// If (a, c) went from hidden to uncovered and is a free cell with no mine around it,
/// every neighbour of it is uncovered in `s1`.
pub open spec fn spread_done(b: Seq<Seq<u8>>, s0: Seq<Seq<u8>>, s1: Seq<Seq<u8>>, n: int, a: int, c: int) -> bool {
    s0[c][a] == HIDDEN && s1[c][a] != HIDDEN && b[c][a] == 0 && nearby_count(b, n, a, c) == 0
        ==> forall|e: int, f: int| adjacent(a, c, e, f) && in_bounds(n, e, f) ==> #[trigger] s1[f][e] != HIDDEN
}

/// The flags of a list that lie on hidden cells, in their order.
pub open spec fn hidden_flags(fs: Seq<(usize, usize)>, s: Seq<Seq<u8>>) -> Seq<(usize, usize)>
    decreases fs.len(),
{
    if fs.len() == 0 {
        fs
    } else {
        let rest = hidden_flags(fs.drop_last(), s);
        if s[fs.last().1 as int][fs.last().0 as int] == HIDDEN {
            rest.push(fs.last())
        } else {
            rest
        }
    }
}

/// The view after the game is lost on (x, y): that cell shows the stepped-on mine,
/// every other mine shows as solved where a flag lies on it and as a mine elsewhere,
/// and every free cell keeps what it showed.
pub open spec fn lost_view(b: Seq<Seq<u8>>, s: Seq<Seq<u8>>, sessions: Seq<Player>, x: int, y: int, a: int, c: int) -> u8 {
    if a == x && c == y {
        STEPPED_MINE
    } else if b[c][a] == 1 {
        if flagged(sessions, a, c) { SOLVED_MINE } else { MINE }
    } else {
        s[c][a]
    }
}

/// What stepping on (x, y) answers: "not moving" on an uncovered cell or once the game
/// is lost, "mine" on a mine, "moved" on a free cell.
pub open spec fn step_outcome(g: Minesweeper, x: int, y: int) -> Seq<char> {
    if g.seen()[y][x] != HIDDEN || g.gameover {
        "not moving"@
    } else if g.board()[y][x] == 1 {
        "mine"@
    } else {
        "moved"@
    }
}

/// Room `b` is room `a` after stepping on (x, y): nothing changes on an uncovered cell
/// or once the game is lost; on a mine the game is lost and the view becomes
/// `lost_view`; on a free cell exactly the cells that `in_flood` names are uncovered,
/// each showing its count, and every flag on an uncovered cell is taken away.
pub open spec fn stepped(a: Minesweeper, b: Minesweeper, x: int, y: int) -> bool {
    let n = a.map_size as int;
    &&& b.map == a.map
    &&& b.map_size == a.map_size
    &&& b.bombs == a.bombs
    &&& b.maxplayers == a.maxplayers
    &&& b.started == a.started
    &&& b.sessions@.len() == a.sessions@.len()
    &&& forall|i: int| 0 <= i < b.sessions@.len() ==> same_but_flags(#[trigger] b.sessions@[i], a.sessions@[i])
    &&& (a.seen()[y][x] != HIDDEN || a.gameover) ==> b == a
    &&& (a.seen()[y][x] == HIDDEN && !a.gameover && a.board()[y][x] == 1) ==> {
        &&& b.gameover
        &&& b.sessions == a.sessions
        &&& forall|c: int, e: int| in_bounds(n, e, c)
            ==> #[trigger] b.seen()[c][e] == lost_view(a.board(), a.seen(), a.sessions@, x, y, e, c)
    }
    &&& (a.seen()[y][x] == HIDDEN && !a.gameover && a.board()[y][x] == 0) ==> {
        &&& !b.gameover
        &&& forall|c: int, e: int| in_bounds(n, e, c)
            ==> #[trigger] b.seen()[c][e] == if in_flood(a.board(), a.seen(), n, x, y, e, c) {
                nearby_count(a.board(), n, e, c)
            } else {
                a.seen()[c][e] as nat
            }
        &&& forall|i: int| 0 <= i < b.sessions@.len()
            ==> (#[trigger] b.sessions@[i]).flags@ == hidden_flags(a.sessions@[i].flags@, b.seen())
    }
}

/// Whether a flag can be toggled on (x, y) by `name`: the game goes on, the cell is
/// hidden, and either a flag lies there or a player is called `name`.
pub open spec fn flag_placeable(g: Minesweeper, x: int, y: int, name: Seq<char>) -> bool {
    !g.gameover && g.seen()[y][x] == HIDDEN && (flagged(g.sessions@, x, y) || has_player(g.sessions@, name))
}

/// Room `b` is room `a` after toggling a flag on (x, y) for `name`: only flags change;
/// where a flag lay there it is taken away, else the first player called `name` gets
/// one there; where no flag can be toggled nothing changes.
pub open spec fn flag_toggled(a: Minesweeper, b: Minesweeper, x: int, y: int, name: Seq<char>) -> bool {
    &&& b.map == a.map
    &&& b.vision == a.vision
    &&& b.map_size == a.map_size
    &&& b.bombs == a.bombs
    &&& b.maxplayers == a.maxplayers
    &&& b.started == a.started
    &&& b.gameover == a.gameover
    &&& b.sessions@.len() == a.sessions@.len()
    &&& forall|i: int| 0 <= i < b.sessions@.len() ==> same_but_flags(#[trigger] b.sessions@[i], a.sessions@[i])
    &&& !flag_placeable(a, x, y, name) ==> b == a
    &&& flag_placeable(a, x, y, name) && flagged(a.sessions@, x, y) ==> exists|i: int, j: int|
        0 <= i < a.sessions@.len() && 0 <= j < a.sessions@[i].flags@.len()
        && #[trigger] a.sessions@[i].flags@[j] == (x as usize, y as usize)
        && b.sessions@[i].flags@ == a.sessions@[i].flags@.remove(j)
        && forall|k: int| 0 <= k < a.sessions@.len() && k != i
            ==> (#[trigger] b.sessions@[k]).flags == a.sessions@[k].flags
    &&& flag_placeable(a, x, y, name) && !flagged(a.sessions@, x, y) ==> exists|i: int|
        0 <= i < a.sessions@.len() && (#[trigger] a.sessions@[i]).name@ == name
        && (forall|k: int| 0 <= k < i ==> (#[trigger] a.sessions@[k]).name@ != name)
        && b.sessions@[i].flags@ == a.sessions@[i].flags@.push((x as usize, y as usize))
        && forall|k: int| 0 <= k < a.sessions@.len() && k != i
            ==> (#[trigger] b.sessions@[k]).flags == a.sessions@[k].flags
}

/// Room `b` is room `a` started over: the same size, mines and seats, every cell
/// hidden, the game not over, and the same players with no flags.
pub open spec fn reset_from(a: Minesweeper, b: Minesweeper) -> bool {
    &&& b.map_size == a.map_size
    &&& b.bombs == a.bombs
    &&& b.maxplayers == a.maxplayers
    &&& b.started == a.started
    &&& !b.gameover
    &&& forall|y: int, x: int| in_bounds(b.map_size as int, x, y) ==> #[trigger] b.seen()[y][x] == HIDDEN
    &&& b.sessions@.len() == a.sessions@.len()
    &&& forall|i: int| 0 <= i < b.sessions@.len() ==> {
        &&& same_but_flags(#[trigger] b.sessions@[i], a.sessions@[i])
        &&& b.sessions@[i].flags@.len() == 0
    }
}

/// Two rooms differ at most in their players.
pub open spec fn same_room(a: Minesweeper, b: Minesweeper) -> bool {
    &&& a.map == b.map
    &&& a.vision == b.vision
    &&& a.maxplayers == b.maxplayers
    &&& a.map_size == b.map_size
    &&& a.bombs == b.bombs
    &&& a.gameover == b.gameover
    &&& a.started == b.started
}

/// Two players differ at most in their flags.
pub open spec fn same_but_flags(p: Player, q: Player) -> bool {
    &&& p.name == q.name
    &&& p.color == q.color
    &&& p.addr == q.addr
    &&& p.ready == q.ready
}

/// Each neighbour lies in one of the eight directions.
proof fn lemma_adjacent_dir(x: int, y: int, a: int, c: int) -> (d: int)
    requires
        adjacent(x, y, a, c),
    ensures
        0 <= d < 8,
        a == x + dir_dx(d),
        c == y + dir_dy(d),
{
    if a == x && c == y - 1 { 0 }
    else if a == x - 1 && c == y { 1 }
    else if a == x && c == y + 1 { 2 }
    else if a == x + 1 && c == y { 3 }
    else if a == x - 1 && c == y - 1 { 4 }
    else if a == x + 1 && c == y - 1 { 5 }
    else if a == x - 1 && c == y + 1 { 6 }
    else { 7 }
}

/// No neighbour of a cell with no mine around it is a mine.
proof fn lemma_quiet_neighbor(b: Seq<Seq<u8>>, n: int, x: int, y: int, a: int, c: int)
    requires
        nearby_count(b, n, x, y) == 0,
        adjacent(x, y, a, c),
        in_bounds(n, a, c),
    ensures
        b[c][a] != 1,
{
    let d = lemma_adjacent_dir(x, y, a, c);
    assert(mine_at(b, n, a, c) == 0);
}

/// A flood path stays one when fewer cells are uncovered.
proof fn lemma_path_mono(b: Seq<Seq<u8>>, s: Seq<Seq<u8>>, t: Seq<Seq<u8>>, n: int, p: Seq<(int, int)>)
    requires
        flood_path(b, s, n, p),
        forall|y: int, x: int| in_bounds(n, x, y) && #[trigger] s[y][x] == HIDDEN ==> t[y][x] == HIDDEN,
    ensures
        flood_path(b, t, n, p),
    decreases p.len(),
{
    if p.len() > 1 {
        lemma_path_mono(b, s, t, n, p.drop_first());
    }
}

/// The last cell of a flood path from a free cell is free.
proof fn lemma_path_end_free(b: Seq<Seq<u8>>, s: Seq<Seq<u8>>, n: int, p: Seq<(int, int)>)
    requires
        flood_path(b, s, n, p),
        b[p[0].1][p[0].0] == 0,
        forall|y: int, x: int| in_bounds(n, x, y) ==> #[trigger] b[y][x] <= 1,
    ensures
        b[p.last().1][p.last().0] == 0,
    decreases p.len(),
{
    if p.len() > 1 {
        assert(p.drop_first()[0] == p[1]);
        assert(p.drop_first().last() == p.last());
        assert(flood_path(b, s, n, p.drop_first()));
        assert(in_bounds(n, p[1].0, p[1].1));
        lemma_quiet_neighbor(b, n, p[0].0, p[0].1, p[1].0, p[1].1);
        lemma_path_end_free(b, s, n, p.drop_first());
    }
}

/// Every cell of a flood path is uncovered once uncovering has gone as far as it can.
proof fn lemma_path_uncovered(b: Seq<Seq<u8>>, s: Seq<Seq<u8>>, t: Seq<Seq<u8>>, n: int, p: Seq<(int, int)>)
    requires
        flood_path(b, s, n, p),
        t[p[0].1][p[0].0] != HIDDEN,
        forall|y: int, x: int|
            in_bounds(n, x, y) && s[y][x] == HIDDEN && #[trigger] t[y][x] != HIDDEN
                && b[y][x] == 0 && nearby_count(b, n, x, y) == 0
                ==> forall|a: int, c: int| adjacent(x, y, a, c) && in_bounds(n, a, c) ==> #[trigger] t[c][a] != HIDDEN,
    ensures
        t[p.last().1][p.last().0] != HIDDEN,
    decreases p.len(),
{
    if p.len() > 1 {
        assert(p.drop_first()[0] == p[1]);
        assert(p.drop_first().last() == p.last());
        assert(flood_path(b, s, n, p.drop_first()));
        assert(in_bounds(n, p[1].0, p[1].1));
        assert(t[p[0].1][p[0].0] != HIDDEN);
        assert(t[p[1].1][p[1].0] != HIDDEN);
        lemma_path_uncovered(b, s, t, n, p.drop_first());
    }
}

/// Some player before player `i`, or player `i` before its flag `j`, holds a flag on (a, c).
pub open spec fn flagged_before(sessions: Seq<Player>, i: int, j: int, a: int, c: int) -> bool {
    exists|k: int, m: int|
        ((0 <= k < i && 0 <= m < sessions[k].flags@.len()) || (k == i && 0 <= m < j))
            && #[trigger] sessions[k].flags@[m] == (a as usize, c as usize)
}

/// Keeping the hidden flags of a list, one flag at a time.
proof fn lemma_hidden_flags_take(fs: Seq<(usize, usize)>, s: Seq<Seq<u8>>, j: int)
    requires
        0 <= j < fs.len(),
    ensures
        hidden_flags(fs.take(j + 1), s) == if s[fs[j].1 as int][fs[j].0 as int] == HIDDEN {
            hidden_flags(fs.take(j), s).push(fs[j])
        } else {
            hidden_flags(fs.take(j), s)
        },
{
    assert(fs.take(j + 1).drop_last() =~= fs.take(j));
}

/// The kept flags are flags of the list, on hidden cells, and without repeats when the
/// list has none.
proof fn lemma_hidden_flags(fs: Seq<(usize, usize)>, s: Seq<Seq<u8>>)
    ensures
        forall|j: int| 0 <= j < hidden_flags(fs, s).len() ==> {
            let f = #[trigger] hidden_flags(fs, s)[j];
            &&& fs.contains(f)
            &&& s[f.1 as int][f.0 as int] == HIDDEN
        },
        fs.no_duplicates() ==> hidden_flags(fs, s).no_duplicates(),
    decreases fs.len(),
{
    if fs.len() > 0 {
        let rest = fs.drop_last();
        lemma_hidden_flags(rest, s);
        let h = hidden_flags(fs, s);
        let hr = hidden_flags(rest, s);
        assert forall|j: int| 0 <= j < h.len() implies {
            let f = #[trigger] h[j];
            &&& fs.contains(f)
            &&& s[f.1 as int][f.0 as int] == HIDDEN
        } by {
            if j < hr.len() {
                assert(hr[j] == h[j]);
                let m = choose|m: int| 0 <= m < rest.len() && rest[m] == hr[j];
                assert(fs[m] == rest[m]);
            } else {
                assert(h[j] == fs.last());
                assert(fs[fs.len() - 1] == fs.last());
            }
        }
        if fs.no_duplicates() {
            assert(rest.no_duplicates());
            assert forall|i: int, j: int| 0 <= i < h.len() && 0 <= j < h.len() && i != j implies h[i] != h[j] by {
                if i < hr.len() && j < hr.len() {
                    assert(h[i] == hr[i] && h[j] == hr[j]);
                } else if i < hr.len() {
                    assert(h[i] == hr[i]);
                    let m = choose|m: int| 0 <= m < rest.len() && rest[m] == hr[i];
                    assert(fs[m] == rest[m]);
                    assert(fs[fs.len() - 1] == fs.last());
                } else if j < hr.len() {
                    assert(h[j] == hr[j]);
                    let m = choose|m: int| 0 <= m < rest.len() && rest[m] == hr[j];
                    assert(fs[m] == rest[m]);
                    assert(fs[fs.len() - 1] == fs.last());
                }
            }
        }
    }
}

/// Keeps the flags of a list that lie on hidden cells, in their order.
fn keep_hidden_flags(fs: &Vec<(usize, usize)>, vision: &Vec<Vec<u8>>, n: usize) -> (r: Vec<(usize, usize)>)
    requires
        is_square(grid_of(vision@), n as nat),
        forall|j: int| 0 <= j < fs@.len() ==> in_bounds(n as int, (#[trigger] fs@[j]).0 as int, fs@[j].1 as int),
    ensures
        r@ == hidden_flags(fs@, grid_of(vision@)),
{
    let ghost s = grid_of(vision@);
    let mut r: Vec<(usize, usize)> = Vec::new();
    let mut j: usize = 0;
    while j < fs.len()
        invariant
            s == grid_of(vision@),
            is_square(s, n as nat),
            forall|k: int| 0 <= k < fs@.len() ==> in_bounds(n as int, (#[trigger] fs@[k]).0 as int, fs@[k].1 as int),
            0 <= j <= fs@.len(),
            r@ == hidden_flags(fs@.take(j as int), s),
        decreases fs@.len() - j,
    {
        let f = fs[j];
        proof {
            lemma_hidden_flags_take(fs@, s, j as int);
            assert(vision@[f.1 as int]@ == s[f.1 as int]);
        }
        if vision[f.1][f.0] == HIDDEN {
            r.push(f);
        }
        j += 1;
    }
    proof {
        assert(fs@.take(fs@.len() as int) =~= fs@);
    }
    r
}

/// The colours a player may be given, in the order they are listed.
pub open spec fn palette() -> Seq<Seq<char>> {
    seq![
        "#ff2919"@, "#ff6e19"@, "#fffb19"@, "#34ff19"@, "#19ff98"@,
        "#1925ff"@, "#8519ff"@, "#ff19d9"@, "#454545"@, "white"@,
    ]
}

/// Some player wears colour `c`.
pub open spec fn color_taken(sessions: Seq<Player>, c: Seq<char>) -> bool {
    exists|i: int| 0 <= i < sessions.len() && (#[trigger] sessions[i]).color@ == c
}

/// Some player is called `name`.
pub open spec fn has_player(sessions: Seq<Player>, name: Seq<char>) -> bool {
    exists|i: int| 0 <= i < sessions.len() && (#[trigger] sessions[i]).name@ == name
}

/// `c` is "pink" when every palette colour is worn, and otherwise a palette colour that
/// no player wears.
pub open spec fn fresh_color(sessions: Seq<Player>, c: Seq<char>) -> bool {
    &&& (forall|k: int| 0 <= k < palette().len() ==> color_taken(sessions, #[trigger] palette()[k]))
        ==> c == "pink"@
    &&& (exists|k: int| 0 <= k < palette().len() && !color_taken(sessions, #[trigger] palette()[k]))
        ==> exists|k: int| 0 <= k < palette().len() && c == #[trigger] palette()[k]
            && !color_taken(sessions, palette()[k])
}

/// Calls `rand::seq::SliceRandom::shuffle` on the vector with the thread's generator.
/// Its source only swaps elements, so the result holds the same strings, each as
/// often; their order is up to chance.
#[verifier::external_body]
fn shuffle_strings(items: &mut Vec<String>)
    ensures
        final(items)@.to_multiset() == old(items)@.to_multiset(),
{
    rand::seq::SliceRandom::shuffle(items.as_mut_slice(), &mut rand::thread_rng());
}

/// The palette, as strings.
fn palette_strings() -> (r: Vec<String>)
    ensures
        r@.len() == palette().len(),
        forall|k: int| 0 <= k < r@.len() ==> (#[trigger] r@[k])@ == palette()[k],
{
    let mut r: Vec<String> = Vec::new();
    r.push(String::from_str("#ff2919"));
    r.push(String::from_str("#ff6e19"));
    r.push(String::from_str("#fffb19"));
    r.push(String::from_str("#34ff19"));
    r.push(String::from_str("#19ff98"));
    r.push(String::from_str("#1925ff"));
    r.push(String::from_str("#8519ff"));
    r.push(String::from_str("#ff19d9"));
    r.push(String::from_str("#454545"));
    r.push(String::from_str("white"));
    r
}

/// Picks the first colour of `order` that no player wears, or "pink" when every one
/// is taken.
pub fn pick_color(order: &Vec<String>, sessions: &Vec<Player>) -> (r: String)
    ensures
        (forall|k: int| 0 <= k < order@.len() ==> color_taken(sessions@, (#[trigger] order@[k])@))
            ==> r@ == "pink"@,
        (exists|k: int| 0 <= k < order@.len() && !color_taken(sessions@, (#[trigger] order@[k])@)) ==> exists|k: int|
            0 <= k < order@.len() && r@ == (#[trigger] order@[k])@ && !color_taken(sessions@, order@[k]@)
                && forall|m: int| 0 <= m < k ==> color_taken(sessions@, (#[trigger] order@[m])@),
{
    let mut k: usize = 0;
    while k < order.len()
        invariant
            0 <= k <= order@.len(),
            forall|m: int| 0 <= m < k ==> color_taken(sessions@, (#[trigger] order@[m])@),
        decreases order@.len() - k,
    {
        let mut owned = false;
        let mut i: usize = 0;
        while i < sessions.len()
            invariant
                0 <= k < order@.len(),
                0 <= i <= sessions@.len(),
                owned <==> exists|j: int| 0 <= j < i && (#[trigger] sessions@[j]).color@ == order@[k as int]@,
            decreases sessions@.len() - i,
        {
            if order[k] == sessions[i].color {
                owned = true;
            }
            i += 1;
        }
        if !owned {
            return order[k].clone();
        }
        k += 1;
    }
    String::from_str("pink")
}

/// Computes the neighbour of (x, y) in direction `d`, if it lies on the board.
fn neighbor_in_dir(n: usize, x: usize, y: usize, d: usize) -> (r: Option<(usize, usize)>)
    requires
        x < n,
        y < n,
        d < 8,
    ensures
        match r {
            Some(p) => p.0 == x + dir_dx(d as int) && p.1 == y + dir_dy(d as int) && in_bounds(n as int, p.0 as int, p.1 as int),
            None => !in_bounds(n as int, x + dir_dx(d as int), y + dir_dy(d as int)),
        },
{
    if d == 0 {
        if y > 0 { Some((x, y - 1)) } else { None }
    } else if d == 1 {
        if x > 0 { Some((x - 1, y)) } else { None }
    } else if d == 2 {
        if y < n - 1 { Some((x, y + 1)) } else { None }
    } else if d == 3 {
        if x < n - 1 { Some((x + 1, y)) } else { None }
    } else if d == 4 {
        if y > 0 && x > 0 { Some((x - 1, y - 1)) } else { None }
    } else if d == 5 {
        if y > 0 && x < n - 1 { Some((x + 1, y - 1)) } else { None }
    } else if d == 6 {
        if y < n - 1 && x > 0 { Some((x - 1, y + 1)) } else { None }
    } else {
        if y < n - 1 && x < n - 1 { Some((x + 1, y + 1)) } else { None }
    }
}

/// Counts the mines around (x, y) on the board `map`.
fn count_nearby(map: &Vec<Vec<u8>>, n: usize, x: usize, y: usize) -> (count: u8)
    requires
        is_square(grid_of(map@), n as nat),
        x < n,
        y < n,
    ensures
        count == nearby_count(grid_of(map@), n as int, x as int, y as int),
{
    let ghost b = grid_of(map@);
    assert forall|r: int| 0 <= r < n implies #[trigger] map@[r]@ == b[r] && map@[r]@.len() == n by {
        assert(b[r].len() == n);
    }
    let mut bf: u8 = 0;
    if y > 0 && map[y - 1][x] == 1 {
        bf += 1;
    }
    if x > 0 && map[y][x - 1] == 1 {
        bf += 1;
    }
    if y < n - 1 && map[y + 1][x] == 1 {
        bf += 1;
    }
    if x < n - 1 && map[y][x + 1] == 1 {
        bf += 1;
    }
    if y > 0 && x > 0 && map[y - 1][x - 1] == 1 {
        bf += 1;
    }
    if y > 0 && x < n - 1 && map[y - 1][x + 1] == 1 {
        bf += 1;
    }
    if y < n - 1 && x > 0 && map[y + 1][x - 1] == 1 {
        bf += 1;
    }
    if y < n - 1 && x < n - 1 && map[y + 1][x + 1] == 1 {
        bf += 1;
    }
    bf
}

/// Uncovers the hidden free cell (x, y) and, where no mine lies around it, spreads to
/// every hidden neighbour in turn.
fn uncover(map: &Vec<Vec<u8>>, vision: &mut Vec<Vec<u8>>, n: usize, x: usize, y: usize)
    requires
        is_square(grid_of(map@), n as nat),
        is_square(grid_of(old(vision)@), n as nat),
        forall|r: int, c: int| in_bounds(n as int, c, r) ==> #[trigger] grid_of(map@)[r][c] <= 1,
        x < n,
        y < n,
        grid_of(old(vision)@)[y as int][x as int] == HIDDEN,
        grid_of(map@)[y as int][x as int] == 0,
    ensures
        is_square(grid_of(final(vision)@), n as nat),
        uncovered_within(grid_of(map@), grid_of(old(vision)@), grid_of(final(vision)@), n as int, x as int, y as int),
        grid_of(final(vision)@)[y as int][x as int] == nearby_count(grid_of(map@), n as int, x as int, y as int),
        forall|c: int, a: int| in_bounds(n as int, a, c) ==>
            #[trigger] spread_done(grid_of(map@), grid_of(old(vision)@), grid_of(final(vision)@), n as int, a, c),
        grid_count(grid_of(final(vision)@), HIDDEN) < grid_count(grid_of(old(vision)@), HIDDEN),
    decreases grid_count(grid_of(old(vision)@), HIDDEN),
{
    let ghost b = grid_of(map@);
    let ghost s0 = grid_of(vision@);
    let ghost nn = n as int;
    let count = count_nearby(map, n, x, y);
    assert(vision@[y as int]@ == s0[y as int]);
    vision[y][x] = count;
    proof {
        assert(grid_of(vision@) =~= s0.update(y as int, s0[y as int].update(x as int, count)));
        lemma_grid_count_update(s0, HIDDEN, y as int, x as int, count);
        let p = seq![(x as int, y as int)];
        assert(flood_path(b, s0, nn, p));
        assert(in_flood(b, s0, nn, x as int, y as int, x as int, y as int));
    }
    if count == 0 {
        let mut d: usize = 0;
        while d < 8
            invariant
                b == grid_of(map@),
                is_square(b, n as nat),
                forall|r: int, c: int| in_bounds(nn, c, r) ==> #[trigger] b[r][c] <= 1,
                nn == n,
                x < n,
                y < n,
                s0[y as int][x as int] == HIDDEN,
                b[y as int][x as int] == 0,
                nearby_count(b, nn, x as int, y as int) == 0,
                0 <= d <= 8,
                is_square(grid_of(vision@), n as nat),
                uncovered_within(b, s0, grid_of(vision@), nn, x as int, y as int),
                grid_of(vision@)[y as int][x as int] == 0,
                forall|c: int, a: int| in_bounds(nn, a, c) && (a != x || c != y) ==>
                    #[trigger] spread_done(b, s0, grid_of(vision@), nn, a, c),
                forall|k: int| 0 <= k < d && in_bounds(nn, x + dir_dx(k), y + dir_dy(k))
                    ==> #[trigger] grid_of(vision@)[y + dir_dy(k)][x + dir_dx(k)] != HIDDEN,
                grid_count(grid_of(vision@), HIDDEN) < grid_count(s0, HIDDEN),
                s0 == grid_of(old(vision)@),
            decreases 8 - d,
        {
            match neighbor_in_dir(n, x, y, d) {
                Some((a, c)) => {
                    let ghost v = grid_of(vision@);
                    assert(vision@[c as int]@ == v[c as int]);
                    if vision[c][a] == HIDDEN {
                        proof {
                            lemma_quiet_neighbor(b, nn, x as int, y as int, a as int, c as int);
                        }
                        uncover(map, vision, n, a, c);
                        proof {
                            let v2 = grid_of(vision@);
                            assert forall|r: int, q: int| in_bounds(nn, q, r) && #[trigger] v[r][q] == HIDDEN implies s0[r][q] == HIDDEN by {}
                            assert forall|cc: int, aa: int| in_bounds(nn, aa, cc) implies
                                #[trigger] v2[cc][aa] == s0[cc][aa] || (s0[cc][aa] == HIDDEN
                                    && v2[cc][aa] == nearby_count(b, nn, aa, cc)
                                    && in_flood(b, s0, nn, x as int, y as int, aa, cc)) by {
                                if v2[cc][aa] != v[cc][aa] {
                                    let p = choose|p: Seq<(int, int)>|
                                        #[trigger] flood_path(b, v, nn, p) && p[0] == (a as int, c as int) && p.last() == (aa, cc);
                                    lemma_path_mono(b, v, s0, nn, p);
                                    let p2 = seq![(x as int, y as int)] + p;
                                    assert(p2.drop_first() =~= p);
                                    assert(flood_path(b, s0, nn, p2));
                                }
                            }
                            assert forall|cc: int, aa: int| in_bounds(nn, aa, cc) && (aa != x || cc != y) implies
                                #[trigger] spread_done(b, s0, v2, nn, aa, cc) by {
                                if v2[cc][aa] != v[cc][aa] {
                                    assert(spread_done(b, v, v2, nn, aa, cc));
                                } else if s0[cc][aa] == HIDDEN && v2[cc][aa] != HIDDEN && b[cc][aa] == 0
                                    && nearby_count(b, nn, aa, cc) == 0 {
                                    assert(spread_done(b, s0, v, nn, aa, cc));
                                    assert forall|e: int, f: int| adjacent(aa, cc, e, f) && in_bounds(nn, e, f)
                                        implies #[trigger] v2[f][e] != HIDDEN by {
                                        assert(v[f][e] != HIDDEN);
                                    }
                                }
                            }
                        }
                    }
                },
                None => {},
            }
            d += 1;
        }
        proof {
            let s1 = grid_of(vision@);
            assert forall|e: int, f: int| adjacent(x as int, y as int, e, f) && in_bounds(nn, e, f) implies #[trigger] s1[f][e] != HIDDEN by {
                let k = lemma_adjacent_dir(x as int, y as int, e, f);
            }
        }
    }
}

/// The text of one row of the view: each cell as a space and its number.
pub open spec fn row_text(r: Seq<u8>) -> Seq<char>
    decreases r.len(),
{
    if r.len() == 0 {
        Seq::empty()
    } else {
        row_text(r.drop_last()) + " "@ + decimal(r.last() as nat)
    }
}

/// The text of the whole view, row after row.
pub open spec fn grid_text(g: Seq<Seq<u8>>) -> Seq<char>
    decreases g.len(),
{
    if g.len() == 0 {
        Seq::empty()
    } else {
        grid_text(g.drop_last()) + row_text(g.last())
    }
}

/// The text of a list of flags: each as a space, its column, a space and its row.
pub open spec fn flag_list_text(fs: Seq<(usize, usize)>) -> Seq<char>
    decreases fs.len(),
{
    if fs.len() == 0 {
        Seq::empty()
    } else {
        flag_list_text(fs.drop_last()) + " "@ + decimal(fs.last().0 as nat) + " "@
            + decimal(fs.last().1 as nat)
    }
}

/// The flags of all players, player after player.
pub open spec fn all_flags_text(sessions: Seq<Player>) -> Seq<char>
    decreases sessions.len(),
{
    if sessions.len() == 0 {
        Seq::empty()
    } else {
        all_flags_text(sessions.drop_last()) + flag_list_text(sessions.last().flags@)
    }
}

/// One row of the printed board: for each of the first `k` cells of row `y`, `*` on a
/// mine and the count of mines around a free cell, each followed by a space.
pub open spec fn board_row_picture(b: Seq<Seq<u8>>, n: int, y: int, k: nat) -> Seq<char>
    decreases k,
{
    if k == 0 {
        Seq::empty()
    } else {
        let x = k - 1;
        board_row_picture(b, n, y, (k - 1) as nat)
            + (if b[y][x] == 1 { "*"@ } else { decimal(nearby_count(b, n, x, y)) }) + " "@
    }
}

/// The printed board: an empty line, then the first `k` rows, each on a line of its own.
pub open spec fn board_picture(b: Seq<Seq<u8>>, n: int, k: nat) -> Seq<char>
    decreases k,
{
    if k == 0 {
        "\n"@
    } else {
        board_picture(b, n, (k - 1) as nat) + board_row_picture(b, n, k - 1, n as nat) + "\n"@
    }
}

/// One row of the printed view: `#` for a hidden cell and the number shown elsewhere,
/// each followed by a space.
pub open spec fn view_row_picture(r: Seq<u8>) -> Seq<char>
    decreases r.len(),
{
    if r.len() == 0 {
        Seq::empty()
    } else {
        view_row_picture(r.drop_last())
            + (if r.last() == HIDDEN { "#"@ } else { decimal(r.last() as nat) }) + " "@
    }
}

/// The printed view: an empty line, then each row on a line of its own.
pub open spec fn view_picture(g: Seq<Seq<u8>>) -> Seq<char>
    decreases g.len(),
{
    if g.len() == 0 {
        "\n"@
    } else {
        view_picture(g.drop_last()) + view_row_picture(g.last()) + "\n"@
    }
}

/// Calls `rand::Rng::gen_range` with the range `0..bound` on the thread's generator.
/// Its documentation promises a value inside the range, and a panic when the range is
/// empty; which value comes is up to chance.
#[verifier::external_body]
fn random_below(bound: usize) -> (r: usize)
    requires
        bound > 0,
    ensures
        r < bound,
{
    rand::Rng::gen_range(&mut rand::thread_rng(), 0..bound)
}

/// The cell that holds the free cell of rank `k`, counting free cells row by row.
pub fn kth_free(map: &Vec<Vec<u8>>, n: usize, k: usize) -> (r: (usize, usize))
    requires
        is_square(grid_of(map@), n as nat),
        k < grid_count(grid_of(map@), 0),
    ensures
        in_bounds(n as int, r.0 as int, r.1 as int),
        grid_of(map@)[r.1 as int][r.0 as int] == 0,
        grid_count(grid_of(map@).take(r.1 as int), 0)
            + row_count(grid_of(map@)[r.1 as int].take(r.0 as int), 0) == k,
{
    let ghost g = grid_of(map@);
    let mut seen: usize = 0;
    let mut y: usize = 0;
    while y < n
        invariant
            g == grid_of(map@),
            is_square(g, n as nat),
            k < grid_count(g, 0),
            0 <= y <= n,
            seen == grid_count(g.take(y as int), 0),
            seen <= k,
        decreases n - y,
    {
        let row = &map[y];
        assert(row@ == g[y as int]);
        let mut x: usize = 0;
        while x < n
            invariant
                g == grid_of(map@),
                is_square(g, n as nat),
                0 <= y < n,
                row@ == g[y as int],
                0 <= x <= n,
                seen == grid_count(g.take(y as int), 0) + row_count(row@.take(x as int), 0),
                seen <= k,
            decreases n - x,
        {
            proof {
                lemma_row_count_take_succ(row@, 0, x as int);
            }
            if row[x] == 0 {
                if seen == k {
                    return (x, y);
                }
                seen += 1;
            }
            x += 1;
        }
        proof {
            assert(row@.take(n as int) =~= row@);
            lemma_grid_count_take_succ(g, 0, y as int);
        }
        y += 1;
    }
    proof {
        assert(g.take(n as int) =~= g);
    }
    (0, 0)
}

/// The n-by-n board with no mine.
pub open spec fn empty_board(n: nat) -> Seq<Seq<u8>> {
    Seq::new(n, |y: int| Seq::new(n, |x: int| 0u8))
}

/// The free cell of rank `k` of board `g` (see `free_rank`).
pub open spec fn free_cell_of_rank(g: Seq<Seq<u8>>, n: int, k: int) -> (int, int) {
    choose|p: (int, int)| in_bounds(n, p.0, p.1) && g[p.1][p.0] == 0 && free_rank(g, p.0, p.1) == k
}

/// Board `g` with a mine laid on cell `p`.
pub open spec fn with_mine(g: Seq<Seq<u8>>, p: (int, int)) -> Seq<Seq<u8>> {
    g.update(p.1, g[p.1].update(p.0, 1))
}

/// The board that the draws lay: starting from the empty board, each draw in turn lays
/// a mine on the free cell of that rank.
pub open spec fn laid_board(n: nat, draws: Seq<usize>) -> Seq<Seq<u8>>
    decreases draws.len(),
{
    if draws.len() == 0 {
        empty_board(n)
    } else {
        let g = laid_board(n, draws.drop_last());
        with_mine(g, free_cell_of_rank(g, n as int, draws.last() as int))
    }
}

/// The cell on which draw `i` lays its mine.
pub open spec fn drawn_cell(n: nat, draws: Seq<usize>, i: int) -> (int, int) {
    free_cell_of_rank(laid_board(n, draws.take(i)), n as int, draws[i] as int)
}

/// Draws that can lay a mine each on an n-by-n board: draw `i` is below the number of
/// cells still free when it is made.
pub open spec fn fair_draws(n: nat, draws: Seq<usize>) -> bool {
    &&& draws.len() <= n * n
    &&& forall|i: int| 0 <= i < draws.len() ==> #[trigger] draws[i] < n * n - i
}

/// Board `g` is a fresh n-by-n board with `bombs` mines: the empty board with a mine laid
/// by each of `bombs` draws of the random source.
pub open spec fn fresh_board(n: nat, bombs: nat, g: Seq<Seq<u8>>) -> bool {
    exists|draws: Seq<usize>| fair_draws(n, draws) && draws.len() == bombs && #[trigger] laid_board(n, draws) == g
}

/// Where board `g` has more than `k` free cells, its free cell of rank `k` is on the
/// board, free, and of that rank.
proof fn lemma_free_cell_of_rank(g: Seq<Seq<u8>>, n: nat, k: nat)
    requires
        is_square(g, n),
        k < grid_count(g, 0),
    ensures
        in_bounds(n as int, free_cell_of_rank(g, n as int, k as int).0, free_cell_of_rank(g, n as int, k as int).1),
        g[free_cell_of_rank(g, n as int, k as int).1][free_cell_of_rank(g, n as int, k as int).0] == 0,
        free_rank(g, free_cell_of_rank(g, n as int, k as int).0, free_cell_of_rank(g, n as int, k as int).1) == k,
{
    lemma_free_cell_exists(g, n, k);
    let (x, y) = choose|x: int, y: int| in_bounds(n as int, x, y) && g[y][x] == 0 && #[trigger] free_rank(g, x, y) == k;
    let p = (x, y);
    assert(in_bounds(n as int, p.0, p.1) && g[p.1][p.0] == 0 && free_rank(g, p.0, p.1) == k);
}

/// The first draws of fair draws are fair.
proof fn lemma_fair_prefix(n: nat, draws: Seq<usize>, i: int)
    requires
        fair_draws(n, draws),
        0 <= i <= draws.len(),
    ensures
        fair_draws(n, draws.take(i)),
{
    assert forall|j: int| 0 <= j < draws.take(i).len() implies #[trigger] draws.take(i)[j] < n * n - j by {
        assert(draws.take(i)[j] == draws[j]);
    }
}

/// The board laid by fair draws is square, holds only mines and free cells, a mine per
/// draw, and a free cell for every other cell.
pub(crate) proof fn lemma_laid_board(n: nat, draws: Seq<usize>)
    requires
        fair_draws(n, draws),
    ensures
        is_square(laid_board(n, draws), n),
        forall|y: int, x: int| in_bounds(n as int, x, y) ==> #[trigger] laid_board(n, draws)[y][x] <= 1,
        grid_count(laid_board(n, draws), 1) == draws.len(),
        grid_count(laid_board(n, draws), 0) + draws.len() == n * n,
    decreases draws.len(),
{
    let g = laid_board(n, draws);
    if draws.len() == 0 {
        assert forall|y: int| 0 <= y < g.len() implies #[trigger] g[y].len() == n by {}
        assert forall|y: int, x: int| 0 <= y < g.len() && 0 <= x < n implies #[trigger] g[y][x] == 0 by {}
        lemma_zero_grid_counts(g, n, 1);
    } else {
        let d = draws.drop_last();
        lemma_fair_prefix(n, draws, draws.len() - 1);
        assert(d =~= draws.take(draws.len() - 1));
        lemma_laid_board(n, d);
        let h = laid_board(n, d);
        let k = draws.last();
        assert(k == draws[draws.len() - 1]);
        lemma_free_cell_of_rank(h, n, k as nat);
        let p = free_cell_of_rank(h, n as int, k as int);
        assert(g == with_mine(h, p));
        lemma_grid_count_update(h, 1, p.1, p.0, 1);
        lemma_grid_count_update(h, 0, p.1, p.0, 1);
        assert forall|y: int| 0 <= y < g.len() implies #[trigger] g[y].len() == n by {}
        assert forall|y: int, x: int| in_bounds(n as int, x, y) implies #[trigger] g[y][x] <= 1 by {
            if y != p.1 || x != p.0 {
                assert(g[y][x] == h[y][x]);
            }
        }
    }
}

/// The mines of the board laid by fair draws are exactly the cells the draws chose, and
/// each draw chose a cell that was free and of the drawn rank when it was made.
pub(crate) proof fn lemma_laid_mines(n: nat, draws: Seq<usize>)
    requires
        fair_draws(n, draws),
    ensures
        forall|i: int| 0 <= i < draws.len() ==> {
            let g = laid_board(n, draws.take(i));
            let p = #[trigger] drawn_cell(n, draws, i);
            &&& in_bounds(n as int, p.0, p.1)
            &&& g[p.1][p.0] == 0
            &&& free_rank(g, p.0, p.1) == draws[i]
        },
        forall|y: int, x: int| in_bounds(n as int, x, y) ==> (#[trigger] laid_board(n, draws)[y][x] == 1
            <==> exists|i: int| 0 <= i < draws.len() && drawn_cell(n, draws, i) == (x, y)),
    decreases draws.len(),
{
    let g = laid_board(n, draws);
    if draws.len() == 0 {
        assert forall|y: int, x: int| in_bounds(n as int, x, y) implies #[trigger] g[y][x] != 1 by {}
    } else {
        let m = draws.len() - 1;
        let d = draws.drop_last();
        lemma_fair_prefix(n, draws, m);
        assert(d =~= draws.take(m));
        lemma_laid_mines(n, d);
        assert forall|i: int| 0 <= i < d.len() implies drawn_cell(n, d, i) == #[trigger] drawn_cell(n, draws, i) by {
            assert(d.take(i) =~= draws.take(i));
            assert(d[i] == draws[i]);
        }
        assert forall|i: int| 0 <= i < draws.len() implies {
            let gi = laid_board(n, draws.take(i));
            let p = #[trigger] drawn_cell(n, draws, i);
            &&& in_bounds(n as int, p.0, p.1)
            &&& gi[p.1][p.0] == 0
            &&& free_rank(gi, p.0, p.1) == draws[i]
        } by {
            lemma_fair_prefix(n, draws, i);
            lemma_laid_board(n, draws.take(i));
            assert(draws[i] < n * n - i);
            assert(draws.take(i).len() == i);
            lemma_free_cell_of_rank(laid_board(n, draws.take(i)), n, draws[i] as nat);
        }
        let h = laid_board(n, d);
        let p = drawn_cell(n, draws, m);
        assert(draws.take(m) =~= d);
        assert(g == with_mine(h, p));
        lemma_laid_board(n, d);
        assert forall|y: int, x: int| in_bounds(n as int, x, y) implies (#[trigger] g[y][x] == 1
            <==> exists|i: int| 0 <= i < draws.len() && drawn_cell(n, draws, i) == (x, y)) by {
            if x == p.0 && y == p.1 {
                assert(drawn_cell(n, draws, m) == (x, y));
            } else {
                assert(g[y][x] == h[y][x]);
                if h[y][x] == 1 {
                    let i = choose|i: int| 0 <= i < d.len() && drawn_cell(n, d, i) == (x, y);
                    assert(drawn_cell(n, draws, i) == (x, y));
                }
                if exists|i: int| 0 <= i < draws.len() && drawn_cell(n, draws, i) == (x, y) {
                    let i = choose|i: int| 0 <= i < draws.len() && drawn_cell(n, draws, i) == (x, y);
                    assert(i != m);
                    assert(drawn_cell(n, d, i) == (x, y));
                }
            }
        }
    }
}

/// Draws `count` ranks from the random source: draw `i` below `total - i`.
fn draw_ranks(total: usize, count: usize) -> (r: Vec<usize>)
    requires
        count <= total,
    ensures
        r@.len() == count,
        forall|i: int| 0 <= i < count ==> #[trigger] r@[i] < total - i,
{
    let mut r: Vec<usize> = Vec::new();
    let mut i: usize = 0;
    while i < count
        invariant
            count <= total,
            0 <= i <= count,
            r@.len() == i,
            forall|j: int| 0 <= j < i ==> #[trigger] r@[j] < total - j,
        decreases count - i,
    {
        let k = random_below(total - i);
        r.push(k);
        i += 1;
    }
    r
}

/// Lays a mine for each draw on the empty board `map`, in turn: draw `i` puts it on the
/// free cell of that rank, counting free cells row by row.
pub fn lay_mines(map: &mut Vec<Vec<u8>>, n: usize, draws: &Vec<usize>)
    requires
        grid_of(old(map)@) == empty_board(n as nat),
        fair_draws(n as nat, draws@),
    ensures
        grid_of(final(map)@) == laid_board(n as nat, draws@),
{
    let mut i: usize = 0;
    proof {
        assert(draws@.take(0) =~= Seq::<usize>::empty());
    }
    while i < draws.len()
        invariant
            0 <= i <= draws@.len(),
            fair_draws(n as nat, draws@),
            grid_of(map@) == laid_board(n as nat, draws@.take(i as int)),
        decreases draws@.len() - i,
    {
        let ghost g = grid_of(map@);
        let ghost before = draws@.take(i as int);
        let k = draws[i];
        proof {
            lemma_fair_prefix(n as nat, draws@, i as int);
            lemma_laid_board(n as nat, before);
            assert(k < n * n - i);
            lemma_free_cell_of_rank(g, n as nat, k as nat);
        }
        let (x, y) = kth_free(map, n, k);
        proof {
            let p = free_cell_of_rank(g, n as int, k as int);
            lemma_free_rank_unique(g, n as nat, x as int, y as int, p.0, p.1);
        }
        assert(map@[y as int]@ == g[y as int]);
        map[y][x] = 1;
        proof {
            assert(grid_of(map@) =~= with_mine(g, (x as int, y as int)));
            assert(draws@.take(i + 1).drop_last() =~= before);
            assert(draws@.take(i + 1).last() == k);
        }
        i += 1;
    }
    proof {
        assert(draws@.take(draws@.len() as int) =~= draws@);
    }
}

/// Lays `bombs` mines on an empty board, each on a free cell drawn at random.
fn place_mines(map: &mut Vec<Vec<u8>>, n: usize, bombs: u8)
    requires
        is_square(grid_of(old(map)@), n as nat),
        forall|y: int, x: int| in_bounds(n as int, x, y) ==> #[trigger] grid_of(old(map)@)[y][x] == 0,
        bombs <= n * n <= usize::MAX,
    ensures
        is_square(grid_of(final(map)@), n as nat),
        forall|y: int, x: int| in_bounds(n as int, x, y) ==> #[trigger] grid_of(final(map)@)[y][x] <= 1,
        grid_count(grid_of(final(map)@), 1) == bombs,
        fresh_board(n as nat, bombs as nat, grid_of(final(map)@)),
{
    let draws = draw_ranks(n * n, bombs as usize);
    proof {
        let g = grid_of(map@);
        let e = empty_board(n as nat);
        assert forall|y: int| 0 <= y < n implies #[trigger] g[y] =~= e[y] by {
            assert forall|x: int| 0 <= x < n implies #[trigger] g[y][x] == e[y][x] by {}
        }
        assert(g =~= e);
    }
    lay_mines(map, n, &draws);
    proof {
        lemma_laid_board(n as nat, draws@);
        assert(laid_board(n as nat, draws@) == grid_of(map@));
    }
}

impl Minesweeper {
    /// The hidden board, row by row: 1 for a mine, 0 for a free cell.
    pub open spec fn board(&self) -> Seq<Seq<u8>> {
        grid_of(self.map@)
    }

    /// What the players see, row by row.
    pub open spec fn seen(&self) -> Seq<Seq<u8>> {
        grid_of(self.vision@)
    }

    /// The room is well formed: both grids are square of side `map_size`, the board
    /// holds exactly `bombs` mines, every cell shows only what is true of it, and
    /// the flags are as `flags_ok` says.
    pub open spec fn wf(&self) -> bool {
        let b = self.board();
        let s = self.seen();
        let n = self.map_size as int;
        &&& is_square(b, n as nat)
        &&& is_square(s, n as nat)
        &&& n * n <= usize::MAX
        &&& forall|y: int, x: int| in_bounds(n, x, y) ==> #[trigger] b[y][x] <= 1
        &&& grid_count(b, 1) == self.bombs
        &&& forall|y: int, x: int|
            in_bounds(n, x, y) ==> cell_consistent(b, n, #[trigger] s[y][x], x, y, self.gameover)
        &&& flags_ok(self.sessions@, s, n, self.gameover)
    }

    /// The rows of both grids, read through the vectors that hold them.
    pub proof fn lemma_rows(&self)
        requires
            self.wf(),
        ensures
            self.map@.len() == self.map_size,
            self.vision@.len() == self.map_size,
            forall|r: int|
                0 <= r < self.map_size ==> #[trigger] self.map@[r]@ == self.board()[r]
                    && self.map@[r]@.len() == self.map_size,
            forall|r: int|
                0 <= r < self.map_size ==> #[trigger] self.vision@[r]@ == self.seen()[r]
                    && self.vision@[r]@.len() == self.map_size,
    {
        assert forall|r: int| 0 <= r < self.map_size implies #[trigger] self.map@[r]@ == self.board()[r]
            && self.map@[r]@.len() == self.map_size by {
            assert(self.board()[r].len() == self.map_size);
        }
        assert forall|r: int| 0 <= r < self.map_size implies #[trigger] self.vision@[r]@ == self.seen()[r]
            && self.vision@[r]@.len() == self.map_size by {
            assert(self.seen()[r].len() == self.map_size);
        }
    }

    /// A new room with an n-by-n board holding `bombs` mines on cells drawn at random,
    /// every cell hidden, no players, and the game not over.
    pub fn new(map_size: usize, bombs: u8, maxplayers: u8) -> (r: Self)
        requires
            bombs <= map_size * map_size <= usize::MAX,
        ensures
            r.wf(),
            r.map_size == map_size,
            r.bombs == bombs,
            r.maxplayers == maxplayers,
            r.sessions@.len() == 0,
            !r.gameover,
            !r.started,
            forall|y: int, x: int| in_bounds(map_size as int, x, y) ==> #[trigger] r.seen()[y][x] == HIDDEN,
            fresh_board(map_size as nat, bombs as nat, r.board()),
    {
        let mut map: Vec<Vec<u8>> = Vec::new();
        let mut vision: Vec<Vec<u8>> = Vec::new();
        let mut y: usize = 0;
        while y < map_size
            invariant
                0 <= y <= map_size,
                map@.len() == y,
                vision@.len() == y,
                forall|r: int| 0 <= r < y ==> (#[trigger] map@[r])@.len() == map_size,
                forall|r: int| 0 <= r < y ==> (#[trigger] vision@[r])@.len() == map_size,
                forall|r: int, c: int| 0 <= r < y && 0 <= c < map_size ==> #[trigger] map@[r]@[c] == 0,
                forall|r: int, c: int| 0 <= r < y && 0 <= c < map_size ==> #[trigger] vision@[r]@[c] == HIDDEN,
            decreases map_size - y,
        {
            let mut map_row: Vec<u8> = Vec::new();
            let mut vision_row: Vec<u8> = Vec::new();
            let mut x: usize = 0;
            while x < map_size
                invariant
                    0 <= x <= map_size,
                    map_row@.len() == x,
                    vision_row@.len() == x,
                    forall|c: int| 0 <= c < x ==> #[trigger] map_row@[c] == 0,
                    forall|c: int| 0 <= c < x ==> #[trigger] vision_row@[c] == HIDDEN,
                decreases map_size - x,
            {
                map_row.push(0);
                vision_row.push(HIDDEN);
                x += 1;
            }
            map.push(map_row);
            vision.push(vision_row);
            y += 1;
        }
        proof {
            assert(is_square(grid_of(map@), map_size as nat));
            assert(is_square(grid_of(vision@), map_size as nat));
        }
        place_mines(&mut map, map_size, bombs);
        let r = Self {
            map: map,
            sessions: Vec::new(),
            maxplayers: maxplayers,
            gameover: false,
            vision: vision,
            map_size: map_size,
            bombs: bombs,
            started: false,
        };
        proof {
            assert forall|y: int, x: int| in_bounds(map_size as int, x, y) implies
                cell_consistent(r.board(), map_size as int, #[trigger] r.seen()[y][x], x, y, false) by {
                assert(r.vision@[y]@[x] == HIDDEN);
            }
        }
        r
    }

    /// Starts the room over: a fresh board with the same number of mines on cells drawn
    /// at random, every cell hidden, every flag taken away, and the game not over. The
    /// players stay, each with the same name, colour and connection.
    pub fn reset(&mut self)
        requires
            old(self).wf(),
        ensures
            final(self).wf(),
            reset_from(*old(self), *final(self)),
            fresh_board(final(self).map_size as nat, final(self).bombs as nat, final(self).board()),
    {
        proof {
            self.lemma_rows();
            crate::grid::lemma_grid_cells_bound(self.board(), self.map_size as nat);
        }
        let n = self.map_size;
        let mut y: usize = 0;
        while y < n
            invariant
                n == self.map_size,
                0 <= y <= n,
                self.map@.len() == n,
                self.vision@.len() == n,
                forall|r: int| 0 <= r < n ==> (#[trigger] self.map@[r])@.len() == n,
                forall|r: int| 0 <= r < n ==> (#[trigger] self.vision@[r])@.len() == n,
                forall|r: int, c: int| 0 <= r < y && 0 <= c < n ==> #[trigger] self.map@[r]@[c] == 0,
                forall|r: int, c: int| 0 <= r < y && 0 <= c < n ==> #[trigger] self.vision@[r]@[c] == HIDDEN,
                self.bombs <= n * n <= usize::MAX,
                self.sessions == old(self).sessions,
                self.bombs == old(self).bombs,
                self.maxplayers == old(self).maxplayers,
                self.started == old(self).started,
            decreases n - y,
        {
            let mut x: usize = 0;
            while x < n
                invariant
                    n == self.map_size,
                    0 <= y < n,
                    0 <= x <= n,
                    self.map@.len() == n,
                    self.vision@.len() == n,
                    forall|r: int| 0 <= r < n ==> (#[trigger] self.map@[r])@.len() == n,
                    forall|r: int| 0 <= r < n ==> (#[trigger] self.vision@[r])@.len() == n,
                    forall|r: int, c: int| 0 <= r < y && 0 <= c < n ==> #[trigger] self.map@[r]@[c] == 0,
                    forall|r: int, c: int| 0 <= r < y && 0 <= c < n ==> #[trigger] self.vision@[r]@[c] == HIDDEN,
                    forall|c: int| 0 <= c < x ==> #[trigger] self.map@[y as int]@[c] == 0,
                    forall|c: int| 0 <= c < x ==> #[trigger] self.vision@[y as int]@[c] == HIDDEN,
                    self.bombs <= n * n <= usize::MAX,
                    self.sessions == old(self).sessions,
                    self.bombs == old(self).bombs,
                    self.maxplayers == old(self).maxplayers,
                    self.started == old(self).started,
                decreases n - x,
            {
                self.map[y][x] = 0;
                self.vision[y][x] = HIDDEN;
                x += 1;
            }
            y += 1;
        }
        proof {
            assert(is_square(grid_of(self.map@), n as nat));
            assert(is_square(grid_of(self.vision@), n as nat));
        }
        place_mines(&mut self.map, n, self.bombs);
        let ghost cleared = self.vision@;
        let ghost mined = self.map@;
        let mut i: usize = 0;
        while i < self.sessions.len()
            invariant
                self.vision@ == cleared,
                self.map@ == mined,
                self.map_size == n,
                self.bombs == old(self).bombs,
                self.maxplayers == old(self).maxplayers,
                self.started == old(self).started,
                0 <= i <= self.sessions@.len(),
                self.sessions@.len() == old(self).sessions@.len(),
                forall|j: int| 0 <= j < self.sessions@.len() ==> {
                    let p = #[trigger] self.sessions@[j];
                    let q = old(self).sessions@[j];
                    &&& p.name == q.name
                    &&& p.color == q.color
                    &&& p.addr == q.addr
                    &&& p.ready == q.ready
                    &&& j < i ==> p.flags@.len() == 0
                },
            decreases self.sessions@.len() - i,
        {
            self.sessions[i].flags.clear();
            i += 1;
        }
        self.gameover = false;
        proof {
            let s = self.seen();
            assert forall|y: int, x: int| in_bounds(n as int, x, y) implies #[trigger] s[y][x] == HIDDEN by {
                assert(self.vision@[y]@[x] == HIDDEN);
            }
            assert forall|y: int, x: int| in_bounds(n as int, x, y) implies
                cell_consistent(self.board(), n as int, #[trigger] s[y][x], x, y, false) by {
                assert(self.vision@[y]@[x] == HIDDEN);
            }
        }
    }

    /// Steps on (x, y). On a cell already uncovered, or once the game is lost, nothing
    /// changes and the answer is "not moving". On a mine the game is lost, every mine is
    /// shown (see `lost_view`) and the answer is "mine". On a free cell the cells that
    /// `in_flood` names are uncovered, the flags on uncovered cells are taken away, and
    /// the answer is "moved".
    pub fn step_on(&mut self, x: usize, y: usize) -> (r: &'static str)
        requires
            old(self).wf(),
            x < old(self).map_size,
            y < old(self).map_size,
        ensures
            final(self).wf(),
            r@ == step_outcome(*old(self), x as int, y as int),
            stepped(*old(self), *final(self), x as int, y as int),
    {
        proof {
            self.lemma_rows();
        }
        let n = self.map_size;
        let ghost b = self.board();
        let ghost s0 = self.seen();
        let ghost nn = n as int;
        if self.vision[y][x] == HIDDEN && !self.gameover {
            if self.map[y][x] == 1 {
                self.show_mines();
                self.gameover = true;
                proof {
                    assert(self.vision@[y as int]@ == self.seen()[y as int]);
                }
                let ghost s1 = self.seen();
                self.vision[y][x] = STEPPED_MINE;
                proof {
                    assert(self.seen() =~= s1.update(y as int, s1[y as int].update(x as int, STEPPED_MINE)));
                    let s2 = self.seen();
                    assert forall|c: int, a: int| in_bounds(nn, a, c) implies #[trigger] s2[c][a]
                        == lost_view(b, s0, self.sessions@, x as int, y as int, a, c) by {}
                    assert forall|y2: int, x2: int| in_bounds(nn, x2, y2) implies
                        cell_consistent(b, nn, #[trigger] s2[y2][x2], x2, y2, true) by {
                        assert(cell_consistent(b, nn, s0[y2][x2], x2, y2, false));
                    }
                    let ss = self.sessions@;
                    assert forall|i: int, j: int| 0 <= i < ss.len() && 0 <= j < ss[i].flags@.len()
                        implies #[trigger] flag_ok(ss[i].flags@[j], s2, nn, true) by {
                        assert(flag_ok(ss[i].flags@[j], s0, nn, false));
                    }
                }
                return "mine";
            } else {
                uncover(&self.map, &mut self.vision, n, x, y);
                let ghost s1 = self.seen();
                proof {
                    assert forall|c: int, a: int| in_bounds(nn, a, c) implies #[trigger] s1[c][a] == if in_flood(b, s0, nn, x as int, y as int, a, c) {
                        nearby_count(b, nn, a, c)
                    } else {
                        s0[c][a] as nat
                    } by {
                        if in_flood(b, s0, nn, x as int, y as int, a, c) {
                            let p = choose|p: Seq<(int, int)>|
                                #[trigger] flood_path(b, s0, nn, p) && p[0] == (x as int, y as int) && p.last() == (a, c);
                            assert forall|cc: int, aa: int|
                                in_bounds(nn, aa, cc) && s0[cc][aa] == HIDDEN && #[trigger] s1[cc][aa] != HIDDEN
                                    && b[cc][aa] == 0 && nearby_count(b, nn, aa, cc) == 0
                                    implies forall|e: int, f: int| adjacent(aa, cc, e, f) && in_bounds(nn, e, f) ==> #[trigger] s1[f][e] != HIDDEN by {
                                assert(spread_done(b, s0, s1, nn, aa, cc));
                            }
                            lemma_path_uncovered(b, s0, s1, nn, p);
                        }
                    }
                    assert forall|y2: int, x2: int| in_bounds(nn, x2, y2) implies
                        cell_consistent(b, nn, #[trigger] s1[y2][x2], x2, y2, false) by {
                        if s1[y2][x2] != s0[y2][x2] {
                            let p = choose|p: Seq<(int, int)>|
                                #[trigger] flood_path(b, s0, nn, p) && p[0] == (x as int, y as int) && p.last() == (x2, y2);
                            lemma_path_end_free(b, s0, nn, p);
                        }
                    }
                }
                let ghost ss = self.sessions@;
                proof {
                    assert forall|i: int, j: int| 0 <= i < ss.len() && 0 <= j < ss[i].flags@.len() implies
                        in_bounds(nn, (#[trigger] ss[i].flags@[j]).0 as int, ss[i].flags@[j].1 as int) by {
                        assert(flag_ok(ss[i].flags@[j], s0, nn, false));
                    }
                }
                self.drop_uncovered_flags();
                proof {
                    let ts = self.sessions@;
                    assert forall|i: int| 0 <= i < ts.len() implies #[trigger] ts[i].flags@ == hidden_flags(ss[i].flags@, s1) by {}
                    assert forall|i: int, j: int| 0 <= i < ts.len() && 0 <= j < ts[i].flags@.len() implies {
                        let f = #[trigger] ts[i].flags@[j];
                        &&& in_bounds(nn, f.0 as int, f.1 as int)
                        &&& s1[f.1 as int][f.0 as int] == HIDDEN
                    } by {
                        lemma_hidden_flags(ss[i].flags@, s1);
                        let f = ts[i].flags@[j];
                        let m = choose|m: int| 0 <= m < ss[i].flags@.len() && ss[i].flags@[m] == f;
                        assert(flag_ok(ss[i].flags@[m], s0, nn, false));
                    }
                    assert forall|i: int, j: int| 0 <= i < ts.len() && 0 <= j < ts[i].flags@.len()
                        implies #[trigger] flag_ok(ts[i].flags@[j], s1, nn, false) by {
                        assert(in_bounds(nn, ts[i].flags@[j].0 as int, ts[i].flags@[j].1 as int));
                    }
                    assert forall|i: int| 0 <= i < ts.len() implies (#[trigger] ts[i].flags@).no_duplicates() by {
                        lemma_hidden_flags(ss[i].flags@, s1);
                    }
                    assert forall|i1: int, i2: int| 0 <= i1 < ts.len() && 0 <= i2 < ts.len() && i1 != i2
                        implies (#[trigger] ts[i1].flags@).disjoint(#[trigger] ts[i2].flags@) by {
                        lemma_hidden_flags(ss[i1].flags@, s1);
                        lemma_hidden_flags(ss[i2].flags@, s1);
                        assert(ss[i1].flags@.disjoint(ss[i2].flags@));
                        assert forall|j1: int, j2: int| 0 <= j1 < ts[i1].flags@.len() && 0 <= j2 < ts[i2].flags@.len()
                            implies ts[i1].flags@[j1] != ts[i2].flags@[j2] by {
                            let f1 = ts[i1].flags@[j1];
                            let f2 = ts[i2].flags@[j2];
                            let m1 = choose|m: int| 0 <= m < ss[i1].flags@.len() && ss[i1].flags@[m] == f1;
                            let m2 = choose|m: int| 0 <= m < ss[i2].flags@.len() && ss[i2].flags@[m] == f2;
                        }
                    }
                }
                return "moved";
            }
        }
        "not moving"
    }

    /// After a lost game: every mine shows as a mine, or as solved where a flag lies on it.
    fn show_mines(&mut self)
        requires
            old(self).wf(),
            old(self).gameover == false,
        ensures
            final(self).map == old(self).map,
            final(self).map_size == old(self).map_size,
            final(self).sessions == old(self).sessions,
            final(self).bombs == old(self).bombs,
            final(self).maxplayers == old(self).maxplayers,
            final(self).started == old(self).started,
            final(self).gameover == old(self).gameover,
            is_square(final(self).seen(), final(self).map_size as nat),
            final(self).vision@.len() == final(self).map_size,
            forall|r: int| 0 <= r < final(self).map_size ==> #[trigger] final(self).vision@[r]@ == final(self).seen()[r],
            forall|c: int, a: int| in_bounds(old(self).map_size as int, a, c)
                ==> #[trigger] final(self).seen()[c][a] == if old(self).board()[c][a] == 1 {
                    if flagged(old(self).sessions@, a, c) { SOLVED_MINE } else { MINE }
                } else {
                    old(self).seen()[c][a]
                },
    {
        proof {
            self.lemma_rows();
        }
        let n = self.map_size;
        let ghost nn = n as int;
        let ghost b = self.board();
        let ghost s0 = self.seen();
        let ghost ss = self.sessions@;
        let mut yy: usize = 0;
        while yy < n
            invariant
                n == self.map_size,
                nn == n,
                b == self.board(),
                is_square(b, n as nat),
                ss == self.sessions@,
                self.map == old(self).map,
                self.sessions == old(self).sessions,
                self.map_size == old(self).map_size,
                self.bombs == old(self).bombs,
                self.maxplayers == old(self).maxplayers,
                self.started == old(self).started,
                self.gameover == old(self).gameover,
                0 <= yy <= n,
                self.vision@.len() == n,
                self.map@.len() == n,
                forall|r: int| 0 <= r < n ==> (#[trigger] self.vision@[r])@.len() == n,
                forall|r: int| 0 <= r < n ==> #[trigger] self.map@[r]@ == b[r],
                forall|c: int, a: int| in_bounds(nn, a, c) ==> #[trigger] self.vision@[c]@[a] == if c < yy && b[c][a] == 1 {
                    MINE
                } else {
                    s0[c][a]
                },
            decreases n - yy,
        {
            let mut xx: usize = 0;
            while xx < n
                invariant
                    n == self.map_size,
                    nn == n,
                    b == self.board(),
                    is_square(b, n as nat),
                    ss == self.sessions@,
                    self.map == old(self).map,
                    self.sessions == old(self).sessions,
                    self.map_size == old(self).map_size,
                    self.bombs == old(self).bombs,
                    self.maxplayers == old(self).maxplayers,
                    self.started == old(self).started,
                    self.gameover == old(self).gameover,
                    0 <= yy < n,
                    0 <= xx <= n,
                    self.vision@.len() == n,
                    self.map@.len() == n,
                    forall|r: int| 0 <= r < n ==> (#[trigger] self.vision@[r])@.len() == n,
                    forall|r: int| 0 <= r < n ==> #[trigger] self.map@[r]@ == b[r],
                    forall|c: int, a: int| in_bounds(nn, a, c) ==> #[trigger] self.vision@[c]@[a] == if (c < yy || (c == yy && a < xx)) && b[c][a] == 1 {
                        MINE
                    } else {
                        s0[c][a]
                    },
                decreases n - xx,
            {
                let ghost before = self.vision@;
                if self.map[yy][xx] == 1 {
                    self.vision[yy][xx] = MINE;
                }
                proof {
                    assert forall|c: int, a: int| in_bounds(nn, a, c) implies #[trigger] self.vision@[c]@[a] == if (c < yy || (c == yy && a < xx + 1)) && b[c][a] == 1 {
                        MINE
                    } else {
                        s0[c][a]
                    } by {
                        if c != yy {
                            assert(self.vision@[c] == before[c]);
                        } else if a != xx {
                            assert(self.vision@[c]@[a] == before[c]@[a]);
                        }
                    }
                }
                xx += 1;
            }
            yy += 1;
        }
        let mut i: usize = 0;
        while i < self.sessions.len()
            invariant
                n == self.map_size,
                nn == n,
                b == self.board(),
                is_square(b, n as nat),
                ss == self.sessions@,
                flags_ok(ss, s0, nn, false),
                self.map == old(self).map,
                self.sessions == old(self).sessions,
                self.map_size == old(self).map_size,
                self.bombs == old(self).bombs,
                self.maxplayers == old(self).maxplayers,
                self.started == old(self).started,
                self.gameover == old(self).gameover,
                0 <= i <= ss.len(),
                self.vision@.len() == n,
                self.map@.len() == n,
                forall|r: int| 0 <= r < n ==> (#[trigger] self.vision@[r])@.len() == n,
                forall|r: int| 0 <= r < n ==> #[trigger] self.map@[r]@ == b[r],
                forall|c: int, a: int| in_bounds(nn, a, c) ==> #[trigger] self.vision@[c]@[a] == if b[c][a] == 1 {
                    if flagged_before(ss, i as int, 0, a, c) { SOLVED_MINE } else { MINE }
                } else {
                    s0[c][a]
                },
            decreases ss.len() - i,
        {
            let mut j: usize = 0;
            while j < self.sessions[i].flags.len()
                invariant
                    n == self.map_size,
                    nn == n,
                    b == self.board(),
                    is_square(b, n as nat),
                    ss == self.sessions@,
                    flags_ok(ss, s0, nn, false),
                    self.map == old(self).map,
                    self.sessions == old(self).sessions,
                    self.map_size == old(self).map_size,
                    self.bombs == old(self).bombs,
                    self.maxplayers == old(self).maxplayers,
                    self.started == old(self).started,
                    self.gameover == old(self).gameover,
                    0 <= i < ss.len(),
                    0 <= j <= ss[i as int].flags@.len(),
                    self.vision@.len() == n,
                    self.map@.len() == n,
                    forall|r: int| 0 <= r < n ==> (#[trigger] self.vision@[r])@.len() == n,
                    forall|r: int| 0 <= r < n ==> #[trigger] self.map@[r]@ == b[r],
                    forall|c: int, a: int| in_bounds(nn, a, c) ==> #[trigger] self.vision@[c]@[a] == if b[c][a] == 1 {
                        if flagged_before(ss, i as int, j as int, a, c) { SOLVED_MINE } else { MINE }
                    } else {
                        s0[c][a]
                    },
                decreases ss[i as int].flags@.len() - j,
            {
                let f = self.sessions[i].flags[j];
                proof {
                    assert(ss[i as int].flags@[j as int] == f);
                    assert(flag_ok(ss[i as int].flags@[j as int], s0, nn, false));
                    assert(in_bounds(nn, f.0 as int, f.1 as int));
                    assert(self.map@[f.1 as int]@ == b[f.1 as int]);
                }
                let ghost before = self.vision@;
                if self.map[f.1][f.0] == 1 {
                    self.vision[f.1][f.0] = SOLVED_MINE;
                }
                proof {
                    assert forall|c: int, a: int| in_bounds(nn, a, c) implies #[trigger] self.vision@[c]@[a] == if b[c][a] == 1 {
                        if flagged_before(ss, i as int, j + 1, a, c) { SOLVED_MINE } else { MINE }
                    } else {
                        s0[c][a]
                    } by {
                        if a == f.0 && c == f.1 {
                            assert(ss[i as int].flags@[j as int] == (a as usize, c as usize));
                        } else {
                            assert(before[c]@[a] == self.vision@[c]@[a]);
                            if flagged_before(ss, i as int, j + 1, a, c) {
                                let (k, m) = choose|k: int, m: int|
                                    ((0 <= k < i && 0 <= m < ss[k].flags@.len()) || (k == i && 0 <= m < j + 1))
                                        && #[trigger] ss[k].flags@[m] == (a as usize, c as usize);
                                assert(flagged_before(ss, i as int, j as int, a, c));
                            }
                        }
                    }
                }
                j += 1;
            }
            proof {
                assert forall|c: int, a: int| in_bounds(nn, a, c) implies
                    #[trigger] flagged_before(ss, i as int, ss[i as int].flags@.len() as int, a, c) == flagged_before(ss, i + 1, 0, a, c) by {
                    if flagged_before(ss, i + 1, 0, a, c) {
                        let (k, m) = choose|k: int, m: int|
                            ((0 <= k < i + 1 && 0 <= m < ss[k].flags@.len()) || (k == i + 1 && 0 <= m < 0))
                                && #[trigger] ss[k].flags@[m] == (a as usize, c as usize);
                        assert(ss[k].flags@[m] == (a as usize, c as usize));
                    }
                    if flagged_before(ss, i as int, ss[i as int].flags@.len() as int, a, c) {
                        let (k, m) = choose|k: int, m: int|
                            ((0 <= k < i && 0 <= m < ss[k].flags@.len()) || (k == i && 0 <= m < ss[i as int].flags@.len()))
                                && #[trigger] ss[k].flags@[m] == (a as usize, c as usize);
                        assert(ss[k].flags@[m] == (a as usize, c as usize));
                    }
                }
            }
            i += 1;
        }
        proof {
            assert forall|c: int, a: int| in_bounds(nn, a, c) implies
                #[trigger] flagged_before(ss, ss.len() as int, 0, a, c) == flagged(ss, a, c) by {
                if flagged(ss, a, c) {
                    let (k, m) = choose|k: int, m: int|
                        0 <= k < ss.len() && 0 <= m < ss[k].flags@.len() && #[trigger] ss[k].flags@[m] == (a as usize, c as usize);
                    assert(ss[k].flags@[m] == (a as usize, c as usize));
                }
                if flagged_before(ss, ss.len() as int, 0, a, c) {
                    let (k, m) = choose|k: int, m: int|
                        ((0 <= k < ss.len() && 0 <= m < ss[k].flags@.len()) || (k == ss.len() && 0 <= m < 0))
                            && #[trigger] ss[k].flags@[m] == (a as usize, c as usize);
                    assert(ss[k].flags@[m] == (a as usize, c as usize));
                }
            }
            assert forall|r: int| 0 <= r < n implies #[trigger] self.vision@[r]@ == self.seen()[r] by {}
            assert(is_square(self.seen(), n as nat));
        }
    }

    /// Takes away every flag that lies on an uncovered cell.
    fn drop_uncovered_flags(&mut self)
        requires
            is_square(old(self).seen(), old(self).map_size as nat),
            forall|i: int, j: int|
                0 <= i < old(self).sessions@.len() && 0 <= j < old(self).sessions@[i].flags@.len() ==>
                in_bounds(old(self).map_size as int, (#[trigger] old(self).sessions@[i].flags@[j]).0 as int, old(self).sessions@[i].flags@[j].1 as int),
        ensures
            final(self).map == old(self).map,
            final(self).vision == old(self).vision,
            final(self).map_size == old(self).map_size,
            final(self).bombs == old(self).bombs,
            final(self).maxplayers == old(self).maxplayers,
            final(self).started == old(self).started,
            final(self).gameover == old(self).gameover,
            final(self).sessions@.len() == old(self).sessions@.len(),
            forall|i: int| 0 <= i < final(self).sessions@.len() ==> {
                &&& same_but_flags(#[trigger] final(self).sessions@[i], old(self).sessions@[i])
                &&& final(self).sessions@[i].flags@ == hidden_flags(old(self).sessions@[i].flags@, old(self).seen())
            },
    {
        let n = self.map_size;
        let ghost s = self.seen();
        let mut i: usize = 0;
        while i < self.sessions.len()
            invariant
                n == self.map_size,
                s == self.seen(),
                is_square(s, n as nat),
                self.map == old(self).map,
                self.vision == old(self).vision,
                self.map_size == old(self).map_size,
                self.bombs == old(self).bombs,
                self.maxplayers == old(self).maxplayers,
                self.started == old(self).started,
                self.gameover == old(self).gameover,
                self.sessions@.len() == old(self).sessions@.len(),
                0 <= i <= self.sessions@.len(),
                forall|k: int, j: int|
                    0 <= k < old(self).sessions@.len() && 0 <= j < old(self).sessions@[k].flags@.len() ==>
                    in_bounds(old(self).map_size as int, (#[trigger] old(self).sessions@[k].flags@[j]).0 as int, old(self).sessions@[k].flags@[j].1 as int),
                forall|k: int| 0 <= k < self.sessions@.len() ==> {
                    &&& same_but_flags(#[trigger] self.sessions@[k], old(self).sessions@[k])
                    &&& k < i ==> self.sessions@[k].flags@ == hidden_flags(old(self).sessions@[k].flags@, s)
                    &&& k >= i ==> self.sessions@[k].flags@ == old(self).sessions@[k].flags@
                },
            decreases self.sessions@.len() - i,
        {
            proof {
                assert forall|j: int| 0 <= j < self.sessions@[i as int].flags@.len() implies
                    in_bounds(n as int, (#[trigger] self.sessions@[i as int].flags@[j]).0 as int, self.sessions@[i as int].flags@[j].1 as int) by {
                    assert(old(self).sessions@[i as int].flags@[j] == self.sessions@[i as int].flags@[j]);
                }
            }
            let kept = keep_hidden_flags(&self.sessions[i].flags, &self.vision, n);
            self.sessions[i].flags = kept;
            i += 1;
        }
    }

    /// A colour for a new player: the palette is shuffled and the first colour in it
    /// that no player wears is taken; "pink" when every palette colour is worn.
    pub fn gen_color(&self) -> (r: String)
        ensures
            fresh_color(self.sessions@, r@),
    {
        let mut color_list = palette_strings();
        let ghost listed = color_list@;
        shuffle_strings(&mut color_list);
        let r = pick_color(&color_list, &self.sessions);
        proof {
            broadcast use vstd::seq_lib::group_to_multiset_ensures;
            let order = color_list@;
            assert forall|k: int| 0 <= k < order.len() implies exists|m: int| 0 <= m < palette().len()
                && (#[trigger] order[k])@ == palette()[m] by {
                assert(order.contains(order[k]));
                assert(order.to_multiset().count(order[k]) > 0);
                assert(listed.contains(order[k]));
                let m = choose|m: int| 0 <= m < listed.len() && listed[m] == order[k];
                assert(listed[m]@ == palette()[m]);
            }
            assert forall|m: int| 0 <= m < palette().len() implies #[trigger] palette()[m] == palette()[m] && exists|k: int| 0 <= k < order.len()
                && (#[trigger] order[k])@ == palette()[m] by {
                assert(listed[m]@ == palette()[m]);
                assert(listed.contains(listed[m]));
                assert(listed.to_multiset().count(listed[m]) > 0);
                assert(order.contains(listed[m]));
            }
            if forall|k: int| 0 <= k < palette().len() ==> color_taken(self.sessions@, #[trigger] palette()[k]) {
                assert forall|k: int| 0 <= k < order.len() implies color_taken(self.sessions@, (#[trigger] order[k])@) by {
                    let m = choose|m: int| 0 <= m < palette().len() && order[k]@ == palette()[m];
                    assert(color_taken(self.sessions@, palette()[m]));
                }
            }
            if exists|k: int| 0 <= k < palette().len() && !color_taken(self.sessions@, #[trigger] palette()[k]) {
                let m = choose|m: int| 0 <= m < palette().len() && !color_taken(self.sessions@, #[trigger] palette()[m]);
                let k = choose|k: int| 0 <= k < order.len() && (#[trigger] order[k])@ == palette()[m];
                assert(!color_taken(self.sessions@, order[k]@));
                let k2 = choose|k2: int| 0 <= k2 < order.len() && r@ == (#[trigger] order[k2])@
                    && !color_taken(self.sessions@, order[k2]@);
                let m2 = choose|m2: int| 0 <= m2 < palette().len() && order[k2]@ == palette()[m2];
                assert(r@ == palette()[m2]);
            }
        }
        r
    }

    /// Toggles a flag on the hidden cell (x, y) while the game goes on: a flag that lies
    /// there is taken away, whoever placed it; otherwise the first player called `name`
    /// places one. The answer says whether a flag was taken away or placed.
    pub fn place_flag(&mut self, x: usize, y: usize, name: String) -> (r: bool)
        requires
            old(self).wf(),
            old(self).gameover || (x < old(self).map_size && y < old(self).map_size),
        ensures
            final(self).wf(),
            r == flag_placeable(*old(self), x as int, y as int, name@),
            flag_toggled(*old(self), *final(self), x as int, y as int, name@),
    {
        if self.gameover {
            return false;
        }
        proof {
            self.lemma_rows();
        }
        if self.vision[y][x] != HIDDEN {
            return false;
        }
        let ghost ss = self.sessions@;
        let ghost nn = self.map_size as int;
        let ghost s = self.seen();
        let mut i: usize = 0;
        while i < self.sessions.len()
            invariant
                self.sessions@ == ss,
                *self == *old(self),
                old(self).wf(),
                !old(self).gameover,
                s == old(self).seen(),
                nn == old(self).map_size,
                in_bounds(nn, x as int, y as int),
                s[y as int][x as int] == HIDDEN,
                flags_ok(ss, s, nn, false),
                0 <= i <= ss.len(),
                forall|k: int, j: int| 0 <= k < i && 0 <= j < ss[k].flags@.len() ==> #[trigger] ss[k].flags@[j] != (x, y),
            decreases ss.len() - i,
        {
            let mut j: usize = 0;
            while j < self.sessions[i].flags.len()
                invariant
                    self.sessions@ == ss,
                *self == *old(self),
                old(self).wf(),
                !old(self).gameover,
                s == old(self).seen(),
                nn == old(self).map_size,
                in_bounds(nn, x as int, y as int),
                s[y as int][x as int] == HIDDEN,
                flags_ok(ss, s, nn, false),
                    0 <= i < ss.len(),
                    0 <= j <= ss[i as int].flags@.len(),
                    forall|k: int, m: int| 0 <= k < i && 0 <= m < ss[k].flags@.len() ==> #[trigger] ss[k].flags@[m] != (x, y),
                    forall|m: int| 0 <= m < j ==> #[trigger] ss[i as int].flags@[m] != (x, y),
                decreases ss[i as int].flags@.len() - j,
            {
                let f = self.sessions[i].flags[j];
                if f.0 == x && f.1 == y {
                    self.sessions[i].flags.remove(j);
                    proof {
                        let ts = self.sessions@;
                        assert forall|k: int| 0 <= k < ts.len() && k != i implies #[trigger] ts[k] == ss[k] by {}
                        assert(ts[i as int].flags@ == ss[i as int].flags@.remove(j as int));
                        assert(flagged(ss, x as int, y as int));
                        assert forall|a: int, m: int| 0 <= a < ts.len() && 0 <= m < ts[a].flags@.len()
                            implies #[trigger] flag_ok(ts[a].flags@[m], s, nn, false) by {
                            if a == i {
                                if m < j {
                                    assert(ts[a].flags@[m] == ss[a].flags@[m]);
                                } else {
                                    assert(ts[a].flags@[m] == ss[a].flags@[m + 1]);
                                }
                            }
                        }
                        assert forall|a: int| 0 <= a < ts.len() implies (#[trigger] ts[a].flags@).no_duplicates() by {
                            if a == i {
                                assert(ss[a].flags@.no_duplicates());
                            }
                        }
                        assert forall|a1: int, a2: int| 0 <= a1 < ts.len() && 0 <= a2 < ts.len() && a1 != a2
                            implies (#[trigger] ts[a1].flags@).disjoint(#[trigger] ts[a2].flags@) by {
                            assert(ss[a1].flags@.disjoint(ss[a2].flags@));
                            if a1 == i || a2 == i {
                                assert forall|m1: int, m2: int| 0 <= m1 < ts[a1].flags@.len() && 0 <= m2 < ts[a2].flags@.len()
                                    implies ts[a1].flags@[m1] != ts[a2].flags@[m2] by {
                                    if a1 == i {
                                        if m1 < j {
                                            assert(ts[a1].flags@[m1] == ss[a1].flags@[m1]);
                                        } else {
                                            assert(ts[a1].flags@[m1] == ss[a1].flags@[m1 + 1]);
                                        }
                                    } else {
                                        if m2 < j {
                                            assert(ts[a2].flags@[m2] == ss[a2].flags@[m2]);
                                        } else {
                                            assert(ts[a2].flags@[m2] == ss[a2].flags@[m2 + 1]);
                                        }
                                    }
                                }
                            }
                        }
                    }
                    return true;
                }
                j += 1;
            }
            i += 1;
        }
        proof {
            assert(!flagged(ss, x as int, y as int));
        }
        let mut i: usize = 0;
        while i < self.sessions.len()
            invariant
                self.sessions@ == ss,
                *self == *old(self),
                old(self).wf(),
                !old(self).gameover,
                s == old(self).seen(),
                nn == old(self).map_size,
                in_bounds(nn, x as int, y as int),
                s[y as int][x as int] == HIDDEN,
                flags_ok(ss, s, nn, false),
                0 <= i <= ss.len(),
                forall|k: int| 0 <= k < i ==> (#[trigger] ss[k]).name@ != name@,
                !flagged(ss, x as int, y as int),
            decreases ss.len() - i,
        {
            if self.sessions[i].name == name {
                self.sessions[i].flags.push((x, y));
                proof {
                    let ts = self.sessions@;
                    assert forall|k: int| 0 <= k < ts.len() && k != i implies #[trigger] ts[k] == ss[k] by {}
                    assert(has_player(ss, name@));
                    assert forall|a: int, m: int| 0 <= a < ts.len() && 0 <= m < ts[a].flags@.len()
                        implies #[trigger] flag_ok(ts[a].flags@[m], s, nn, false) by {
                        if a == i && m < ss[a].flags@.len() {
                            assert(ts[a].flags@[m] == ss[a].flags@[m]);
                        }
                    }
                    assert forall|a: int| 0 <= a < ts.len() implies (#[trigger] ts[a].flags@).no_duplicates() by {
                        if a == i {
                            assert(ss[a].flags@.no_duplicates());
                            assert forall|m: int| 0 <= m < ss[a].flags@.len() implies #[trigger] ss[a].flags@[m] != (x, y) by {
                                if ss[a].flags@[m] == (x, y) {
                                    assert(flagged(ss, x as int, y as int));
                                }
                            }
                        }
                    }
                    assert forall|a1: int, a2: int| 0 <= a1 < ts.len() && 0 <= a2 < ts.len() && a1 != a2
                        implies (#[trigger] ts[a1].flags@).disjoint(#[trigger] ts[a2].flags@) by {
                        assert(ss[a1].flags@.disjoint(ss[a2].flags@));
                        if a1 == i || a2 == i {
                            assert forall|m1: int, m2: int| 0 <= m1 < ts[a1].flags@.len() && 0 <= m2 < ts[a2].flags@.len()
                                implies ts[a1].flags@[m1] != ts[a2].flags@[m2] by {
                                if a1 == i && m1 == ss[a1].flags@.len() {
                                    if ts[a2].flags@[m2] == (x, y) {
                                        assert(ss[a2].flags@[m2] == (x, y));
                                        assert(flagged(ss, x as int, y as int));
                                    }
                                } else if a2 == i && m2 == ss[a2].flags@.len() {
                                    if ts[a1].flags@[m1] == (x, y) {
                                        assert(ss[a1].flags@[m1] == (x, y));
                                        assert(flagged(ss, x as int, y as int));
                                    }
                                } else if a1 == i {
                                    assert(ts[a1].flags@[m1] == ss[a1].flags@[m1]);
                                } else {
                                    assert(ts[a2].flags@[m2] == ss[a2].flags@[m2]);
                                }
                            }
                        }
                    }
                }
                return true;
            }
            i += 1;
        }
        false
    }

    /// Seats a new player, who holds no flags, after the others.
    pub fn add_player(&mut self, p: Player)
        requires
            old(self).wf(),
            p.flags@.len() == 0,
        ensures
            final(self).wf(),
            final(self).sessions@ == old(self).sessions@.push(p),
            same_room(*final(self), *old(self)),
    {
        self.sessions.push(p);
        proof {
            let ts = self.sessions@;
            let ss = old(self).sessions@;
            let n = self.map_size as int;
            assert forall|a: int, m: int| 0 <= a < ts.len() && 0 <= m < ts[a].flags@.len()
                implies #[trigger] flag_ok(ts[a].flags@[m], self.seen(), n, self.gameover) by {
                assert(ts[a] == ss[a]);
            }
            assert forall|a1: int, a2: int| 0 <= a1 < ts.len() && 0 <= a2 < ts.len() && a1 != a2
                implies (#[trigger] ts[a1].flags@).disjoint(#[trigger] ts[a2].flags@) by {
                if a1 < ss.len() && a2 < ss.len() {
                    assert(ss[a1].flags@.disjoint(ss[a2].flags@));
                }
            }
        }
    }

    /// Takes the player in seat `i` out of the room; the others keep their order.
    pub fn remove_player(&mut self, i: usize) -> (p: Player)
        requires
            old(self).wf(),
            i < old(self).sessions@.len(),
        ensures
            final(self).wf(),
            p == old(self).sessions@[i as int],
            final(self).sessions@ == old(self).sessions@.remove(i as int),
            same_room(*final(self), *old(self)),
    {
        let p = self.sessions.remove(i);
        proof {
            let ts = self.sessions@;
            let ss = old(self).sessions@;
            let n = self.map_size as int;
            assert forall|a: int| 0 <= a < ts.len() implies #[trigger] ts[a] == if a < i { ss[a] } else { ss[a + 1] } by {}
            assert forall|a: int, m: int| 0 <= a < ts.len() && 0 <= m < ts[a].flags@.len()
                implies #[trigger] flag_ok(ts[a].flags@[m], self.seen(), n, self.gameover) by {
                if a < i {
                    assert(ts[a] == ss[a]);
                } else {
                    assert(ts[a] == ss[a + 1]);
                }
            }
            assert forall|a: int| 0 <= a < ts.len() implies (#[trigger] ts[a].flags@).no_duplicates() by {
                if a < i {
                    assert(ts[a] == ss[a]);
                } else {
                    assert(ts[a] == ss[a + 1]);
                }
            }
            assert forall|a1: int, a2: int| 0 <= a1 < ts.len() && 0 <= a2 < ts.len() && a1 != a2
                implies (#[trigger] ts[a1].flags@).disjoint(#[trigger] ts[a2].flags@) by {
                let b1 = if a1 < i { a1 } else { a1 + 1 };
                let b2 = if a2 < i { a2 } else { a2 + 1 };
                assert(ts[a1] == ss[b1]);
                assert(ts[a2] == ss[b2]);
                assert(ss[b1].flags@.disjoint(ss[b2].flags@));
            }
        }
        p
    }

    /// Gives the player in seat `i` the colour `color`.
    pub fn set_player_color(&mut self, i: usize, color: String)
        requires
            old(self).wf(),
            i < old(self).sessions@.len(),
        ensures
            final(self).wf(),
            final(self).sessions@.len() == old(self).sessions@.len(),
            forall|k: int| 0 <= k < final(self).sessions@.len() && k != i
                ==> #[trigger] final(self).sessions@[k] == old(self).sessions@[k],
            final(self).sessions@[i as int].color == color,
            final(self).sessions@[i as int].name == old(self).sessions@[i as int].name,
            final(self).sessions@[i as int].addr == old(self).sessions@[i as int].addr,
            final(self).sessions@[i as int].ready == old(self).sessions@[i as int].ready,
            final(self).sessions@[i as int].flags == old(self).sessions@[i as int].flags,
            same_room(*final(self), *old(self)),
    {
        self.sessions[i].color = color;
        proof {
            let ts = self.sessions@;
            let ss = old(self).sessions@;
            let n = self.map_size as int;
            assert forall|a: int| 0 <= a < ts.len() implies #[trigger] ts[a].flags == ss[a].flags by {}
            assert forall|a: int, m: int| 0 <= a < ts.len() && 0 <= m < ts[a].flags@.len()
                implies #[trigger] flag_ok(ts[a].flags@[m], self.seen(), n, self.gameover) by {
                assert(ts[a].flags == ss[a].flags);
            }
            assert forall|a: int| 0 <= a < ts.len() implies (#[trigger] ts[a].flags@).no_duplicates() by {
                assert(ts[a].flags == ss[a].flags);
            }
            assert forall|a1: int, a2: int| 0 <= a1 < ts.len() && 0 <= a2 < ts.len() && a1 != a2
                implies (#[trigger] ts[a1].flags@).disjoint(#[trigger] ts[a2].flags@) by {
                assert(ts[a1].flags == ss[a1].flags);
                assert(ts[a2].flags == ss[a2].flags);
                assert(ss[a1].flags@.disjoint(ss[a2].flags@));
            }
        }
    }

    /// Counts the mines around (x, y).
    pub fn nearby_mines(&self, x: usize, y: usize) -> (count: u8)
        requires
            self.wf(),
            x < self.map_size,
            y < self.map_size,
        ensures
            count == nearby_count(self.board(), self.map_size as int, x as int, y as int),
    {
        let n = self.map_size;
        proof {
            self.lemma_rows();
        }
        let mut bf: u8 = 0;
        if y > 0 && self.map[y - 1][x] == 1 {
            bf += 1;
        }
        if x > 0 && self.map[y][x - 1] == 1 {
            bf += 1;
        }
        if y < n - 1 && self.map[y + 1][x] == 1 {
            bf += 1;
        }
        if x < n - 1 && self.map[y][x + 1] == 1 {
            bf += 1;
        }
        if y > 0 && x > 0 && self.map[y - 1][x - 1] == 1 {
            bf += 1;
        }
        if y > 0 && x < n - 1 && self.map[y - 1][x + 1] == 1 {
            bf += 1;
        }
        if y < n - 1 && x > 0 && self.map[y + 1][x - 1] == 1 {
            bf += 1;
        }
        if y < n - 1 && x < n - 1 && self.map[y + 1][x + 1] == 1 {
            bf += 1;
        }
        bf
    }

    /// Whether some player holds a flag on (x, y).
    pub fn is_flag(&self, x: usize, y: usize) -> (r: bool)
        ensures
            r == flagged(self.sessions@, x as int, y as int),
    {
        let mut i: usize = 0;
        while i < self.sessions.len()
            invariant
                0 <= i <= self.sessions@.len(),
                forall|a: int, j: int|
                    0 <= a < i && 0 <= j < self.sessions@[a].flags@.len()
                        ==> #[trigger] self.sessions@[a].flags@[j] != (x, y),
            decreases self.sessions@.len() - i,
        {
            let flags = &self.sessions[i].flags;
            let mut j: usize = 0;
            while j < flags.len()
                invariant
                    0 <= i < self.sessions@.len(),
                    flags == self.sessions@[i as int].flags,
                    0 <= j <= flags@.len(),
                    forall|c: int| 0 <= c < j ==> #[trigger] flags@[c] != (x, y),
                decreases flags@.len() - j,
            {
                let f = flags[j];
                if f.0 == x && f.1 == y {
                    return true;
                }
                j += 1;
            }
            i += 1;
        }
        false
    }

    /// The message that carries the whole view: `/gamestate` and every cell's number.
    pub fn get_game_state(&self) -> (r: String)
        requires
            self.wf(),
        ensures
            r@ == "/gamestate"@ + grid_text(self.seen()),
    {
        let n = self.map_size;
        let ghost s = self.seen();
        proof {
            self.lemma_rows();
        }
        let mut string = String::from_str("/gamestate");
        let mut y: usize = 0;
        while y < n
            invariant
                is_square(s, n as nat),
                self.vision@.len() == n,
                forall|r: int| 0 <= r < n ==> #[trigger] self.vision@[r]@ == s[r],
                s == self.seen(),
                0 <= y <= n,
                string@ == "/gamestate"@ + grid_text(s.take(y as int)),
            decreases n - y,
        {
            let row = &self.vision[y];
            assert(row@ == s[y as int]);
            let mut x: usize = 0;
            while x < n
                invariant
                    0 <= y < n,
                    n == s.len(),
                    row@ == s[y as int],
                    row@.len() == n,
                    0 <= x <= n,
                    string@ == "/gamestate"@ + grid_text(s.take(y as int)) + row_text(row@.take(x as int)),
                decreases n - x,
            {
                let v = row[x];
                string.append(" ");
                let d = decimal_string(v as u64);
                string.append(d.as_str());
                proof {
                    assert(row@.take(x + 1).drop_last() =~= row@.take(x as int));
                }
                x += 1;
            }
            proof {
                assert(row@.take(n as int) =~= row@);
                assert(s.take(y + 1).drop_last() =~= s.take(y as int));
            }
            y += 1;
        }
        proof {
            assert(s.take(n as int) =~= s);
        }
        string
    }

    /// The message that carries every flag: `/flag` and each flag's column and row.
    pub fn get_flags(&self) -> (r: String)
        ensures
            r@ == "/flag"@ + all_flags_text(self.sessions@),
    {
        let ghost ss = self.sessions@;
        let mut string = String::from_str("/flag");
        let mut i: usize = 0;
        while i < self.sessions.len()
            invariant
                ss == self.sessions@,
                0 <= i <= ss.len(),
                string@ == "/flag"@ + all_flags_text(ss.take(i as int)),
            decreases ss.len() - i,
        {
            let flags = &self.sessions[i].flags;
            let mut j: usize = 0;
            while j < flags.len()
                invariant
                    0 <= i < ss.len(),
                    flags == ss[i as int].flags,
                    0 <= j <= flags@.len(),
                    string@ == "/flag"@ + all_flags_text(ss.take(i as int)) + flag_list_text(flags@.take(j as int)),
                decreases flags@.len() - j,
            {
                let f = flags[j];
                string.append(" ");
                let a = decimal_string(f.0 as u64);
                string.append(a.as_str());
                string.append(" ");
                let c = decimal_string(f.1 as u64);
                string.append(c.as_str());
                proof {
                    assert(flags@.take(j + 1).drop_last() =~= flags@.take(j as int));
                }
                j += 1;
            }
            proof {
                assert(flags@.take(flags@.len() as int) =~= flags@);
                assert(ss.take(i + 1).drop_last() =~= ss.take(i as int));
            }
            i += 1;
        }
        proof {
            assert(ss.take(ss.len() as int) =~= ss);
        }
        string
    }
    /// The board as the room prints it for debugging (see `board_picture`).
    pub fn debug_picture(&self) -> (r: String)
        requires
            self.wf(),
        ensures
            r@ == board_picture(self.board(), self.map_size as int, self.map_size as nat),
    {
        let n = self.map_size;
        let ghost b = self.board();
        proof {
            self.lemma_rows();
        }
        let mut string = String::from_str("\n");
        let mut y: usize = 0;
        while y < n
            invariant
                self.wf(),
                n == self.map_size,
                b == self.board(),
                self.map@.len() == n,
                forall|r: int| 0 <= r < n ==> #[trigger] self.map@[r]@ == b[r] && self.map@[r]@.len() == n,
                0 <= y <= n,
                string@ == board_picture(b, n as int, y as nat),
            decreases n - y,
        {
            let row = &self.map[y];
            assert(row@ == b[y as int]);
            let mut x: usize = 0;
            while x < n
                invariant
                    self.wf(),
                    n == self.map_size,
                    b == self.board(),
                    0 <= y < n,
                    row@ == b[y as int],
                    row@.len() == n,
                    0 <= x <= n,
                    string@ == board_picture(b, n as int, y as nat) + board_row_picture(b, n as int, y as int, x as nat),
                decreases n - x,
            {
                if row[x] == 1 {
                    string.append("*");
                } else {
                    let d = decimal_string(self.nearby_mines(x, y) as u64);
                    string.append(d.as_str());
                }
                string.append(" ");
                x += 1;
            }
            string.append("\n");
            y += 1;
        }
        string
    }

    /// The view as the room prints it for debugging (see `view_picture`).
    pub fn vision_picture(&self) -> (r: String)
        requires
            self.wf(),
        ensures
            r@ == view_picture(self.seen()),
    {
        let n = self.map_size;
        let ghost s = self.seen();
        proof {
            self.lemma_rows();
        }
        let mut string = String::from_str("\n");
        let mut y: usize = 0;
        while y < n
            invariant
                is_square(s, n as nat),
                self.vision@.len() == n,
                forall|r: int| 0 <= r < n ==> #[trigger] self.vision@[r]@ == s[r],
                0 <= y <= n,
                string@ == view_picture(s.take(y as int)),
            decreases n - y,
        {
            let row = &self.vision[y];
            assert(row@ == s[y as int]);
            let mut x: usize = 0;
            while x < n
                invariant
                    0 <= y < n,
                    n == s.len(),
                    row@ == s[y as int],
                    row@.len() == n,
                    0 <= x <= n,
                    string@ == view_picture(s.take(y as int)) + view_row_picture(row@.take(x as int)),
                decreases n - x,
            {
                let v = row[x];
                if v == HIDDEN {
                    string.append("#");
                } else {
                    let d = decimal_string(v as u64);
                    string.append(d.as_str());
                }
                string.append(" ");
                proof {
                    assert(row@.take(x + 1).drop_last() =~= row@.take(x as int));
                }
                x += 1;
            }
            proof {
                assert(row@.take(n as int) =~= row@);
                assert(s.take(y + 1).drop_last() =~= s.take(y as int));
            }
            string.append("\n");
            y += 1;
        }
        proof {
            assert(s.take(n as int) =~= s);
        }
        string
    }
}

} // verus!
