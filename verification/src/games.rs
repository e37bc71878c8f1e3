//! The lobby: every room, every user online, and what each request does to them and
//! which messages it sends to which connection.
use vstd::prelude::*;
use vstd::string::StringExecFns;
use crate::minesweeper::{
    Minesweeper, Player, grid_text, all_flags_text, has_player, same_room, fresh_color, flagged,
    flag_placeable, flag_toggled, step_outcome, stepped, reset_from, same_but_flags,
};
use crate::json::{json_quote, json_quoted};
use crate::text::{decimal, decimal_string, same_text};

verus! {

/// A text message for one connection.
pub struct ServerMsg {
    pub data: String,
}

/// A message and the connection it goes to.
pub struct Delivery {
    pub to: u64,
    pub msg: ServerMsg,
}

/// Asks for the list of rooms.
pub struct GameList;

/// A user at connection `addr` asks to join room `gameid`.
pub struct ConnectToGame {
    pub gameid: String,
    pub addr: u64,
    pub username: String,
}

/// A user at connection `addr` opens room `gameid` with the given board and seats.
pub struct CreateRoom {
    pub gameid: String,
    pub username: String,
    pub addr: u64,
    pub gamesize: u8,
    pub mines: u8,
    pub maxplayers: u8,
}

/// A user at connection `addr` leaves room `gameid`.
pub struct DisconnectFromGame {
    pub username: String,
    pub addr: u64,
    pub gameid: String,
}

/// A user steps on (x, y) in room `gameid`.
pub struct MakeMove {
    pub gameid: String,
    pub username: String,
    pub addr: u64,
    pub x: usize,
    pub y: usize,
}

/// A user asks for the view of the rooms they sit in.
pub struct GameState {
    pub addr: u64,
    pub username: String,
}

/// A user toggles a flag on (x, y) in room `gameid`.
pub struct PlaceFlag {
    pub gameid: String,
    pub name: String,
    pub addr: u64,
    pub x: usize,
    pub y: usize,
}

/// Someone asks for a lost game in room `gameid` to start over.
pub struct ResetGame {
    pub gameid: String,
}

/// The first player of room `gameid` sends `target_username` out of it.
pub struct Kick {
    pub gameid: String,
    pub username: String,
    pub target_username: String,
}

/// A user asks for a new colour in room `gameid`.
pub struct ChangeColor {
    pub username: String,
    pub gameid: String,
}

/// A user comes online at connection `addr`.
pub struct Online {
    pub username: String,
    pub addr: u64,
}

/// A user at connection `addr` goes offline.
pub struct Offline {
    pub username: String,
    pub addr: u64,
}

/// Every room with its name, and every user online with their connection.
pub struct Games {
    pub game_list: Vec<(String, Minesweeper)>,
    pub user_list: Vec<(String, u64)>,
}

/// The messages in a list of deliveries, as (connection, text) pairs.
pub open spec fn sent(out: Seq<Delivery>) -> Seq<(u64, Seq<char>)> {
    out.map_values(|d: Delivery| (d.to, d.msg.data@))
}

/// No two players of a room share a name.
pub open spec fn names_distinct(ss: Seq<Player>) -> bool {
    forall|i: int, j: int| 0 <= i < ss.len() && 0 <= j < ss.len() && i != j
        ==> (#[trigger] ss[i]).name@ != (#[trigger] ss[j]).name@
}

/// The names and colours of the players, each after a space.
pub open spec fn players_text(ss: Seq<Player>) -> Seq<char>
    decreases ss.len(),
{
    if ss.len() == 0 {
        Seq::empty()
    } else {
        players_text(ss.drop_last()) + " "@ + ss.last().name@ + " "@ + ss.last().color@
    }
}

/// The message that lists a room's players.
pub open spec fn playerlist_text(ss: Seq<Player>) -> Seq<char> {
    "/players"@ + players_text(ss)
}

/// The message that tells how many seats of a room are taken.
pub open spec fn playernum_text(count: nat, max: nat) -> Seq<char> {
    "/playernum "@ + decimal(count) + "/"@ + decimal(max)
}

/// What the first `k` players of a room are told when its players change: the first
/// that they moderate, then each the seat count and the player list.
pub open spec fn roster_msgs(ss: Seq<Player>, max: u8, k: nat) -> Seq<(u64, Seq<char>)>
    decreases k,
{
    if k == 0 || k > ss.len() {
        Seq::empty()
    } else {
        let p = ss[k - 1];
        roster_msgs(ss, max, (k - 1) as nat)
            + (if k == 1 { seq![(p.addr, "/moderator"@)] } else { Seq::empty() })
            + seq![(p.addr, playernum_text(ss.len(), max as nat)), (p.addr, playerlist_text(ss))]
    }
}

/// What every user online is told when the list of rooms changes.
pub open spec fn rooms_msgs(users: Seq<(String, u64)>) -> Seq<(u64, Seq<char>)>
    decreases users.len(),
{
    if users.len() == 0 {
        Seq::empty()
    } else {
        rooms_msgs(users.drop_last()) + seq![(users.last().1, "/updaterooms"@)]
    }
}

/// The view message of a room.
pub open spec fn state_text(g: Minesweeper) -> Seq<char> {
    "/gamestate"@ + grid_text(g.seen())
}

/// The flags message of a room.
pub open spec fn flags_text(g: Minesweeper) -> Seq<char> {
    "/flag"@ + all_flags_text(g.sessions@)
}

/// The user (name, addr) is online.
pub open spec fn user_online(users: Seq<(String, u64)>, name: Seq<char>, addr: u64) -> bool {
    exists|i: int| 0 <= i < users.len() && (#[trigger] users[i]).0@ == name && users[i].1 == addr
}

/// The view message of a room, sent to each of its players called `name`.
pub open spec fn name_state_msgs(ss: Seq<Player>, name: Seq<char>, text: Seq<char>) -> Seq<(u64, Seq<char>)>
    decreases ss.len(),
{
    if ss.len() == 0 {
        Seq::empty()
    } else {
        name_state_msgs(ss.drop_last(), name, text)
            + if ss.last().name@ == name { seq![(ss.last().addr, text)] } else { Seq::empty() }
    }
}

/// The view messages of every room, sent to each of its players called `name`.
pub open spec fn all_state_msgs(games: Seq<(String, Minesweeper)>, name: Seq<char>) -> Seq<(u64, Seq<char>)>
    decreases games.len(),
{
    if games.len() == 0 {
        Seq::empty()
    } else {
        all_state_msgs(games.drop_last(), name)
            + name_state_msgs(games.last().1.sessions@, name, state_text(games.last().1))
    }
}

/// The seat of the player called `name` (the only one, where names are distinct).
pub open spec fn seat_of(ss: Seq<Player>, name: Seq<char>) -> int {
    choose|i: int| 0 <= i < ss.len() && (#[trigger] ss[i]).name@ == name
}

/// The players of a room once the player called `name`, if any, has left.
pub open spec fn without(ss: Seq<Player>, name: Seq<char>) -> Seq<Player> {
    if has_player(ss, name) { ss.remove(seat_of(ss, name)) } else { ss }
}

/// The `/quitedroom` notices, to connection `addr`, for each room that `name` leaves.
pub open spec fn quit_msgs(games: Seq<(String, Minesweeper)>, name: Seq<char>, addr: u64) -> Seq<(u64, Seq<char>)>
    decreases games.len(),
{
    if games.len() == 0 {
        Seq::empty()
    } else {
        quit_msgs(games.drop_last(), name, addr)
            + if has_player(games.last().1.sessions@, name) { seq![(addr, "/quitedroom"@)] } else { Seq::empty() }
    }
}

/// Room `r` of `after` is room `r` of `before` with the same name and board.
pub open spec fn same_place(after: Seq<(String, Minesweeper)>, before: Seq<(String, Minesweeper)>, r: int) -> bool {
    &&& after[r].0 == before[r].0
    &&& same_room(after[r].1, before[r].1)
}

/// A newcomer called `name` at connection `addr`, who wears a colour that `fresh_color`
/// allows among the players `ss`.
pub open spec fn newcomer(p: Player, name: String, addr: u64, ss: Seq<Player>) -> bool {
    &&& p.name == name
    &&& p.addr == addr
    &&& !p.ready
    &&& p.flags@.len() == 0
    &&& fresh_color(ss, p.color@)
}

/// Room `g` is called `gameid` and has a free seat once `name` has left it.
pub open spec fn joinable(g: (String, Minesweeper), gameid: Seq<char>, name: Seq<char>) -> bool {
    g.0@ == gameid && without(g.1.sessions@, name).len() < g.1.maxplayers
}

/// What a player who just sat down in room `g` is told: the board size, the view, and
/// either that the game is lost or the flags.
pub open spec fn welcome_msgs(g: Minesweeper, addr: u64) -> Seq<(u64, Seq<char>)> {
    seq![
        (addr, "/joinedroom "@ + decimal(g.map_size as nat)),
        (addr, state_text(g)),
        (addr, if g.gameover { "/gameover"@ } else { flags_text(g) }),
    ]
}

/// Once `name` has left a room whose players' names are distinct, nobody in it is
/// called `name` and the other names stay distinct.
pub(crate) proof fn lemma_without(ss: Seq<Player>, name: Seq<char>)
    requires
        names_distinct(ss),
    ensures
        !has_player(without(ss, name), name),
        names_distinct(without(ss, name)),
        has_player(ss, name) ==> without(ss, name).len() + 1 == ss.len(),
        !has_player(ss, name) ==> without(ss, name) == ss,
{
    if has_player(ss, name) {
        let c = seat_of(ss, name);
        let w = ss.remove(c);
        assert forall|a: int| 0 <= a < w.len() implies #[trigger] w[a] == if a < c { ss[a] } else { ss[a + 1] } by {}
        if has_player(w, name) {
            let a = choose|a: int| 0 <= a < w.len() && (#[trigger] w[a]).name@ == name;
            let a2 = if a < c { a } else { a + 1 };
            assert(ss[a2].name@ == name);
        }
        assert forall|a: int, b: int| 0 <= a < w.len() && 0 <= b < w.len() && a != b
            implies (#[trigger] w[a]).name@ != (#[trigger] w[b]).name@ by {
            let a2 = if a < c { a } else { a + 1 };
            let b2 = if b < c { b } else { b + 1 };
            assert(w[a] == ss[a2] && w[b] == ss[b2]);
        }
    }
}

/// The view and the flags of room `g`, sent to each of the players `ss`.
pub open spec fn view_msgs(ss: Seq<Player>, g: Minesweeper) -> Seq<(u64, Seq<char>)>
    decreases ss.len(),
{
    if ss.len() == 0 {
        Seq::empty()
    } else {
        view_msgs(ss.drop_last(), g) + seq![(ss.last().addr, state_text(g)), (ss.last().addr, flags_text(g))]
    }
}

/// Room `g` is called `gameid` and its first player is called `name`.
pub open spec fn moderated_by(g: (String, Minesweeper), gameid: Seq<char>, name: Seq<char>) -> bool {
    &&& g.0@ == gameid
    &&& g.1.sessions@.len() > 0
    &&& g.1.sessions@[0].name@ == name
}

/// Looking for a room called `gameid` whose first player is `name`, no empty room of
/// that name comes before it.
pub open spec fn kick_reaches(games: Seq<(String, Minesweeper)>, gameid: Seq<char>, name: Seq<char>) -> bool {
    forall|k: int| 0 <= k < games.len() && (#[trigger] games[k]).0@ == gameid && games[k].1.sessions@.len() == 0
        ==> exists|m: int| 0 <= m < k && #[trigger] moderated_by(games[m], gameid, name)
}

/// What happens when the player called `name` is taken out of room `j`: `to` hears
/// `/quitedroom` if the player sat there; a room left empty by it is closed and every
/// user online hears that the rooms changed; otherwise the room keeps the others, who
/// get the view, the flags and the roster, and every user online hears that the rooms
/// changed.
pub open spec fn expelled(
    before: Seq<(String, Minesweeper)>,
    after: Seq<(String, Minesweeper)>,
    users: Seq<(String, u64)>,
    j: int,
    name: Seq<char>,
    to: u64,
    msgs: Seq<(u64, Seq<char>)>,
) -> bool {
    let ss = before[j].1.sessions@;
    let present = has_player(ss, name);
    if present && ss.len() == 1 {
        &&& after == before.remove(j)
        &&& msgs == seq![(to, "/quitedroom"@)] + rooms_msgs(users)
    } else {
        &&& after.len() == before.len()
        &&& forall|q: int| 0 <= q < before.len() && q != j ==> #[trigger] after[q] == before[q]
        &&& same_place(after, before, j)
        &&& after[j].1.sessions@ == without(ss, name)
        &&& msgs == (if present { seq![(to, "/quitedroom"@)] } else { Seq::empty() })
            + view_msgs(after[j].1.sessions@, after[j].1)
            + roster_msgs(after[j].1.sessions@, after[j].1.maxplayers, after[j].1.sessions@.len())
            + rooms_msgs(users)
    }
}

/// The message that tells where a player acted, and in which colour.
pub open spec fn moved_text(x: int, y: int, color: Seq<char>) -> Seq<char> {
    "/moved "@ + decimal(x as nat) + " "@ + decimal(y as nat) + " "@ + color
}

/// The colour of the player called `name`.
pub open spec fn color_of(ss: Seq<Player>, name: Seq<char>) -> Seq<char> {
    ss[seat_of(ss, name)].color@
}

/// Room `k` is the first room called `gameid` whose game is not lost.
pub open spec fn first_open_room(games: Seq<(String, Minesweeper)>, gameid: Seq<char>, k: int) -> bool {
    &&& 0 <= k < games.len()
    &&& games[k].0@ == gameid
    &&& !games[k].1.gameover
    &&& forall|m: int| 0 <= m < k ==> !((#[trigger] games[m]).0@ == gameid && !games[m].1.gameover)
}

/// The flags of room `g` and the message `moved`, sent to each of the players `ss`.
pub open spec fn flag_msgs(ss: Seq<Player>, g: Minesweeper, moved: Seq<char>) -> Seq<(u64, Seq<char>)>
    decreases ss.len(),
{
    if ss.len() == 0 {
        Seq::empty()
    } else {
        flag_msgs(ss.drop_last(), g, moved) + seq![(ss.last().addr, flags_text(g)), (ss.last().addr, moved)]
    }
}

/// The view of room `g` and the message `moved`, sent to each of the players `ss`,
/// and `/gameover` with `name` after them when `lost`.
pub open spec fn move_msgs(ss: Seq<Player>, g: Minesweeper, moved: Seq<char>, lost: bool, name: Seq<char>) -> Seq<(u64, Seq<char>)>
    decreases ss.len(),
{
    if ss.len() == 0 {
        Seq::empty()
    } else {
        move_msgs(ss.drop_last(), g, moved, lost, name) + seq![(ss.last().addr, state_text(g)), (ss.last().addr, moved)]
            + if lost { seq![(ss.last().addr, "/gameover "@ + name)] } else { Seq::empty() }
    }
}

/// Room `g` takes a step on (x, y) by `name`: it is called `gameid`, no flag lies on
/// (x, y), and a player is called `name`.
pub open spec fn acts(g: (String, Minesweeper), gameid: Seq<char>, x: int, y: int, name: Seq<char>) -> bool {
    &&& g.0@ == gameid
    &&& !flagged(g.1.sessions@, x, y)
    &&& has_player(g.1.sessions@, name)
}

/// What a room that takes the step sends: on "moved" the view and where the step was,
/// on "mine" the same and that the game is lost, on "not moving" nothing.
pub open spec fn room_move_msgs(before: (String, Minesweeper), after: Minesweeper, gameid: Seq<char>, x: int, y: int, name: Seq<char>) -> Seq<(u64, Seq<char>)> {
    if acts(before, gameid, x, y, name) {
        let outcome = step_outcome(before.1, x, y);
        let moved = moved_text(x, y, color_of(before.1.sessions@, name));
        if outcome == "moved"@ {
            move_msgs(after.sessions@, after, moved, false, name)
        } else if outcome == "mine"@ {
            move_msgs(after.sessions@, after, moved, true, name)
        } else {
            Seq::empty()
        }
    } else {
        Seq::empty()
    }
}

/// The messages of the first `k` rooms for a step.
pub open spec fn moves_msgs(before: Seq<(String, Minesweeper)>, after: Seq<(String, Minesweeper)>, k: nat, gameid: Seq<char>, x: int, y: int, name: Seq<char>) -> Seq<(u64, Seq<char>)>
    decreases k,
{
    if k == 0 {
        Seq::empty()
    } else {
        moves_msgs(before, after, (k - 1) as nat, gameid, x, y, name)
            + room_move_msgs(before[k - 1], after[k - 1].1, gameid, x, y, name)
    }
}

/// Room `g` is called `gameid` and its game is lost.
pub open spec fn resets(g: (String, Minesweeper), gameid: Seq<char>) -> bool {
    g.0@ == gameid && g.1.gameover
}

/// `/resetgame` and the view of room `g`, sent to each of the players `ss`.
pub open spec fn reset_msgs(ss: Seq<Player>, g: Minesweeper) -> Seq<(u64, Seq<char>)>
    decreases ss.len(),
{
    if ss.len() == 0 {
        Seq::empty()
    } else {
        reset_msgs(ss.drop_last(), g) + seq![(ss.last().addr, "/resetgame"@), (ss.last().addr, state_text(g))]
    }
}

/// The messages of the first `k` rooms when rooms called `gameid` start over.
pub open spec fn resets_msgs(before: Seq<(String, Minesweeper)>, after: Seq<(String, Minesweeper)>, k: nat, gameid: Seq<char>) -> Seq<(u64, Seq<char>)>
    decreases k,
{
    if k == 0 {
        Seq::empty()
    } else {
        resets_msgs(before, after, (k - 1) as nat, gameid)
            + if resets(before[k - 1], gameid) { reset_msgs(after[k - 1].1.sessions@, after[k - 1].1) } else { Seq::empty() }
    }
}

/// Room `g` is called `gameid`, its game is lost, and a player is called `name`.
pub open spec fn recolors(g: (String, Minesweeper), gameid: Seq<char>, name: Seq<char>) -> bool {
    g.0@ == gameid && g.1.gameover && has_player(g.1.sessions@, name)
}

/// One room of the list as JSON: its name, player count and seat count, as strings.
pub open spec fn room_json(g: (String, Minesweeper)) -> Seq<char> {
    "["@ + json_quoted(g.0@) + ","@ + json_quoted(decimal(g.1.sessions@.len())) + ","@
        + json_quoted(decimal(g.1.maxplayers as nat)) + "]"@
}

/// The rooms of the list as JSON array members.
pub open spec fn rooms_json(games: Seq<(String, Minesweeper)>) -> Seq<char>
    decreases games.len(),
{
    if games.len() == 0 {
        Seq::empty()
    } else if games.len() == 1 {
        room_json(games[0])
    } else {
        rooms_json(games.drop_last()) + ","@ + room_json(games.last())
    }
}

/// The messages of the first `k` rooms depend only on those rooms.
proof fn lemma_moves_msgs_prefix(
    before: Seq<(String, Minesweeper)>,
    a: Seq<(String, Minesweeper)>,
    b: Seq<(String, Minesweeper)>,
    k: nat,
    gameid: Seq<char>,
    x: int,
    y: int,
    name: Seq<char>,
)
    requires
        k <= a.len(),
        k <= b.len(),
        forall|q: int| 0 <= q < k ==> #[trigger] a[q] == b[q],
    ensures
        moves_msgs(before, a, k, gameid, x, y, name) == moves_msgs(before, b, k, gameid, x, y, name),
    decreases k,
{
    if k > 0 {
        lemma_moves_msgs_prefix(before, a, b, (k - 1) as nat, gameid, x, y, name);
        assert(a[k - 1] == b[k - 1]);
    }
}

/// The reset messages of the first `k` rooms depend only on those rooms.
proof fn lemma_resets_msgs_prefix(
    before: Seq<(String, Minesweeper)>,
    a: Seq<(String, Minesweeper)>,
    b: Seq<(String, Minesweeper)>,
    k: nat,
    gameid: Seq<char>,
)
    requires
        k <= a.len(),
        k <= b.len(),
        forall|q: int| 0 <= q < k ==> #[trigger] a[q] == b[q],
    ensures
        resets_msgs(before, a, k, gameid) == resets_msgs(before, b, k, gameid),
    decreases k,
{
    if k > 0 {
        lemma_resets_msgs_prefix(before, a, b, (k - 1) as nat, gameid);
        assert(a[k - 1] == b[k - 1]);
    }
}

/// The seat of the first player called `name`, if any.
fn find_seat(ss: &Vec<Player>, name: &String) -> (r: Option<usize>)
    ensures
        r is None <==> !has_player(ss@, name@),
        r matches Some(k) ==> k < ss@.len() && ss@[k as int].name@ == name@
            && forall|m: int| 0 <= m < k ==> (#[trigger] ss@[m]).name@ != name@,
{
    let mut k: usize = 0;
    while k < ss.len()
        invariant
            0 <= k <= ss@.len(),
            forall|m: int| 0 <= m < k ==> (#[trigger] ss@[m]).name@ != name@,
        decreases ss@.len() - k,
    {
        if ss[k].name == *name {
            return Some(k);
        }
        k += 1;
    }
    None
}

/// Adds a message for connection `to` to the deliveries.
fn send(out: &mut Vec<Delivery>, to: u64, data: String)
    ensures
        sent(final(out)@) == sent(old(out)@).push((to, data@)),
{
    out.push(Delivery { to, msg: ServerMsg { data } });
    proof {
        assert(sent(out@) =~= sent(old(out)@).push((to, data@)));
    }
}

/// The message that lists the players.
fn playerlist_message(ss: &Vec<Player>) -> (r: String)
    ensures
        r@ == playerlist_text(ss@),
{
    let mut r = String::from_str("/players");
    let mut i: usize = 0;
    while i < ss.len()
        invariant
            0 <= i <= ss@.len(),
            r@ == "/players"@ + players_text(ss@.take(i as int)),
        decreases ss@.len() - i,
    {
        r.append(" ");
        r.append(ss[i].name.as_str());
        r.append(" ");
        r.append(ss[i].color.as_str());
        proof {
            assert(ss@.take(i + 1).drop_last() =~= ss@.take(i as int));
        }
        i += 1;
    }
    proof {
        assert(ss@.take(ss@.len() as int) =~= ss@);
    }
    r
}

/// The seat-count message.
fn playernum_message(count: usize, max: u8) -> (r: String)
    ensures
        r@ == playernum_text(count as nat, max as nat),
{
    let mut r = String::from_str("/playernum ");
    let c = decimal_string(count as u64);
    r.append(c.as_str());
    r.append("/");
    let m = decimal_string(max as u64);
    r.append(m.as_str());
    r
}

impl Games {
    /// The lobby is well formed: every room is, no two players of a room share a name,
    /// and no user is online twice at the same connection.
    pub open spec fn wf(&self) -> bool {
        &&& forall|i: int| 0 <= i < self.game_list@.len() ==> (#[trigger] self.game_list@[i]).1.wf()
        &&& forall|i: int| 0 <= i < self.game_list@.len() ==> names_distinct((#[trigger] self.game_list@[i]).1.sessions@)
        &&& forall|i: int, j: int| 0 <= i < self.user_list@.len() && 0 <= j < self.user_list@.len() && i != j
            ==> (#[trigger] self.user_list@[i]).0@ != (#[trigger] self.user_list@[j]).0@
                || self.user_list@[i].1 != self.user_list@[j].1
    }

    /// An empty lobby.
    pub fn new() -> (r: Self)
        ensures
            r.wf(),
            r.game_list@.len() == 0,
            r.user_list@.len() == 0,
    {
        Self { game_list: Vec::new(), user_list: Vec::new() }
    }

    /// Tells the players of room `idx` the seat count and the player list, and the
    /// first of them that they moderate.
    fn update_playerlist(&self, idx: usize, out: &mut Vec<Delivery>)
        requires
            idx < self.game_list@.len(),
        ensures
            sent(final(out)@) == sent(old(out)@) + roster_msgs(self.game_list@[idx as int].1.sessions@,
                self.game_list@[idx as int].1.maxplayers, self.game_list@[idx as int].1.sessions@.len()),
    {
        let game = &self.game_list[idx].1;
        let ghost ss = game.sessions@;
        let playerlist = playerlist_message(&game.sessions);
        let mut k: usize = 0;
        while k < game.sessions.len()
            invariant
                ss == game.sessions@,
                0 <= k <= ss.len(),
                playerlist@ == playerlist_text(ss),
                sent(out@) == sent(old(out)@) + roster_msgs(ss, game.maxplayers, k as nat),
            decreases ss.len() - k,
        {
            let addr = game.sessions[k].addr;
            if k == 0 {
                send(out, addr, String::from_str("/moderator"));
            }
            let num = playernum_message(game.sessions.len(), game.maxplayers);
            send(out, addr, num);
            send(out, addr, playerlist.clone());
            proof {
                assert(sent(out@) =~= sent(old(out)@) + roster_msgs(ss, game.maxplayers, (k + 1) as nat));
            }
            k += 1;
        }
    }

    /// Tells every user online that the list of rooms changed.
    fn update_rooms(&self, out: &mut Vec<Delivery>)
        ensures
            sent(final(out)@) == sent(old(out)@) + rooms_msgs(self.user_list@),
    {
        let ghost us = self.user_list@;
        let mut i: usize = 0;
        while i < self.user_list.len()
            invariant
                us == self.user_list@,
                0 <= i <= us.len(),
                sent(out@) == sent(old(out)@) + rooms_msgs(us.take(i as int)),
            decreases us.len() - i,
        {
            send(out, self.user_list[i].1, String::from_str("/updaterooms"));
            proof {
                assert(us.take(i + 1).drop_last() =~= us.take(i as int));
                assert(sent(out@) =~= sent(old(out)@) + rooms_msgs(us.take(i + 1)));
            }
            i += 1;
        }
        proof {
            assert(us.take(us.len() as int) =~= us);
        }
    }

    /// A user comes online: they are added to the users online unless already there,
    /// and told `/online` and their name.
    pub fn online(&mut self, msg: Online, out: &mut Vec<Delivery>)
        requires
            old(self).wf(),
        ensures
            final(self).wf(),
            final(self).game_list == old(self).game_list,
            final(self).user_list@ == if user_online(old(self).user_list@, msg.username@, msg.addr) {
                old(self).user_list@
            } else {
                old(self).user_list@.push((msg.username, msg.addr))
            },
            sent(final(out)@) == sent(old(out)@).push((msg.addr, "/online "@ + msg.username@)),
    {
        let mut text = String::from_str("/online ");
        text.append(msg.username.as_str());
        let mut found = false;
        let mut i: usize = 0;
        while i < self.user_list.len()
            invariant
                0 <= i <= self.user_list@.len(),
                found <==> exists|j: int| 0 <= j < i && (#[trigger] self.user_list@[j]).0@ == msg.username@
                    && self.user_list@[j].1 == msg.addr,
            decreases self.user_list@.len() - i,
        {
            if self.user_list[i].0 == msg.username && self.user_list[i].1 == msg.addr {
                found = true;
            }
            i += 1;
        }
        let addr = msg.addr;
        if !found {
            self.user_list.push((msg.username, msg.addr));
            proof {
                let us = self.user_list@;
                let olds = old(self).user_list@;
                assert forall|a: int, b: int| 0 <= a < us.len() && 0 <= b < us.len() && a != b
                    implies (#[trigger] us[a]).0@ != (#[trigger] us[b]).0@ || us[a].1 != us[b].1 by {
                    if a < olds.len() && b < olds.len() {
                        assert(us[a] == olds[a] && us[b] == olds[b]);
                    } else if a < olds.len() {
                        assert(us[a] == olds[a]);
                    } else {
                        assert(us[b] == olds[b]);
                    }
                }
            }
        }
        send(out, addr, text);
    }

    /// A user goes offline: (name, addr) leaves the users online.
    pub fn offline(&mut self, msg: Offline)
        requires
            old(self).wf(),
        ensures
            final(self).wf(),
            final(self).game_list == old(self).game_list,
            !user_online(old(self).user_list@, msg.username@, msg.addr) ==> final(self).user_list@ == old(self).user_list@,
            user_online(old(self).user_list@, msg.username@, msg.addr) ==> exists|i: int|
                0 <= i < old(self).user_list@.len() && (#[trigger] old(self).user_list@[i]).0@ == msg.username@
                    && old(self).user_list@[i].1 == msg.addr
                    && final(self).user_list@ == old(self).user_list@.remove(i),
    {
        let mut i: usize = 0;
        while i < self.user_list.len()
            invariant
                *self == *old(self),
                old(self).wf(),
                0 <= i <= self.user_list@.len(),
                forall|j: int| 0 <= j < i ==> (#[trigger] self.user_list@[j]).0@ != msg.username@
                    || self.user_list@[j].1 != msg.addr,
            decreases self.user_list@.len() - i,
        {
            if self.user_list[i].0 == msg.username && self.user_list[i].1 == msg.addr {
                self.user_list.remove(i);
                proof {
                    let us = self.user_list@;
                    let olds = old(self).user_list@;
                    assert forall|a: int, b: int| 0 <= a < us.len() && 0 <= b < us.len() && a != b
                        implies (#[trigger] us[a]).0@ != (#[trigger] us[b]).0@ || us[a].1 != us[b].1 by {
                        let a2 = if a < i { a } else { a + 1 };
                        let b2 = if b < i { b } else { b + 1 };
                        assert(us[a] == olds[a2] && us[b] == olds[b2]);
                    }
                }
                return;
            }
            i += 1;
        }
    }

    /// The user called `name` leaves every room they sit in; each room they leave sends
    /// `/quitedroom` to connection `addr`.
    fn leave_rooms(&mut self, name: &String, addr: u64, out: &mut Vec<Delivery>)
        requires
            old(self).wf(),
        ensures
            final(self).wf(),
            final(self).user_list == old(self).user_list,
            final(self).game_list@.len() == old(self).game_list@.len(),
            forall|r: int| 0 <= r < final(self).game_list@.len() ==> #[trigger] same_place(final(self).game_list@, old(self).game_list@, r),
            forall|r: int| 0 <= r < final(self).game_list@.len() ==>
                (#[trigger] final(self).game_list@[r]).1.sessions@ == without(old(self).game_list@[r].1.sessions@, name@),
            sent(final(out)@) == sent(old(out)@) + quit_msgs(old(self).game_list@, name@, addr),
    {
        let ghost gs = old(self).game_list@;
        let mut i: usize = 0;
        while i < self.game_list.len()
            invariant
                self.wf(),
                self.user_list == old(self).user_list,
                gs == old(self).game_list@,
                self.game_list@.len() == gs.len(),
                0 <= i <= gs.len(),
                forall|r: int| 0 <= r < gs.len() ==> #[trigger] same_place(self.game_list@, gs, r),
                forall|r: int| 0 <= r < i ==> (#[trigger] self.game_list@[r]).1.sessions@ == without(gs[r].1.sessions@, name@),
                forall|r: int| i <= r < gs.len() ==> #[trigger] self.game_list@[r] == gs[r],
                sent(out@) == sent(old(out)@) + quit_msgs(gs.take(i as int), name@, addr),
            decreases gs.len() - i,
        {
            let ghost ss = gs[i as int].1.sessions@;
            assert(same_place(self.game_list@, gs, i as int));
            assert(self.game_list@[i as int] == gs[i as int]);
            let mut k: usize = 0;
            let mut found = false;
            while k < self.game_list[i].1.sessions.len() && !found
                invariant
                    self.game_list@[i as int] == gs[i as int],
                    ss == gs[i as int].1.sessions@,
                    0 <= i < gs.len(),
                    self.game_list@.len() == gs.len(),
                    0 <= k <= ss.len(),
                    !found ==> forall|m: int| 0 <= m < k ==> (#[trigger] ss[m]).name@ != name@,
                    found ==> k < ss.len() && ss[k as int].name@ == name@,
                decreases ss.len() - k + if found { 0int } else { 1int },
            {
                if self.game_list[i].1.sessions[k].name == *name {
                    found = true;
                } else {
                    k += 1;
                }
            }
            let ghost before = sent(out@);
            let ghost head = self.game_list@;
            if found {
                proof {
                    assert(names_distinct(ss));
                    assert(has_player(ss, name@));
                    let c = seat_of(ss, name@);
                    assert(c == k);
                }
                let _ = self.game_list[i].1.remove_player(k);
                send(out, addr, String::from_str("/quitedroom"));
            } else {
                proof {
                    assert(!has_player(ss, name@));
                }
            }
            proof {
                let now = self.game_list@;
                assert(gs.take(i + 1).drop_last() =~= gs.take(i as int));
                assert(sent(out@) =~= sent(old(out)@) + quit_msgs(gs.take(i + 1), name@, addr));
                assert forall|r: int| 0 <= r < gs.len() implies
                    #[trigger] same_place(self.game_list@, gs, r)
                    && (r < i + 1 ==> self.game_list@[r].1.sessions@ == without(gs[r].1.sessions@, name@))
                    && (r >= i + 1 ==> self.game_list@[r] == gs[r])
                by {
                    assert(same_place(head, gs, r));
                    if r != i {
                        assert(now[r] == head[r]);
                    }
                }
                let ts = now[i as int].1.sessions@;
                assert forall|a: int, b: int| 0 <= a < ts.len() && 0 <= b < ts.len() && a != b
                    implies (#[trigger] ts[a]).name@ != (#[trigger] ts[b]).name@ by {
                    if found {
                        let a2 = if a < k { a } else { a + 1 };
                        let b2 = if b < k { b } else { b + 1 };
                        assert(ts[a] == ss[a2] && ts[b] == ss[b2]);
                    }
                }
                assert forall|r: int| 0 <= r < now.len() implies (#[trigger] now[r]).1.wf() && names_distinct(now[r].1.sessions@) by {
                    if r != i {
                        assert(now[r] == self.game_list@[r]);
                    }
                }
            }
            i += 1;
        }
        proof {
            assert(gs.take(gs.len() as int) =~= gs);
        }
    }

    /// A user asks to join room `gameid`. They first leave every room they sit in (each
    /// sends `/quitedroom`). Then the first room of that name with a free seat seats
    /// them with a fresh colour, they are welcomed (`welcome_msgs`), every user online
    /// hears that the rooms changed, and the room's players get the new roster; the
    /// answer is "connected". Where no such room is, the answer is an error.
    pub fn connect_to_game(&mut self, msg: ConnectToGame, out: &mut Vec<Delivery>) -> (r: Result<String, ()>)
        requires
            old(self).wf(),
        ensures
            final(self).wf(),
            final(self).user_list == old(self).user_list,
            final(self).game_list@.len() == old(self).game_list@.len(),
            forall|q: int| 0 <= q < final(self).game_list@.len() ==> #[trigger] same_place(final(self).game_list@, old(self).game_list@, q),
            r is Ok <==> exists|j: int| 0 <= j < old(self).game_list@.len()
                && #[trigger] joinable(old(self).game_list@[j], msg.gameid@, msg.username@),
            r is Err ==> {
                &&& forall|q: int| 0 <= q < final(self).game_list@.len() ==>
                    (#[trigger] final(self).game_list@[q]).1.sessions@ == without(old(self).game_list@[q].1.sessions@, msg.username@)
                &&& sent(final(out)@) == sent(old(out)@) + quit_msgs(old(self).game_list@, msg.username@, msg.addr)
            },
            r matches Ok(t) ==> t@ == "connected"@ && exists|j: int| {
                &&& 0 <= j < old(self).game_list@.len()
                &&& #[trigger] joinable(old(self).game_list@[j], msg.gameid@, msg.username@)
                &&& forall|k: int| 0 <= k < j ==> !#[trigger] joinable(old(self).game_list@[k], msg.gameid@, msg.username@)
                &&& forall|q: int| 0 <= q < final(self).game_list@.len() && q != j ==>
                    (#[trigger] final(self).game_list@[q]).1.sessions@ == without(old(self).game_list@[q].1.sessions@, msg.username@)
                &&& final(self).game_list@[j].1.sessions@.drop_last() == without(old(self).game_list@[j].1.sessions@, msg.username@)
                &&& final(self).game_list@[j].1.sessions@.len() == without(old(self).game_list@[j].1.sessions@, msg.username@).len() + 1
                &&& newcomer(final(self).game_list@[j].1.sessions@.last(), msg.username, msg.addr,
                    without(old(self).game_list@[j].1.sessions@, msg.username@))
                &&& final(self).game_list@[j].1.sessions@.len() <= final(self).game_list@[j].1.maxplayers
                &&& forall|q: int| 0 <= q < final(self).game_list@.len()
                    ==> (has_player((#[trigger] final(self).game_list@[q]).1.sessions@, msg.username@) <==> q == j)
                &&& sent(final(out)@) == sent(old(out)@) + quit_msgs(old(self).game_list@, msg.username@, msg.addr)
                    + welcome_msgs(final(self).game_list@[j].1, msg.addr) + rooms_msgs(final(self).user_list@)
                    + roster_msgs(final(self).game_list@[j].1.sessions@, final(self).game_list@[j].1.maxplayers,
                        final(self).game_list@[j].1.sessions@.len())
            },
    {
        let ghost gs = self.game_list@;
        let ConnectToGame { gameid, addr, username } = msg;
        self.leave_rooms(&username, addr, out);
        let ghost mid = self.game_list@;
        let ghost after_leave = sent(out@);
        proof {
            assert forall|q: int| 0 <= q < gs.len() implies #[trigger] joinable(gs[q], gameid@, username@)
                == (mid[q].0@ == gameid@ && mid[q].1.sessions@.len() < mid[q].1.maxplayers) by {
                assert(same_place(mid, gs, q));
            }
        }
        let mut idx: usize = 0;
        while idx < self.game_list.len()
            invariant
                self.wf(),
                old(self).wf(),
                gameid == msg.gameid,
                username == msg.username,
                addr == msg.addr,
                gs == old(self).game_list@,
                self.game_list@ == mid,
                self.user_list == old(self).user_list,
                mid.len() == gs.len(),
                0 <= idx <= gs.len(),
                forall|q: int| 0 <= q < gs.len() ==> #[trigger] same_place(mid, gs, q),
                forall|q: int| 0 <= q < gs.len() ==> (#[trigger] mid[q]).1.sessions@ == without(gs[q].1.sessions@, username@),
                forall|q: int| 0 <= q < gs.len() ==> #[trigger] joinable(gs[q], gameid@, username@)
                    == (mid[q].0@ == gameid@ && mid[q].1.sessions@.len() < mid[q].1.maxplayers),
                forall|k: int| 0 <= k < idx ==> !#[trigger] joinable(gs[k], gameid@, username@),
                sent(out@) == after_leave,
                after_leave == sent(old(out)@) + quit_msgs(gs, username@, addr),
            decreases gs.len() - idx,
        {
            if self.game_list[idx].0 == gameid
                && self.game_list[idx].1.sessions.len() < self.game_list[idx].1.maxplayers as usize {
                proof {
                    assert(joinable(gs[idx as int], gameid@, username@));
                    assert(self.game_list@[idx as int].1.wf());
                    assert(names_distinct(gs[idx as int].1.sessions@));
                    lemma_without(gs[idx as int].1.sessions@, username@);
                }
                let color = self.game_list[idx].1.gen_color();
                let player = Player { name: username, color, addr, ready: false, flags: Vec::new() };
                let ghost p = player;
                self.game_list[idx].1.add_player(player);
                let ghost joined = self.game_list@;
                proof {
                    assert forall|q: int| 0 <= q < joined.len() && q != idx implies #[trigger] joined[q] == mid[q] by {}
                    let ts = joined[idx as int].1.sessions@;
                    let ms = mid[idx as int].1.sessions@;
                    assert forall|a: int, b: int| 0 <= a < ts.len() && 0 <= b < ts.len() && a != b
                        implies (#[trigger] ts[a]).name@ != (#[trigger] ts[b]).name@ by {
                        if a < ms.len() && b < ms.len() {
                            assert(ts[a] == ms[a] && ts[b] == ms[b]);
                        } else if a < ms.len() {
                            assert(ts[a] == ms[a]);
                            assert(!has_player(ms, p.name@));
                        } else {
                            assert(ts[b] == ms[b]);
                            assert(!has_player(ms, p.name@));
                        }
                    }
                    assert forall|q: int| 0 <= q < joined.len() implies (#[trigger] joined[q]).1.wf() && names_distinct(joined[q].1.sessions@) by {
                        if q != idx {
                            assert(joined[q] == mid[q]);
                        }
                    }
                }
                let mut joined_text = String::from_str("/joinedroom ");
                let size_text = decimal_string(self.game_list[idx].1.map_size as u64);
                joined_text.append(size_text.as_str());
                send(out, addr, joined_text);
                let state = self.game_list[idx].1.get_game_state();
                send(out, addr, state);
                if self.game_list[idx].1.gameover {
                    send(out, addr, String::from_str("/gameover"));
                } else {
                    let flags = self.game_list[idx].1.get_flags();
                    send(out, addr, flags);
                }
                proof {
                    assert(sent(out@) =~= after_leave + welcome_msgs(joined[idx as int].1, addr));
                }
                self.update_rooms(out);
                self.update_playerlist(idx, out);
                proof {
                    let fin = self.game_list@;
                    assert(fin[idx as int].1.sessions@ =~= mid[idx as int].1.sessions@.push(p));
                    assert(fin[idx as int].1.sessions@.drop_last() =~= mid[idx as int].1.sessions@);
                    assert forall|q: int| 0 <= q < fin.len() implies #[trigger] same_place(fin, gs, q) by {
                        assert(same_place(mid, gs, q));
                    }
                    assert(joinable(gs[idx as int], gameid@, username@));
                    assert forall|q: int| 0 <= q < fin.len() && q != idx implies
                        (#[trigger] fin[q]).1.sessions@ == without(gs[q].1.sessions@, username@) by {
                        assert(fin[q] == mid[q]);
                    }
                    assert(fin[idx as int].1.sessions@.last() == p);
                    assert(newcomer(p, username, addr, mid[idx as int].1.sessions@));
                    assert(mid[idx as int].1.sessions@ == without(gs[idx as int].1.sessions@, username@));
                    assert(addr == addr);
                    assert(newcomer(p, username, addr, mid[idx as int].1.sessions@));
                    assert(newcomer(p, username, addr, without(gs[idx as int].1.sessions@, username@)));
                    assert(newcomer(fin[idx as int].1.sessions@.last(), username, addr,
                        without(gs[idx as int].1.sessions@, username@)));
                    assert(fin[idx as int].1.sessions@.drop_last() == without(gs[idx as int].1.sessions@, username@));
                    assert(fin[idx as int].1.sessions@.len() == without(gs[idx as int].1.sessions@, username@).len() + 1);
                    assert(forall|k: int| 0 <= k < idx ==> !#[trigger] joinable(gs[k], gameid@, username@));
                    assert forall|q: int| 0 <= q < fin.len() implies
                        (has_player((#[trigger] fin[q]).1.sessions@, username@) <==> q == idx) by {
                        if q == idx {
                            let ts = fin[q].1.sessions@;
                            assert(ts[ts.len() - 1] == p);
                        } else {
                            assert(old(self).game_list@[q].1.wf());
                            lemma_without(gs[q].1.sessions@, username@);
                        }
                    }
                    assert(sent(out@) == sent(old(out)@) + quit_msgs(gs, username@, addr)
                        + welcome_msgs(fin[idx as int].1, addr) + rooms_msgs(self.user_list@)
                        + roster_msgs(fin[idx as int].1.sessions@, fin[idx as int].1.maxplayers,
                            fin[idx as int].1.sessions@.len()));
                }
                return Ok(String::from_str("connected"));
            }
            idx += 1;
        }
        proof {
            assert forall|j: int| 0 <= j < gs.len() implies !#[trigger] joinable(gs[j], gameid@, username@) by {}
        }
        Err(())
    }

    /// A user opens room `gameid`: a new room with a `gamesize`-wide board, `mines` mines
    /// and `maxplayers` seats is added last. The user leaves every room they sit in
    /// (each sends `/quitedroom`), then sits down, with a fresh colour, in the first room
    /// called `gameid`, whether or not it has a free seat: that is the new room unless
    /// an older one has the name. They are told the board size and the view, every user
    /// online hears that the rooms changed, and the room's players get the new roster.
    pub fn create_room(&mut self, msg: CreateRoom, out: &mut Vec<Delivery>)
        requires
            old(self).wf(),
            msg.mines <= msg.gamesize * msg.gamesize,
        ensures
            final(self).wf(),
            final(self).user_list == old(self).user_list,
            final(self).game_list@.len() == old(self).game_list@.len() + 1,
            final(self).game_list@.last().0 == msg.gameid,
            ({
                let room = final(self).game_list@.last().1;
                &&& room.map_size == msg.gamesize
                &&& room.bombs == msg.mines
                &&& room.maxplayers == msg.maxplayers
                &&& !room.gameover
                &&& !room.started
                &&& forall|y: int, x: int| 0 <= x < room.map_size && 0 <= y < room.map_size
                    ==> #[trigger] room.seen()[y][x] == crate::minesweeper::HIDDEN
            }),
            forall|q: int| 0 <= q < old(self).game_list@.len() ==> #[trigger] same_place(final(self).game_list@, old(self).game_list@, q),
            exists|j: int| {
                &&& 0 <= j <= old(self).game_list@.len()
                &&& j < old(self).game_list@.len() ==> (#[trigger] old(self).game_list@[j]).0@ == msg.gameid@
                &&& forall|k: int| 0 <= k < j && k < old(self).game_list@.len() ==> (#[trigger] old(self).game_list@[k]).0@ != msg.gameid@
                &&& forall|q: int| 0 <= q < old(self).game_list@.len() && q != j ==>
                    (#[trigger] final(self).game_list@[q]).1.sessions@ == without(old(self).game_list@[q].1.sessions@, msg.username@)
                &&& j < old(self).game_list@.len() ==> final(self).game_list@[j].1.sessions@.drop_last()
                    == without(old(self).game_list@[j].1.sessions@, msg.username@)
                &&& j < old(self).game_list@.len() ==> final(self).game_list@.last().1.sessions@.len() == 0
                &&& j == old(self).game_list@.len() ==> final(self).game_list@[j].1.sessions@.len() == 1
                &&& final(self).game_list@[j].1.sessions@.len() >= 1
                &&& newcomer(final(self).game_list@[j].1.sessions@.last(), msg.username, msg.addr,
                    final(self).game_list@[j].1.sessions@.drop_last())
                &&& forall|q: int| 0 <= q < final(self).game_list@.len()
                    ==> (has_player((#[trigger] final(self).game_list@[q]).1.sessions@, msg.username@) <==> q == j)
                &&& sent(final(out)@) == sent(old(out)@) + quit_msgs(old(self).game_list@, msg.username@, msg.addr)
                    + seq![(msg.addr, "/joinedroom "@ + decimal(final(self).game_list@[j].1.map_size as nat)),
                        (msg.addr, state_text(final(self).game_list@[j].1))]
                    + rooms_msgs(final(self).user_list@)
                    + roster_msgs(final(self).game_list@[j].1.sessions@, final(self).game_list@[j].1.maxplayers,
                        final(self).game_list@[j].1.sessions@.len())
            },
    {
        let ghost gs = self.game_list@;
        let CreateRoom { gameid, username, addr, gamesize, mines, maxplayers } = msg;
        proof {
            assert(gamesize as usize * gamesize as usize <= 255 * 255) by (nonlinear_arith)
                requires gamesize <= 255;
        }
        let room = Minesweeper::new(gamesize as usize, mines, maxplayers);
        self.game_list.push((gameid.clone(), room));
        let ghost pushed = self.game_list@;
        proof {
            assert forall|q: int| 0 <= q < pushed.len() implies (#[trigger] pushed[q]).1.wf() && names_distinct(pushed[q].1.sessions@) by {
                if q < gs.len() {
                    assert(pushed[q] == gs[q]);
                }
            }
        }
        self.leave_rooms(&username, addr, out);
        let ghost mid = self.game_list@;
        let ghost after_leave = sent(out@);
        proof {
            assert(pushed.drop_last() =~= gs);
            assert(quit_msgs(pushed, username@, addr) =~= quit_msgs(gs, username@, addr));
            assert(same_place(mid, pushed, gs.len() as int));
            assert(mid[gs.len() as int].1.sessions@ =~= Seq::<Player>::empty());
        }
        let mut idx: usize = 0;
        let mut found = false;
        while idx < self.game_list.len() - 1 && !found
            invariant
                found ==> mid[idx as int].0@ == gameid@,
                self.wf(),
                gameid == msg.gameid,
                username == msg.username,
                addr == msg.addr,
                gs == old(self).game_list@,
                self.game_list@ == mid,
                self.user_list == old(self).user_list,
                mid.len() == gs.len() + 1,
                pushed.len() == gs.len() + 1,
                mid[gs.len() as int].0 == gameid,
                0 <= idx <= gs.len(),
                forall|q: int| 0 <= q < mid.len() ==> #[trigger] same_place(mid, pushed, q),
                forall|q: int| 0 <= q < gs.len() ==> #[trigger] pushed[q] == gs[q],
                forall|q: int| 0 <= q < mid.len() ==> (#[trigger] mid[q]).1.sessions@ == without(pushed[q].1.sessions@, username@),
                forall|k: int| 0 <= k < idx ==> (#[trigger] mid[k]).0@ != gameid@,
                sent(out@) == after_leave,
                after_leave == sent(old(out)@) + quit_msgs(gs, username@, addr),
            decreases gs.len() - idx + if found { 0int } else { 1int },
        {
            if self.game_list[idx].0 == gameid {
                found = true;
            } else {
                idx += 1;
            }
        }
        proof {
            assert(same_place(mid, pushed, idx as int));
            assert(mid[idx as int].0@ == gameid@);
            assert(mid[idx as int].1.wf() && names_distinct(mid[idx as int].1.sessions@));
            assert(names_distinct(pushed[idx as int].1.sessions@)) by {
                if idx < gs.len() {
                    assert(pushed[idx as int] == gs[idx as int]);
                    assert(old(self).game_list@[idx as int].1.wf());
                }
            }
            lemma_without(pushed[idx as int].1.sessions@, username@);
        }
        let color = self.game_list[idx].1.gen_color();
        let player = Player { name: username, color, addr, ready: false, flags: Vec::new() };
        let ghost p = player;
        self.game_list[idx].1.add_player(player);
        let ghost joined = self.game_list@;
        proof {
            assert forall|q: int| 0 <= q < joined.len() && q != idx implies #[trigger] joined[q] == mid[q] by {}
            let ts = joined[idx as int].1.sessions@;
            let ms = mid[idx as int].1.sessions@;
            assert forall|a: int, b: int| 0 <= a < ts.len() && 0 <= b < ts.len() && a != b
                implies (#[trigger] ts[a]).name@ != (#[trigger] ts[b]).name@ by {
                if a < ms.len() && b < ms.len() {
                    assert(ts[a] == ms[a] && ts[b] == ms[b]);
                } else if a < ms.len() {
                    assert(ts[a] == ms[a]);
                    assert(!has_player(ms, p.name@));
                } else {
                    assert(ts[b] == ms[b]);
                    assert(!has_player(ms, p.name@));
                }
            }
            assert forall|q: int| 0 <= q < joined.len() implies (#[trigger] joined[q]).1.wf() && names_distinct(joined[q].1.sessions@) by {
                if q != idx {
                    assert(joined[q] == mid[q]);
                }
            }
        }
        let mut joined_text = String::from_str("/joinedroom ");
        let size_text = decimal_string(self.game_list[idx].1.map_size as u64);
        joined_text.append(size_text.as_str());
        send(out, addr, joined_text);
        let state = self.game_list[idx].1.get_game_state();
        send(out, addr, state);
        self.update_rooms(out);
        self.update_playerlist(idx, out);
        proof {
            let fin = self.game_list@;
            let n = gs.len() as int;
            assert(fin[idx as int].1.sessions@ =~= mid[idx as int].1.sessions@.push(p));
            assert(fin[idx as int].1.sessions@.drop_last() =~= mid[idx as int].1.sessions@);
            assert(fin[idx as int].1.sessions@.last() == p);
            assert forall|q: int| 0 <= q < n implies #[trigger] same_place(fin, gs, q) by {
                assert(same_place(mid, pushed, q));
                assert(pushed[q] == gs[q]);
            }
            assert forall|q: int| 0 <= q < n && q != idx implies
                (#[trigger] fin[q]).1.sessions@ == without(gs[q].1.sessions@, username@) by {
                assert(fin[q] == mid[q]);
                assert(pushed[q] == gs[q]);
            }
            assert forall|k: int| 0 <= k < idx && k < n implies (#[trigger] gs[k]).0@ != gameid@ by {
                assert(same_place(mid, pushed, k));
                assert(pushed[k] == gs[k]);
                assert(mid[k].0@ != gameid@);
            }
            if idx < n {
                assert(pushed[idx as int] == gs[idx as int]);
                assert(fin[n].1.sessions@ == mid[n].1.sessions@);
            } else {
                assert(pushed[idx as int].1.sessions@.len() == 0);
            }
            assert(same_place(mid, pushed, n));
            assert(newcomer(p, msg.username, msg.addr, fin[idx as int].1.sessions@.drop_last()));
            assert(0 <= idx <= n);
            assert(idx < n ==> gs[idx as int].0@ == msg.gameid@);
            assert(idx < n ==> fin[idx as int].1.sessions@.drop_last() == without(gs[idx as int].1.sessions@, msg.username@));
            assert(idx < n ==> fin.last().1.sessions@.len() == 0);
            assert(idx == n ==> fin[idx as int].1.sessions@.len() == 1);
            assert(fin[idx as int].1.sessions@.len() >= 1);
            assert(old(self).game_list@[idx as int] == gs[idx as int]);
            assert forall|q: int| 0 <= q < fin.len() implies
                (has_player((#[trigger] fin[q]).1.sessions@, username@) <==> q == idx) by {
                if q == idx {
                    let ts = fin[q].1.sessions@;
                    assert(ts[ts.len() - 1] == p);
                } else {
                    assert(fin[q] == mid[q]);
                    if q < n {
                        assert(old(self).game_list@[q].1.wf());
                        assert(pushed[q] == gs[q]);
                        lemma_without(gs[q].1.sessions@, username@);
                    } else {
                        assert(mid[q].1.sessions@.len() == 0);
                    }
                }
            }
            assert(sent(out@) =~= sent(old(out)@) + quit_msgs(gs, username@, addr)
                + seq![(addr, "/joinedroom "@ + decimal(fin[idx as int].1.map_size as nat)),
                    (addr, state_text(fin[idx as int].1))]
                + rooms_msgs(self.user_list@)
                + roster_msgs(fin[idx as int].1.sessions@, fin[idx as int].1.maxplayers,
                    fin[idx as int].1.sessions@.len()));
        }
    }

    /// Sends the view and the flags of room `j` to each of its players.
    fn send_views(&self, j: usize, out: &mut Vec<Delivery>)
        requires
            self.wf(),
            j < self.game_list@.len(),
        ensures
            sent(final(out)@) == sent(old(out)@) + view_msgs(self.game_list@[j as int].1.sessions@, self.game_list@[j as int].1),
    {
        let game = &self.game_list[j].1;
        assert(game.wf());
        let ghost ss = game.sessions@;
        let mut k: usize = 0;
        while k < game.sessions.len()
            invariant
                ss == game.sessions@,
                game.wf(),
                0 <= k <= ss.len(),
                sent(out@) == sent(old(out)@) + view_msgs(ss.take(k as int), *game),
            decreases ss.len() - k,
        {
            let addr = game.sessions[k].addr;
            let state = game.get_game_state();
            send(out, addr, state);
            let flags = game.get_flags();
            send(out, addr, flags);
            proof {
                assert(ss.take(k + 1).drop_last() =~= ss.take(k as int));
                assert(sent(out@) =~= sent(old(out)@) + view_msgs(ss.take(k + 1), *game));
            }
            k += 1;
        }
        proof {
            assert(ss.take(ss.len() as int) =~= ss);
        }
    }

    /// Takes the player called `name` out of room `j` (see `expelled`); `/quitedroom`
    /// goes to `notice` where given, else to the player's own connection.
    #[verifier::rlimit(60)]
    #[verifier::spinoff_prover]
    fn expel(&mut self, j: usize, name: &String, notice: Option<u64>, out: &mut Vec<Delivery>)
        requires
            old(self).wf(),
            j < old(self).game_list@.len(),
        ensures
            final(self).wf(),
            final(self).user_list == old(self).user_list,
            expelled(old(self).game_list@, final(self).game_list@, old(self).user_list@, j as int, name@,
                match notice {
                    Some(a) => a,
                    None => old(self).game_list@[j as int].1.sessions@[seat_of(old(self).game_list@[j as int].1.sessions@, name@)].addr,
                },
                sent(final(out)@).subrange(sent(old(out)@).len() as int, sent(final(out)@).len() as int)),
            sent(old(out)@).len() <= sent(final(out)@).len(),
            sent(final(out)@).subrange(0, sent(old(out)@).len() as int) == sent(old(out)@),
    {
        let ghost gs = self.game_list@;
        let ghost ss = gs[j as int].1.sessions@;
        let ghost start = sent(out@);
        let mut k: usize = 0;
        let mut found = false;
        while k < self.game_list[j].1.sessions.len() && !found
            invariant
                self.game_list@ == gs,
                ss == gs[j as int].1.sessions@,
                0 <= j < gs.len(),
                0 <= k <= ss.len(),
                !found ==> forall|m: int| 0 <= m < k ==> (#[trigger] ss[m]).name@ != name@,
                found ==> k < ss.len() && ss[k as int].name@ == name@,
            decreases ss.len() - k + if found { 0int } else { 1int },
        {
            if self.game_list[j].1.sessions[k].name == *name {
                found = true;
            } else {
                k += 1;
            }
        }
        proof {
            assert(self.game_list@[j as int].1.wf());
            assert(names_distinct(ss));
            lemma_without(ss, name@);
            if found {
                assert(has_player(ss, name@));
                assert(seat_of(ss, name@) == k);
            } else {
                assert(!has_player(ss, name@));
            }
        }
        if found {
            let leaving = self.game_list[j].1.remove_player(k);
            let to = match notice {
                Some(a) => a,
                None => leaving.addr,
            };
            send(out, to, String::from_str("/quitedroom"));
            if self.game_list[j].1.sessions.len() == 0 {
                self.game_list.remove(j);
                proof {
                    let fin = self.game_list@;
                    assert forall|q: int| 0 <= q < fin.len() implies (#[trigger] fin[q]).1.wf() && names_distinct(fin[q].1.sessions@) by {
                        let q2 = if q < j { q } else { q + 1 };
                        assert(fin[q] == gs[q2]);
                    }
                    assert(fin =~= gs.remove(j as int));
                }
                self.update_rooms(out);
                proof {
                    let s1 = sent(out@);
                    assert(s1.subrange(start.len() as int, s1.len() as int) =~= seq![(to, "/quitedroom"@)] + rooms_msgs(self.user_list@));
                    assert(s1.subrange(0, start.len() as int) =~= start);
                }
                return;
            }
        }
        let ghost mid = self.game_list@;
        let ghost after_notice = sent(out@);
        proof {
            assert forall|q: int| 0 <= q < mid.len() && q != j implies #[trigger] mid[q] == gs[q] by {}
            let ts = mid[j as int].1.sessions@;
            assert(ts == without(ss, name@));
            assert forall|q: int| 0 <= q < mid.len() implies (#[trigger] mid[q]).1.wf() && names_distinct(mid[q].1.sessions@) by {
                if q != j {
                    assert(mid[q] == gs[q]);
                }
            }
        }
        self.send_views(j, out);
        self.update_playerlist(j, out);
        self.update_rooms(out);
        proof {
            let s1 = sent(out@);
            let to = match notice {
                Some(a) => a,
                None => ss[seat_of(ss, name@)].addr,
            };
            let notice_part = if has_player(ss, name@) { seq![(to, "/quitedroom"@)] } else { Seq::<(u64, Seq<char>)>::empty() };
            assert(after_notice =~= start + notice_part);
            assert(s1.subrange(start.len() as int, s1.len() as int) =~= notice_part
                + view_msgs(mid[j as int].1.sessions@, mid[j as int].1)
                + roster_msgs(mid[j as int].1.sessions@, mid[j as int].1.maxplayers, mid[j as int].1.sessions@.len())
                + rooms_msgs(self.user_list@));
            assert(s1.subrange(0, start.len() as int) =~= start);
        }
    }

    /// A user leaves room `gameid`: the first room of that name takes them out (see
    /// `expelled`, with `/quitedroom` sent to `addr`). Nothing happens where no room has
    /// that name.
    pub fn disconnect_from_game(&mut self, msg: DisconnectFromGame, out: &mut Vec<Delivery>)
        requires
            old(self).wf(),
        ensures
            final(self).wf(),
            final(self).user_list == old(self).user_list,
            (forall|k: int| 0 <= k < old(self).game_list@.len() ==> (#[trigger] old(self).game_list@[k]).0@ != msg.gameid@) ==> {
                &&& final(self).game_list == old(self).game_list
                &&& final(out)@ == old(out)@
            },
            (exists|k: int| 0 <= k < old(self).game_list@.len() && (#[trigger] old(self).game_list@[k]).0@ == msg.gameid@) ==>
                exists|j: int| {
                    &&& 0 <= j < old(self).game_list@.len()
                    &&& (#[trigger] old(self).game_list@[j]).0@ == msg.gameid@
                    &&& forall|k: int| 0 <= k < j ==> (#[trigger] old(self).game_list@[k]).0@ != msg.gameid@
                    &&& sent(old(out)@).len() <= sent(final(out)@).len()
                    &&& sent(final(out)@).subrange(0, sent(old(out)@).len() as int) == sent(old(out)@)
                    &&& expelled(old(self).game_list@, final(self).game_list@, old(self).user_list@, j, msg.username@, msg.addr,
                        sent(final(out)@).subrange(sent(old(out)@).len() as int, sent(final(out)@).len() as int))
                },
    {
        let DisconnectFromGame { username, addr, gameid } = msg;
        let mut idx: usize = 0;
        while idx < self.game_list.len()
            invariant
                *self == *old(self),
                old(self).wf(),
                out@ == old(out)@,
                username == msg.username,
                addr == msg.addr,
                0 <= idx <= self.game_list@.len(),
                gameid == msg.gameid,
                forall|k: int| 0 <= k < idx ==> (#[trigger] self.game_list@[k]).0@ != gameid@,
            decreases self.game_list@.len() - idx,
        {
            if self.game_list[idx].0 == gameid {
                proof {
                    assert(old(self).game_list@[idx as int].0@ == msg.gameid@);
                }
                self.expel(idx, &username, Some(addr), out);
                return;
            }
            idx += 1;
        }
    }

    /// The first player of room `gameid` sends `target_username` out of it: the first
    /// room of that name whose first player is `username` takes the target out (see
    /// `expelled`, with `/quitedroom` sent to the target's own connection). Nothing
    /// happens where no such room is.
    pub fn kick(&mut self, msg: Kick, out: &mut Vec<Delivery>)
        requires
            old(self).wf(),
            kick_reaches(old(self).game_list@, msg.gameid@, msg.username@),
        ensures
            final(self).wf(),
            final(self).user_list == old(self).user_list,
            (forall|k: int| 0 <= k < old(self).game_list@.len() ==> !#[trigger] moderated_by(old(self).game_list@[k], msg.gameid@, msg.username@)) ==> {
                &&& final(self).game_list == old(self).game_list
                &&& final(out)@ == old(out)@
            },
            (exists|k: int| 0 <= k < old(self).game_list@.len() && #[trigger] moderated_by(old(self).game_list@[k], msg.gameid@, msg.username@)) ==>
                exists|j: int| {
                    &&& 0 <= j < old(self).game_list@.len()
                    &&& #[trigger] moderated_by(old(self).game_list@[j], msg.gameid@, msg.username@)
                    &&& forall|k: int| 0 <= k < j ==> !#[trigger] moderated_by(old(self).game_list@[k], msg.gameid@, msg.username@)
                    &&& sent(old(out)@).len() <= sent(final(out)@).len()
                    &&& sent(final(out)@).subrange(0, sent(old(out)@).len() as int) == sent(old(out)@)
                    &&& expelled(old(self).game_list@, final(self).game_list@, old(self).user_list@, j, msg.target_username@,
                        old(self).game_list@[j].1.sessions@[seat_of(old(self).game_list@[j].1.sessions@, msg.target_username@)].addr,
                        sent(final(out)@).subrange(sent(old(out)@).len() as int, sent(final(out)@).len() as int))
                },
    {
        let Kick { gameid, username, target_username } = msg;
        let mut idx: usize = 0;
        while idx < self.game_list.len()
            invariant
                *self == *old(self),
                old(self).wf(),
                out@ == old(out)@,
                target_username == msg.target_username,
                kick_reaches(old(self).game_list@, msg.gameid@, msg.username@),
                0 <= idx <= self.game_list@.len(),
                gameid == msg.gameid,
                username == msg.username,
                forall|k: int| 0 <= k < idx ==> !#[trigger] moderated_by(self.game_list@[k], gameid@, username@),
            decreases self.game_list@.len() - idx,
        {
            if self.game_list[idx].0 == gameid {
                proof {
                    if self.game_list@[idx as int].1.sessions@.len() == 0 {
                        let m = choose|m: int| 0 <= m < idx && #[trigger] moderated_by(self.game_list@[m], gameid@, username@);
                    }
                }
                if self.game_list[idx].1.sessions[0].name == username {
                    proof {
                        assert(moderated_by(old(self).game_list@[idx as int], msg.gameid@, msg.username@));
                    }
                    self.expel(idx, &target_username, None, out);
                    return;
                }
            }
            idx += 1;
        }
    }

    /// A user toggles a flag on (x, y): the first room called `gameid` whose game is not
    /// lost toggles it (see `flag_toggled`). Where that toggled a flag and a player of
    /// the room is called `name`, every player of the room gets the flags and where the
    /// flag went, in that player's colour.
    pub fn place_flag(&mut self, msg: PlaceFlag, out: &mut Vec<Delivery>)
        requires
            old(self).wf(),
            forall|k: int| #[trigger] first_open_room(old(self).game_list@, msg.gameid@, k)
                ==> msg.x < old(self).game_list@[k].1.map_size && msg.y < old(self).game_list@[k].1.map_size,
        ensures
            final(self).wf(),
            final(self).user_list == old(self).user_list,
            (forall|k: int| !#[trigger] first_open_room(old(self).game_list@, msg.gameid@, k)) ==> {
                &&& final(self).game_list == old(self).game_list
                &&& final(out)@ == old(out)@
            },
            forall|j: int| #[trigger] first_open_room(old(self).game_list@, msg.gameid@, j) ==> {
                &&& final(self).game_list@.len() == old(self).game_list@.len()
                &&& forall|q: int| 0 <= q < old(self).game_list@.len() && q != j ==> #[trigger] final(self).game_list@[q] == old(self).game_list@[q]
                &&& final(self).game_list@[j].0 == old(self).game_list@[j].0
                &&& flag_toggled(old(self).game_list@[j].1, final(self).game_list@[j].1, msg.x as int, msg.y as int, msg.name@)
                &&& sent(final(out)@) == sent(old(out)@) + if flag_placeable(old(self).game_list@[j].1, msg.x as int, msg.y as int, msg.name@)
                    && has_player(final(self).game_list@[j].1.sessions@, msg.name@) {
                    flag_msgs(final(self).game_list@[j].1.sessions@, final(self).game_list@[j].1,
                        moved_text(msg.x as int, msg.y as int, color_of(final(self).game_list@[j].1.sessions@, msg.name@)))
                } else {
                    Seq::empty()
                }
            },
    {
        let PlaceFlag { gameid, name, addr: _, x, y } = msg;
        let mut idx: usize = 0;
        while idx < self.game_list.len()
            invariant
                *self == *old(self),
                old(self).wf(),
                out@ == old(out)@,
                gameid == msg.gameid,
                name == msg.name,
                x == msg.x,
                y == msg.y,
                forall|k: int| #[trigger] first_open_room(old(self).game_list@, msg.gameid@, k)
                    ==> msg.x < old(self).game_list@[k].1.map_size && msg.y < old(self).game_list@[k].1.map_size,
                0 <= idx <= self.game_list@.len(),
                forall|m: int| 0 <= m < idx ==> !((#[trigger] self.game_list@[m]).0@ == gameid@ && !self.game_list@[m].1.gameover),
            decreases self.game_list@.len() - idx,
        {
            if self.game_list[idx].0 == gameid && !self.game_list[idx].1.gameover {
                let ghost gs = self.game_list@;
                proof {
                    assert(first_open_room(gs, gameid@, idx as int));
                    assert(gs[idx as int].1.wf());
                }
                let result = self.game_list[idx].1.place_flag(x, y, name.clone());
                let ghost mid = self.game_list@;
                proof {
                    assert forall|q: int| 0 <= q < mid.len() && q != idx implies #[trigger] mid[q] == gs[q] by {}
                    assert forall|q: int| 0 <= q < mid.len() implies (#[trigger] mid[q]).1.wf() && names_distinct(mid[q].1.sessions@) by {
                        if q != idx {
                            assert(mid[q] == gs[q]);
                        } else {
                            let ts = mid[q].1.sessions@;
                            let ss = gs[q].1.sessions@;
                            assert forall|a: int, b: int| 0 <= a < ts.len() && 0 <= b < ts.len() && a != b
                                implies (#[trigger] ts[a]).name@ != (#[trigger] ts[b]).name@ by {
                                assert(same_but_flags(ts[a], ss[a]) && same_but_flags(ts[b], ss[b]));
                            }
                        }
                    }
                    assert forall|j: int| #[trigger] first_open_room(gs, msg.gameid@, j) implies j == idx by {
                        if j < idx {
                            assert(!(gs[j].0@ == gameid@ && !gs[j].1.gameover));
                        } else if j > idx {
                            assert(!(gs[idx as int].0@ == gameid@ && !gs[idx as int].1.gameover));
                        }
                    }
                }
                if result {
                    let game = &self.game_list[idx].1;
                    let ghost ss = game.sessions@;
                    let mut k: usize = 0;
                    let mut found = false;
                    while k < game.sessions.len() && !found
                        invariant
                            ss == game.sessions@,
                            0 <= k <= ss.len(),
                            !found ==> forall|m: int| 0 <= m < k ==> (#[trigger] ss[m]).name@ != name@,
                            found ==> k < ss.len() && ss[k as int].name@ == name@,
                        decreases ss.len() - k + if found { 0int } else { 1int },
                    {
                        if game.sessions[k].name == name {
                            found = true;
                        } else {
                            k += 1;
                        }
                    }
                    if found {
                        proof {
                            assert(names_distinct(ss));
                            assert(has_player(ss, name@));
                            assert(seat_of(ss, name@) == k);
                        }
                        let mut moved = String::from_str("/moved ");
                        let xs = decimal_string(x as u64);
                        moved.append(xs.as_str());
                        moved.append(" ");
                        let ys = decimal_string(y as u64);
                        moved.append(ys.as_str());
                        moved.append(" ");
                        moved.append(game.sessions[k].color.as_str());
                        let flags = game.get_flags();
                        let ghost before = sent(out@);
                        let mut m: usize = 0;
                        while m < game.sessions.len()
                            invariant
                                ss == game.sessions@,
                                0 <= m <= ss.len(),
                                flags@ == flags_text(*game),
                                sent(out@) == before + flag_msgs(ss.take(m as int), *game, moved@),
                            decreases ss.len() - m,
                        {
                            send(out, game.sessions[m].addr, flags.clone());
                            send(out, game.sessions[m].addr, moved.clone());
                            proof {
                                assert(ss.take(m + 1).drop_last() =~= ss.take(m as int));
                                assert(sent(out@) =~= before + flag_msgs(ss.take(m + 1), *game, moved@));
                            }
                            m += 1;
                        }
                        proof {
                            assert(ss.take(ss.len() as int) =~= ss);
                        }
                    } else {
                        proof {
                            assert(!has_player(ss, name@));
                            assert(out@ == old(out)@);
                        }
                    }
                }
                return;
            }
            idx += 1;
        }
        proof {
            assert forall|k: int| !#[trigger] first_open_room(old(self).game_list@, msg.gameid@, k) by {
                if 0 <= k < old(self).game_list@.len() {
                    assert(!(old(self).game_list@[k].0@ == gameid@ && !old(self).game_list@[k].1.gameover));
                }
            }
        }
    }

    /// A user steps on (x, y): every room called `gameid` with no flag on (x, y) and a
    /// player called `username` takes the step (see `stepped`), and sends what
    /// `room_move_msgs` says.
    pub fn make_move(&mut self, msg: MakeMove, out: &mut Vec<Delivery>)
        requires
            old(self).wf(),
            forall|k: int| 0 <= k < old(self).game_list@.len()
                && #[trigger] acts(old(self).game_list@[k], msg.gameid@, msg.x as int, msg.y as int, msg.username@)
                ==> msg.x < old(self).game_list@[k].1.map_size && msg.y < old(self).game_list@[k].1.map_size,
        ensures
            final(self).wf(),
            final(self).user_list == old(self).user_list,
            final(self).game_list@.len() == old(self).game_list@.len(),
            forall|q: int| 0 <= q < old(self).game_list@.len() ==> {
                &&& (#[trigger] final(self).game_list@[q]).0 == old(self).game_list@[q].0
                &&& acts(old(self).game_list@[q], msg.gameid@, msg.x as int, msg.y as int, msg.username@)
                    ==> stepped(old(self).game_list@[q].1, final(self).game_list@[q].1, msg.x as int, msg.y as int)
                &&& !acts(old(self).game_list@[q], msg.gameid@, msg.x as int, msg.y as int, msg.username@)
                    ==> final(self).game_list@[q] == old(self).game_list@[q]
            },
            sent(final(out)@) == sent(old(out)@) + moves_msgs(old(self).game_list@, final(self).game_list@,
                old(self).game_list@.len(), msg.gameid@, msg.x as int, msg.y as int, msg.username@),
    {
        let MakeMove { gameid, username, addr: _, x, y } = msg;
        let ghost gs = self.game_list@;
        let mut idx: usize = 0;
        while idx < self.game_list.len()
            invariant
                self.wf(),
                old(self).wf(),
                gs == old(self).game_list@,
                self.user_list == old(self).user_list,
                gameid == msg.gameid,
                username == msg.username,
                x == msg.x,
                y == msg.y,
                forall|k: int| 0 <= k < gs.len()
                    && #[trigger] acts(gs[k], msg.gameid@, msg.x as int, msg.y as int, msg.username@)
                    ==> msg.x < gs[k].1.map_size && msg.y < gs[k].1.map_size,
                self.game_list@.len() == gs.len(),
                0 <= idx <= gs.len(),
                forall|q: int| 0 <= q < gs.len() ==> (#[trigger] self.game_list@[q]).0 == gs[q].0,
                forall|q: int| 0 <= q < idx ==> acts(gs[q], gameid@, x as int, y as int, username@)
                    ==> stepped(gs[q].1, (#[trigger] self.game_list@[q]).1, x as int, y as int),
                forall|q: int| 0 <= q < idx ==> !acts(gs[q], gameid@, x as int, y as int, username@)
                    ==> #[trigger] self.game_list@[q] == gs[q],
                forall|q: int| idx <= q < gs.len() ==> #[trigger] self.game_list@[q] == gs[q],
                sent(out@) == sent(old(out)@) + moves_msgs(gs, self.game_list@, idx as nat, gameid@, x as int, y as int, username@),
            decreases gs.len() - idx,
        {
            let ghost cur = self.game_list@;
            proof {
                assert(cur[idx as int] == gs[idx as int]);
            }
            let mut acted = false;
            if self.game_list[idx].0 == gameid && !self.game_list[idx].1.is_flag(x, y) {
                let ghost ss = gs[idx as int].1.sessions@;
                let mut k: usize = 0;
                let mut found = false;
                while k < self.game_list[idx].1.sessions.len() && !found
                    invariant
                        self.game_list@ == cur,
                        cur[idx as int] == gs[idx as int],
                        0 <= idx < gs.len(),
                        cur.len() == gs.len(),
                        ss == gs[idx as int].1.sessions@,
                        0 <= k <= ss.len(),
                        !found ==> forall|m: int| 0 <= m < k ==> (#[trigger] ss[m]).name@ != username@,
                        found ==> k < ss.len() && ss[k as int].name@ == username@,
                    decreases ss.len() - k + if found { 0int } else { 1int },
                {
                    if self.game_list[idx].1.sessions[k].name == username {
                        found = true;
                    } else {
                        k += 1;
                    }
                }
                if found {
                    proof {
                        assert(gs[idx as int].1.wf());
                        assert(names_distinct(ss));
                        assert(has_player(ss, username@));
                        assert(seat_of(ss, username@) == k);
                        assert(acts(gs[idx as int], gameid@, x as int, y as int, username@));
                    }
                    acted = true;
                    let color = self.game_list[idx].1.sessions[k].color.clone();
                    let result = self.game_list[idx].1.step_on(x, y);
                    let ghost mid = self.game_list@;
                    proof {
                        assert forall|q: int| 0 <= q < mid.len() && q != idx implies #[trigger] mid[q] == cur[q] by {}
                        let ts = mid[idx as int].1.sessions@;
                        assert forall|a: int, b: int| 0 <= a < ts.len() && 0 <= b < ts.len() && a != b
                            implies (#[trigger] ts[a]).name@ != (#[trigger] ts[b]).name@ by {
                            assert(same_but_flags(ts[a], ss[a]) && same_but_flags(ts[b], ss[b]));
                        }
                        assert forall|q: int| 0 <= q < mid.len() implies (#[trigger] mid[q]).1.wf() && names_distinct(mid[q].1.sessions@) by {
                            if q != idx {
                                assert(mid[q] == cur[q]);
                            }
                        }
                        reveal_strlit("moved");
                        reveal_strlit("mine");
                        reveal_strlit("not moving");
                    }
                    let moving = same_text(result, "moved");
                    let lost = same_text(result, "mine");
                    if moving || lost {
                        let game = &self.game_list[idx].1;
                        let mut moved = String::from_str("/moved ");
                        let xs = decimal_string(x as u64);
                        moved.append(xs.as_str());
                        moved.append(" ");
                        let ys = decimal_string(y as u64);
                        moved.append(ys.as_str());
                        moved.append(" ");
                        moved.append(color.as_str());
                        let state = game.get_game_state();
                        let mut over = String::from_str("/gameover ");
                        over.append(username.as_str());
                        let ghost tss = game.sessions@;
                        let ghost before = sent(out@);
                        let mut m: usize = 0;
                        while m < game.sessions.len()
                            invariant
                                tss == game.sessions@,
                                0 <= m <= tss.len(),
                                state@ == state_text(*game),
                                over@ == "/gameover "@ + username@,
                                sent(out@) == before + move_msgs(tss.take(m as int), *game, moved@, lost, username@),
                            decreases tss.len() - m,
                        {
                            let a = game.sessions[m].addr;
                            send(out, a, state.clone());
                            send(out, a, moved.clone());
                            if lost {
                                send(out, a, over.clone());
                            }
                            proof {
                                assert(tss.take(m + 1).drop_last() =~= tss.take(m as int));
                                assert(sent(out@) =~= before + move_msgs(tss.take(m + 1), *game, moved@, lost, username@));
                            }
                            m += 1;
                        }
                        proof {
                            assert(tss.take(tss.len() as int) =~= tss);
                            assert(moved@ == moved_text(x as int, y as int, color_of(gs[idx as int].1.sessions@, username@)));
                            assert(result@ == step_outcome(gs[idx as int].1, x as int, y as int));
                            assert(acts(gs[idx as int], gameid@, x as int, y as int, username@));
                            assert(*game == self.game_list@[idx as int].1);
                            assert(moving ==> step_outcome(gs[idx as int].1, x as int, y as int) == "moved"@);
                            assert(lost ==> step_outcome(gs[idx as int].1, x as int, y as int) == "mine"@);
                            reveal_strlit("moved");
                            reveal_strlit("mine");
                            assert("mine"@.len() == 4);
                            assert("moved"@.len() == 5);
                            assert("mine"@ != "moved"@);
                            assert(lost ==> step_outcome(gs[idx as int].1, x as int, y as int) != "moved"@);
                            assert(moving ==> !lost);
                            assert(sent(out@) == before + room_move_msgs(gs[idx as int], self.game_list@[idx as int].1, gameid@, x as int, y as int, username@));
                        }
                    }
                }
            }
            proof {
                let now = self.game_list@;
                if !acted {
                    assert(now == cur);
                    if acts(gs[idx as int], gameid@, x as int, y as int, username@) {
                        assert(has_player(gs[idx as int].1.sessions@, username@));
                    }
                }
                assert forall|q: int| 0 <= q < gs.len() && q != idx implies #[trigger] now[q] == cur[q] by {}
                assert(moves_msgs(gs, now, idx as nat, gameid@, x as int, y as int, username@)
                    == moves_msgs(gs, cur, idx as nat, gameid@, x as int, y as int, username@)) by {
                    lemma_moves_msgs_prefix(gs, cur, now, idx as nat, gameid@, x as int, y as int, username@);
                }
                assert(sent(out@) =~= sent(old(out)@) + moves_msgs(gs, now, (idx + 1) as nat, gameid@, x as int, y as int, username@));
            }
            idx += 1;
        }
    }

    /// Every room called `gameid` whose game is lost starts over (see `reset_from`); each
    /// tells its players `/resetgame` and sends them the new view.
    pub fn reset_game(&mut self, msg: ResetGame, out: &mut Vec<Delivery>)
        requires
            old(self).wf(),
        ensures
            final(self).wf(),
            final(self).user_list == old(self).user_list,
            final(self).game_list@.len() == old(self).game_list@.len(),
            forall|q: int| 0 <= q < old(self).game_list@.len() ==> {
                &&& (#[trigger] final(self).game_list@[q]).0 == old(self).game_list@[q].0
                &&& resets(old(self).game_list@[q], msg.gameid@)
                    ==> reset_from(old(self).game_list@[q].1, final(self).game_list@[q].1)
                &&& !resets(old(self).game_list@[q], msg.gameid@) ==> final(self).game_list@[q] == old(self).game_list@[q]
            },
            sent(final(out)@) == sent(old(out)@) + resets_msgs(old(self).game_list@, final(self).game_list@,
                old(self).game_list@.len(), msg.gameid@),
    {
        let ResetGame { gameid } = msg;
        let ghost gs = self.game_list@;
        let mut idx: usize = 0;
        while idx < self.game_list.len()
            invariant
                self.wf(),
                gs == old(self).game_list@,
                self.user_list == old(self).user_list,
                gameid == msg.gameid,
                self.game_list@.len() == gs.len(),
                0 <= idx <= gs.len(),
                forall|q: int| 0 <= q < gs.len() ==> (#[trigger] self.game_list@[q]).0 == gs[q].0,
                forall|q: int| 0 <= q < idx ==> resets(gs[q], gameid@)
                    ==> reset_from(gs[q].1, (#[trigger] self.game_list@[q]).1),
                forall|q: int| 0 <= q < idx ==> !resets(gs[q], gameid@) ==> #[trigger] self.game_list@[q] == gs[q],
                forall|q: int| idx <= q < gs.len() ==> #[trigger] self.game_list@[q] == gs[q],
                sent(out@) == sent(old(out)@) + resets_msgs(gs, self.game_list@, idx as nat, gameid@),
            decreases gs.len() - idx,
        {
            let ghost cur = self.game_list@;
            proof {
                assert(cur[idx as int] == gs[idx as int]);
            }
            if self.game_list[idx].0 == gameid && self.game_list[idx].1.gameover {
                self.game_list[idx].1.reset();
                let ghost mid = self.game_list@;
                proof {
                    assert forall|q: int| 0 <= q < mid.len() && q != idx implies #[trigger] mid[q] == cur[q] by {}
                    let ts = mid[idx as int].1.sessions@;
                    let ss = cur[idx as int].1.sessions@;
                    assert forall|a: int, b: int| 0 <= a < ts.len() && 0 <= b < ts.len() && a != b
                        implies (#[trigger] ts[a]).name@ != (#[trigger] ts[b]).name@ by {
                        assert(same_but_flags(ts[a], ss[a]) && same_but_flags(ts[b], ss[b]));
                    }
                    assert forall|q: int| 0 <= q < mid.len() implies (#[trigger] mid[q]).1.wf() && names_distinct(mid[q].1.sessions@) by {
                        if q != idx {
                            assert(mid[q] == cur[q]);
                        }
                    }
                }
                let game = &self.game_list[idx].1;
                let state = game.get_game_state();
                let ghost tss = game.sessions@;
                let ghost before = sent(out@);
                let mut m: usize = 0;
                while m < game.sessions.len()
                    invariant
                        tss == game.sessions@,
                        0 <= m <= tss.len(),
                        state@ == state_text(*game),
                        sent(out@) == before + reset_msgs(tss.take(m as int), *game),
                    decreases tss.len() - m,
                {
                    let a = game.sessions[m].addr;
                    send(out, a, String::from_str("/resetgame"));
                    send(out, a, state.clone());
                    proof {
                        assert(tss.take(m + 1).drop_last() =~= tss.take(m as int));
                        assert(sent(out@) =~= before + reset_msgs(tss.take(m + 1), *game));
                    }
                    m += 1;
                }
                proof {
                    assert(tss.take(tss.len() as int) =~= tss);
                }
            }
            proof {
                let now = self.game_list@;
                assert forall|q: int| 0 <= q < gs.len() && q != idx implies #[trigger] now[q] == cur[q] by {}
                lemma_resets_msgs_prefix(gs, cur, now, idx as nat, gameid@);
                assert(sent(out@) =~= sent(old(out)@) + resets_msgs(gs, now, (idx + 1) as nat, gameid@));
            }
            idx += 1;
        }
    }

    /// A user asks for a new colour: in the first room called `gameid` whose game is
    /// lost and where a player is called `username`, that player gets a fresh colour
    /// (see `fresh_color`) and the room's players get the new roster.
    pub fn change_color(&mut self, msg: ChangeColor, out: &mut Vec<Delivery>)
        requires
            old(self).wf(),
        ensures
            final(self).wf(),
            final(self).user_list == old(self).user_list,
            (forall|k: int| 0 <= k < old(self).game_list@.len() ==> !#[trigger] recolors(old(self).game_list@[k], msg.gameid@, msg.username@)) ==> {
                &&& final(self).game_list == old(self).game_list
                &&& final(out)@ == old(out)@
            },
            forall|j: int| 0 <= j < old(self).game_list@.len()
                && #[trigger] recolors(old(self).game_list@[j], msg.gameid@, msg.username@)
                && (forall|k: int| 0 <= k < j ==> !#[trigger] recolors(old(self).game_list@[k], msg.gameid@, msg.username@)) ==> {
                let ss = old(self).game_list@[j].1.sessions@;
                let ts = final(self).game_list@[j].1.sessions@;
                let i = seat_of(ss, msg.username@);
                &&& final(self).game_list@.len() == old(self).game_list@.len()
                &&& forall|q: int| 0 <= q < old(self).game_list@.len() && q != j ==> #[trigger] final(self).game_list@[q] == old(self).game_list@[q]
                &&& same_place(final(self).game_list@, old(self).game_list@, j)
                &&& ts.len() == ss.len()
                &&& forall|k: int| 0 <= k < ss.len() && k != i ==> #[trigger] ts[k] == ss[k]
                &&& ts[i].name == ss[i].name && ts[i].addr == ss[i].addr && ts[i].ready == ss[i].ready && ts[i].flags == ss[i].flags
                &&& fresh_color(ss, ts[i].color@)
                &&& sent(final(out)@) == sent(old(out)@) + roster_msgs(ts, final(self).game_list@[j].1.maxplayers, ts.len())
            },
    {
        let ChangeColor { username, gameid } = msg;
        let mut idx: usize = 0;
        while idx < self.game_list.len()
            invariant
                *self == *old(self),
                old(self).wf(),
                out@ == old(out)@,
                gameid == msg.gameid,
                username == msg.username,
                0 <= idx <= self.game_list@.len(),
                forall|k: int| 0 <= k < idx ==> !#[trigger] recolors(self.game_list@[k], gameid@, username@),
            decreases self.game_list@.len() - idx,
        {
            if self.game_list[idx].0 == gameid {
                let color = self.game_list[idx].1.gen_color();
                let ghost gs = self.game_list@;
                let ghost ss = gs[idx as int].1.sessions@;
                let mut k: usize = 0;
                let mut found = false;
                while k < self.game_list[idx].1.sessions.len() && !found
                    invariant
                        self.game_list@ == gs,
                        0 <= idx < gs.len(),
                        ss == gs[idx as int].1.sessions@,
                        0 <= k <= ss.len(),
                        !found ==> forall|m: int| 0 <= m < k ==> !((#[trigger] ss[m]).name@ == username@ && gs[idx as int].1.gameover),
                        found ==> k < ss.len() && ss[k as int].name@ == username@ && gs[idx as int].1.gameover,
                    decreases ss.len() - k + if found { 0int } else { 1int },
                {
                    if self.game_list[idx].1.sessions[k].name == username && self.game_list[idx].1.gameover {
                        found = true;
                    } else {
                        k += 1;
                    }
                }
                if found {
                    proof {
                        assert(gs[idx as int].1.wf());
                        assert(names_distinct(ss));
                        assert(has_player(ss, username@));
                        assert(seat_of(ss, username@) == k);
                        assert(recolors(gs[idx as int], gameid@, username@));
                    }
                    self.game_list[idx].1.set_player_color(k, color);
                    let ghost mid = self.game_list@;
                    proof {
                        assert forall|q: int| 0 <= q < mid.len() && q != idx implies #[trigger] mid[q] == gs[q] by {}
                        let ts = mid[idx as int].1.sessions@;
                        assert forall|a: int, b: int| 0 <= a < ts.len() && 0 <= b < ts.len() && a != b
                            implies (#[trigger] ts[a]).name@ != (#[trigger] ts[b]).name@ by {
                            assert(ts[a].name == ss[a].name && ts[b].name == ss[b].name);
                        }
                        assert forall|q: int| 0 <= q < mid.len() implies (#[trigger] mid[q]).1.wf() && names_distinct(mid[q].1.sessions@) by {
                            if q != idx {
                                assert(mid[q] == gs[q]);
                            }
                        }
                        assert forall|j: int| 0 <= j < gs.len() && #[trigger] recolors(gs[j], msg.gameid@, msg.username@)
                            && (forall|k: int| 0 <= k < j ==> !#[trigger] recolors(gs[k], msg.gameid@, msg.username@))
                            implies j == idx by {
                            if j > idx {
                                assert(recolors(gs[idx as int], gameid@, username@));
                            }
                        }
                    }
                    self.update_playerlist(idx, out);
                    return;
                } else {
                    proof {
                        if recolors(gs[idx as int], gameid@, username@) {
                            let m = choose|m: int| 0 <= m < ss.len() && (#[trigger] ss[m]).name@ == username@;
                        }
                    }
                }
            }
            idx += 1;
        }
    }

    /// The list of rooms as JSON: an object whose member "games" holds, for each room, its
    /// name, its player count and its seat count, as strings.
    pub fn game_list(&self, msg: GameList) -> (r: Result<String, ()>)
        ensures
            r matches Ok(t) && t@ == "{\"games\":["@ + rooms_json(self.game_list@) + "]}"@,
    {
        let _ = msg;
        let ghost gs = self.game_list@;
        let mut text = String::from_str("{\"games\":[");
        let mut i: usize = 0;
        while i < self.game_list.len()
            invariant
                gs == self.game_list@,
                0 <= i <= gs.len(),
                text@ == "{\"games\":["@ + rooms_json(gs.take(i as int)),
            decreases gs.len() - i,
        {
            if i > 0 {
                text.append(",");
            }
            text.append("[");
            let name = json_quote(self.game_list[i].0.as_str());
            text.append(name.as_str());
            text.append(",");
            let count = decimal_string(self.game_list[i].1.sessions.len() as u64);
            let count_json = json_quote(count.as_str());
            text.append(count_json.as_str());
            text.append(",");
            let max = decimal_string(self.game_list[i].1.maxplayers as u64);
            let max_json = json_quote(max.as_str());
            text.append(max_json.as_str());
            text.append("]");
            proof {
                assert(gs.take(i + 1).drop_last() =~= gs.take(i as int));
                if i == 0 {
                    assert(gs.take(1)[0] == gs[0]);
                }
                assert(text@ =~= "{\"games\":["@ + rooms_json(gs.take(i + 1)));
            }
            i += 1;
        }
        text.append("]}");
        proof {
            assert(gs.take(gs.len() as int) =~= gs);
        }
        Ok(text)
    }

    /// Whether a kick request can be served (see `kick_reaches`).
    pub fn kick_allowed(&self, msg: &Kick) -> (r: bool)
        ensures
            r == kick_reaches(self.game_list@, msg.gameid@, msg.username@),
    {
        let ghost gs = self.game_list@;
        let mut k: usize = 0;
        while k < self.game_list.len()
            invariant
                gs == self.game_list@,
                0 <= k <= self.game_list.len(),
                forall|q: int| 0 <= q < k ==> !#[trigger] moderated_by(gs[q], msg.gameid@, msg.username@),
                forall|q: int| 0 <= q < k ==> !((#[trigger] gs[q]).0@ == msg.gameid@ && gs[q].1.sessions@.len() == 0),
            decreases self.game_list.len() - k,
        {
            if self.game_list[k].0 == msg.gameid {
                if self.game_list[k].1.sessions.len() == 0 {
                    proof {
                        if kick_reaches(gs, msg.gameid@, msg.username@) {
                            assert(gs[k as int].0@ == msg.gameid@ && gs[k as int].1.sessions@.len() == 0);
                            let m = choose|m: int| 0 <= m < k && #[trigger] moderated_by(gs[m], msg.gameid@, msg.username@);
                            assert(false);
                        }
                    }
                    return false;
                }
                if self.game_list[k].1.sessions[0].name == msg.username {
                    proof {
                        assert(moderated_by(gs[k as int], msg.gameid@, msg.username@));
                        assert forall|q: int| 0 <= q < self.game_list.len() && (#[trigger] gs[q]).0@ == msg.gameid@ && gs[q].1.sessions@.len() == 0
                            implies exists|m: int| 0 <= m < q && #[trigger] moderated_by(gs[m], msg.gameid@, msg.username@) by {
                            assert(q > k);
                            assert(moderated_by(gs[k as int], msg.gameid@, msg.username@));
                        }
                    }
                    return true;
                }
            }
            k += 1;
        }
        true
    }

    /// Whether a flag request can be served: (x, y) lies on the board of the room that
    /// would toggle it.
    pub fn flag_allowed(&self, msg: &PlaceFlag) -> (r: bool)
        ensures
            r == forall|k: int| #[trigger] first_open_room(self.game_list@, msg.gameid@, k)
                ==> msg.x < self.game_list@[k].1.map_size && msg.y < self.game_list@[k].1.map_size,
    {
        let ghost gs = self.game_list@;
        let mut k: usize = 0;
        while k < self.game_list.len()
            invariant
                gs == self.game_list@,
                0 <= k <= self.game_list.len(),
                forall|q: int| 0 <= q < k ==> !((#[trigger] gs[q]).0@ == msg.gameid@ && !gs[q].1.gameover),
            decreases self.game_list.len() - k,
        {
            if self.game_list[k].0 == msg.gameid && !self.game_list[k].1.gameover {
                proof {
                    assert(first_open_room(gs, msg.gameid@, k as int));
                    assert forall|j: int| #[trigger] first_open_room(gs, msg.gameid@, j) implies j == k by {
                        if j < k {
                            assert(!(gs[j].0@ == msg.gameid@ && !gs[j].1.gameover));
                        } else if j > k {
                            assert(!(gs[k as int].0@ == msg.gameid@ && !gs[k as int].1.gameover));
                        }
                    }
                }
                return msg.x < self.game_list[k].1.map_size && msg.y < self.game_list[k].1.map_size;
            }
            k += 1;
        }
        proof {
            assert forall|j: int| !#[trigger] first_open_room(gs, msg.gameid@, j) by {
                if 0 <= j < self.game_list.len() {
                    assert(!(gs[j].0@ == msg.gameid@ && !gs[j].1.gameover));
                }
            }
        }
        true
    }

    /// Whether a move request can be served: (x, y) lies on the board of every room that
    /// would take the step.
    pub fn move_allowed(&self, msg: &MakeMove) -> (r: bool)
        ensures
            r == forall|k: int| 0 <= k < self.game_list@.len()
                && #[trigger] acts(self.game_list@[k], msg.gameid@, msg.x as int, msg.y as int, msg.username@)
                ==> msg.x < self.game_list@[k].1.map_size && msg.y < self.game_list@[k].1.map_size,
    {
        let ghost gs = self.game_list@;
        let mut k: usize = 0;
        while k < self.game_list.len()
            invariant
                gs == self.game_list@,
                0 <= k <= self.game_list.len(),
                forall|q: int| 0 <= q < k
                    && #[trigger] acts(gs[q], msg.gameid@, msg.x as int, msg.y as int, msg.username@)
                    ==> msg.x < gs[q].1.map_size && msg.y < gs[q].1.map_size,
            decreases self.game_list.len() - k,
        {
            if self.game_list[k].0 == msg.gameid && !self.game_list[k].1.is_flag(msg.x, msg.y) {
                let seat = find_seat(&self.game_list[k].1.sessions, &msg.username);
                if seat.is_some() && !(msg.x < self.game_list[k].1.map_size && msg.y < self.game_list[k].1.map_size) {
                    proof {
                        assert(acts(gs[k as int], msg.gameid@, msg.x as int, msg.y as int, msg.username@));
                    }
                    return false;
                }
            }
            k += 1;
        }
        true
    }

    /// Sends the view of every room to each of its players called `username`, at the
    /// player's connection.
    pub fn game_state(&self, msg: GameState, out: &mut Vec<Delivery>)
        requires
            self.wf(),
        ensures
            sent(final(out)@) == sent(old(out)@) + all_state_msgs(self.game_list@, msg.username@),
    {
        let ghost gs = self.game_list@;
        let mut i: usize = 0;
        while i < self.game_list.len()
            invariant
                gs == self.game_list@,
                self.wf(),
                0 <= i <= gs.len(),
                sent(out@) == sent(old(out)@) + all_state_msgs(gs.take(i as int), msg.username@),
            decreases gs.len() - i,
        {
            let game = &self.game_list[i].1;
            assert(game.wf());
            let text = game.get_game_state();
            let ghost ss = game.sessions@;
            let ghost before = sent(out@);
            let mut k: usize = 0;
            while k < game.sessions.len()
                invariant
                    ss == game.sessions@,
                    0 <= k <= ss.len(),
                    text@ == state_text(*game),
                    sent(out@) == before + name_state_msgs(ss.take(k as int), msg.username@, text@),
                decreases ss.len() - k,
            {
                if game.sessions[k].name == msg.username {
                    send(out, game.sessions[k].addr, text.clone());
                }
                proof {
                    assert(ss.take(k + 1).drop_last() =~= ss.take(k as int));
                    assert(sent(out@) =~= before + name_state_msgs(ss.take(k + 1), msg.username@, text@));
                }
                k += 1;
            }
            proof {
                assert(ss.take(ss.len() as int) =~= ss);
                assert(gs.take(i + 1).drop_last() =~= gs.take(i as int));
                assert(sent(out@) =~= sent(old(out)@) + all_state_msgs(gs.take(i + 1), msg.username@));
            }
            i += 1;
        }
        proof {
            assert(gs.take(gs.len() as int) =~= gs);
        }
    }
}

} // verus!
