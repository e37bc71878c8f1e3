//! Properties that relate several calls.
use vstd::prelude::*;
use crate::games::Games;
use crate::minesweeper::{
    Minesweeper, HIDDEN, adjacent, flag_placeable, flag_toggled, flagged, flood_path, has_player, in_flood,
    nearby_count, spreads, step_outcome, stepped,
};
use crate::grid::{free_rank, in_bounds, is_square};
use crate::minesweeper::{
    drawn_cell, empty_board, fresh_board, laid_board, lemma_laid_board, lemma_laid_mines, reset_from, with_mine,
};
use crate::text::{all_digits, decimal, digit_text, digits_value, parsed_number};
use crate::games::{
    acts, expelled, lemma_without, move_msgs, moved_text, moves_msgs, names_distinct, room_move_msgs, state_text,
    user_online, welcome_msgs,
};
use crate::minesweeper::{all_flags_text, flag_list_text};

verus! {

/// Toggling a flag twice on the same hidden cell that carries no flag, for a player of
/// the room, gives every player back the flags they had.
pub proof fn law_flag_toggle_twice(a: Minesweeper, b: Minesweeper, c: Minesweeper, x: int, y: int, name: Seq<char>)
    requires
        a.wf(),
        b.wf(),
        flag_placeable(a, x, y, name),
        !flagged(a.sessions@, x, y),
        flag_toggled(a, b, x, y, name),
        flag_toggled(b, c, x, y, name),
    ensures
        c.sessions@.len() == a.sessions@.len(),
        forall|i: int| 0 <= i < a.sessions@.len() ==> (#[trigger] c.sessions@[i]).flags@ == a.sessions@[i].flags@,
        c.vision == a.vision,
        c.map == a.map,
{
    let i = choose|i: int|
        0 <= i < a.sessions@.len() && (#[trigger] a.sessions@[i]).name@ == name
        && (forall|k: int| 0 <= k < i ==> (#[trigger] a.sessions@[k]).name@ != name)
        && b.sessions@[i].flags@ == a.sessions@[i].flags@.push((x as usize, y as usize))
        && forall|k: int| 0 <= k < a.sessions@.len() && k != i
            ==> (#[trigger] b.sessions@[k]).flags == a.sessions@[k].flags;
    let last = a.sessions@[i].flags@.len() as int;
    assert(b.sessions@[i].flags@[last] == (x as usize, y as usize));
    assert(flagged(b.sessions@, x, y));
    assert(flag_placeable(b, x, y, name));
    let (i2, j2) = choose|i2: int, j2: int|
        0 <= i2 < b.sessions@.len() && 0 <= j2 < b.sessions@[i2].flags@.len()
        && #[trigger] b.sessions@[i2].flags@[j2] == (x as usize, y as usize)
        && c.sessions@[i2].flags@ == b.sessions@[i2].flags@.remove(j2)
        && forall|k: int| 0 <= k < b.sessions@.len() && k != i2
            ==> (#[trigger] c.sessions@[k]).flags == b.sessions@[k].flags;
    if i2 != i {
        assert(b.sessions@[i2].flags == a.sessions@[i2].flags);
        assert(a.sessions@[i2].flags@[j2] == (x as usize, y as usize));
        assert(flagged(a.sessions@, x, y));
    }
    if j2 != last {
        assert(a.sessions@[i].flags@[j2] == (x as usize, y as usize));
        assert(flagged(a.sessions@, x, y));
    }
    assert(c.sessions@[i].flags@ =~= a.sessions@[i].flags@);
}

/// Once a step has hit a mine, every later step is "not moving" and changes nothing.
pub proof fn law_no_step_after_loss(a: Minesweeper, b: Minesweeper, c: Minesweeper, x: int, y: int, x2: int, y2: int)
    requires
        a.wf(),
        0 <= x < a.map_size,
        0 <= y < a.map_size,
        step_outcome(a, x, y) == "mine"@,
        stepped(a, b, x, y),
        stepped(b, c, x2, y2),
    ensures
        step_outcome(b, x2, y2) == "not moving"@,
        c == b,
{
    reveal_strlit("mine");
    reveal_strlit("moved");
    reveal_strlit("not moving");
    assert("mine"@.len() == 4);
    assert("moved"@.len() == 5);
    assert("not moving"@.len() == 10);
    assert(b.gameover);
}

/// A step on a hidden free cell uncovers it, so a second step on it is "not moving".
pub proof fn law_step_uncovers(a: Minesweeper, b: Minesweeper, x: int, y: int)
    requires
        a.wf(),
        0 <= x < a.map_size,
        0 <= y < a.map_size,
        step_outcome(a, x, y) == "moved"@,
        stepped(a, b, x, y),
    ensures
        step_outcome(b, x, y) == "not moving"@,
        b.seen()[y][x] == nearby_count(a.board(), a.map_size as int, x, y),
{
    reveal_strlit("mine");
    reveal_strlit("moved");
    reveal_strlit("not moving");
    assert("mine"@.len() == 4);
    assert("moved"@.len() == 5);
    assert("not moving"@.len() == 10);
    assert(a.seen()[y][x] == HIDDEN && !a.gameover && a.board()[y][x] != 1);
    assert(a.board()[y][x] <= 1);
    let p = seq![(x, y)];
    assert(flood_path(a.board(), a.seen(), a.map_size as int, p));
    assert(in_flood(a.board(), a.seen(), a.map_size as int, x, y, x, y));
}

/// The text of a digit is that one digit.
proof fn lemma_digit_text(d: nat)
    requires
        d < 10,
    ensures
        digit_text(d).len() == 1,
        '0' <= digit_text(d)[0] <= '9',
        (digit_text(d)[0] as nat) - ('0' as nat) == d,
{
    reveal_strlit("0");
    reveal_strlit("1");
    reveal_strlit("2");
    reveal_strlit("3");
    reveal_strlit("4");
    reveal_strlit("5");
    reveal_strlit("6");
    reveal_strlit("7");
    reveal_strlit("8");
    reveal_strlit("9");
}

/// Decimal notation is made of digits and reads back as the number.
proof fn lemma_decimal_digits(n: nat)
    ensures
        decimal(n).len() >= 1,
        all_digits(decimal(n)),
        digits_value(decimal(n)) == n,
    decreases n,
{
    if n < 10 {
        lemma_digit_text(n);
        let s = decimal(n);
        assert(s == digit_text(n));
        assert(s.drop_last() =~= Seq::<char>::empty());
        assert(s.last() == s[0]);
        assert(digits_value(s.drop_last()) == 0);
    } else {
        lemma_decimal_digits(n / 10);
        lemma_digit_text(n % 10);
        let s = decimal(n);
        let p = decimal(n / 10);
        assert(s.drop_last() =~= p);
        assert(s.last() == digit_text(n % 10)[0]);
        assert forall|i: int| 0 <= i < s.len() implies '0' <= #[trigger] s[i] <= '9' by {
            if i < p.len() {
                assert(s[i] == p[i]);
            }
        }
    }
}

/// Reading back a number written in decimal gives the number, for every number that
/// fits the type read.
pub proof fn law_decimal_reads_back(n: nat, max: nat)
    requires
        n <= max,
    ensures
        parsed_number(decimal(n), max) == Some(n),
{
    lemma_decimal_digits(n);
    assert('0' <= decimal(n)[0] <= '9');
}

/// Going offline undoes coming online for a user who was not online.
pub proof fn law_offline_undoes_online(a: Games, b: Games, c: Games, name: String, addr: u64)
    requires
        a.wf(),
        !user_online(a.user_list@, name@, addr),
        b.user_list@ == a.user_list@.push((name, addr)),
        exists|i: int| 0 <= i < b.user_list@.len() && (#[trigger] b.user_list@[i]).0@ == name@
            && b.user_list@[i].1 == addr && c.user_list@ == b.user_list@.remove(i),
    ensures
        c.user_list@ == a.user_list@,
{
    let i = choose|i: int| 0 <= i < b.user_list@.len() && (#[trigger] b.user_list@[i]).0@ == name@
        && b.user_list@[i].1 == addr && c.user_list@ == b.user_list@.remove(i);
    if i < a.user_list@.len() {
        assert(b.user_list@[i] == a.user_list@[i]);
        assert(user_online(a.user_list@, name@, addr));
    }
    assert(c.user_list@ =~= a.user_list@);
}


/// A flood path extends by one more hidden cell that uncovering spreads to.
proof fn lemma_flood_path_push(b: Seq<Seq<u8>>, s: Seq<Seq<u8>>, n: int, p: Seq<(int, int)>, d: (int, int))
    requires
        flood_path(b, s, n, p),
        spreads(b, n, p.last(), d),
        in_bounds(n, d.0, d.1),
        s[d.1][d.0] == HIDDEN,
    ensures
        flood_path(b, s, n, p.push(d)),
    decreases p.len(),
{
    let q = p.push(d);
    if p.len() == 1 {
        assert(q.drop_first() =~= seq![d]);
        assert(flood_path(b, s, n, seq![d]));
    } else {
        assert(p.drop_first().last() == p.last());
        lemma_flood_path_push(b, s, n, p.drop_first(), d);
        assert(q.drop_first() =~= p.drop_first().push(d));
        assert(q[1] == p[1]);
    }
}

/// After a step that uncovers a free cell, uncovering has gone as far as it can: every
/// neighbour of a newly uncovered cell with no mine around it is uncovered too.
pub proof fn law_flood_closed(a: Minesweeper, b: Minesweeper, x: int, y: int, e: int, c: int, e2: int, c2: int)
    requires
        a.wf(),
        b.wf(),
        0 <= x < a.map_size,
        0 <= y < a.map_size,
        step_outcome(a, x, y) == "moved"@,
        stepped(a, b, x, y),
        in_bounds(a.map_size as int, e, c),
        a.seen()[c][e] == HIDDEN,
        b.seen()[c][e] != HIDDEN,
        nearby_count(a.board(), a.map_size as int, e, c) == 0,
        adjacent(e, c, e2, c2),
        in_bounds(a.map_size as int, e2, c2),
    ensures
        b.seen()[c2][e2] != HIDDEN,
{
    reveal_strlit("mine");
    reveal_strlit("moved");
    reveal_strlit("not moving");
    assert("mine"@.len() == 4);
    assert("moved"@.len() == 5);
    assert("not moving"@.len() == 10);
    let n = a.map_size as int;
    let bd = a.board();
    let s = a.seen();
    assert(s[y][x] == HIDDEN && !a.gameover && bd[y][x] != 1);
    assert(bd[y][x] <= 1);
    assert(b.seen()[c][e] == if in_flood(bd, s, n, x, y, e, c) { nearby_count(bd, n, e, c) } else { s[c][e] as nat });
    assert(in_flood(bd, s, n, x, y, e, c));
    assert(b.board() == bd);
    assert(bd[c][e] == 0);
    assert(b.seen()[c2][e2] == if in_flood(bd, s, n, x, y, e2, c2) { nearby_count(bd, n, e2, c2) } else { s[c2][e2] as nat });
    if s[c2][e2] == HIDDEN {
        let p = choose|p: Seq<(int, int)>| #[trigger] flood_path(bd, s, n, p) && p[0] == (x, y) && p.last() == (e, c);
        lemma_flood_path_push(bd, s, n, p, (e2, c2));
        let q = p.push((e2, c2));
        assert(q[0] == (x, y) && q.last() == (e2, c2));
        assert(in_flood(bd, s, n, x, y, e2, c2));
    }
}


/// A player who leaves a room, or is kicked out of it, no longer sits there: the room
/// closes when that player was the last one, and otherwise keeps every other player.
pub proof fn law_leaver_is_gone(
    before: Seq<(String, Minesweeper)>,
    after: Seq<(String, Minesweeper)>,
    users: Seq<(String, u64)>,
    j: int,
    name: Seq<char>,
    to: u64,
    msgs: Seq<(u64, Seq<char>)>,
)
    requires
        0 <= j < before.len(),
        names_distinct(before[j].1.sessions@),
        expelled(before, after, users, j, name, to, msgs),
    ensures
        has_player(before[j].1.sessions@, name) && before[j].1.sessions@.len() == 1
            ==> after.len() + 1 == before.len(),
        !(has_player(before[j].1.sessions@, name) && before[j].1.sessions@.len() == 1) ==> {
            &&& after.len() == before.len()
            &&& !has_player(after[j].1.sessions@, name)
            &&& forall|k: int| 0 <= k < before[j].1.sessions@.len() && (#[trigger] before[j].1.sessions@[k]).name@ != name
                ==> after[j].1.sessions@.contains(before[j].1.sessions@[k])
        },
{
    let ss = before[j].1.sessions@;
    lemma_without(ss, name);
    if !(has_player(ss, name) && ss.len() == 1) && has_player(ss, name) {
        let c = choose|i: int| 0 <= i < ss.len() && (#[trigger] ss[i]).name@ == name;
        let w = ss.remove(c);
        assert forall|k: int| 0 <= k < ss.len() && (#[trigger] ss[k]).name@ != name implies w.contains(ss[k]) by {
            if k < c {
                assert(w[k] == ss[k]);
            } else {
                assert(k != c);
                assert(w[k - 1] == ss[k]);
            }
        }
    }
}


/// The text of one flag in a flags message: a space, its column, a space, its row.
pub open spec fn flag_seg(f: (usize, usize)) -> Seq<char> {
    " "@ + decimal(f.0 as nat) + " "@ + decimal(f.1 as nat)
}

/// `text` holds the text of flag `f` somewhere.
pub open spec fn shows_flag(text: Seq<char>, f: (usize, usize)) -> bool {
    exists|pre: Seq<char>, post: Seq<char>| text == #[trigger] (pre + flag_seg(f) + post)
}

/// Each flag of a list appears in the list's text.
proof fn lemma_flag_list_has(fs: Seq<(usize, usize)>, j: int)
    requires
        0 <= j < fs.len(),
    ensures
        exists|pre: Seq<char>, post: Seq<char>| flag_list_text(fs) == #[trigger] (pre + flag_seg(fs[j]) + post),
    decreases fs.len(),
{
    let m = fs.len() - 1;
    let d = fs.drop_last();
    let f = fs[m];
    assert(flag_list_text(fs) =~= flag_list_text(d) + flag_seg(f));
    if j == m {
        assert(flag_list_text(fs) =~= flag_list_text(d) + flag_seg(fs[j]) + Seq::<char>::empty());
    } else {
        lemma_flag_list_has(d, j);
        assert(d[j] == fs[j]);
        let (pre, post) = choose|pre: Seq<char>, post: Seq<char>| flag_list_text(d) == #[trigger] (pre + flag_seg(d[j]) + post);
        assert(flag_list_text(fs) =~= pre + flag_seg(fs[j]) + (post + flag_seg(f)));
    }
}

/// Each flag of each player appears in the flags text of the room.
proof fn lemma_all_flags_has(ss: Seq<crate::minesweeper::Player>, i: int, j: int)
    requires
        0 <= i < ss.len(),
        0 <= j < ss[i].flags@.len(),
    ensures
        exists|pre: Seq<char>, post: Seq<char>| all_flags_text(ss) == #[trigger] (pre + flag_seg(ss[i].flags@[j]) + post),
    decreases ss.len(),
{
    let m = ss.len() - 1;
    let d = ss.drop_last();
    assert(all_flags_text(ss) == all_flags_text(d) + flag_list_text(ss[m].flags@));
    if i == m {
        lemma_flag_list_has(ss[m].flags@, j);
        let (pre, post) = choose|pre: Seq<char>, post: Seq<char>|
            flag_list_text(ss[m].flags@) == #[trigger] (pre + flag_seg(ss[m].flags@[j]) + post);
        assert(all_flags_text(ss) =~= (all_flags_text(d) + pre) + flag_seg(ss[i].flags@[j]) + post);
    } else {
        lemma_all_flags_has(d, i, j);
        assert(d[i] == ss[i]);
        let (pre, post) = choose|pre: Seq<char>, post: Seq<char>| all_flags_text(d) == #[trigger] (pre + flag_seg(d[i].flags@[j]) + post);
        assert(all_flags_text(ss) =~= pre + flag_seg(ss[i].flags@[j]) + (post + flag_list_text(ss[m].flags@)));
    }
}

/// A player who joins a game that is not lost gets, after the board size and the view,
/// the flags message of the room, the text `get_flags` gives: every flag of every
/// player appears in it as a space, its column, a space and its row.
pub proof fn law_joiner_sees_every_flag(g: Minesweeper, addr: u64)
    requires
        !g.gameover,
    ensures
        welcome_msgs(g, addr).len() == 3,
        welcome_msgs(g, addr)[2].0 == addr,
        welcome_msgs(g, addr)[2].1 == "/flag"@ + all_flags_text(g.sessions@),
        forall|i: int, j: int| 0 <= i < g.sessions@.len() && 0 <= j < g.sessions@[i].flags@.len()
            ==> shows_flag(welcome_msgs(g, addr)[2].1, #[trigger] g.sessions@[i].flags@[j]),
{
    let text = welcome_msgs(g, addr)[2].1;
    assert forall|i: int, j: int| 0 <= i < g.sessions@.len() && 0 <= j < g.sessions@[i].flags@.len()
        implies shows_flag(welcome_msgs(g, addr)[2].1, #[trigger] g.sessions@[i].flags@[j]) by {
        lemma_all_flags_has(g.sessions@, i, j);
        let (pre, post) = choose|pre: Seq<char>, post: Seq<char>|
            all_flags_text(g.sessions@) == #[trigger] (pre + flag_seg(g.sessions@[i].flags@[j]) + post);
        let pre2 = "/flag"@ + pre;
        assert(text =~= pre2 + flag_seg(g.sessions@[i].flags@[j]) + post);
        assert(text == pre2 + flag_seg(g.sessions@[i].flags@[j]) + post);
    }
}


/// A text that announces a lost game: it starts with "/gameover ".
pub open spec fn is_loss_notice(t: Seq<char>) -> bool {
    t.len() >= 10 && t.take(10) == "/gameover "@
}

/// Every message for a step in a room is the view, the move, or, when the game is lost,
/// "/gameover " with the stepper's name; on a loss every player gets that last one.
proof fn lemma_move_msgs(ss: Seq<crate::minesweeper::Player>, g: Minesweeper, moved: Seq<char>, lost: bool, name: Seq<char>)
    ensures
        forall|k: int| 0 <= k < move_msgs(ss, g, moved, lost, name).len() ==> {
            let m = #[trigger] move_msgs(ss, g, moved, lost, name)[k];
            m.1 == state_text(g) || m.1 == moved || (lost && m.1 == "/gameover "@ + name)
        },
        lost ==> forall|i: int| 0 <= i < ss.len()
            ==> move_msgs(ss, g, moved, lost, name).contains(((#[trigger] ss[i]).addr, "/gameover "@ + name)),
    decreases ss.len(),
{
    if ss.len() > 0 {
        let d = ss.drop_last();
        lemma_move_msgs(d, g, moved, lost, name);
        let prev = move_msgs(d, g, moved, lost, name);
        let all = move_msgs(ss, g, moved, lost, name);
        assert forall|k: int| 0 <= k < prev.len() implies #[trigger] all[k] == prev[k] by {}
        if lost {
            assert forall|i: int| 0 <= i < ss.len() implies all.contains(((#[trigger] ss[i]).addr, "/gameover "@ + name)) by {
                if i == ss.len() - 1 {
                    assert(all[prev.len() + 2int] == (ss[i].addr, "/gameover "@ + name));
                } else {
                    assert(d[i] == ss[i]);
                    assert(prev.contains((d[i].addr, "/gameover "@ + name)));
                    let k = choose|k: int| 0 <= k < prev.len() && prev[k] == (d[i].addr, "/gameover "@ + name);
                    assert(all[k] == prev[k]);
                }
            }
        }
    }
}

/// Neither the view message nor the move message announces a lost game.
proof fn lemma_not_loss_notices(g: Minesweeper, x: int, y: int, color: Seq<char>)
    ensures
        !is_loss_notice(state_text(g)),
        !is_loss_notice(moved_text(x, y, color)),
{
    reveal_strlit("/gameover ");
    reveal_strlit("/gamestate");
    reveal_strlit("/moved ");
    assert("/gameover "@[5] == 'o');
    assert("/gamestate"@[5] == 's');
    assert("/gameover "@[1] == 'g');
    assert("/moved "@[1] == 'm');
    let st = state_text(g);
    if st.len() >= 10 {
        assert(st.take(10)[5] == st[5]);
        assert(st[5] == 's');
    }
    let mv = moved_text(x, y, color);
    if mv.len() >= 10 {
        assert(mv.take(10)[1] == mv[1]);
        assert(mv[1] == 'm');
    }
}

/// The loss notices among the messages of the first `k` rooms all name the stepper.
proof fn lemma_moves_notices(
    before: Seq<(String, Minesweeper)>,
    after: Seq<(String, Minesweeper)>,
    k: nat,
    gameid: Seq<char>,
    x: int,
    y: int,
    name: Seq<char>,
)
    requires
        k <= before.len(),
        k <= after.len(),
    ensures
        forall|q: int| 0 <= q < moves_msgs(before, after, k, gameid, x, y, name).len()
            && is_loss_notice(#[trigger] moves_msgs(before, after, k, gameid, x, y, name)[q].1)
            ==> moves_msgs(before, after, k, gameid, x, y, name)[q].1 == "/gameover "@ + name,
    decreases k,
{
    if k > 0 {
        lemma_moves_notices(before, after, (k - 1) as nat, gameid, x, y, name);
        let prev = moves_msgs(before, after, (k - 1) as nat, gameid, x, y, name);
        let all = moves_msgs(before, after, k, gameid, x, y, name);
        let b = before[k - 1];
        let a = after[k - 1].1;
        let room = room_move_msgs(b, a, gameid, x, y, name);
        assert(all == prev + room);
        if acts(b, gameid, x, y, name) {
            let moved = moved_text(x, y, crate::games::color_of(b.1.sessions@, name));
            lemma_move_msgs(a.sessions@, a, moved, true, name);
            lemma_move_msgs(a.sessions@, a, moved, false, name);
            lemma_not_loss_notices(a, x, y, crate::games::color_of(b.1.sessions@, name));
        }
        assert forall|q: int| 0 <= q < all.len() && is_loss_notice(#[trigger] all[q].1)
            implies all[q].1 == "/gameover "@ + name by {
            if q >= prev.len() {
                assert(all[q] == room[q - prev.len()]);
            } else {
                assert(all[q] == prev[q]);
            }
        }
    }
}

/// Every message of room `j` for a step is among the messages of the first `k` rooms,
/// for any `k` past `j`.
proof fn lemma_moves_include(
    before: Seq<(String, Minesweeper)>,
    after: Seq<(String, Minesweeper)>,
    k: nat,
    gameid: Seq<char>,
    x: int,
    y: int,
    name: Seq<char>,
    j: int,
)
    requires
        0 <= j < k,
        k <= before.len(),
        k <= after.len(),
    ensures
        forall|r: int| 0 <= r < room_move_msgs(before[j], after[j].1, gameid, x, y, name).len()
            ==> moves_msgs(before, after, k, gameid, x, y, name).contains(
                #[trigger] room_move_msgs(before[j], after[j].1, gameid, x, y, name)[r]),
    decreases k,
{
    let prev = moves_msgs(before, after, (k - 1) as nat, gameid, x, y, name);
    let all = moves_msgs(before, after, k, gameid, x, y, name);
    let room = room_move_msgs(before[j], after[j].1, gameid, x, y, name);
    assert(all == prev + room_move_msgs(before[k - 1], after[k - 1].1, gameid, x, y, name));
    if j == k - 1 {
        assert forall|r: int| 0 <= r < room.len() implies all.contains(#[trigger] room[r]) by {
            assert(all[prev.len() + r] == room[r]);
        }
    } else {
        lemma_moves_include(before, after, (k - 1) as nat, gameid, x, y, name, j);
        assert forall|r: int| 0 <= r < room.len() implies all.contains(#[trigger] room[r]) by {
            assert(prev.contains(room[r]));
            let q = choose|q: int| 0 <= q < prev.len() && prev[q] == room[r];
            assert(all[q] == prev[q]);
        }
    }
}

/// When a step hits a mine, every player of that room is told that the game is lost and
/// by whom: "/gameover " and the name of the player who stepped. Every loss notice that a
/// step sends, to anyone, carries that same name.
pub proof fn law_loss_names_the_stepper(
    before: Seq<(String, Minesweeper)>,
    after: Seq<(String, Minesweeper)>,
    gameid: Seq<char>,
    x: int,
    y: int,
    name: Seq<char>,
    j: int,
)
    requires
        0 <= j < before.len(),
        after.len() == before.len(),
        acts(before[j], gameid, x, y, name),
        step_outcome(before[j].1, x, y) == "mine"@,
    ensures
        forall|i: int| 0 <= i < after[j].1.sessions@.len()
            ==> moves_msgs(before, after, before.len() as nat, gameid, x, y, name).contains(
                ((#[trigger] after[j].1.sessions@[i]).addr, "/gameover "@ + name)),
        forall|q: int| 0 <= q < moves_msgs(before, after, before.len() as nat, gameid, x, y, name).len()
            && is_loss_notice(#[trigger] moves_msgs(before, after, before.len() as nat, gameid, x, y, name)[q].1)
            ==> moves_msgs(before, after, before.len() as nat, gameid, x, y, name)[q].1 == "/gameover "@ + name,
{
    reveal_strlit("mine");
    reveal_strlit("moved");
    assert("mine"@.len() == 4);
    assert("moved"@.len() == 5);
    let n = before.len() as nat;
    let msgs = moves_msgs(before, after, n, gameid, x, y, name);
    let a = after[j].1;
    let moved = moved_text(x, y, crate::games::color_of(before[j].1.sessions@, name));
    let room = room_move_msgs(before[j], a, gameid, x, y, name);
    assert(room == move_msgs(a.sessions@, a, moved, true, name));
    lemma_move_msgs(a.sessions@, a, moved, true, name);
    lemma_moves_include(before, after, n, gameid, x, y, name, j);
    lemma_moves_notices(before, after, n, gameid, x, y, name);
    assert forall|i: int| 0 <= i < a.sessions@.len() implies msgs.contains(((#[trigger] a.sessions@[i]).addr, "/gameover "@ + name)) by {
        assert(room.contains((a.sessions@[i].addr, "/gameover "@ + name)));
        let r = choose|r: int| 0 <= r < room.len() && room[r] == (a.sessions@[i].addr, "/gameover "@ + name);
        assert(msgs.contains(room[r]));
        let q = choose|q: int| 0 <= q < msgs.len() && msgs[q] == room[r];
        assert(msgs[q] == (a.sessions@[i].addr, "/gameover "@ + name));
    }
}


/// The boards and cells of a sequence of draws: `boards[0]` is the n-by-n board with no
/// mine, and draw `i` lays a mine on `cells[i]`, a cell that is free on `boards[i]` and
/// whose rank among its free cells, row by row, is the drawn number; that gives
/// `boards[i + 1]`.
pub open spec fn drawn_boards(n: nat, draws: Seq<usize>, boards: Seq<Seq<Seq<u8>>>, cells: Seq<(int, int)>) -> bool {
    &&& boards.len() == draws.len() + 1
    &&& cells.len() == draws.len()
    &&& is_square(boards[0], n)
    &&& forall|y: int, x: int| in_bounds(n as int, x, y) ==> #[trigger] boards[0][y][x] == 0
    &&& forall|i: int| 0 <= i < draws.len() ==> {
        let p = #[trigger] cells[i];
        &&& draws[i] < n * n - i
        &&& in_bounds(n as int, p.0, p.1)
        &&& boards[i][p.1][p.0] == 0
        &&& free_rank(boards[i], p.0, p.1) == draws[i]
        &&& boards[i + 1] == boards[i].update(p.1, boards[i][p.1].update(p.0, 1))
    }
}

/// A fresh board, the kind `Minesweeper::new` and `Minesweeper::reset` lay, is the empty
/// board with one mine laid by each of `bombs` draws of the random source: each draw
/// picks, among the cells still free, the one of the drawn rank. Its mines are exactly
/// the cells the draws picked, so there are `bombs` of them, and nothing of any earlier
/// board enters it.
pub proof fn law_fresh_board_is_drawn(n: nat, bombs: nat, g: Seq<Seq<u8>>)
    requires
        fresh_board(n, bombs, g),
    ensures
        is_square(g, n),
        exists|draws: Seq<usize>, boards: Seq<Seq<Seq<u8>>>, cells: Seq<(int, int)>| {
            &&& #[trigger] drawn_boards(n, draws, boards, cells)
            &&& draws.len() == bombs
            &&& boards.last() == g
            &&& forall|y: int, x: int| in_bounds(n as int, x, y)
                ==> (#[trigger] g[y][x] == 1 <==> cells.contains((x, y)))
            &&& forall|y: int, x: int| in_bounds(n as int, x, y) ==> (#[trigger] g[y][x] == 0 || g[y][x] == 1)
        },
{
    let draws = choose|draws: Seq<usize>| crate::minesweeper::fair_draws(n, draws) && draws.len() == bombs && #[trigger] laid_board(n, draws) == g;
    lemma_laid_board(n, draws);
    lemma_laid_mines(n, draws);
    let len = draws.len() as int;
    let boards = Seq::new((len + 1) as nat, |i: int| laid_board(n, draws.take(i)));
    let cells = Seq::new(len as nat, |i: int| drawn_cell(n, draws, i));
    assert(draws.take(0) =~= Seq::<usize>::empty());
    assert(boards[0] == empty_board(n));
    assert forall|i: int| 0 <= i < draws.len() implies {
        let p = #[trigger] cells[i];
        &&& draws[i] < n * n - i
        &&& in_bounds(n as int, p.0, p.1)
        &&& boards[i][p.1][p.0] == 0
        &&& free_rank(boards[i], p.0, p.1) == draws[i]
        &&& boards[i + 1] == boards[i].update(p.1, boards[i][p.1].update(p.0, 1))
    } by {
        assert(cells[i] == drawn_cell(n, draws, i));
        assert(draws.take(i + 1).drop_last() =~= draws.take(i));
        assert(draws.take(i + 1).last() == draws[i]);
        assert(boards[i + 1] == with_mine(boards[i], cells[i]));
    }
    assert(draws.take(len) =~= draws);
    assert(boards.last() == g);
    assert forall|y: int, x: int| in_bounds(n as int, x, y) implies (#[trigger] g[y][x] == 1 <==> cells.contains((x, y))) by {
        if g[y][x] == 1 {
            let i = choose|i: int| 0 <= i < draws.len() && drawn_cell(n, draws, i) == (x, y);
            assert(cells[i] == (x, y));
        }
        if cells.contains((x, y)) {
            let i = choose|i: int| 0 <= i < cells.len() && cells[i] == (x, y);
            assert(drawn_cell(n, draws, i) == (x, y));
        }
    }
    assert(drawn_boards(n, draws, boards, cells));
}

/// Starting a room over clears its board and lays every mine afresh: the board after a
/// reset has the same size and number of mines, and it is the empty board with a mine
/// laid by each draw of the random source on the free cell of the drawn rank (see
/// `law_fresh_board_is_drawn`); the board before the reset plays no part.
pub proof fn law_reset_lays_afresh(a: Minesweeper, b: Minesweeper)
    requires
        a.wf(),
        reset_from(a, b),
        fresh_board(b.map_size as nat, b.bombs as nat, b.board()),
    ensures
        b.map_size == a.map_size,
        b.bombs == a.bombs,
        exists|draws: Seq<usize>, boards: Seq<Seq<Seq<u8>>>, cells: Seq<(int, int)>| {
            &&& #[trigger] drawn_boards(a.map_size as nat, draws, boards, cells)
            &&& draws.len() == a.bombs
            &&& boards.last() == b.board()
            &&& forall|y: int, x: int| in_bounds(a.map_size as int, x, y)
                ==> (#[trigger] b.board()[y][x] == 1 <==> cells.contains((x, y)))
        },
{
    law_fresh_board_is_drawn(b.map_size as nat, b.bombs as nat, b.board());
}

} // verus!
