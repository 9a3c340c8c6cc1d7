//! What every turn keeps: falling rocks leave empty cells and fill empty
//! cells, the other cells keep what the robot's move left, and the robot is
//! where the game says it is.
use vstd::prelude::*;
use crate::geom::{lemma_rect_scan_from, pbox, spec_step, Point, Rect};
use crate::mine::{last_write, Change};
use crate::space::Space;
use crate::state::{
    collects, completes, edits_rect, lift_cells, lift_edits, lift_fn, lifts_in, lifts_open, move_fn, moved_cell,
    moved_fn, moved_rloc, moved_rollrect, moves_edits, next_cell, next_lgot, robot_move, rock_move,
    rock_moves, rock_moves_in, spec_score, tramp_clears, update_edits, update_region, Cmd, Outcome,
    State, StateConst, spec_useful,
};
use crate::text::{lower, words};
use crate::state::{meta_line, MetaSpec};
use crate::geom::Dir;

verus! {

/// No change writes `q`: its last write is none.
pub proof fn lemma_last_write_none(e: Seq<Change>, q: Point)
    requires
        forall|i: int| 0 <= i < e.len() ==> (#[trigger] e[i]).at != q,
    ensures
        last_write(e, q) is None,
    decreases e.len(),
{
    if e.len() > 0 {
        assert(e[e.len() - 1].at != q);
        assert forall|i: int| 0 <= i < e.drop_last().len() implies (#[trigger] e.drop_last()[i]).at
            != q by {
            assert(e.drop_last()[i] == e[i]);
        }
        lemma_last_write_none(e.drop_last(), q);
    }
}

/// Some change writes `q`, and each that does writes `v`: the last write is `v`.
pub proof fn lemma_last_write_all(e: Seq<Change>, q: Point, v: Space, k: int)
    requires
        0 <= k < e.len(),
        e[k].at == q,
        forall|i: int| 0 <= i < e.len() && (#[trigger] e[i]).at == q ==> e[i].what == v,
    ensures
        last_write(e, q) == Some(v),
    decreases e.len(),
{
    if e.last().at != q {
        assert(k < e.len() - 1);
        assert(e.drop_last()[k] == e[k]);
        assert forall|i: int|
            0 <= i < e.drop_last().len() && (#[trigger] e.drop_last()[i]).at == q implies e.drop_last()[i].what
            == v by {
            assert(e.drop_last()[i] == e[i]);
        }
        lemma_last_write_all(e.drop_last(), q, v, k);
    }
}

/// The changes that move rocks: for each move, the emptying of its cell
/// then the filling of the cell it goes to.
pub proof fn lemma_moves_edits_index(m: Seq<(Point, Point)>)
    ensures
        moves_edits(m).len() == 2 * m.len(),
        forall|j: int|
            0 <= j < m.len() ==> #[trigger] moves_edits(m)[2 * j] == (Change {
                at: m[j].0,
                what: Space::Empty,
            }) && moves_edits(m)[2 * j + 1] == (Change { at: m[j].1, what: Space::Rock }),
    decreases m.len(),
{
    if m.len() > 0 {
        lemma_moves_edits_index(m.drop_last());
        assert forall|j: int| 0 <= j < m.len() implies #[trigger] moves_edits(m)[2 * j] == (Change {
            at: m[j].0,
            what: Space::Empty,
        }) && moves_edits(m)[2 * j + 1] == (Change { at: m[j].1, what: Space::Rock }) by {
            if j < m.len() - 1 {
                assert(m.drop_last()[j] == m[j]);
                assert(moves_edits(m.drop_last())[2 * j] == moves_edits(m)[2 * j]);
            }
        }
    }
}

/// Each rock move is a rock that moves, and where it goes.
pub proof fn lemma_rock_moves_facts(cell: spec_fn(Point) -> Space, r: Rect, i: int)
    requires
        r.fits(),
        0 <= i < rock_moves_in(cell, r).len(),
    ensures
        r.spec_contains(rock_moves_in(cell, r)[i].0),
        rock_move(cell, rock_moves_in(cell, r)[i].0) == Some(rock_moves_in(cell, r)[i].1),
        cell(rock_moves_in(cell, r)[i].0) == Space::Rock,
        cell(rock_moves_in(cell, r)[i].1) == Space::Empty,
{
    lemma_rect_scan_from(move_fn(cell), r, r.h as int, i);
    let p = choose|p: Point| r.spec_contains(p) && #[trigger] move_fn(cell)(p) == Some(
        rock_moves_in(cell, r)[i],
    );
    assert(move_fn(cell)(p) == Some(rock_moves_in(cell, r)[i]));
}

/// Each opened lift was a closed lift.
pub proof fn lemma_lifts_facts(cell: spec_fn(Point) -> Space, r: Rect, i: int)
    requires
        r.fits(),
        0 <= i < lifts_in(cell, r).len(),
    ensures
        cell(lifts_in(cell, r)[i]) == Space::ClosedLift,
{
    lemma_rect_scan_from(lift_fn(cell), r, r.h as int, i);
    let p = choose|p: Point| r.spec_contains(p) && #[trigger] lift_fn(cell)(p) == Some(
        lifts_in(cell, r)[i],
    );
    assert(lift_fn(cell)(p) == Some(lifts_in(cell, r)[i]));
}

/// Every change of the map update writes at a cell that, once the robot has
/// moved, holds a rock (then emptied), an empty cell (then filled with a
/// rock) or a closed lift (then opened).
pub proof fn lemma_update_edit_facts(s: State, cmd: Cmd, k: int)
    requires
        s.wf(),
        s.step_ready(cmd),
        0 <= k < update_edits(s, cmd).len(),
    ensures
        ({
            let e = update_edits(s, cmd)[k];
            let c = moved_cell(s, cmd, e.at);
            ||| c == Space::Rock && e.what == Space::Empty
            ||| c == Space::Empty && e.what == Space::Rock
            ||| c == Space::ClosedLift && e.what == Space::OpenLift
        }),
{
    lemma_region_fits(s, cmd);
    let m = rock_moves(s, cmd);
    let cell = moved_fn(s, cmd);
    let me = moves_edits(m);
    lemma_moves_edits_index(m);
    if k < me.len() {
        let j = k / 2;
        assert(0 <= j < m.len());
        lemma_rock_moves_facts(cell, update_region(s, cmd), j);
        assert(cell(m[j].0) == moved_cell(s, cmd, m[j].0));
        assert(cell(m[j].1) == moved_cell(s, cmd, m[j].1));
        if k % 2 == 0 {
            assert(k == 2 * j);
            assert(update_edits(s, cmd)[k] == me[2 * j]);
            assert(me[2 * j] == (Change { at: m[j].0, what: Space::Empty }));
        } else {
            assert(k == 2 * j + 1);
            assert(update_edits(s, cmd)[k] == me[2 * j + 1]);
            assert(me[2 * j + 1] == (Change { at: m[j].1, what: Space::Rock }));
        }
    } else {
        let li = k - me.len();
        let lc = lift_cells(s, cmd);
        assert(update_edits(s, cmd)[k] == lift_edits(lc)[li]);
        if lifts_open(s, cmd) {
            crate::mine::lemma_box_fits(s.mine);
            lemma_lifts_facts(cell, s.mine.spec_box(), li);
            assert(lc[li] == lifts_in(cell, s.mine.spec_box())[li]);
            assert(cell(lc[li]) == moved_cell(s, cmd, lc[li]));
            assert(lift_edits(lc)[li] == (Change { at: lc[li], what: Space::OpenLift }));
        } else {
            assert(lc.len() == 0);
        }
    }
}

/// A falling rock leaves its cell empty and fills the cell it goes to.
pub proof fn lemma_rocks_fall(s: State, cmd: Cmd, i: int)
    requires
        s.wf(),
        s.step_ready(cmd),
        0 <= i < rock_moves(s, cmd).len(),
    ensures
        ({
            let (h, t) = rock_moves(s, cmd)[i];
            &&& moved_cell(s, cmd, h) == Space::Rock
            &&& moved_cell(s, cmd, t) == Space::Empty
            &&& next_cell(s, cmd, h) == Space::Empty
            &&& next_cell(s, cmd, t) == Space::Rock
        }),
{
    lemma_region_fits(s, cmd);
    let m = rock_moves(s, cmd);
    let e = update_edits(s, cmd);
    let (h, t) = m[i];
    lemma_rock_moves_facts(moved_fn(s, cmd), update_region(s, cmd), i);
    lemma_moves_edits_index(m);
    assert(e[2 * i] == moves_edits(m)[2 * i]);
    assert(e[2 * i + 1] == moves_edits(m)[2 * i + 1]);
    assert forall|k: int| 0 <= k < e.len() && (#[trigger] e[k]).at == h implies e[k].what
        == Space::Empty by {
        lemma_update_edit_facts(s, cmd, k);
    }
    assert forall|k: int| 0 <= k < e.len() && (#[trigger] e[k]).at == t implies e[k].what
        == Space::Rock by {
        lemma_update_edit_facts(s, cmd, k);
    }
    lemma_last_write_all(e, h, Space::Empty, 2 * i);
    lemma_last_write_all(e, t, Space::Rock, 2 * i + 1);
}

/// A cell that is no rock, empty cell or closed lift once the robot has
/// moved keeps its contents through the map update.
pub proof fn lemma_update_frame(s: State, cmd: Cmd, q: Point)
    requires
        s.wf(),
        s.step_ready(cmd),
        moved_cell(s, cmd, q) != Space::Rock,
        moved_cell(s, cmd, q) != Space::Empty,
        moved_cell(s, cmd, q) != Space::ClosedLift,
    ensures
        next_cell(s, cmd, q) == moved_cell(s, cmd, q),
{
    lemma_region_fits(s, cmd);
    let e = update_edits(s, cmd);
    assert forall|k: int| 0 <= k < e.len() implies (#[trigger] e[k]).at != q by {
        lemma_update_edit_facts(s, cmd, k);
    }
    lemma_last_write_none(e, q);
}

/// After a turn the robot is in the cell where the game says it is, unless
/// a trampoline sent it to the cell it jumped from.
pub proof fn lemma_robot_stays(s: State, cmd: Cmd)
    requires
        s.wf(),
        s.step_ready(cmd),
        robot_move(s, cmd) is None || moved_rloc(s, cmd) != s.rloc,
    ensures
        next_cell(s, cmd, moved_rloc(s, cmd)) == Space::Robot,
{
    lemma_region_fits(s, cmd);
    let q = moved_rloc(s, cmd);
    match robot_move(s, cmd) {
        Some((to, e)) => {
            let n = e.len();
            assert(n >= 2);
            assert(e[n - 1] == (Change { at: s.rloc, what: Space::Empty }));
            assert(e[n - 2] == (Change { at: to, what: Space::Robot }));
            assert(e.drop_last().last() == e[n - 2]);
            assert(last_write(e.drop_last(), q) == Some(Space::Robot));
            assert(last_write(e, q) == Some(Space::Robot));
        },
        None => {},
    }
    assert(moved_cell(s, cmd, q) == Space::Robot);
    lemma_update_frame(s, cmd, q);
}

/// Growing a rectangle inside another to cover cells inside it keeps it inside.
pub proof fn lemma_edits_rect_within(r: Rect, e: Seq<Change>, b: Rect)
    requires
        r.within(b),
        b.fits(),
        forall|i: int| 0 <= i < e.len() ==> b.spec_contains((#[trigger] e[i]).at),
    ensures
        edits_rect(r, e).within(b),
    decreases e.len(),
{
    if e.len() > 0 {
        assert forall|i: int| 0 <= i < e.drop_last().len() implies b.spec_contains(
            (#[trigger] e.drop_last()[i]).at,
        ) by {
            assert(e.drop_last()[i] == e[i]);
        }
        lemma_edits_rect_within(r, e.drop_last(), b);
        assert(b.spec_contains(e[e.len() - 1].at));
        crate::geom::lemma_pbox_within(e.last().at, b);
        crate::geom::lemma_union_within(edits_rect(r, e.drop_last()), pbox(e.last().at), b);
    }
}

/// The trampolines that a jump empties are those of the first `n` that share
/// its target.
pub proof fn lemma_tramp_clears_from(c: StateConst, y: u8, n: int, i: int)
    requires
        0 <= n <= c.trampmap@.len(),
        n <= c.tramploc@.len(),
        0 <= i < tramp_clears(c, y, n).len(),
    ensures
        exists|xx: int|
            0 <= xx < n && #[trigger] c.trampmap@[xx] == y && tramp_clears(c, y, n)[i] == (Change {
                at: c.tramploc@[xx],
                what: Space::Empty,
            }),
    decreases n,
{
    let rest = tramp_clears(c, y, n - 1);
    if i < rest.len() {
        lemma_tramp_clears_from(c, y, n - 1, i);
        let xx = choose|xx: int|
            0 <= xx < n - 1 && #[trigger] c.trampmap@[xx] == y && rest[i] == (Change {
                at: c.tramploc@[xx],
                what: Space::Empty,
            });
        assert(tramp_clears(c, y, n)[i] == rest[i]);
    } else {
        assert(c.trampmap@[n - 1] == y);
    }
}

/// The game's fixed settings.
pub open spec fn consts(s: State) -> StateConst {
    *s.c
}

/// The robot's move changes only cells of the mine.
pub proof fn lemma_robot_move_inside(s: State, cmd: Cmd)
    requires
        s.wf(),
        s.step_ready(cmd),
    ensures
        robot_move(s, cmd) matches Some((to, e)) ==> s.mine.inside(to) && forall|i: int|
            0 <= i < e.len() ==> s.mine.inside((#[trigger] e[i]).at),
{
    if let Cmd::Move(d) = cmd {
        let nr = spec_step(s.rloc, d);
        s.mine.lemma_cells(nr);
        s.mine.lemma_cells(spec_step(nr, d));
        if let Some((to, e)) = robot_move(s, cmd) {
            if let Space::Tramp(x) = s.cell(nr) {
                let y = s.c.trampmap@[x as int];
                let tc = tramp_clears(consts(s), y, 15);
                assert forall|i: int| 0 <= i < e.len() implies s.mine.inside((#[trigger] e[i]).at) by {
                    if i < tc.len() {
                        lemma_tramp_clears_from(consts(s), y, 15, i);
                        assert(e[i] == tc[i]);
                    }
                }
            }
        }
    }
}

/// The region where rocks may move lies in the mine and is representable.
pub proof fn lemma_region_fits(s: State, cmd: Cmd)
    requires
        s.wf(),
        s.step_ready(cmd),
    ensures
        update_region(s, cmd).fits(),
        update_region(s, cmd).within(s.mine.spec_box()),
        moved_rollrect(s, cmd).within(s.mine.spec_box()),
{
    let b = s.mine.spec_box();
    crate::mine::lemma_box_fits(s.mine);
    lemma_robot_move_inside(s, cmd);
    if let Some((to, e)) = robot_move(s, cmd) {
        assert forall|i: int| 0 <= i < e.len() implies b.spec_contains((#[trigger] e[i]).at) by {
            s.mine.lemma_cells(e[i].at);
        }
        lemma_edits_rect_within(s.rollrect, e, b);
    }
    crate::geom::lemma_grown_cut(moved_rollrect(s, cmd), b);
}

/// The command does not send the robot onto a trampoline.
pub open spec fn no_jump(s: State, cmd: Cmd) -> bool {
    match cmd {
        Cmd::Move(d) => !(s.cell(spec_step(s.rloc, d)) is Tramp),
        Cmd::Wait => true,
    }
}

/// A turn that jumps onto no trampoline leaves every wall a wall.
pub proof fn lemma_walls_stay(s: State, cmd: Cmd, p: Point)
    requires
        s.wf(),
        s.step_ready(cmd),
        no_jump(s, cmd),
        s.cell(p) == Space::Wall,
    ensures
        next_cell(s, cmd, p) == Space::Wall,
{
    if let Some((to, e)) = robot_move(s, cmd) {
        assert forall|i: int| 0 <= i < e.len() implies (#[trigger] e[i]).at != p by {}
        lemma_last_write_none(e, p);
    }
    assert(moved_cell(s, cmd, p) == Space::Wall);
    lemma_update_frame(s, cmd, p);
}

/// No change writes `v`: the last write at any cell is not `v`.
pub proof fn lemma_last_write_never(e: Seq<Change>, p: Point, v: Space)
    requires
        forall|i: int| 0 <= i < e.len() ==> (#[trigger] e[i]).what != v,
    ensures
        last_write(e, p) != Some(v),
    decreases e.len(),
{
    if e.len() > 0 {
        assert(e[e.len() - 1].what != v);
        assert forall|i: int| 0 <= i < e.drop_last().len() implies (#[trigger] e.drop_last()[i]).what
            != v by {
            assert(e.drop_last()[i] == e[i]);
        }
        lemma_last_write_never(e.drop_last(), p, v);
    }
}

/// No turn creates a lambda: a cell that holds one after the turn held one
/// before it.
pub proof fn lemma_no_lambda_appears(s: State, cmd: Cmd, p: Point)
    requires
        s.wf(),
        s.step_ready(cmd),
    ensures
        next_cell(s, cmd, p) == Space::Lambda ==> s.cell(p) == Space::Lambda,
{
    let u = update_edits(s, cmd);
    assert forall|k: int| 0 <= k < u.len() implies (#[trigger] u[k]).what != Space::Lambda by {
        lemma_update_edit_facts(s, cmd, k);
    }
    lemma_last_write_never(u, p, Space::Lambda);
    if let Some((to, e)) = robot_move(s, cmd) {
        if let Cmd::Move(d) = cmd {
            let nr = spec_step(s.rloc, d);
            if let Space::Tramp(x) = s.cell(nr) {
                let y = s.c.trampmap@[x as int];
                let tc = tramp_clears(consts(s), y, 15);
                assert forall|i: int| 0 <= i < e.len() implies (#[trigger] e[i]).what != Space::Lambda by {
                    if i < tc.len() {
                        lemma_tramp_clears_from(consts(s), y, 15, i);
                        assert(e[i] == tc[i]);
                    }
                }
            }
        }
        lemma_last_write_never(e, p, Space::Lambda);
    }
}

/// A mine without lambdas keeps none, and the count of collected lambdas
/// stays as it was.
pub proof fn lemma_no_lambdas_stay(s: State, cmd: Cmd, p: Point)
    requires
        s.wf(),
        s.step_ready(cmd),
        forall|q: Point| #[trigger] s.cell(q) != Space::Lambda,
    ensures
        next_cell(s, cmd, p) != Space::Lambda,
        next_lgot(s, cmd) == s.lgot,
{
    lemma_no_lambda_appears(s, cmd, p);
    if let Cmd::Move(d) = cmd {
        assert(s.cell(spec_step(s.rloc, d)) != Space::Lambda);
    }
}

/// With no lambda collected, a game scores minus the turns taken, however it
/// ends; so on a mine without lambdas, giving up at once scores best.
pub proof fn lemma_score_without_lambdas(s: State, o: Option<Outcome>)
    requires
        s.lgot == 0,
    ensures
        spec_score(s, o) == -(s.time as int),
        spec_score(s, o) <= 0,
{
}

/// A rock that moves goes one row down, to the cell below it or one of the
/// two beside that one.
pub proof fn lemma_rocks_go_down(s: State, cmd: Cmd, i: int)
    requires
        s.wf(),
        s.step_ready(cmd),
        0 <= i < rock_moves(s, cmd).len(),
    ensures
        ({
            let (h, t) = rock_moves(s, cmd)[i];
            &&& t.y == h.y - 1
            &&& h.x - 1 <= t.x <= h.x + 1
        }),
{
    lemma_region_fits(s, cmd);
    crate::mine::lemma_box_fits(s.mine);
    let r = update_region(s, cmd);
    lemma_rock_moves_facts(moved_fn(s, cmd), r, i);
    let (h, t) = rock_moves(s, cmd)[i];
    assert(r.spec_contains(h));
    assert(s.mine.spec_box().spec_contains(h));
}

/// A turn opens a closed lift only when, after it, the robot has collected
/// as many lambdas as the mine held, having collected the last of them in
/// this turn or the mine having held none.
pub proof fn lemma_lift_opens_when_all_collected(s: State, cmd: Cmd, p: Point)
    requires
        s.wf(),
        s.step_ready(cmd),
        moved_cell(s, cmd, p) == Space::ClosedLift,
        next_cell(s, cmd, p) == Space::OpenLift,
    ensures
        next_lgot(s, cmd) == s.c.lamb,
        collects(s, cmd) || s.c.lamb == 0,
{
    let u = update_edits(s, cmd);
    let mv = rock_moves(s, cmd);
    let me = moves_edits(mv);
    assert(last_write(u, p) is Some);
    crate::settle::lemma_last_write_some(u, p);
    let k = choose|k: int| 0 <= k < u.len() && (#[trigger] u[k]).at == p && u[k].what == last_write(u, p)->0;
    lemma_moves_edits_index(mv);
    if k < me.len() {
        let j = k / 2;
        assert(u[k] == me[k]);
        if k % 2 == 0 {
            assert(me[2 * j].what == Space::Empty);
        } else {
            assert(me[2 * j + 1].what == Space::Rock);
        }
    } else {
        assert(lift_edits(lift_cells(s, cmd)).len() > 0);
        assert(lifts_open(s, cmd));
    }
}

/// The score counts 25 per lambda collected less one per turn; an abandoned
/// game (`None`) counts another 25 per lambda and a won game another 50; a
/// game that died or ran out of turns counts no more.
pub proof fn lemma_score_values(s: State)
    ensures
        spec_score(s, None) == 50 * s.lgot - s.time,
        spec_score(s, Some(Outcome::Won)) == 75 * s.lgot - s.time,
        spec_score(s, Some(Outcome::Died)) == 25 * s.lgot - s.time,
        spec_score(s, Some(Outcome::TooLong)) == 25 * s.lgot - s.time,
        spec_score(s, Some(Outcome::Cont)) == 25 * s.lgot - s.time,
{
}

/// A move is useful exactly when it moves the robot: onto a cell it can
/// enter, into the open lift, onto a trampoline, or pushing a rock sideways
/// into an empty cell. In particular a move that wins is useful.
pub proof fn lemma_useful_moves(s: State, d: Dir)
    ensures
        spec_useful(s, Cmd::Move(d)) <==> robot_move(s, Cmd::Move(d)) is Some,
        completes(s, Cmd::Move(d)) ==> spec_useful(s, Cmd::Move(d)),
        collects(s, Cmd::Move(d)) ==> spec_useful(s, Cmd::Move(d)),
{
}

/// A metadata line `Trampoline X targets Y`, with `X` a trampoline letter
/// from `A` to `I` and `Y` a target digit from `1` to `9`, sends trampoline
/// number X (A being 1) to target number Y and changes nothing else.
pub proof fn lemma_trampoline_line(m: MetaSpec, l: Seq<char>)
    requires
        m.trampmap.len() == 16,
        words(l).len() >= 4,
        lower(words(l)[0]) == seq!['t', 'r', 'a', 'm', 'p', 'o', 'l', 'i', 'n', 'e'],
        words(l)[2] == seq!['t', 'a', 'r', 'g', 'e', 't', 's'],
        'A' <= words(l)[1][0] <= 'I',
        '1' <= words(l)[3][0] <= '9',
    ensures
        meta_line(m, l) is Some,
        ({
            let m2 = meta_line(m, l)->0;
            let x = words(l)[1][0] as int - 'A' as int + 1;
            let y = words(l)[3][0] as int - '1' as int + 1;
            &&& m2.trampmap.len() == 16
            &&& m2.trampmap[x] == y
            &&& forall|i: int| 0 <= i < 16 && i != x ==> #[trigger] m2.trampmap[i] == m.trampmap[i]
            &&& m2.water == m.water
            &&& m2.flood == m.flood
            &&& m2.wproof == m.wproof
        }),
{
    assert(l.len() > 0);
    let key = lower(words(l)[0]);
    assert(key != seq!['w', 'a', 't', 'e', 'r']);
    assert(key != seq!['f', 'l', 'o', 'o', 'd', 'i', 'n', 'g']);
    assert(key != seq!['w', 'a', 't', 'e', 'r', 'p', 'r', 'o', 'o', 'f']);
}

} // verus!
