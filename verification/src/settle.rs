//! Why a turn may look for moving rocks only near the unsettled region: in
//! a settled game, no rock outside that region grown by one cell to the
//! left, the right and the top can move. A parsed game is settled, every
//! turn keeps it settled, and in a settled game the turn's scan finds every
//! rock that can move.
use vstd::prelude::*;
use crate::geom::{
    lemma_pbox_within, lemma_rect_scan_complete, lemma_union_covers,
    lemma_union_within, lemma_within_fits, pbox, spec_step, Dir, Point, Rect,
};
use crate::mine::{last_write, Change};
use crate::rules::{
    lemma_edits_rect_within, lemma_last_write_none, lemma_moves_edits_index,
    lemma_region_fits, lemma_robot_move_inside, lemma_rock_moves_facts, lemma_update_edit_facts,
};
use crate::space::Space;
use crate::state::{
    edits_rect, is_next, lift_cells, lift_edits, move_fn, moved_cell, moved_fn, moved_rloc,
    moved_rollrect, moves_edits, moves_rect, next_cell, robot_move, rock_move, rock_moves,
    update_edits, update_region, Cmd, State,
};

verus! {

/// The cells of a game, as a function.
pub open spec fn state_fn(s: State) -> spec_fn(Point) -> Space {
    |p: Point| s.cell(p)
}

/// `q` is one of the cells that decide whether the rock at `h` moves: the
/// cell itself, its neighbours to the left, the right and below, and the two
/// cells beside the one below.
pub open spec fn near(h: Point, q: Point) -> bool {
    let hd = spec_step(h, Dir::Down);
    ||| q == h
    ||| q == hd
    ||| q == spec_step(h, Dir::Left)
    ||| q == spec_step(h, Dir::Right)
    ||| q == spec_step(hd, Dir::Left)
    ||| q == spec_step(hd, Dir::Right)
}

/// A rock sees the cell `q` alike in both: it is a rock, an empty cell or a
/// lambda in one exactly when it is in the other.
pub open spec fn alike(f: spec_fn(Point) -> Space, g: spec_fn(Point) -> Space, q: Point) -> bool {
    &&& (f(q) == Space::Rock <==> g(q) == Space::Rock)
    &&& (f(q) == Space::Empty <==> g(q) == Space::Empty)
    &&& (f(q) == Space::Lambda <==> g(q) == Space::Lambda)
}

/// `h` lies in `r` grown by one cell to the left, the right and the top.
pub open spec fn in_grown(r: Rect, h: Point) -> bool {
    &&& r.x - 1 <= h.x <= r.x + r.w
    &&& r.y <= h.y <= r.y + r.h
}

/// No rock outside the unsettled region, grown by one cell to the left, the
/// right and the top, can move.
pub open spec fn settled(s: State) -> bool {
    forall|h: Point| #[trigger] rock_move(state_fn(s), h) is Some ==> in_grown(s.rollrect, h)
}

/// Whether a rock moves depends only on the cells near it.
pub proof fn lemma_rock_move_local(f: spec_fn(Point) -> Space, g: spec_fn(Point) -> Space, h: Point)
    requires
        forall|q: Point| near(h, q) ==> #[trigger] alike(f, g, q),
    ensures
        rock_move(f, h) == rock_move(g, h),
{
    let hd = spec_step(h, Dir::Down);
    assert(near(h, h));
    assert(near(h, hd));
    assert(near(h, spec_step(h, Dir::Left)));
    assert(near(h, spec_step(h, Dir::Right)));
    assert(near(h, spec_step(hd, Dir::Left)));
    assert(near(h, spec_step(hd, Dir::Right)));
    assert(alike(f, g, h));
    assert(alike(f, g, hd));
    assert(alike(f, g, spec_step(h, Dir::Left)));
    assert(alike(f, g, spec_step(h, Dir::Right)));
    assert(alike(f, g, spec_step(hd, Dir::Left)));
    assert(alike(f, g, spec_step(hd, Dir::Right)));
}

/// A rock near a cell of `r` lies in `r` grown.
pub proof fn lemma_near_grown(r: Rect, h: Point, q: Point)
    requires
        near(h, q),
        r.spec_contains(q),
        0 <= h.x < i16::MAX,
        0 <= h.y < i16::MAX,
    ensures
        in_grown(r, h),
{
}

/// A cell of `r` lies in `r` grown.
pub proof fn lemma_contains_grown(r: Rect, h: Point)
    requires
        r.spec_contains(h),
    ensures
        in_grown(r, h),
{
}

/// Inside a mine of game size, the region grown from `r` holds the cells of
/// the mine that lie in `r` grown.
pub proof fn lemma_grown_region(r: Rect, b: Rect, h: Point)
    requires
        r.within(b),
        b.x == 0,
        b.y == 0,
        b.w <= 32766,
        b.h <= 32766,
        in_grown(r, h),
        b.spec_contains(h),
    ensures
        r.spec_grow(1, 1, 0, 1).spec_intersect(b).spec_contains(h),
{
    crate::geom::lemma_grown_cut(r, b);
}

/// The last change at `q`, where there is one, is a change of the sequence.
pub proof fn lemma_last_write_some(e: Seq<Change>, q: Point)
    requires
        last_write(e, q) is Some,
    ensures
        exists|k: int|
            0 <= k < e.len() && (#[trigger] e[k]).at == q && e[k].what == last_write(e, q)->0,
    decreases e.len(),
{
    if e.last().at != q {
        lemma_last_write_some(e.drop_last(), q);
        let k = choose|k: int|
            0 <= k < e.drop_last().len() && (#[trigger] e.drop_last()[k]).at == q
                && e.drop_last()[k].what == last_write(e.drop_last(), q)->0;
        assert(e[k] == e.drop_last()[k]);
    } else {
        assert(e[e.len() - 1].at == q);
    }
}

/// Growing a rectangle inside `b` to cover changed cells of `b` keeps the
/// rectangle inside the grown one, and covers each changed cell.
pub proof fn lemma_edits_rect_covers(r: Rect, e: Seq<Change>, b: Rect)
    requires
        r.within(b),
        b.fits(),
        forall|i: int| 0 <= i < e.len() ==> b.spec_contains((#[trigger] e[i]).at),
    ensures
        r.within(edits_rect(r, e)),
        forall|i: int| 0 <= i < e.len() ==> edits_rect(r, e).spec_contains((#[trigger] e[i]).at),
    decreases e.len(),
{
    if e.len() > 0 {
        let d = e.drop_last();
        assert forall|i: int| 0 <= i < d.len() implies b.spec_contains((#[trigger] d[i]).at) by {
            assert(d[i] == e[i]);
        }
        lemma_edits_rect_covers(r, d, b);
        lemma_edits_rect_within(r, d, b);
        let r0 = edits_rect(r, d);
        let last = e.last().at;
        assert(b.spec_contains(e[e.len() - 1].at));
        lemma_pbox_within(last, b);
        lemma_within_fits(r0, b);
        lemma_within_fits(pbox(last), b);
        lemma_union_covers(r0, pbox(last), last);
        assert forall|i: int| 0 <= i < e.len() implies edits_rect(r, e).spec_contains(
            (#[trigger] e[i]).at,
        ) by {
            lemma_union_covers(r0, pbox(last), e[i].at);
            if i < e.len() - 1 {
                assert(d[i] == e[i]);
                assert(r0.spec_contains(d[i].at));
            }
        }
    }
}

/// Growing a rectangle inside `b` to cover where rocks of `b` were and went
/// keeps it inside `b`, keeps the rectangle it started from, and covers
/// each of those cells.
pub proof fn lemma_moves_rect_covers(r: Rect, m: Seq<(Point, Point)>, b: Rect)
    requires
        r.within(b),
        b.fits(),
        forall|i: int|
            0 <= i < m.len() ==> b.spec_contains((#[trigger] m[i]).0) && b.spec_contains(m[i].1),
    ensures
        moves_rect(r, m).within(b),
        r.within(moves_rect(r, m)),
        forall|i: int|
            0 <= i < m.len() ==> moves_rect(r, m).spec_contains((#[trigger] m[i]).0)
                && moves_rect(r, m).spec_contains(m[i].1),
    decreases m.len(),
{
    if m.len() > 0 {
        let d = m.drop_last();
        assert forall|i: int| 0 <= i < d.len() implies b.spec_contains((#[trigger] d[i]).0)
            && b.spec_contains(d[i].1) by {
            assert(d[i] == m[i]);
        }
        lemma_moves_rect_covers(r, d, b);
        let r0 = moves_rect(r, d);
        let (h, t) = m.last();
        assert(b.spec_contains(m[m.len() - 1].0) && b.spec_contains(m[m.len() - 1].1));
        lemma_pbox_within(h, b);
        lemma_pbox_within(t, b);
        lemma_within_fits(r0, b);
        lemma_within_fits(pbox(h), b);
        lemma_within_fits(pbox(t), b);
        lemma_union_within(r0, pbox(h), b);
        let r1 = r0.spec_union(pbox(h));
        lemma_within_fits(r1, b);
        lemma_union_within(r1, pbox(t), b);
        lemma_union_covers(r0, pbox(h), h);
        lemma_union_covers(r1, pbox(t), t);
        assert forall|i: int| 0 <= i < m.len() implies moves_rect(r, m).spec_contains(
            (#[trigger] m[i]).0,
        ) && moves_rect(r, m).spec_contains(m[i].1) by {
            if i < m.len() - 1 {
                assert(d[i] == m[i]);
                lemma_union_covers(r0, pbox(h), m[i].0);
                lemma_union_covers(r1, pbox(t), m[i].0);
                lemma_union_covers(r0, pbox(h), m[i].1);
                lemma_union_covers(r1, pbox(t), m[i].1);
            } else {
                lemma_union_covers(r1, pbox(t), h);
            }
        }
    }
}

/// Outside the mine, the cells after the robot's move are walls; a cell
/// that the robot's move changed lies in the unsettled region after it.
pub proof fn lemma_moved_cells(s: State, cmd: Cmd, q: Point)
    requires
        s.wf(),
        s.step_ready(cmd),
    ensures
        !s.mine.inside(q) ==> moved_cell(s, cmd, q) == Space::Wall,
        moved_cell(s, cmd, q) != s.cell(q) ==> moved_rollrect(s, cmd).spec_contains(q),
        s.rollrect.within(moved_rollrect(s, cmd)),
{
    let b = s.mine.spec_box();
    crate::mine::lemma_box_fits(s.mine);
    lemma_robot_move_inside(s, cmd);
    s.mine.lemma_cells(q);
    if let Some((to, e)) = robot_move(s, cmd) {
        assert forall|i: int| 0 <= i < e.len() implies b.spec_contains((#[trigger] e[i]).at) by {
            s.mine.lemma_cells(e[i].at);
        }
        lemma_edits_rect_covers(s.rollrect, e, b);
        if !s.mine.inside(q) {
            assert forall|i: int| 0 <= i < e.len() implies (#[trigger] e[i]).at != q by {}
            lemma_last_write_none(e, q);
        }
        if last_write(e, q) is Some {
            lemma_last_write_some(e, q);
        }
    }
}

/// A game whose unsettled region is its whole mine, as a parsed game's is,
/// is settled.
pub proof fn lemma_start_settled(s: State)
    requires
        s.wf(),
        s.rollrect == s.mine.spec_box(),
    ensures
        settled(s),
{
    assert forall|h: Point| #[trigger] rock_move(state_fn(s), h) is Some implies in_grown(
        s.rollrect,
        h,
    ) by {
        s.mine.lemma_cells(h);
        assert(state_fn(s)(h) == Space::Rock);
        lemma_contains_grown(s.rollrect, h);
    }
}

/// In a settled game the turn's scan misses no rock: every rock that can
/// move once the robot has moved lies in the scanned region and is one of
/// the turn's rock moves.
pub proof fn lemma_scan_complete(s: State, cmd: Cmd, h: Point)
    requires
        s.wf(),
        s.step_ready(cmd),
        settled(s),
        rock_move(moved_fn(s, cmd), h) is Some,
    ensures
        update_region(s, cmd).spec_contains(h),
        exists|i: int|
            0 <= i < rock_moves(s, cmd).len() && (#[trigger] rock_moves(s, cmd)[i]).0 == h,
{
    let m = moved_fn(s, cmd);
    let b = s.mine.spec_box();
    let rr = moved_rollrect(s, cmd);
    crate::mine::lemma_box_fits(s.mine);
    lemma_region_fits(s, cmd);
    lemma_moved_cells(s, cmd, h);
    assert(m(h) == Space::Rock);
    s.mine.lemma_cells(h);
    assert(b.spec_contains(h));
    if exists|q: Point| near(h, q) && moved_cell(s, cmd, q) != s.cell(q) {
        let q = choose|q: Point| near(h, q) && moved_cell(s, cmd, q) != s.cell(q);
        lemma_moved_cells(s, cmd, q);
        lemma_near_grown(rr, h, q);
    } else {
        assert forall|q: Point| near(h, q) implies #[trigger] alike(m, state_fn(s), q) by {
            assert(m(q) == moved_cell(s, cmd, q));
        }
        lemma_rock_move_local(m, state_fn(s), h);
        assert(in_grown(s.rollrect, h));
    }
    assert(in_grown(rr, h));
    lemma_grown_region(rr, b, h);
    let r = update_region(s, cmd);
    lemma_rect_scan_complete(move_fn(m), r, r.h as int, h);
    let i = choose|i: int|
        0 <= i < rock_moves(s, cmd).len() && #[trigger] rock_moves(s, cmd)[i] == move_fn(m)(h)->0;
    assert(rock_moves(s, cmd)[i].0 == h);
}

/// Every turn keeps a game settled.
pub proof fn lemma_step_keeps_settled(s: State, cmd: Cmd, n: State)
    requires
        s.wf(),
        s.step_ready(cmd),
        settled(s),
        is_next(s, cmd, n),
    ensures
        settled(n),
{
    let b = s.mine.spec_box();
    let mv = rock_moves(s, cmd);
    let m = moved_fn(s, cmd);
    let u = update_edits(s, cmd);
    crate::mine::lemma_box_fits(s.mine);
    lemma_region_fits(s, cmd);
    assert forall|i: int| 0 <= i < mv.len() implies b.spec_contains((#[trigger] mv[i]).0)
        && b.spec_contains(mv[i].1) by {
        lemma_rock_moves_facts(m, update_region(s, cmd), i);
        lemma_moved_cells(s, cmd, mv[i].1);
        s.mine.lemma_cells(mv[i].1);
    }
    let start = pbox(moved_rloc(s, cmd));
    s.mine.lemma_cells(moved_rloc(s, cmd));
    lemma_pbox_within(moved_rloc(s, cmd), b);
    lemma_moves_rect_covers(start, mv, b);
    lemma_moves_edits_index(mv);
    assert forall|h: Point| #[trigger] rock_move(state_fn(n), h) is Some implies in_grown(
        n.rollrect,
        h,
    ) by {
        assert(state_fn(n)(h) == Space::Rock);
        n.mine.lemma_cells(h);
        assert(b.spec_contains(h));
        if exists|q: Point| near(h, q) && !alike(state_fn(n), m, q) {
            let q = choose|q: Point| near(h, q) && !alike(state_fn(n), m, q);
            assert(n.cell(q) == next_cell(s, cmd, q));
            assert(last_write(u, q) is Some);
            lemma_last_write_some(u, q);
            let k = choose|k: int| 0 <= k < u.len() && (#[trigger] u[k]).at == q && u[k].what == last_write(u, q)->0;
            lemma_update_edit_facts(s, cmd, k);
            let me = moves_edits(mv);
            if k < me.len() {
                let j = k / 2;
                assert(u[k] == me[k]);
                if k % 2 == 0 {
                    assert(me[2 * j].at == mv[j].0);
                } else {
                    assert(me[2 * j + 1].at == mv[j].1);
                }
                assert(n.rollrect.spec_contains(q));
                lemma_near_grown(n.rollrect, h, q);
            } else {
                assert(u[k] == lift_edits(lift_cells(s, cmd))[k - me.len()]);
                assert(u[k].what == Space::OpenLift);
                assert(moved_cell(s, cmd, q) == Space::ClosedLift);
                assert(alike(state_fn(n), m, q));
            }
        } else {
            assert forall|q: Point| near(h, q) implies #[trigger] alike(state_fn(n), m, q) by {}
            lemma_rock_move_local(state_fn(n), m, h);
            lemma_scan_complete(s, cmd, h);
            let i = choose|i: int| 0 <= i < mv.len() && (#[trigger] mv[i]).0 == h;
            lemma_contains_grown(n.rollrect, h);
        }
    }
}

/// In a settled game, as every parsed game is and every turn keeps, the
/// turn moves exactly the rocks that can move once the robot has moved:
/// scanning only near the unsettled region misses none.
pub proof fn lemma_turn_moves_every_rock(s: State, cmd: Cmd, h: Point)
    requires
        s.wf(),
        s.step_ready(cmd),
        settled(s),
    ensures
        rock_move(moved_fn(s, cmd), h) is Some <==> exists|i: int|
            0 <= i < rock_moves(s, cmd).len() && (#[trigger] rock_moves(s, cmd)[i]).0 == h,
{
    if rock_move(moved_fn(s, cmd), h) is Some {
        lemma_scan_complete(s, cmd, h);
    }
    if exists|i: int| 0 <= i < rock_moves(s, cmd).len() && (#[trigger] rock_moves(s, cmd)[i]).0 == h {
        let i = choose|i: int| 0 <= i < rock_moves(s, cmd).len() && (#[trigger] rock_moves(s, cmd)[i]).0 == h;
        lemma_region_fits(s, cmd);
        lemma_rock_moves_facts(moved_fn(s, cmd), update_region(s, cmd), i);
    }
}

} // verus!
