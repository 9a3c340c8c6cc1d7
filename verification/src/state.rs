//! The game: a mine with a robot in it, and one turn of the rules.
use vstd::prelude::*;
use std::rc::Rc;
use crate::geom::{
    can_step, pbox, rect_scan, row_point, scan_prefix, spec_step, Area, Coord, Dir, Point, Rect,
};
use crate::mine::{
    changes_fit, in_rows, last_write, lemma_last_write_printable, lemma_rows_box, map_chars_ok,
    map_end, max_len, meta_start, new_mine, parsed_rows, print_rows, rows_box, rows_fit, rows_get,
    rows_printable, rows_width, rows_wf, text, Change, Mine, MineImage, ParseError, Rows,
};
use crate::space::{map_char, printable, space_of_char, spec_space_of_char, Space};
use crate::text::{
    coord_below, int_from_word, int_of_word, lower, lower_eq, split_words, word_eq, words, wrap_i16,
    wrap_u32,
};

verus! {

/// The largest width and height of a game. Coordinates are `Coord`s: the
/// robot's neighbours, and the edges of the region where rocks may move (the
/// unsettled region grown by one cell to the left, the right and the top,
/// in `Coord` arithmetic), must still be representable.
pub const GAME_MAX: usize = 32766;

/// A turn's command.
#[derive(Clone, Copy, PartialEq, Eq, Structural, Debug)]
pub enum Cmd {
    Move(Dir),
    Wait,
}

pub type Score = i64;

/// How a turn ended.
#[derive(Clone, Copy, PartialEq, Eq, Structural, Debug)]
pub enum Outcome {
    /// The game goes on.
    Cont,
    /// A rock fell on the robot, or the robot stayed under water too long.
    Died,
    /// The turn limit is reached.
    TooLong,
    /// The robot reached the open lift.
    Won,
}

/// What a game keeps from its map and metadata.
#[derive(Debug)]
pub struct StateConst {
    /// The turn limit.
    pub tlim: Area,
    /// The number of lambdas on the map.
    pub lamb: Area,
    /// Turns between rises of the water; 0 for none.
    pub flood: Area,
    /// Turns that the robot survives under water.
    pub wproof: Area,
    /// The target of each trampoline; 16 where it has none.
    pub trampmap: Vec<u8>,
    /// Where each trampoline is.
    pub tramploc: Vec<Point>,
    /// Where each target is.
    pub targetloc: Vec<Point>,
}

/// A game between turns.
#[derive(Debug)]
pub struct State {
    pub mine: Mine,
    /// Where the robot is.
    pub rloc: Point,
    /// Turns taken.
    pub time: Area,
    /// Lambdas collected.
    pub lgot: Area,
    /// Turns spent under water in a row.
    pub wdmg: Area,
    /// The highest flooded row.
    pub water: Coord,
    /// The number of rocks that fell in the last turn.
    pub rolling: Area,
    /// The region where rocks may have been unsettled by the last turn.
    pub rollrect: Rect,
    /// A lambda was collected in the last turn.
    pub collected: bool,
    pub c: Rc<StateConst>,
}

/// Where the rock at `here` falls or slides to, if it moves; `cell` gives
/// the cells of the mine.
pub open spec fn rock_move(cell: spec_fn(Point) -> Space, here: Point) -> Option<Point> {
    if cell(here) != Space::Rock {
        None
    } else {
        let hd = spec_step(here, Dir::Down);
        let hl = spec_step(here, Dir::Left);
        let hr = spec_step(here, Dir::Right);
        let hdl = spec_step(hd, Dir::Left);
        let hdr = spec_step(hd, Dir::Right);
        if cell(hd) == Space::Empty {
            Some(hd)
        } else if cell(hd) == Space::Rock && cell(hr) == Space::Empty && cell(hdr) == Space::Empty {
            Some(hdr)
        } else if cell(hd) == Space::Rock && cell(hl) == Space::Empty && cell(hdl) == Space::Empty {
            Some(hdl)
        } else if cell(hd) == Space::Lambda && cell(hr) == Space::Empty && cell(hdr) == Space::Empty {
            Some(hdr)
        } else {
            None
        }
    }
}

/// The cells of an image, as a function.
pub open spec fn rows_fn(rows: Rows) -> spec_fn(Point) -> Space {
    |p: Point| rows_get(rows, p)
}

/// Where the rock at `here` of the image moves to, if it moves.
pub fn rock_change(img: &MineImage, here: Point) -> (r: Option<Point>)
    requires
        rows_wf(img@),
    ensures
        r == rock_move(rows_fn(img@), here),
{
    let ghost cell = rows_fn(img@);
    if img.get(here) != Space::Rock {
        return None;
    }
    let hd = here.step(Dir::Down);
    let hl = here.step(Dir::Left);
    let hr = here.step(Dir::Right);
    let hdl = hd.step(Dir::Left);
    let hdr = hd.step(Dir::Right);
    if img.get(hd) == Space::Empty {
        Some(hd)
    } else if img.get(hd) == Space::Rock && img.get(hr) == Space::Empty && img.get(hdr)
        == Space::Empty {
        Some(hdr)
    } else if img.get(hd) == Space::Rock && img.get(hl) == Space::Empty && img.get(hdl)
        == Space::Empty {
        Some(hdl)
    } else if img.get(hd) == Space::Lambda && img.get(hr) == Space::Empty && img.get(hdr)
        == Space::Empty {
        Some(hdr)
    } else {
        None
    }
}

/// The changes that empty the trampolines among the first `n` whose target
/// is `y`.
pub open spec fn tramp_clears(c: StateConst, y: u8, n: int) -> Seq<Change>
    decreases n,
{
    if n <= 0 {
        Seq::empty()
    } else {
        let rest = tramp_clears(c, y, n - 1);
        if c.trampmap@[n - 1] == y {
            rest.push(Change { at: c.tramploc@[n - 1], what: Space::Empty })
        } else {
            rest
        }
    }
}

/// The rectangle `r` grown to cover each changed cell.
pub open spec fn edits_rect(r: Rect, e: Seq<Change>) -> Rect
    decreases e.len(),
{
    if e.len() == 0 {
        r
    } else {
        edits_rect(r, e.drop_last()).spec_union(pbox(e.last().at))
    }
}

/// The rectangle `r` grown to cover where each falling rock was and went.
pub open spec fn moves_rect(r: Rect, m: Seq<(Point, Point)>) -> Rect
    decreases m.len(),
{
    if m.len() == 0 {
        r
    } else {
        moves_rect(r, m.drop_last()).spec_union(pbox(m.last().0)).spec_union(pbox(m.last().1))
    }
}

/// The changes that make the rocks fall: each empties its cell and fills the
/// one it goes to.
pub open spec fn moves_edits(m: Seq<(Point, Point)>) -> Seq<Change>
    decreases m.len(),
{
    if m.len() == 0 {
        Seq::empty()
    } else {
        moves_edits(m.drop_last()) + seq![
            Change { at: m.last().0, what: Space::Empty },
            Change { at: m.last().1, what: Space::Rock },
        ]
    }
}

/// Where the falling rocks go.
pub open spec fn theres(m: Seq<(Point, Point)>) -> Seq<Point> {
    Seq::new(m.len(), |i: int| m[i].1)
}

/// The changes that open the lifts at the given cells.
pub open spec fn lift_edits(ps: Seq<Point>) -> Seq<Change> {
    Seq::new(ps.len(), |i: int| Change { at: ps[i], what: Space::OpenLift })
}

impl State {
    /// The cell at `p`.
    pub open spec fn cell(&self, p: Point) -> Space {
        self.mine.spec_get(p)
    }

    /// The mine is well formed, the robot's cell and the unsettled region lie
    /// in it, and the trampoline tables have an entry for each of 16 numbers.
    pub open spec fn wf(&self) -> bool {
        &&& self.mine.wf()
        &&& self.mine.base_rows().len() <= GAME_MAX
        &&& rows_width(self.mine.base_rows()) <= GAME_MAX
        &&& forall|p: Point| printable(#[trigger] self.cell(p))
        &&& self.mine.inside(self.rloc)
        &&& self.rollrect.within(self.mine.spec_box())
        &&& self.c.trampmap@.len() == 16
        &&& self.c.tramploc@.len() == 16
        &&& self.c.targetloc@.len() == 16
    }

    /// The robot is in its cell.
    pub open spec fn robot_present(&self) -> bool {
        self.cell(self.rloc) == Space::Robot
    }

    /// Where `cmd` jumps onto a trampoline, it has a target, and the target
    /// and every trampoline that shares it lie in the mine.
    pub open spec fn tramp_ready(&self, cmd: Cmd) -> bool {
        match cmd {
            Cmd::Move(d) => match self.cell(spec_step(self.rloc, d)) {
                Space::Tramp(x) => {
                    let y = self.c.trampmap@[x as int];
                    &&& y < 16
                    &&& self.mine.inside(self.c.targetloc@[y as int])
                    &&& forall|xx: int|
                        0 <= xx < 15 && #[trigger] self.c.trampmap@[xx] == y ==> self.mine.inside(
                            self.c.tramploc@[xx],
                        )
                },
                _ => true,
            },
            Cmd::Wait => true,
        }
    }

    /// What a turn needs: the robot in place, and a usable trampoline where
    /// the command jumps.
    pub open spec fn step_ready(&self, cmd: Cmd) -> bool {
        &&& self.robot_present()
        &&& self.tramp_ready(cmd)
    }
}

/// Where the robot goes and the changes that move it, if `cmd` moves it.
pub open spec fn robot_move(s: State, cmd: Cmd) -> Option<(Point, Seq<Change>)> {
    match cmd {
        Cmd::Wait => None,
        Cmd::Move(d) => {
            let nr = spec_step(s.rloc, d);
            match s.cell(nr) {
                Space::Empty | Space::Earth | Space::OpenLift | Space::Lambda => Some(
                    (
                        nr,
                        seq![
                            Change { at: nr, what: Space::Robot },
                            Change { at: s.rloc, what: Space::Empty },
                        ],
                    ),
                ),
                Space::Rock => {
                    let rollto = spec_step(nr, d);
                    if (d == Dir::Left || d == Dir::Right) && s.cell(rollto) == Space::Empty {
                        Some(
                            (
                                nr,
                                seq![
                                    Change { at: rollto, what: Space::Rock },
                                    Change { at: nr, what: Space::Robot },
                                    Change { at: s.rloc, what: Space::Empty },
                                ],
                            ),
                        )
                    } else {
                        None
                    }
                },
                Space::Tramp(x) => {
                    let y = s.c.trampmap@[x as int];
                    let to = s.c.targetloc@[y as int];
                    Some(
                        (
                            to,
                            tramp_clears(*s.c, y, 15) + seq![
                                Change { at: to, what: Space::Robot },
                                Change { at: s.rloc, what: Space::Empty },
                            ],
                        ),
                    )
                },
                _ => None,
            }
        },
    }
}

/// The command moves the robot onto a lambda.
pub open spec fn collects(s: State, cmd: Cmd) -> bool {
    match cmd {
        Cmd::Move(d) => s.cell(spec_step(s.rloc, d)) == Space::Lambda,
        Cmd::Wait => false,
    }
}

/// The command moves the robot into the open lift.
pub open spec fn completes(s: State, cmd: Cmd) -> bool {
    match cmd {
        Cmd::Move(d) => s.cell(spec_step(s.rloc, d)) == Space::OpenLift,
        Cmd::Wait => false,
    }
}

/// The cell at `p` once the robot has moved.
pub open spec fn moved_cell(s: State, cmd: Cmd, p: Point) -> Space {
    match robot_move(s, cmd) {
        Some((_, e)) => match last_write(e, p) {
            Some(v) => v,
            None => s.cell(p),
        },
        None => s.cell(p),
    }
}

pub open spec fn moved_fn(s: State, cmd: Cmd) -> spec_fn(Point) -> Space {
    |p: Point| moved_cell(s, cmd, p)
}

/// Where the robot is once it has moved.
pub open spec fn moved_rloc(s: State, cmd: Cmd) -> Point {
    match robot_move(s, cmd) {
        Some((to, _)) => to,
        None => s.rloc,
    }
}

/// The unsettled region once the robot has moved.
pub open spec fn moved_rollrect(s: State, cmd: Cmd) -> Rect {
    match robot_move(s, cmd) {
        Some((_, e)) => edits_rect(s.rollrect, e),
        None => s.rollrect,
    }
}

/// One more, wrapping around to 0 after the largest count.
pub open spec fn inc_count(x: Area) -> Area {
    if x == u32::MAX {
        0
    } else {
        (x + 1) as u32
    }
}

/// One row higher, wrapping around to the lowest row after the highest.
pub open spec fn inc_coord(x: Coord) -> Coord {
    if x == i16::MAX {
        i16::MIN
    } else {
        (x + 1) as i16
    }
}

/// The turns taken after this turn.
pub open spec fn next_time(s: State) -> Area {
    inc_count(s.time)
}

/// The lambdas collected once the robot has moved.
pub open spec fn next_lgot(s: State, cmd: Cmd) -> Area {
    if collects(s, cmd) {
        inc_count(s.lgot)
    } else {
        s.lgot
    }
}

/// The cells whose rocks may move: the unsettled region, grown by one cell
/// to the left, the right and the top, within the mine.
pub open spec fn update_region(s: State, cmd: Cmd) -> Rect {
    moved_rollrect(s, cmd).spec_grow(1, 1, 0, 1).spec_intersect(s.mine.spec_box())
}

/// The rock at a cell and where it moves, if it moves.
pub open spec fn move_fn(cell: spec_fn(Point) -> Space) -> spec_fn(Point) -> Option<(Point, Point)> {
    |h: Point|
        match rock_move(cell, h) {
            Some(t) => Some((h, t)),
            None => None,
        }
}

/// Each rock of region `r` that moves, and where it goes, in scan order.
pub open spec fn rock_moves_in(cell: spec_fn(Point) -> Space, r: Rect) -> Seq<(Point, Point)> {
    rect_scan(move_fn(cell), r, r.h as int)
}

/// Each rock that moves in this turn and where it goes, in scan order.
pub open spec fn rock_moves(s: State, cmd: Cmd) -> Seq<(Point, Point)> {
    rock_moves_in(moved_fn(s, cmd), update_region(s, cmd))
}

/// The lifts open in this turn: the robot has all the lambdas, and collected
/// the last of them in this turn or the mine had none.
pub open spec fn lifts_open(s: State, cmd: Cmd) -> bool {
    (collects(s, cmd) || s.c.lamb == 0) && next_lgot(s, cmd) == s.c.lamb
}

/// The cell, where it is a closed lift.
pub open spec fn lift_fn(cell: spec_fn(Point) -> Space) -> spec_fn(Point) -> Option<Point> {
    |p: Point|
        if cell(p) == Space::ClosedLift {
            Some(p)
        } else {
            None
        }
}

/// The closed lifts of region `r`, in scan order.
pub open spec fn lifts_in(cell: spec_fn(Point) -> Space, r: Rect) -> Seq<Point> {
    rect_scan(lift_fn(cell), r, r.h as int)
}

/// The closed lifts that open in this turn.
pub open spec fn lift_cells(s: State, cmd: Cmd) -> Seq<Point> {
    if lifts_open(s, cmd) {
        lifts_in(moved_fn(s, cmd), s.mine.spec_box())
    } else {
        Seq::empty()
    }
}

/// The changes of the map update, in the order that they are made.
pub open spec fn update_edits(s: State, cmd: Cmd) -> Seq<Change> {
    moves_edits(rock_moves(s, cmd)) + lift_edits(lift_cells(s, cmd))
}

/// The cell at `p` after the turn.
pub open spec fn next_cell(s: State, cmd: Cmd, p: Point) -> Space {
    match last_write(update_edits(s, cmd), p) {
        Some(v) => v,
        None => moved_cell(s, cmd, p),
    }
}

/// The water level after the turn: it rises every `flood` turns.
pub open spec fn next_water(s: State, cmd: Cmd) -> Coord {
    if s.c.flood > 0 && next_time(s) % s.c.flood == 0 {
        inc_coord(s.water)
    } else {
        s.water
    }
}

/// Turns under water after the turn: the robot is under water when its row
/// is at most the water level.
pub open spec fn next_wdmg(s: State, cmd: Cmd) -> Area {
    if next_water(s, cmd) >= moved_rloc(s, cmd).y {
        inc_count(s.wdmg)
    } else {
        0
    }
}

/// A rock fell onto the cell above the robot in this turn.
pub open spec fn bonked(s: State, cmd: Cmd) -> bool {
    let air = spec_step(moved_rloc(s, cmd), Dir::Up);
    next_cell(s, cmd, air) == Space::Rock && theres(rock_moves(s, cmd)).contains(air)
}

/// How the turn ends.
pub open spec fn spec_outcome(s: State, cmd: Cmd) -> Outcome {
    if completes(s, cmd) {
        Outcome::Won
    } else if next_wdmg(s, cmd) > s.c.wproof || bonked(s, cmd) {
        Outcome::Died
    } else if next_time(s) >= s.c.tlim {
        Outcome::TooLong
    } else {
        Outcome::Cont
    }
}

/// `n` is the state after one turn of `s` under `cmd`.
pub open spec fn is_next(s: State, cmd: Cmd, n: State) -> bool {
    &&& n.wf()
    &&& n.mine.spec_box() == s.mine.spec_box()
    &&& forall|p: Point| #[trigger] n.cell(p) == next_cell(s, cmd, p)
    &&& n.rloc == moved_rloc(s, cmd)
    &&& n.time == next_time(s)
    &&& n.lgot == next_lgot(s, cmd)
    &&& n.wdmg == next_wdmg(s, cmd)
    &&& n.water == next_water(s, cmd)
    &&& n.rolling == rock_moves(s, cmd).len()
    &&& n.rollrect == moves_rect(pbox(moved_rloc(s, cmd)), rock_moves(s, cmd))
    &&& n.collected == collects(s, cmd)
    &&& n.c == s.c
}

/// Moves the robot: the mine with the robot moved, where the robot is, and
/// the unsettled region grown to cover the changed cells.
fn robot_phase(state: &State, cmd: Cmd) -> (r: (Mine, Point, Rect))
    requires
        state.wf(),
        state.robot_present(),
        state.tramp_ready(cmd),
    ensures
        r.0.wf(),
        r.0.base_rows() == state.mine.base_rows(),
        forall|p: Point| #[trigger] r.0.spec_get(p) == moved_cell(*state, cmd, p),
        r.1 == moved_rloc(*state, cmd),
        r.0.inside(r.1),
        r.2 == moved_rollrect(*state, cmd),
        r.2.within(state.mine.spec_box()),
        forall|p: Point| printable(#[trigger] r.0.spec_get(p)),
{
    let ghost s = *state;
    let ghost bx = state.mine.spec_box();
    match cmd {
        Cmd::Wait => {
            let m = state.mine.duplicate();
            assert forall|p: Point| printable(#[trigger] m.spec_get(p)) by {
                assert(m.spec_get(p) == state.cell(p));
            }
            (m, state.rloc, state.rollrect)
        },
        Cmd::Move(d) => {
            let mut edits: Vec<Change> = Vec::new();
            let nr0 = state.rloc.step(d);
            proof {
                state.mine.lemma_cells(nr0);
            }
            let mut nrloc = nr0;
            let moved: bool = match state.mine.get(nr0) {
                Space::Empty | Space::Earth | Space::OpenLift | Space::Lambda => true,
                Space::Rock => match d {
                    Dir::Left | Dir::Right => {
                        let rollto = nr0.step(d);
                        proof {
                            state.mine.lemma_cells(rollto);
                        }
                        if state.mine.get(rollto) == Space::Empty {
                            edits.push(Change { at: rollto, what: Space::Rock });
                            true
                        } else {
                            false
                        }
                    },
                    _ => false,
                },
                Space::Tramp(x) => {
                    let y = state.c.trampmap[x as usize];
                    nrloc = state.c.targetloc[y as usize];
                    let mut xx: usize = 0;
                    while xx < 15
                        invariant
                            s == *state,
                            s.wf(),
                            s.tramp_ready(cmd),
                            cmd == Cmd::Move(d),
                            s.cell(spec_step(s.rloc, d)) == Space::Tramp(x),
                            y == s.c.trampmap@[x as int],
                            xx <= 15,
                            edits@ == tramp_clears(*s.c, y, xx as int),
                            changes_fit(edits@, s.mine.base_rows()),
                            forall|j: int| 0 <= j < edits@.len() ==> printable(#[trigger] edits@[j].what),
                        decreases 15 - xx,
                    {
                        if state.c.trampmap[xx] == y {
                            assert(s.mine.inside(s.c.tramploc@[xx as int]));
                            edits.push(Change { at: state.c.tramploc[xx], what: Space::Empty });
                        }
                        assert(edits@ =~= tramp_clears(*s.c, y, xx + 1));
                        xx = xx + 1;
                    }
                    true
                },
                _ => false,
            };
            if moved {
                let ghost pre = edits@;
                edits.push(Change { at: nrloc, what: Space::Robot });
                edits.push(Change { at: state.rloc, what: Space::Empty });
                let ghost mv = robot_move(s, cmd);
                assert(mv matches Some((to, e)) && edits@ =~= e && nrloc == to);
                proof {
                    state.mine.lemma_cells(nrloc);
                }
                let n = edits.len();
                let mut rr = state.rollrect;
                let mut i: usize = 0;
                assert(edits@.take(0) =~= Seq::<Change>::empty());
                while i < n
                    invariant
                        n == edits@.len(),
                        i <= n,
                        s.wf(),
                        bx == s.mine.spec_box(),
                        bx.fits(),
                        changes_fit(edits@, s.mine.base_rows()),
                        rr == edits_rect(s.rollrect, edits@.take(i as int)),
                        rr.within(bx),
                    decreases n - i,
                {
                    let e = edits[i];
                    assert(in_rows(s.mine.base_rows(), edits@[i as int].at));
                    let pb = e.at.bbox();
                    proof {
                        s.mine.lemma_cells(e.at);
                        crate::geom::lemma_pbox_within(e.at, bx);
                        crate::geom::lemma_union_within(rr, pb, bx);
                        crate::geom::lemma_within_fits(rr, bx);
                    }
                    assert(edits@.take(i + 1).drop_last() =~= edits@.take(i as int));
                    rr = rr.union(&pb);
                    i = i + 1;
                }
                assert(edits@.take(n as int) =~= edits@);
                assert(forall|j: int| 0 <= j < edits@.len() ==> printable(#[trigger] edits@[j].what));
                let ghost ev = edits@;
                let m = state.mine.edit(edits);
                assert forall|p: Point| printable(#[trigger] m.spec_get(p)) by {
                    lemma_last_write_printable(ev, p);
                    assert(printable(state.cell(p)));
                }
                (m, nrloc, rr)
            } else {
                let m = state.mine.duplicate();
                assert forall|p: Point| printable(#[trigger] m.spec_get(p)) by {
                    assert(m.spec_get(p) == state.cell(p));
                }
                (m, state.rloc, state.rollrect)
            }
        },
    }
}

/// A moving rock leaves a cell of the mine for an empty cell of the mine.
pub proof fn lemma_rock_move_inside(rows: Rows, h: Point)
    requires
        rows_wf(rows),
        rock_move(rows_fn(rows), h) is Some,
    ensures
        in_rows(rows, h),
        in_rows(rows, rock_move(rows_fn(rows), h)->0),
        rows_get(rows, rock_move(rows_fn(rows), h)->0) == Space::Empty,
{
}

/// Scans the region for rocks that move: the changes that move them, where
/// they go, and the rectangle `pbox(start)` grown to cover where each was and
/// went.
fn fall_rocks(img: &MineImage, region: Rect, start: Point) -> (r: (Vec<Change>, Vec<Point>, Rect))
    requires
        rows_wf(img@),
        rows_fit(img@),
        region.within(rows_box(img@)),
        in_rows(img@, start),
    ensures
        r.0@ == moves_edits(rock_moves_in(rows_fn(img@), region)),
        r.1@ == theres(rock_moves_in(rows_fn(img@), region)),
        r.2 == moves_rect(pbox(start), rock_moves_in(rows_fn(img@), region)),
        r.1@.len() <= u32::MAX,
        changes_fit(r.0@, img@),
        forall|j: int| 0 <= j < r.0@.len() ==> printable(#[trigger] r.0@[j].what),
        r.2.within(rows_box(img@)),
{
    let ghost f = move_fn(rows_fn(img@));
    let ghost bx = rows_box(img@);
    let rx: i32 = region.x as i32;
    let ry: i32 = region.y as i32;
    let rw: i32 = region.w as i32;
    let rh: i32 = region.h as i32;
    let mut edits: Vec<Change> = Vec::new();
    let mut bonk: Vec<Point> = Vec::new();
    let mut nrr = start.bbox();
    proof {
        crate::geom::lemma_scan_start(f, region);
        lemma_rows_box(img@, start);
        crate::geom::lemma_pbox_within(start, bx);
        assert(theres(Seq::<(Point, Point)>::empty()) =~= Seq::<Point>::empty());
    }
    let mut k: i32 = 0;
    while k < rh
        invariant
            rows_wf(img@),
            f == move_fn(rows_fn(img@)),
            bx == rows_box(img@),
            bx.fits(),
            rows_fit(img@),
            region.within(bx),
            rx == region.x,
            ry == region.y,
            rw == region.w,
            rh == region.h,
            0 <= k <= rh,
            edits@ == moves_edits(scan_prefix(f, region, k as int, 0)),
            bonk@ == theres(scan_prefix(f, region, k as int, 0)),
            nrr == moves_rect(pbox(start), scan_prefix(f, region, k as int, 0)),
            bonk@.len() <= k * rw,
            changes_fit(edits@, img@),
            forall|j: int| 0 <= j < edits@.len() ==> printable(#[trigger] edits@[j].what),
            nrr.within(bx),
        decreases rh - k,
    {
        let mut n: i32 = 0;
        while n < rw
            invariant
                rows_wf(img@),
                f == move_fn(rows_fn(img@)),
                bx == rows_box(img@),
                bx.fits(),
                rows_fit(img@),
                region.within(bx),
                rx == region.x,
                ry == region.y,
                rw == region.w,
                rh == region.h,
                0 <= k < rh,
                0 <= n <= rw,
                edits@ == moves_edits(scan_prefix(f, region, k as int, n as int)),
                bonk@ == theres(scan_prefix(f, region, k as int, n as int)),
                nrr == moves_rect(pbox(start), scan_prefix(f, region, k as int, n as int)),
                bonk@.len() <= k * rw + n,
                changes_fit(edits@, img@),
                forall|j: int| 0 <= j < edits@.len() ==> printable(#[trigger] edits@[j].what),
                nrr.within(bx),
            decreases rw - n,
        {
            let here = Point { x: (rx + n) as i16, y: (ry + k) as i16 };
            let ghost pre = scan_prefix(f, region, k as int, n as int);
            proof {
                crate::geom::lemma_scan_next(f, region, k as int, n as int);
                assert(here == row_point(region, region.y + k, n as int));
            }
            match rock_change(img, here) {
                Some(there) => {
                    proof {
                        lemma_rock_move_inside(img@, here);
                        lemma_rows_box(img@, here);
                        lemma_rows_box(img@, there);
                        crate::geom::lemma_pbox_within(here, bx);
                        crate::geom::lemma_pbox_within(there, bx);
                        crate::geom::lemma_within_fits(nrr, bx);
                        crate::geom::lemma_union_within(nrr, pbox(here), bx);
                        crate::geom::lemma_union_within(nrr.spec_union(pbox(here)), pbox(there), bx);
                    }
                    let ghost m = (here, there);
                    assert(f(here) == Some(m));
                    assert(pre.push(m).drop_last() =~= pre);
                    edits.push(Change { at: here, what: Space::Empty });
                    edits.push(Change { at: there, what: Space::Rock });
                    bonk.push(there);
                    let hb = here.bbox();
                    let tb = there.bbox();
                    let u = nrr.union(&hb);
                    nrr = u.union(&tb);
                    assert(edits@ =~= moves_edits(pre.push(m)));
                    assert(bonk@ =~= theres(pre.push(m)));
                },
                None => {},
            }
            n = n + 1;
        }
        proof {
            crate::geom::lemma_scan_row_done(f, region, k as int);
            assert(k * rw + rw == (k + 1) * rw) by (nonlinear_arith);
        }
        k = k + 1;
    }
    proof {
        assert(rh * rw <= 32767 * 32767) by (nonlinear_arith)
            requires
                0 <= rh <= 32767,
                0 <= rw <= 32767,
        ;
        assert(scan_prefix(f, region, rh as int, 0) =~= rect_scan(f, region, rh as int));
    }
    (edits, bonk, nrr)
}

/// Adds, in scan order, a change that opens each closed lift of the image.
fn open_lifts(img: &MineImage, edits: &mut Vec<Change>)
    requires
        rows_wf(img@),
        rows_fit(img@),
        changes_fit(old(edits)@, img@),
        forall|j: int| 0 <= j < old(edits)@.len() ==> printable(#[trigger] old(edits)@[j].what),
    ensures
        final(edits)@ == old(edits)@ + lift_edits(lifts_in(rows_fn(img@), rows_box(img@))),
        changes_fit(final(edits)@, img@),
        forall|j: int| 0 <= j < final(edits)@.len() ==> printable(#[trigger] final(edits)@[j].what),
{
    let ghost f = lift_fn(rows_fn(img@));
    let bx = img.bbox();
    let w: i32 = bx.w as i32;
    let h: i32 = bx.h as i32;
    let ghost e0 = edits@;
    proof {
        crate::geom::lemma_scan_start(f, bx);
        assert(e0 + lift_edits(Seq::<Point>::empty()) =~= e0);
    }
    let mut k: i32 = 0;
    while k < h
        invariant
            rows_wf(img@),
            f == lift_fn(rows_fn(img@)),
            bx == rows_box(img@),
            w == bx.w,
            h == bx.h,
            w <= 32767,
            h <= 32767,
            0 <= k <= h,
            edits@ == e0 + lift_edits(scan_prefix(f, bx, k as int, 0)),
            changes_fit(edits@, img@),
            forall|j: int| 0 <= j < edits@.len() ==> printable(#[trigger] edits@[j].what),
        decreases h - k,
    {
        let mut n: i32 = 0;
        while n < w
            invariant
                rows_wf(img@),
                f == lift_fn(rows_fn(img@)),
                bx == rows_box(img@),
                w == bx.w,
                h == bx.h,
                0 <= k < h,
                0 <= n <= w,
                edits@ == e0 + lift_edits(scan_prefix(f, bx, k as int, n as int)),
                changes_fit(edits@, img@),
                forall|j: int| 0 <= j < edits@.len() ==> printable(#[trigger] edits@[j].what),
            decreases w - n,
        {
            let here = Point { x: n as i16, y: k as i16 };
            let ghost pre = scan_prefix(f, bx, k as int, n as int);
            proof {
                crate::geom::lemma_scan_next(f, bx, k as int, n as int);
                assert(here == row_point(bx, bx.y + k, n as int));
            }
            if img.get(here) == Space::ClosedLift {
                edits.push(Change { at: here, what: Space::OpenLift });
                assert(edits@ =~= e0 + lift_edits(pre.push(here)));
            }
            n = n + 1;
        }
        proof {
            crate::geom::lemma_scan_row_done(f, bx, k as int);
        }
        k = k + 1;
    }
    assert(scan_prefix(f, bx, h as int, 0) =~= rect_scan(f, bx, h as int));
}

impl State {
    /// A rock fell in this turn onto the cell above the robot: it is a rock and
    /// one of `bonk`.
    pub fn bonkp(&self, bonk: &Vec<Point>) -> (b: bool)
        requires
            self.wf(),
        ensures
            b == (self.cell(spec_step(self.rloc, Dir::Up)) == Space::Rock && bonk@.contains(
                spec_step(self.rloc, Dir::Up),
            )),
    {
        let airspace = self.rloc.step(Dir::Up);
        if self.mine.get(airspace) != Space::Rock {
            return false;
        }
        let n = bonk.len();
        let mut i: usize = 0;
        while i < n
            invariant
                n == bonk@.len(),
                i <= n,
                airspace == spec_step(self.rloc, Dir::Up),
                self.cell(airspace) == Space::Rock,
                forall|j: int| 0 <= j < i ==> bonk@[j] != airspace,
            decreases n - i,
        {
            if bonk[i] == airspace {
                assert(bonk@[i as int] == airspace);
                return true;
            }
            i = i + 1;
        }
        false
    }
}

/// One turn: the robot obeys `cmd`, then the rocks fall, the lifts open and
/// the water rises, then the turn's outcome is judged.
pub fn step(state: &State, cmd: Cmd) -> (r: (Outcome, State))
    requires
        state.wf(),
        state.step_ready(cmd),
    ensures
        r.0 == spec_outcome(*state, cmd),
        is_next(*state, cmd, r.1),
{
    let ghost s = *state;
    let time = if state.time == u32::MAX {
        0
    } else {
        state.time + 1
    };
    let mut lgot = state.lgot;
    let mut completing = false;
    let mut collected = false;
    match cmd {
        Cmd::Move(d) => {
            let sp = state.mine.get(state.rloc.step(d));
            if sp == Space::OpenLift {
                completing = true;
            }
            if sp == Space::Lambda {
                lgot = if lgot == u32::MAX {
                    0
                } else {
                    lgot + 1
                };
                collected = true;
            }
        },
        Cmd::Wait => {},
    }
    let (mut mine, rloc, rollrect) = robot_phase(state, cmd);
    let ghost m0 = mine;
    mine.focus();
    let img = mine.image();
    assert(rows_fit(img@));
    let bx = img.bbox();
    proof {
        assert forall|p: Point| printable(#[trigger] mine.spec_get(p)) by {
            assert(mine.spec_get(p) == m0.spec_get(p));
        }
        assert forall|p: Point| #[trigger] rows_get(img@, p) == moved_cell(s, cmd, p) by {
            assert(mine.spec_get(p) == moved_cell(s, cmd, p));
        }
        assert(rows_fn(img@) =~= moved_fn(s, cmd));
        crate::geom::lemma_within_fits(rollrect, bx);
    }
    let grown = rollrect.grow(1, 1, 0, 1);
    let region = grown.intersect(&bx);
    assert(region == update_region(s, cmd));
    proof {
        lemma_rows_box(img@, rloc);
        crate::geom::lemma_grown_cut(rollrect, bx);
    }
    let (mut edits, bonk, nrr) = fall_rocks(img, region, rloc);
    if (collected || state.c.lamb == 0) && lgot == state.c.lamb {
        open_lifts(img, &mut edits);
    } else {
        assert(edits@ =~= edits@ + lift_edits(Seq::<Point>::empty()));
    }
    assert(edits@ == update_edits(s, cmd));
    let flood = state.c.flood;
    let rise: i16 = if flood > 0 && time % flood == 0 {
        1
    } else {
        0
    };
    let water: i16 = if rise == 0 {
        state.water
    } else if state.water == i16::MAX {
        i16::MIN
    } else {
        state.water + 1
    };
    let wdmg: u32 = if water >= rloc.y {
        if state.wdmg == u32::MAX {
            0
        } else {
            state.wdmg + 1
        }
    } else {
        0
    };
    let ghost ev = edits@;
    let nmine = mine.edit(edits);
    let ns = State {
        mine: nmine,
        rloc,
        time,
        lgot,
        wdmg,
        water,
        rolling: bonk.len() as u32,
        rollrect: nrr,
        collected,
        c: state.c.clone(),
    };
    assert forall|p: Point| #[trigger] ns.cell(p) == next_cell(s, cmd, p) by {}
    assert forall|p: Point| printable(#[trigger] ns.cell(p)) by {
        lemma_last_write_printable(ev, p);
        assert(mine.spec_get(p) == m0.spec_get(p));
    }
    let outcome = if completing {
        Outcome::Won
    } else if wdmg > state.c.wproof || ns.bonkp(&bonk) {
        Outcome::Died
    } else if time >= state.c.tlim {
        Outcome::TooLong
    } else {
        Outcome::Cont
    };
    (outcome, ns)
}

/// The score of a game: 25 per lambda collected, less one per turn; another
/// 25 per lambda when the game is abandoned (`None`), another 50 when won.
pub open spec fn spec_score(s: State, outcome: Option<Outcome>) -> int {
    let base = 25 * s.lgot - s.time;
    match outcome {
        None => base + 25 * s.lgot,
        Some(Outcome::Won) => base + 50 * s.lgot,
        _ => base,
    }
}

/// The command may do something: waiting while rocks are falling, or moving
/// onto a cell that the robot can enter, or pushing a rock sideways into an
/// empty cell.
pub open spec fn spec_useful(s: State, cmd: Cmd) -> bool {
    match cmd {
        Cmd::Wait => s.rolling > 0,
        Cmd::Move(d) => {
            let rl1 = spec_step(s.rloc, d);
            match s.cell(rl1) {
                Space::Empty | Space::Earth | Space::OpenLift | Space::Lambda | Space::Tramp(_) => true,
                Space::Rock => (d == Dir::Left || d == Dir::Right) && s.cell(spec_step(rl1, d))
                    == Space::Empty,
                _ => false,
            }
        },
    }
}

pub open spec fn spec_cmd_opt_of_char(c: char) -> Option<Cmd> {
    if c == 'L' {
        Some(Cmd::Move(Dir::Left))
    } else if c == 'R' {
        Some(Cmd::Move(Dir::Right))
    } else if c == 'U' {
        Some(Cmd::Move(Dir::Up))
    } else if c == 'D' {
        Some(Cmd::Move(Dir::Down))
    } else if c == 'W' {
        Some(Cmd::Wait)
    } else {
        None
    }
}

pub open spec fn spec_char_of_cmd(c: Cmd) -> char {
    match c {
        Cmd::Move(Dir::Left) => 'L',
        Cmd::Move(Dir::Right) => 'R',
        Cmd::Move(Dir::Up) => 'U',
        Cmd::Move(Dir::Down) => 'D',
        Cmd::Wait => 'W',
    }
}

impl State {
    /// Runs one turn; see `step`.
    pub fn step(&self, cmd: Cmd) -> (r: (Outcome, State))
        requires
            self.wf(),
            self.step_ready(cmd),
        ensures
            r.0 == spec_outcome(*self, cmd),
            is_next(*self, cmd, r.1),
    {
        step(self, cmd)
    }

    /// The score of the game if it ended now with `outcome`.
    pub fn score(&self, outcome: Option<Outcome>) -> (r: Score)
        ensures
            r == spec_score(*self, outcome),
    {
        let lgot = self.lgot as Score;
        let base = 25 * lgot - (self.time as Score);
        match outcome {
            None => base + 25 * lgot,
            Some(Outcome::Won) => base + 50 * lgot,
            _ => base,
        }
    }

    /// Whether the command may do something.
    pub fn useful(&self, cmd: Cmd) -> (b: bool)
        requires
            self.wf(),
        ensures
            b == spec_useful(*self, cmd),
    {
        match cmd {
            Cmd::Wait => self.rolling > 0,
            Cmd::Move(dir) => {
                let rl1 = self.rloc.step(dir);
                match self.mine.get(rl1) {
                    Space::Empty | Space::Earth | Space::OpenLift | Space::Lambda | Space::Tramp(
                        _,
                    ) => true,
                    Space::Rock => {
                        proof {
                            self.mine.lemma_cells(rl1);
                        }
                        match dir {
                            Dir::Left | Dir::Right => self.mine.get(rl1.step(dir)) == Space::Empty,
                            Dir::Up | Dir::Down => false,
                        }
                    },
                    _ => false,
                }
            },
        }
    }

    /// Prints the mine, top row first.
    pub fn print(&self) -> (out: Vec<Vec<char>>)
        requires
            self.wf(),
            self.robot_present(),
        ensures
            text(out@) == print_rows(self.mine.rows_view()),
    {
        let mut m = self.mine.duplicate();
        proof {
            assert forall|p: Point| printable(#[trigger] m.spec_get(p)) by {
                assert(m.spec_get(p) == self.cell(p));
            }
            m.lemma_printable_rows();
        }
        let out = crate::mine::print(&mut m);
        out
    }

    /// Whether a turn under `cmd` may be run.
    pub fn can_step(&self, cmd: Cmd) -> (b: bool)
        requires
            self.wf(),
        ensures
            b == self.step_ready(cmd),
    {
        if self.mine.get(self.rloc) != Space::Robot {
            return false;
        }
        match cmd {
            Cmd::Wait => true,
            Cmd::Move(d) => {
                let nr = self.rloc.step(d);
                match self.mine.get(nr) {
                    Space::Tramp(x) => {
                        let y = self.c.trampmap[x as usize];
                        if y >= 16 {
                            return false;
                        }
                        let bx = self.mine.bbox();
                        let to = self.c.targetloc[y as usize];
                        proof {
                            self.mine.lemma_cells(to);
                        }
                        if !bx.contains(to) {
                            return false;
                        }
                        let mut xx: usize = 0;
                        while xx < 15
                            invariant
                                self.wf(),
                                bx == self.mine.spec_box(),
                                xx <= 15,
                                cmd == Cmd::Move(d),
                                nr == spec_step(self.rloc, d),
                                self.cell(nr) == Space::Tramp(x),
                                x < 16,
                                y < 16,
                                y == self.c.trampmap@[x as int],
                                forall|j: int|
                                    0 <= j < xx && #[trigger] self.c.trampmap@[j] == y
                                        ==> self.mine.inside(self.c.tramploc@[j]),
                            decreases 15 - xx,
                        {
                            if self.c.trampmap[xx] == y {
                                let at = self.c.tramploc[xx];
                                proof {
                                    self.mine.lemma_cells(at);
                                }
                                if !bx.contains(at) {
                                    return false;
                                }
                            }
                            xx = xx + 1;
                        }
                        true
                    },
                    _ => true,
                }
            },
        }
    }
}

/// Prints the state's mine, top row first.
pub fn print(state: &State) -> (out: Vec<Vec<char>>)
    requires
        state.wf(),
        state.robot_present(),
    ensures
        text(out@) == print_rows(state.mine.rows_view()),
{
    state.print()
}

/// The command of a command character: `L`, `R`, `U`, `D` or `W`.
pub fn cmd_opt_of_char(c: char) -> (r: Option<Cmd>)
    ensures
        r == spec_cmd_opt_of_char(c),
{
    if c == 'L' {
        Some(Cmd::Move(Dir::Left))
    } else if c == 'R' {
        Some(Cmd::Move(Dir::Right))
    } else if c == 'U' {
        Some(Cmd::Move(Dir::Up))
    } else if c == 'D' {
        Some(Cmd::Move(Dir::Down))
    } else if c == 'W' {
        Some(Cmd::Wait)
    } else {
        None
    }
}

/// The command of a command character.
pub fn cmd_of_char(c: char) -> (r: Cmd)
    requires
        spec_cmd_opt_of_char(c) is Some,
    ensures
        Some(r) == spec_cmd_opt_of_char(c),
{
    match cmd_opt_of_char(c) {
        Some(cmd) => cmd,
        None => Cmd::Wait,
    }
}

/// The character of a command.
pub fn char_of_cmd(c: Cmd) -> (r: char)
    ensures
        r == spec_char_of_cmd(c),
{
    match c {
        Cmd::Move(Dir::Left) => 'L',
        Cmd::Move(Dir::Right) => 'R',
        Cmd::Move(Dir::Up) => 'U',
        Cmd::Move(Dir::Down) => 'D',
        Cmd::Wait => 'W',
    }
}

/// Reading a command's character gives the command back.
pub proof fn lemma_cmd_char_roundtrip(c: Cmd)
    ensures
        spec_cmd_opt_of_char(spec_char_of_cmd(c)) == Some(c),
{
}

/// A character reads as a command exactly when it is that command's character.
pub proof fn lemma_char_cmd_roundtrip(ch: char)
    ensures
        spec_cmd_opt_of_char(ch) matches Some(c) ==> spec_char_of_cmd(c) == ch,
{
}

/// The settings that the metadata lines give.
pub struct MetaSpec {
    pub water: Coord,
    pub flood: Area,
    pub wproof: Area,
    pub trampmap: Seq<u8>,
}

/// The settings before any metadata line: no water, no flooding, ten turns
/// of waterproofing, and no trampoline with a target.
pub open spec fn meta_init() -> MetaSpec {
    MetaSpec { water: -1i16, flood: 0, wproof: 10, trampmap: Seq::new(16, |i: int| 16u8) }
}

/// The settings after one metadata line, or `None` where it is not a blank
/// line nor one of `Water n`, `Flooding n`, `Waterproof n` (with any case in
/// the keyword) and `Trampoline X targets Y`. The water level is one below
/// `n`; the numbers wrap around to the width of their fields.
pub open spec fn meta_line(m: MetaSpec, l: Seq<char>) -> Option<MetaSpec> {
    if l.len() == 0 {
        Some(m)
    } else {
        let ws = words(l);
        if ws.len() == 0 {
            None
        } else {
            let key = lower(ws[0]);
            if key == seq!['w', 'a', 't', 'e', 'r'] || key == seq!['f', 'l', 'o', 'o', 'd', 'i', 'n', 'g']
                || key == seq!['w', 'a', 't', 'e', 'r', 'p', 'r', 'o', 'o', 'f'] {
                if ws.len() < 2 {
                    None
                } else {
                    match int_of_word(ws[1]) {
                        Some(v) => if key == seq!['w', 'a', 't', 'e', 'r'] {
                            Some(
                                MetaSpec {
                                    water: wrap_i16(v - 1),
                                    flood: m.flood,
                                    wproof: m.wproof,
                                    trampmap: m.trampmap,
                                },
                            )
                        } else if key == seq!['f', 'l', 'o', 'o', 'd', 'i', 'n', 'g'] {
                            Some(
                                MetaSpec {
                                    water: m.water,
                                    flood: wrap_u32(v),
                                    wproof: m.wproof,
                                    trampmap: m.trampmap,
                                },
                            )
                        } else {
                            Some(
                                MetaSpec {
                                    water: m.water,
                                    flood: m.flood,
                                    wproof: wrap_u32(v),
                                    trampmap: m.trampmap,
                                },
                            )
                        },
                        None => None,
                    }
                }
            } else if key == seq!['t', 'r', 'a', 'm', 'p', 'o', 'l', 'i', 'n', 'e'] {
                if ws.len() < 4 || ws[2] != seq!['t', 'a', 'r', 'g', 'e', 't', 's'] {
                    None
                } else {
                    let a = ws[1][0];
                    let b = ws[3][0];
                    if map_char(a) && map_char(b) {
                        match (spec_space_of_char(a), spec_space_of_char(b)) {
                            (Space::Tramp(x), Space::Target(y)) => Some(
                                MetaSpec {
                                    water: m.water,
                                    flood: m.flood,
                                    wproof: m.wproof,
                                    trampmap: m.trampmap.update(x as int, y),
                                },
                            ),
                            _ => None,
                        }
                    } else {
                        None
                    }
                }
            } else {
                None
            }
        }
    }
}

/// The settings after the metadata lines from index `i` on.
pub open spec fn meta_fold(t: Seq<Seq<char>>, i: int, m: MetaSpec) -> Option<MetaSpec>
    decreases t.len() - i,
{
    if i >= t.len() {
        Some(m)
    } else {
        match meta_line(m, t[i]) {
            Some(m2) => meta_fold(t, i + 1, m2),
            None => None,
        }
    }
}

struct MetaVals {
    water: Coord,
    flood: Area,
    wproof: Area,
    trampmap: Vec<u8>,
}

impl MetaVals {
    spec fn view(&self) -> MetaSpec {
        MetaSpec {
            water: self.water,
            flood: self.flood,
            wproof: self.wproof,
            trampmap: self.trampmap@,
        }
    }
}

/// Applies one metadata line; false where the line is not metadata.
fn apply_meta_line(m: &mut MetaVals, line: &Vec<char>) -> (ok: bool)
    requires
        old(m).trampmap@.len() == 16,
    ensures
        ok == meta_line(old(m).view(), line@) is Some,
        ok ==> meta_line(old(m).view(), line@) == Some(final(m).view()),
        final(m).trampmap@.len() == 16,
{
    if line.len() == 0 {
        return true;
    }
    let ws = split_words(line);
    let ghost wv = Seq::new(ws@.len(), |i: int| ws@[i]@);
    assert(wv == words(line@));
    if ws.len() == 0 {
        return false;
    }
    assert(ws@[0]@ == wv[0]);
    let k0 = &ws[0];
    let is_water = lower_eq(k0, &['w', 'a', 't', 'e', 'r']);
    let is_flooding = lower_eq(k0, &['f', 'l', 'o', 'o', 'd', 'i', 'n', 'g']);
    let is_waterproof = lower_eq(k0, &['w', 'a', 't', 'e', 'r', 'p', 'r', 'o', 'o', 'f']);
    let is_trampoline = lower_eq(k0, &['t', 'r', 'a', 'm', 'p', 'o', 'l', 'i', 'n', 'e']);
    if is_water || is_flooding || is_waterproof {
        if ws.len() < 2 {
            return false;
        }
        assert(ws@[1]@ == wv[1]);
        match int_from_word(&ws[1]) {
            Some(v) => {
                if is_water {
                    proof {
                        crate::text::lemma_wrap_i16_of_u32(int_of_word(wv[1])->0);
                    }
                    m.water = coord_below(v);
                } else if is_flooding {
                    m.flood = v;
                } else {
                    m.wproof = v;
                }
                true
            },
            None => false,
        }
    } else if is_trampoline {
        if ws.len() < 4 {
            return false;
        }
        assert(ws@[2]@ == wv[2]);
        if !word_eq(&ws[2], &['t', 'a', 'r', 'g', 'e', 't', 's']) {
            return false;
        }
        assert(ws@[1]@ == wv[1]);
        assert(ws@[3]@ == wv[3]);
        let a = ws[1][0];
        let b = ws[3][0];
        if !(crate::space::is_map_char(a) && crate::space::is_map_char(b)) {
            return false;
        }
        match (space_of_char(a), space_of_char(b)) {
            (Space::Tramp(x), Space::Target(y)) => {
                m.trampmap.set(x as usize, y);
                true
            },
            _ => false,
        }
    } else {
        false
    }
}

/// The cell, where it holds `sp`.
pub open spec fn find_fn(cell: spec_fn(Point) -> Space, sp: Space) -> spec_fn(Point) -> Option<Point> {
    |p: Point|
        if cell(p) == sp {
            Some(p)
        } else {
            None
        }
}

/// The cells of `r` that hold `sp`, in scan order.
pub open spec fn found(cell: spec_fn(Point) -> Space, r: Rect, sp: Space) -> Seq<Point> {
    rect_scan(find_fn(cell, sp), r, r.h as int)
}

/// Where a trampoline or target that the map lacks is.
pub open spec fn nowhere() -> Point {
    Point { x: -1i16, y: -1i16 }
}

pub open spec fn last_or(s: Seq<Point>, d: Point) -> Point {
    if s.len() > 0 {
        s.last()
    } else {
        d
    }
}

/// `st` is the game that the image `rows` and the settings `m` start: the
/// robot at the last robot cell in scan order, each trampoline and target at
/// its last cell, the whole mine unsettled, and the turn limit the mine's
/// area.
pub open spec fn parsed_state(st: State, rows: Rows, m: MetaSpec) -> bool {
    let bx = rows_box(rows);
    let cell = rows_fn(rows);
    &&& st.mine.base_rows() == rows
    &&& st.mine.pending().len() == 0
    &&& st.rloc == found(cell, bx, Space::Robot).last()
    &&& st.time == 0
    &&& st.lgot == 0
    &&& st.wdmg == 0
    &&& st.water == m.water
    &&& st.rolling == found(cell, bx, Space::Rock).len()
    &&& st.rollrect == bx
    &&& !st.collected
    &&& st.c.tlim == bx.w * bx.h
    &&& st.c.lamb == found(cell, bx, Space::Lambda).len()
    &&& st.c.flood == m.flood
    &&& st.c.wproof == m.wproof
    &&& st.c.trampmap@ == m.trampmap
    &&& forall|x: int|
        0 <= x < 16 ==> #[trigger] st.c.tramploc@[x] == last_or(
            found(cell, bx, Space::Tramp(x as u8)),
            nowhere(),
        )
    &&& forall|y: int|
        0 <= y < 16 ==> #[trigger] st.c.targetloc@[y] == last_or(
            found(cell, bx, Space::Target(y as u8)),
            nowhere(),
        )
}

/// What reading the game from the text `t` gives: the map's error, else the
/// metadata's, else `NoRobot` where the map has no robot, else the game.
pub open spec fn parse_spec(t: Seq<Seq<char>>, r: Result<State, ParseError>) -> bool {
    let k = map_end(t);
    let w = max_len(t, k);
    let rows = parsed_rows(t, k, w);
    let meta = meta_fold(t, meta_start(t, k), meta_init());
    if !map_chars_ok(t, k) {
        r == Err::<State, ParseError>(ParseError::BadChar)
    } else if k == 0 {
        r == Err::<State, ParseError>(ParseError::NoMap)
    } else if k > GAME_MAX || w > GAME_MAX {
        r == Err::<State, ParseError>(ParseError::TooLarge)
    } else if meta is None {
        r == Err::<State, ParseError>(ParseError::BadMetadata)
    } else if found(rows_fn(rows), rows_box(rows), Space::Robot).len() == 0 {
        r == Err::<State, ParseError>(ParseError::NoRobot)
    } else {
        &&& r is Ok
        &&& r->Ok_0.wf()
        &&& r->Ok_0.robot_present()
        &&& parsed_state(r->Ok_0, rows, meta->0)
    }
}

/// Reads a game from the lines of a map text: the map, a blank line, then
/// metadata lines.
pub fn parse(lines: &Vec<Vec<char>>) -> (r: Result<State, ParseError>)
    ensures
        parse_spec(text(lines@), r),
{
    let ghost t = text(lines@);
    proof {
        crate::mine::lemma_map_end_from_bound(t, 0);
    }
    let (img, metaline) = match crate::mine::parse(lines) {
        Ok(v) => v,
        Err(e) => {
            proof {
                assert(e == ParseError::BadChar || e == ParseError::NoMap);
            }
            return Err(e);
        },
    };
    proof {
        crate::mine::lemma_map_end_from_bound(t, 0);
        crate::mine::lemma_max_len_attained(t, map_end(t));
    }
    if img.height() > GAME_MAX || img.width() > GAME_MAX {
        return Err(ParseError::TooLarge);
    }
    let ghost rows = img@;
    let ghost cell = rows_fn(rows);
    proof {
        lemma_rows_box(rows, Point { x: 0, y: 0 });
    }
    let bx = img.bbox();
    let w: i32 = bx.w as i32;
    let h: i32 = bx.h as i32;
    let mut rloc: Option<Point> = None;
    let mut lamb: Area = 0;
    let mut rolling: Area = 0;
    let mut tramploc: Vec<Point> = vec![Point { x: -1, y: -1 }; 16];
    let mut targetloc: Vec<Point> = vec![Point { x: -1, y: -1 }; 16];
    proof {
        crate::geom::lemma_scan_start(find_fn(cell, Space::Robot), bx);
        crate::geom::lemma_scan_start(find_fn(cell, Space::Lambda), bx);
        crate::geom::lemma_scan_start(find_fn(cell, Space::Rock), bx);
        assert forall|x: int| 0 <= x < 16 implies #[trigger] tramploc@[x] == last_or(
            scan_prefix(find_fn(cell, Space::Tramp(x as u8)), bx, 0, 0),
            nowhere(),
        ) by {
            crate::geom::lemma_scan_start(find_fn(cell, Space::Tramp(x as u8)), bx);
        }
        assert forall|y: int| 0 <= y < 16 implies #[trigger] targetloc@[y] == last_or(
            scan_prefix(find_fn(cell, Space::Target(y as u8)), bx, 0, 0),
            nowhere(),
        ) by {
            crate::geom::lemma_scan_start(find_fn(cell, Space::Target(y as u8)), bx);
        }
    }
    let mut k: i32 = 0;
    while k < h
        invariant
            rows_wf(rows),
            rows == img@,
            cell == rows_fn(rows),
            bx == rows_box(rows),
            w == bx.w,
            h == bx.h,
            w <= 32766,
            h <= 32766,
            0 <= k <= h,
            tramploc@.len() == 16,
            targetloc@.len() == 16,
            rloc == (if scan_prefix(find_fn(cell, Space::Robot), bx, k as int, 0).len() > 0 {
                Some(scan_prefix(find_fn(cell, Space::Robot), bx, k as int, 0).last())
            } else {
                None
            }),
            lamb == scan_prefix(find_fn(cell, Space::Lambda), bx, k as int, 0).len(),
            rolling == scan_prefix(find_fn(cell, Space::Rock), bx, k as int, 0).len(),
            lamb <= k * w,
            rolling <= k * w,
            forall|x: int|
                0 <= x < 16 ==> #[trigger] tramploc@[x] == last_or(
                    scan_prefix(find_fn(cell, Space::Tramp(x as u8)), bx, k as int, 0),
                    nowhere(),
                ),
            forall|y: int|
                0 <= y < 16 ==> #[trigger] targetloc@[y] == last_or(
                    scan_prefix(find_fn(cell, Space::Target(y as u8)), bx, k as int, 0),
                    nowhere(),
                ),
        decreases h - k,
    {
        let mut n: i32 = 0;
        while n < w
            invariant
                rows_wf(rows),
                rows == img@,
                cell == rows_fn(rows),
                bx == rows_box(rows),
                w == bx.w,
                h == bx.h,
                w <= 32766,
                h <= 32766,
                0 <= k < h,
                0 <= n <= w,
                tramploc@.len() == 16,
                targetloc@.len() == 16,
                rloc == (if scan_prefix(find_fn(cell, Space::Robot), bx, k as int, n as int).len()
                    > 0 {
                    Some(scan_prefix(find_fn(cell, Space::Robot), bx, k as int, n as int).last())
                } else {
                    None
                }),
                lamb == scan_prefix(find_fn(cell, Space::Lambda), bx, k as int, n as int).len(),
                rolling == scan_prefix(find_fn(cell, Space::Rock), bx, k as int, n as int).len(),
                lamb <= k * w + n,
                rolling <= k * w + n,
                forall|x: int|
                    0 <= x < 16 ==> #[trigger] tramploc@[x] == last_or(
                        scan_prefix(find_fn(cell, Space::Tramp(x as u8)), bx, k as int, n as int),
                        nowhere(),
                    ),
                forall|y: int|
                    0 <= y < 16 ==> #[trigger] targetloc@[y] == last_or(
                        scan_prefix(find_fn(cell, Space::Target(y as u8)), bx, k as int, n as int),
                        nowhere(),
                    ),
            decreases w - n,
        {
            let here = Point { x: n as i16, y: k as i16 };
            let sp = img.get(here);
            assert(k * w + n < 0xFFFF_FFFFint) by (nonlinear_arith)
                requires
                    0 <= k < h <= 32766,
                    0 <= n < w <= 32766,
            ;
            proof {
                assert(here == row_point(bx, bx.y + k, n as int));
                assert(cell(here) == sp);
                crate::geom::lemma_scan_next(find_fn(cell, Space::Robot), bx, k as int, n as int);
                crate::geom::lemma_scan_next(find_fn(cell, Space::Lambda), bx, k as int, n as int);
                crate::geom::lemma_scan_next(find_fn(cell, Space::Rock), bx, k as int, n as int);
            }
            let ghost tl0 = tramploc@;
            let ghost gl0 = targetloc@;
            match sp {
                Space::Robot => {
                    rloc = Some(here);
                },
                Space::Lambda => {
                    lamb = lamb + 1;
                },
                Space::Rock => {
                    rolling = rolling + 1;
                },
                Space::Tramp(x) => {
                    tramploc.set(x as usize, here);
                },
                Space::Target(y) => {
                    targetloc.set(y as usize, here);
                },
                _ => {},
            }
            proof {
                assert forall|x: int| 0 <= x < 16 implies #[trigger] tramploc@[x] == last_or(
                    scan_prefix(find_fn(cell, Space::Tramp(x as u8)), bx, k as int, n + 1),
                    nowhere(),
                ) by {
                    crate::geom::lemma_scan_next(
                        find_fn(cell, Space::Tramp(x as u8)),
                        bx,
                        k as int,
                        n as int,
                    );
                    assert(tl0[x] == last_or(
                        scan_prefix(find_fn(cell, Space::Tramp(x as u8)), bx, k as int, n as int),
                        nowhere(),
                    ));
                }
                assert forall|y: int| 0 <= y < 16 implies #[trigger] targetloc@[y] == last_or(
                    scan_prefix(find_fn(cell, Space::Target(y as u8)), bx, k as int, n + 1),
                    nowhere(),
                ) by {
                    crate::geom::lemma_scan_next(
                        find_fn(cell, Space::Target(y as u8)),
                        bx,
                        k as int,
                        n as int,
                    );
                    assert(gl0[y] == last_or(
                        scan_prefix(find_fn(cell, Space::Target(y as u8)), bx, k as int, n as int),
                        nowhere(),
                    ));
                }
            }
            n = n + 1;
        }
        proof {
            crate::geom::lemma_scan_row_done(find_fn(cell, Space::Robot), bx, k as int);
            crate::geom::lemma_scan_row_done(find_fn(cell, Space::Lambda), bx, k as int);
            crate::geom::lemma_scan_row_done(find_fn(cell, Space::Rock), bx, k as int);
            assert forall|x: int| 0 <= x < 16 implies #[trigger] tramploc@[x] == last_or(
                scan_prefix(find_fn(cell, Space::Tramp(x as u8)), bx, k + 1, 0),
                nowhere(),
            ) by {
                crate::geom::lemma_scan_row_done(find_fn(cell, Space::Tramp(x as u8)), bx, k as int);
            }
            assert forall|y: int| 0 <= y < 16 implies #[trigger] targetloc@[y] == last_or(
                scan_prefix(find_fn(cell, Space::Target(y as u8)), bx, k + 1, 0),
                nowhere(),
            ) by {
                crate::geom::lemma_scan_row_done(find_fn(cell, Space::Target(y as u8)), bx, k as int);
            }
            assert(k * w + w == (k + 1) * w) by (nonlinear_arith);
        }
        k = k + 1;
    }
    proof {
        assert(scan_prefix(find_fn(cell, Space::Robot), bx, h as int, 0) =~= found(cell, bx, Space::Robot));
        assert(scan_prefix(find_fn(cell, Space::Lambda), bx, h as int, 0) =~= found(cell, bx, Space::Lambda));
        assert(scan_prefix(find_fn(cell, Space::Rock), bx, h as int, 0) =~= found(cell, bx, Space::Rock));
        assert forall|x: int| 0 <= x < 16 implies #[trigger] tramploc@[x] == last_or(
            found(cell, bx, Space::Tramp(x as u8)),
            nowhere(),
        ) by {
            assert(scan_prefix(find_fn(cell, Space::Tramp(x as u8)), bx, h as int, 0) =~= found(cell, bx, Space::Tramp(x as u8)));
        }
        assert forall|y: int| 0 <= y < 16 implies #[trigger] targetloc@[y] == last_or(
            found(cell, bx, Space::Target(y as u8)),
            nowhere(),
        ) by {
            assert(scan_prefix(find_fn(cell, Space::Target(y as u8)), bx, h as int, 0) =~= found(cell, bx, Space::Target(y as u8)));
        }
    }
    // The metadata lines.
    let mut meta = MetaVals { water: -1, flood: 0, wproof: 10, trampmap: vec![16u8; 16] };
    assert(meta.view().trampmap =~= meta_init().trampmap);
    let n = lines.len();
    let mut i: usize = metaline;
    while i < n
        invariant
            t == text(lines@),
            n == t.len(),
            map_chars_ok(t, map_end(t)),
            0 < map_end(t) <= GAME_MAX,
            max_len(t, map_end(t)) <= GAME_MAX,
            metaline == meta_start(t, map_end(t)),
            metaline <= i <= n,
            meta.trampmap@.len() == 16,
            meta_fold(t, metaline as int, meta_init()) == meta_fold(t, i as int, meta.view()),
        decreases n - i,
    {
        assert(lines@[i as int]@ == t[i as int]);
        let ghost mv = meta.view();
        if !apply_meta_line(&mut meta, &lines[i]) {
            assert(meta_line(mv, t[i as int]) is None);
            assert(meta_fold(t, i as int, mv) is None);
            return Err(ParseError::BadMetadata);
        }
        i = i + 1;
    }
    let rl = match rloc {
        Some(p) => p,
        None => {
            return Err(ParseError::NoRobot);
        },
    };
    let tlim = bx.area();
    let c = StateConst {
        tlim,
        lamb,
        flood: meta.flood,
        wproof: meta.wproof,
        trampmap: meta.trampmap,
        tramploc,
        targetloc,
    };
    let mine = new_mine(img);
    let st = State {
        mine,
        rloc: rl,
        time: 0,
        lgot: 0,
        wdmg: 0,
        water: meta.water,
        rolling,
        rollrect: bx,
        collected: false,
        c: Rc::new(c),
    };
    proof {
        let robots = found(cell, bx, Space::Robot);
        assert(robots.len() > 0);
        crate::geom::lemma_rect_scan_from(find_fn(cell, Space::Robot), bx, bx.h as int, robots.len() - 1);
        st.mine.lemma_cells(rl);
        assert forall|p: Point| printable(#[trigger] st.cell(p)) by {
            if in_rows(rows, p) {
                assert(crate::space::code_printable(rows[p.y as int][p.x as int]));
            }
        }
    }
    Ok(st)
}

/// Reads a game from a map text.
pub fn get_map(txt: &Vec<char>) -> (r: Result<State, ParseError>)
    ensures
        parse_spec(crate::text::split_lines_spec(txt@), r),
{
    let lines = crate::text::split_lines(txt);
    assert(text(lines@) =~= crate::text::split_lines_spec(txt@));
    parse(&lines)
}

impl State {
    /// The two states hold the same game.
    pub open spec fn same(&self, o: State) -> bool {
        &&& self.mine.base_rows() == o.mine.base_rows()
        &&& self.mine.pending() == o.mine.pending()
        &&& self.rloc == o.rloc
        &&& self.time == o.time
        &&& self.lgot == o.lgot
        &&& self.wdmg == o.wdmg
        &&& self.water == o.water
        &&& self.rolling == o.rolling
        &&& self.rollrect == o.rollrect
        &&& self.collected == o.collected
        &&& self.c == o.c
    }

    /// A second handle on the same game.
    pub fn duplicate(&self) -> (r: State)
        ensures
            r.same(*self),
            forall|p: Point| #[trigger] r.cell(p) == self.cell(p),
            self.wf() ==> r.wf(),
    {
        let m = self.mine.duplicate();
        assert forall|p: Point| #[trigger] m.spec_get(p) == self.cell(p) by {}
        State {
            mine: m,
            rloc: self.rloc,
            time: self.time,
            lgot: self.lgot,
            wdmg: self.wdmg,
            water: self.water,
            rolling: self.rolling,
            rollrect: self.rollrect,
            collected: self.collected,
            c: self.c.clone(),
        }
    }
}

} // verus!
