//! Positions of the interactive player: each keeps the position that it was
//! played from, so that moves can be undone.
use vstd::prelude::*;
use std::collections::HashMap;
use std::rc::Rc;
use crate::bots::outcome_opt;
use crate::geom::Dir;
use crate::state::{
    char_of_cmd, is_next, spec_char_of_cmd, spec_outcome, spec_score, step, Cmd, Outcome, Score,
    State,
};

verus! {

/// A position and the way it was reached.
#[derive(Debug)]
pub struct RlPosn {
    pub state: State,
    pub res: Outcome,
    pub last: Hist,
}

/// How a position was reached: from the start, or by a command from another.
#[derive(Debug)]
pub enum Hist {
    Initial,
    From(Cmd, Rc<RlPosn>),
}

impl RlPosn {
    /// The commands that led here, newest first.
    pub open spec fn history(&self) -> Seq<Cmd>
        decreases self,
    {
        match self.last {
            Hist::Initial => Seq::empty(),
            Hist::From(c, p) => seq![c] + p.history(),
        }
    }

    /// The position's score: an unfinished game counts as abandoned.
    pub fn score(&self) -> (r: Score)
        ensures
            r == spec_score(self.state, outcome_opt(self.res)),
    {
        let opt = match self.res {
            Outcome::Cont => None,
            r => Some(r),
        };
        self.state.score(opt)
    }

    /// The commands that led here, newest first.
    pub fn cmds(&self) -> (r: Vec<Cmd>)
        ensures
            r@ == self.history(),
    {
        let mut out: Vec<Cmd> = Vec::new();
        let mut cur: &RlPosn = self;
        loop
            invariant
                self.history() == out@ + cur.history(),
            decreases cur.history().len(),
        {
            match &cur.last {
                Hist::Initial => {
                    assert(out@ + cur.history() =~= out@);
                    return out;
                },
                Hist::From(c, p) => {
                    let ghost old_out = out@;
                    out.push(*c);
                    let next: &RlPosn = &**p;
                    assert(cur.history() == seq![*c] + next.history());
                    assert(old_out + cur.history() =~= out@ + next.history());
                    cur = next;
                },
            }
        }
    }

    /// The commands that led here, as command characters, oldest first.
    pub fn to_str(&self) -> (r: Vec<char>)
        ensures
            r@ == Seq::new(
                self.history().len(),
                |i: int| spec_char_of_cmd(self.history()[self.history().len() - 1 - i]),
            ),
    {
        let cs = self.cmds();
        let n = cs.len();
        let mut r: Vec<char> = Vec::new();
        let mut i: usize = 0;
        while i < n
            invariant
                n == cs@.len(),
                cs@ == self.history(),
                i <= n,
                r@ == Seq::new(i as nat, |j: int| spec_char_of_cmd(cs@[n - 1 - j])),
            decreases n - i,
        {
            r.push(char_of_cmd(cs[n - 1 - i]));
            i = i + 1;
            assert(r@ =~= Seq::new(i as nat, |j: int| spec_char_of_cmd(cs@[n - 1 - j])));
        }
        r
    }

    /// The position that this one was played from.
    pub fn tail(&self) -> (r: Rc<RlPosn>)
        requires
            self.last is From,
        ensures
            self.last == Hist::From(self.history()[0], r),
            r.history() == self.history().drop_first(),
    {
        match &self.last {
            Hist::From(_c, there) => {
                assert(self.history().drop_first() =~= there.history());
                there.clone()
            },
            Hist::Initial => {
                proof {
                    assert(false);
                }
                Rc::new(RlPosn { state: self.state.duplicate(), res: self.res, last: Hist::Initial })
            },
        }
    }
}

/// The first position of a game.
pub fn initial(state: State) -> (r: Rc<RlPosn>)
    ensures
        r.state == state,
        r.res == Outcome::Cont,
        r.last == Hist::Initial,
        r.history() == Seq::<Cmd>::empty(),
{
    Rc::new(RlPosn { state, res: Outcome::Cont, last: Hist::Initial })
}

/// Plays `cmd` from `here`: the new position remembers `here`.
pub fn play(here: &Rc<RlPosn>, cmd: Cmd) -> (r: Rc<RlPosn>)
    requires
        here.state.wf(),
        here.state.step_ready(cmd),
    ensures
        is_next(here.state, cmd, r.state),
        r.res == spec_outcome(here.state, cmd),
        r.last == Hist::From(cmd, *here),
        r.history() == seq![cmd] + here.history(),
{
    let (res, state) = step(&here.state, cmd);
    Rc::new(RlPosn { state, res, last: Hist::From(cmd, here.clone()) })
}

/// Character order, for sorting marks.
pub fn char_le(a: char, b: char) -> (r: bool)
    ensures
        r == (a <= b),
{
    a <= b
}

/// What the interactive player shows beside the printed mine.
#[derive(Clone, Copy, PartialEq, Eq, Debug)]
pub struct ShowInfo {
    pub score: Score,
    /// The printed line of the highest flooded row, where it is on the map.
    pub water_line: Option<usize>,
    /// Turns until the water rises, where it rises.
    pub flood_left: Option<u32>,
    /// The robot's printed line, counted from 1.
    pub cursor_row: usize,
    /// The robot's printed column, counted from 1.
    pub cursor_col: usize,
}

/// The figures shown beside a position's mine.
pub fn show_info(p: &RlPosn) -> (r: ShowInfo)
    requires
        p.state.wf(),
    ensures
        r.score == spec_score(p.state, outcome_opt(p.res)),
        r.water_line == (if 0 <= p.state.water < p.state.mine.spec_box().h {
            Some((p.state.mine.spec_box().h - 1 - p.state.water) as usize)
        } else {
            None
        }),
        r.flood_left == (if p.state.c.flood > 0 {
            Some((p.state.c.flood - p.state.time % p.state.c.flood) as u32)
        } else {
            None
        }),
        r.cursor_row == p.state.mine.spec_box().h - p.state.rloc.y,
        r.cursor_col == p.state.rloc.x + 1,
{
    let st = &p.state;
    let bx = st.mine.bbox();
    proof {
        st.mine.lemma_cells(st.rloc);
    }
    let h: i32 = bx.h as i32;
    let water_line = if 0 <= st.water && (st.water as i32) < h {
        Some((h - 1 - st.water as i32) as usize)
    } else {
        None
    };
    let flood_left = if st.c.flood > 0 {
        Some(st.c.flood - st.time % st.c.flood)
    } else {
        None
    };
    ShowInfo {
        score: p.score(),
        water_line,
        flood_left,
        cursor_row: (h - st.rloc.y as i32) as usize,
        cursor_col: (st.rloc.x as i32 + 1) as usize,
    }
}

/// What a key does at the interactive player.
#[derive(Clone, Copy, PartialEq, Eq, Structural, Debug)]
pub enum KeyAction {
    /// Play the command.
    Play(Cmd),
    /// Go back to the position played from.
    Undo,
    /// Read a key and mark the position under it.
    Mark,
    /// Read a key and go to the position marked under it.
    Travel,
    /// Stop playing.
    Quit,
    /// The key does nothing here.
    Bell,
}

/// The characters are in strictly increasing order.
pub open spec fn sorted_chars(s: Seq<char>) -> bool {
    forall|i: int, j: int| 0 <= i < j < s.len() ==> s[i] < s[j]
}

/// The positions that the player marked, each under a key character.
pub struct Marks {
    map: HashMap<u32, Rc<RlPosn>>,
    keys: Vec<char>,
}

impl Marks {
    /// The marked positions, by the code of their key.
    pub closed spec fn view(&self) -> Map<u32, Rc<RlPosn>> {
        self.map@
    }

    /// The keys in use, in increasing order.
    pub closed spec fn key_seq(&self) -> Seq<char> {
        self.keys@
    }

    /// The keys in use are in order and are those of the marked positions.
    pub open spec fn wf(&self) -> bool {
        &&& sorted_chars(self.key_seq())
        &&& forall|i: int|
            0 <= i < self.key_seq().len() ==> self@.contains_key(#[trigger] self.key_seq()[i] as u32)
        &&& forall|k: u32|
            #![trigger self@.contains_key(k)]
            self@.contains_key(k) ==> exists|i: int|
                0 <= i < self.key_seq().len() && #[trigger] self.key_seq()[i] as u32 == k
    }

    /// No marks.
    pub fn new() -> (r: Marks)
        ensures
            r.wf(),
            r@ == Map::<u32, Rc<RlPosn>>::empty(),
            r.key_seq().len() == 0,
    {
        Marks { map: HashMap::new(), keys: Vec::new() }
    }

    /// Whether nothing is marked.
    pub fn is_empty(&self) -> (b: bool)
        requires
            self.wf(),
        ensures
            b == (self.key_seq().len() == 0),
            b == (self@.dom() == Set::<u32>::empty()),
    {
        proof {
            if self.key_seq().len() == 0 {
                assert forall|k: u32| !self@.dom().contains(k) by {
                    if self@.contains_key(k) {
                        let i = choose|i: int| 0 <= i < self.key_seq().len() && #[trigger] self.key_seq()[i] as u32 == k;
                    }
                }
                assert(self@.dom() =~= Set::<u32>::empty());
            } else {
                assert(self@.contains_key(self.key_seq()[0] as u32));
            }
        }
        self.keys.len() == 0
    }

    /// Marks `p` under `key`, in place of what was marked under it.
    pub fn set(&mut self, key: char, p: Rc<RlPosn>)
        requires
            old(self).wf(),
        ensures
            final(self).wf(),
            final(self)@ == old(self)@.insert(key as u32, p),
            forall|c: char| #[trigger] final(self).key_seq().contains(c) <==> old(self).key_seq().contains(c) || c == key,
    {
        broadcast use vstd::std_specs::hash::group_hash_axioms;
        let ghost ks = self.keys@;
        let n = self.keys.len();
        let mut i: usize = 0;
        while i < n && !char_le(key, self.keys[i])
            invariant
                n == ks.len(),
                ks == self.keys@,
                i <= n,
                forall|j: int| 0 <= j < i ==> ks[j] < key,
            decreases n - i,
        {
            i = i + 1;
        }
        if i == n || self.keys[i] != key {
            self.keys.insert(i, key);
            proof {
                ks.insert_ensures(i as int, key);
                let nk = self.keys@;
                assert forall|a: int, b: int| 0 <= a < b < nk.len() implies nk[a] < nk[b] by {
                    if b < i {
                    } else if a < i && b == i {
                    } else if a < i {
                        assert(nk[b] == ks[b - 1]);
                    } else if a == i {
                        assert(nk[b] == ks[b - 1]);
                        assert(ks[i as int] > key);
                    } else {
                        assert(nk[a] == ks[a - 1]);
                        assert(nk[b] == ks[b - 1]);
                    }
                }
                assert forall|c: char| #[trigger] nk.contains(c) <==> ks.contains(c) || c == key by {
                    if nk.contains(c) {
                        let j = choose|j: int| 0 <= j < nk.len() && nk[j] == c;
                        if j < i {
                            assert(ks[j] == c);
                        } else if j > i {
                            assert(ks[j - 1] == c);
                        }
                    }
                    if ks.contains(c) {
                        let j = choose|j: int| 0 <= j < ks.len() && ks[j] == c;
                        if j < i {
                            assert(nk[j] == c);
                        } else {
                            assert(nk[j + 1] == c);
                        }
                    }
                    if c == key {
                        assert(nk[i as int] == c);
                    }
                }
            }
        } else {
            assert(ks.contains(key));
        }
        let ghost m0 = self.map@;
        self.map.insert(key as u32, p);
        proof {
            let nk = self.keys@;
            assert forall|j: int| 0 <= j < nk.len() implies self@.contains_key(#[trigger] nk[j] as u32) by {
                if nk[j] != key {
                    assert(ks.contains(nk[j]));
                    let jj = choose|jj: int| 0 <= jj < ks.len() && ks[jj] == nk[j];
                    assert(m0.contains_key(ks[jj] as u32));
                }
            }
            assert forall|k: u32| #![trigger self@.contains_key(k)] self@.contains_key(k) implies exists|j: int|
                0 <= j < nk.len() && #[trigger] nk[j] as u32 == k by {
                if k == key as u32 {
                    assert(nk.contains(key));
                    let j = choose|j: int| 0 <= j < nk.len() && nk[j] == key;
                    assert(nk[j] as u32 == k);
                } else {
                    assert(m0.contains_key(k));
                    let jj = choose|jj: int| 0 <= jj < ks.len() && #[trigger] ks[jj] as u32 == k;
                    assert(ks.contains(ks[jj]));
                    assert(nk.contains(ks[jj]));
                    let j = choose|j: int| 0 <= j < nk.len() && nk[j] == ks[jj];
                    assert(nk[j] as u32 == k);
                }
            }
        }
    }

    /// The position marked under `key`, if any.
    pub fn find(&self, key: char) -> (r: Option<Rc<RlPosn>>)
        requires
            self.wf(),
        ensures
            r == (if self@.contains_key(key as u32) {
                Some(self@[key as u32])
            } else {
                None
            }),
    {
        broadcast use vstd::std_specs::hash::group_hash_axioms;
        let k: u32 = key as u32;
        match self.map.get(&k) {
            Some(p) => Some(p.clone()),
            None => None,
        }
    }

    /// The keys in use, in increasing order.
    pub fn key_list(&self) -> (r: Vec<char>)
        requires
            self.wf(),
        ensures
            sorted_chars(r@),
            forall|c: char| #[trigger] r@.contains(c) <==> self@.contains_key(c as u32),
    {
        let r = self.keys.clone();
        proof {
            assert forall|c: char| #[trigger] r@.contains(c) <==> self@.contains_key(c as u32) by {
                if r@.contains(c) {
                    let j = choose|j: int| 0 <= j < r@.len() && r@[j] == c;
                    assert(self@.contains_key(self.key_seq()[j] as u32));
                }
                if self@.contains_key(c as u32) {
                    let j = choose|j: int| 0 <= j < self.key_seq().len() && #[trigger] self.key_seq()[j] as u32 == c as u32;
                    lemma_char_code(self.key_seq()[j], c);
                    assert(r@[j] == c);
                }
            }
        }
        r
    }
}

/// Distinct characters have distinct codes.
proof fn lemma_char_code(c: char, d: char)
    ensures
        c as u32 == d as u32 ==> c == d,
{
    assert(0 <= c as int <= 0x10FFFF);
    assert(c as u32 == c as int);
    assert(d as u32 == d as int);
}

/// Moves may be played from the position: its game goes on.
pub open spec fn can_move(p: RlPosn) -> bool {
    p.res == Outcome::Cont
}

/// The position was played from another.
pub open spec fn can_undo(p: RlPosn) -> bool {
    p.last is From
}

/// What `key` does at position `p` with the marks `m`: `hjkl` move left,
/// down, up and right and `.` waits while the game goes on; `-` undoes a
/// move; `m` marks; `'` goes to a mark where there is one; `q` quits.
pub open spec fn spec_key_action(p: RlPosn, m: Marks, key: char) -> KeyAction {
    if can_move(p) && key == 'h' {
        KeyAction::Play(Cmd::Move(Dir::Left))
    } else if can_move(p) && key == 'j' {
        KeyAction::Play(Cmd::Move(Dir::Down))
    } else if can_move(p) && key == 'k' {
        KeyAction::Play(Cmd::Move(Dir::Up))
    } else if can_move(p) && key == 'l' {
        KeyAction::Play(Cmd::Move(Dir::Right))
    } else if can_move(p) && key == '.' {
        KeyAction::Play(Cmd::Wait)
    } else if can_undo(p) && key == '-' {
        KeyAction::Undo
    } else if key == 'm' {
        KeyAction::Mark
    } else if m.key_seq().len() > 0 && key == '\'' {
        KeyAction::Travel
    } else if key == 'q' {
        KeyAction::Quit
    } else {
        KeyAction::Bell
    }
}

/// What a key does at a position.
pub fn key_action(p: &RlPosn, m: &Marks, key: char) -> (r: KeyAction)
    requires
        m.wf(),
    ensures
        r == spec_key_action(*p, *m, key),
{
    let movep = p.res == Outcome::Cont;
    let undop = match p.last {
        Hist::From(_, _) => true,
        Hist::Initial => false,
    };
    let travp = !m.is_empty();
    if movep && key == 'h' {
        KeyAction::Play(Cmd::Move(Dir::Left))
    } else if movep && key == 'j' {
        KeyAction::Play(Cmd::Move(Dir::Down))
    } else if movep && key == 'k' {
        KeyAction::Play(Cmd::Move(Dir::Up))
    } else if movep && key == 'l' {
        KeyAction::Play(Cmd::Move(Dir::Right))
    } else if movep && key == '.' {
        KeyAction::Play(Cmd::Wait)
    } else if undop && key == '-' {
        KeyAction::Undo
    } else if key == 'm' {
        KeyAction::Mark
    } else if travp && key == '\'' {
        KeyAction::Travel
    } else if key == 'q' {
        KeyAction::Quit
    } else {
        KeyAction::Bell
    }
}

/// The prompt's list of keys: `hjkl.` where moves may be played, `-` where
/// a move can be undone, `'` where a mark exists, then `mq`.
pub open spec fn spec_prompt_keys(p: RlPosn, m: Marks) -> Seq<char> {
    (if can_move(p) {
        seq!['h', 'j', 'k', 'l', '.']
    } else {
        Seq::empty()
    }) + (if can_undo(p) {
        seq!['-']
    } else {
        Seq::empty()
    }) + (if m.key_seq().len() > 0 {
        seq!['\'']
    } else {
        Seq::empty()
    }) + seq!['m', 'q']
}

/// The keys that do something at a position, as the prompt lists them.
pub fn prompt_keys(p: &RlPosn, m: &Marks) -> (r: Vec<char>)
    requires
        m.wf(),
    ensures
        r@ == spec_prompt_keys(*p, *m),
{
    let mut r: Vec<char> = Vec::new();
    if p.res == Outcome::Cont {
        r.push('h');
        r.push('j');
        r.push('k');
        r.push('l');
        r.push('.');
    }
    match p.last {
        Hist::From(_, _) => {
            r.push('-');
        },
        Hist::Initial => {},
    }
    if !m.is_empty() {
        r.push('\'');
    }
    r.push('m');
    r.push('q');
    assert(r@ =~= spec_prompt_keys(*p, *m));
    r
}

} // verus!
