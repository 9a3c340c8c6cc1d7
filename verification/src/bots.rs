//! The search bots' shared bookkeeping and their move choices: the best
//! position so far, the weights of the five commands, and the choice of a
//! command by a random impulse.
use vstd::prelude::*;
use rand::rngs::StdRng;
use crate::geom::{spec_step, Dir};
use crate::random::{gen_range_u64, random_index};
use crate::space::Space;
use crate::state::{
    char_of_cmd, is_next, spec_char_of_cmd, spec_outcome, spec_score, spec_useful, step, Cmd,
    Outcome, Score, State,
};

verus! {

/// The bag size where none is given.
pub const DFL_BAGLEN: usize = 100;

/// The most turns in one link of the evolving bot's chain.
pub const LINKMAX: usize = 5;

/// The most links in one chain of the evolving bot.
pub const CHAINMAX: usize = 3;

/// A position of a search: a game, how its last turn ended, the commands
/// that led to it (oldest first) and its score.
#[derive(Debug)]
pub struct Posn {
    pub state: State,
    pub outcome: Outcome,
    pub trail: Vec<Cmd>,
    pub score: Score,
}

/// A search's record of its best position.
#[derive(Debug)]
pub struct Shell {
    pub best: Posn,
}

/// What the score counts of an outcome: an unfinished game counts as
/// abandoned.
pub open spec fn outcome_opt(o: Outcome) -> Option<Outcome> {
    match o {
        Outcome::Cont => None,
        r => Some(r),
    }
}

impl Posn {
    /// The two positions are the same.
    pub open spec fn same(&self, o: Posn) -> bool {
        &&& self.state.same(o.state)
        &&& self.outcome == o.outcome
        &&& self.trail@ == o.trail@
        &&& self.score == o.score
    }

    /// The commands that led here, as command characters, oldest first.
    pub fn to_str(&self) -> (r: Vec<char>)
        ensures
            r@ == Seq::new(self.trail@.len(), |i: int| spec_char_of_cmd(self.trail@[i])),
    {
        let n = self.trail.len();
        let mut r: Vec<char> = Vec::new();
        let mut i: usize = 0;
        while i < n
            invariant
                n == self.trail@.len(),
                i <= n,
                r@ == Seq::new(i as nat, |j: int| spec_char_of_cmd(self.trail@[j])),
            decreases n - i,
        {
            r.push(char_of_cmd(self.trail[i]));
            i = i + 1;
            assert(r@ =~= Seq::new(i as nat, |j: int| spec_char_of_cmd(self.trail@[j])));
        }
        r
    }

    /// The last command, or waiting where there is none.
    pub fn head(&self) -> (c: Cmd)
        ensures
            c == (if self.trail@.len() > 0 {
                self.trail@.last()
            } else {
                Cmd::Wait
            }),
    {
        if self.trail.len() > 0 {
            self.trail[self.trail.len() - 1]
        } else {
            Cmd::Wait
        }
    }

    /// A second handle on the same position.
    pub fn duplicate(&self) -> (r: Posn)
        ensures
            r.same(*self),
            self.state.wf() ==> r.state.wf(),
    {
        let trail = self.trail.clone();
        assert(trail@ =~= self.trail@);
        Posn { state: self.state.duplicate(), outcome: self.outcome, trail, score: self.score }
    }
}

/// The start of a search: the game unplayed, with no commands and score 0,
/// which is also the best so far.
pub fn start(state: State) -> (r: (Shell, Posn))
    requires
        state.time == 0,
    ensures
        r.1.state == state,
        r.1.outcome == Outcome::Cont,
        r.1.trail@.len() == 0,
        r.1.score == 0,
        r.0.best.same(r.1),
{
    let posn = Posn { state, outcome: Outcome::Cont, trail: Vec::new(), score: 0 };
    let best = posn.duplicate();
    (Shell { best }, posn)
}

impl Shell {
    /// Plays `cmd` from `posn`, scores the result, and keeps it as the best
    /// where it scores more than the best so far.
    pub fn step(&mut self, posn: &Posn, cmd: Cmd) -> (r: Posn)
        requires
            posn.state.wf(),
            posn.state.step_ready(cmd),
        ensures
            is_next(posn.state, cmd, r.state),
            r.outcome == spec_outcome(posn.state, cmd),
            r.trail@ == posn.trail@.push(cmd),
            r.score == spec_score(r.state, outcome_opt(r.outcome)),
            r.score > old(self).best.score ==> final(self).best.same(r),
            r.score <= old(self).best.score ==> final(self).best == old(self).best,
            final(self).best.score >= old(self).best.score,
    {
        let (res, state) = step(&posn.state, cmd);
        let opt = match res {
            Outcome::Cont => None,
            r => Some(r),
        };
        let score = state.score(opt);
        let mut trail = posn.trail.clone();
        assert(trail@ =~= posn.trail@);
        trail.push(cmd);
        let retv = Posn { state, outcome: res, trail, score };
        if score > self.best.score {
            self.best = retv.duplicate();
        }
        retv
    }

    /// Plays `cmd` from `posn` as `step` does, unless a stopping signal was
    /// caught: then the search stops, and the best position stays as it was.
    pub fn try_step(&mut self, posn: &Posn, cmd: Cmd, caught: bool) -> (r: Result<Posn, Stop>)
        requires
            !caught ==> posn.state.wf() && posn.state.step_ready(cmd),
        ensures
            caught <==> r is Err,
            caught ==> r == Err::<Posn, Stop>(Stop::Timeout) && final(self).best == old(self).best,
            r matches Ok(p) ==> {
                &&& is_next(posn.state, cmd, p.state)
                &&& p.outcome == spec_outcome(posn.state, cmd)
                &&& p.trail@ == posn.trail@.push(cmd)
                &&& p.score == spec_score(p.state, outcome_opt(p.outcome))
                &&& p.score > old(self).best.score ==> final(self).best.same(p)
                &&& p.score <= old(self).best.score ==> final(self).best == old(self).best
            },
            final(self).best.score >= old(self).best.score,
    {
        if caught {
            Err(Stop::Timeout)
        } else {
            Ok(self.step(posn, cmd))
        }
    }
}

/// Why a search stopped.
#[derive(Clone, Copy, PartialEq, Eq, Structural, Debug)]
pub enum Stop {
    /// An interrupt or an alarm arrived.
    Timeout,
}

/// How many copies of a chain's position the evolving bot keeps, after one
/// more turn of the chain: none once the game has ended (the chain stops),
/// one more where the turn collected a lambda.
pub fn evo_replicate(outcome: Outcome, collected: bool, replicate: usize) -> (r: Option<usize>)
    requires
        replicate < usize::MAX,
    ensures
        r == (if outcome != Outcome::Cont {
            None
        } else if collected {
            Some((replicate + 1) as usize)
        } else {
            Some(replicate)
        }),
{
    if outcome != Outcome::Cont {
        None
    } else if collected {
        Some(replicate + 1)
    } else {
        Some(replicate)
    }
}

/// Where no command is of any use from the position at `chosen`, the bots
/// put a copy of the first position in its place.
pub fn restart_slot(bag: &mut Vec<Posn>, chosen: usize)
    requires
        chosen < old(bag)@.len(),
    ensures
        final(bag)@.len() == old(bag)@.len(),
        final(bag)@[chosen as int].same(old(bag)@[0]),
        forall|i: int| 0 <= i < old(bag)@.len() && i != chosen ==> #[trigger] final(bag)@[i] == old(bag)@[i],
{
    let first = bag[0].duplicate();
    bag.set(chosen, first);
}

/// The two commands move in opposite directions.
pub open spec fn spec_opposed(c0: Cmd, c1: Cmd) -> bool {
    match (c0, c1) {
        (Cmd::Move(Dir::Left), Cmd::Move(Dir::Right)) => true,
        (Cmd::Move(Dir::Right), Cmd::Move(Dir::Left)) => true,
        (Cmd::Move(Dir::Up), Cmd::Move(Dir::Down)) => true,
        (Cmd::Move(Dir::Down), Cmd::Move(Dir::Up)) => true,
        _ => false,
    }
}

/// Whether the two commands move in opposite directions.
pub fn opposed(c0: Cmd, c1: Cmd) -> (b: bool)
    ensures
        b == spec_opposed(c0, c1),
{
    match (c0, c1) {
        (Cmd::Move(Dir::Left), Cmd::Move(Dir::Right)) => true,
        (Cmd::Move(Dir::Right), Cmd::Move(Dir::Left)) => true,
        (Cmd::Move(Dir::Up), Cmd::Move(Dir::Down)) => true,
        (Cmd::Move(Dir::Down), Cmd::Move(Dir::Up)) => true,
        _ => false,
    }
}

/// Opposition is symmetric, and no command opposes itself.
pub proof fn lemma_opposed_symmetric(c0: Cmd, c1: Cmd)
    ensures
        spec_opposed(c0, c1) == spec_opposed(c1, c0),
        !spec_opposed(c0, c0),
{
}

/// The five commands, in the order that the bots weigh them.
pub open spec fn spec_cmds() -> Seq<Cmd> {
    seq![
        Cmd::Move(Dir::Left),
        Cmd::Move(Dir::Right),
        Cmd::Move(Dir::Up),
        Cmd::Move(Dir::Down),
        Cmd::Wait,
    ]
}

pub fn cmds() -> (r: Vec<Cmd>)
    ensures
        r@ == spec_cmds(),
{
    let r = vec![
        Cmd::Move(Dir::Left),
        Cmd::Move(Dir::Right),
        Cmd::Move(Dir::Up),
        Cmd::Move(Dir::Down),
        Cmd::Wait,
    ];
    assert(r@ =~= spec_cmds());
    r
}

/// The weight that the evolving bot gives a command after `head`: none where
/// it is useless; 1 where it undoes `head` and no lambda was just collected;
/// 5 for waiting; 35 for repeating `head`; 10 otherwise; nine times that for
/// a move onto a lambda.
pub open spec fn evo_weight(s: State, head: Cmd, cmd: Cmd) -> int {
    let w: int = if !spec_useful(s, cmd) {
        0
    } else if spec_opposed(cmd, head) && !s.collected {
        1
    } else if cmd == Cmd::Wait {
        5
    } else if cmd == head {
        35
    } else {
        10
    };
    match cmd {
        Cmd::Move(d) => if s.cell(spec_step(s.rloc, d)) == Space::Lambda {
            w * 9
        } else {
            w
        },
        Cmd::Wait => w,
    }
}

/// The evolving bot's weights of the five commands.
pub fn evo_weights(s: &State, head: Cmd) -> (r: Vec<u32>)
    requires
        s.wf(),
    ensures
        r@.len() == 5,
        forall|i: int| 0 <= i < 5 ==> #[trigger] r@[i] == evo_weight(*s, head, spec_cmds()[i]),
{
    let cs = cmds();
    let mut r: Vec<u32> = Vec::new();
    let mut i: usize = 0;
    while i < 5
        invariant
            s.wf(),
            cs@ == spec_cmds(),
            i <= 5,
            r@.len() == i,
            forall|j: int| 0 <= j < i ==> #[trigger] r@[j] == evo_weight(*s, head, spec_cmds()[j]),
        decreases 5 - i,
    {
        let cmd = cs[i];
        let weight: u32 = if !s.useful(cmd) {
            0
        } else if opposed(cmd, head) && !s.collected {
            1
        } else if cmd == Cmd::Wait {
            5
        } else if cmd == head {
            35
        } else {
            10
        };
        let weight: u32 = match cmd {
            Cmd::Move(dir) => {
                if s.mine.get(s.rloc.step(dir)) == Space::Lambda {
                    weight * 9
                } else {
                    weight
                }
            },
            Cmd::Wait => weight,
        };
        r.push(weight);
        i = i + 1;
    }
    r
}

/// The random bot's weights of the five commands: 1 where useful, else 0.
pub fn rand_weights(s: &State) -> (r: Vec<u32>)
    requires
        s.wf(),
    ensures
        r@.len() == 5,
        forall|i: int|
            0 <= i < 5 ==> #[trigger] r@[i] == (if spec_useful(*s, spec_cmds()[i]) {
                1u32
            } else {
                0u32
            }),
{
    let cs = cmds();
    let mut r: Vec<u32> = Vec::new();
    let mut i: usize = 0;
    while i < 5
        invariant
            s.wf(),
            cs@ == spec_cmds(),
            i <= 5,
            r@.len() == i,
            forall|j: int|
                0 <= j < i ==> #[trigger] r@[j] == (if spec_useful(*s, spec_cmds()[j]) {
                    1u32
                } else {
                    0u32
                }),
        decreases 5 - i,
    {
        let weight: u32 = if s.useful(cs[i]) {
            1
        } else {
            0
        };
        r.push(weight);
        i = i + 1;
    }
    r
}

/// The sum of the first `n` weights.
pub open spec fn prefix_sum(w: Seq<u32>, n: int) -> int
    decreases n,
{
    if n <= 0 {
        0
    } else {
        prefix_sum(w, n - 1) + w[n - 1]
    }
}

/// The sum of the weights.
pub fn total_weight(w: &Vec<u32>) -> (t: u64)
    requires
        w@.len() <= 5,
    ensures
        t == prefix_sum(w@, w@.len() as int),
{
    let n = w.len();
    let mut t: u64 = 0;
    let mut i: usize = 0;
    while i < n
        invariant
            n == w@.len() <= 5,
            i <= n,
            t == prefix_sum(w@, i as int),
            t <= i * 0xFFFF_FFFF,
        decreases n - i,
    {
        t = t + w[i] as u64;
        i = i + 1;
    }
    t
}

/// The index of the command that an impulse picks: the first whose weight
/// takes the running sum of weights past the impulse; `None` where the
/// impulse is at least the total.
pub fn pick(w: &Vec<u32>, impulse: u64) -> (r: Option<usize>)
    ensures
        r matches Some(i) ==> i < w@.len() && prefix_sum(w@, i as int) <= impulse < prefix_sum(
            w@,
            i + 1,
        ) && w@[i as int] > 0,
        r is None ==> impulse >= prefix_sum(w@, w@.len() as int),
{
    let n = w.len();
    let mut imp: u64 = impulse;
    let mut i: usize = 0;
    while i < n
        invariant
            n == w@.len(),
            i <= n,
            prefix_sum(w@, i as int) <= impulse,
            imp == impulse - prefix_sum(w@, i as int),
        decreases n - i,
    {
        if imp < w[i] as u64 {
            return Some(i);
        }
        imp = imp - w[i] as u64;
        i = i + 1;
    }
    None
}

/// The command that an impulse below the total weight picks.
pub fn pick_cmd(w: &Vec<u32>, impulse: u64) -> (r: Option<Cmd>)
    requires
        w@.len() == 5,
    ensures
        r matches Some(c) ==> exists|i: int|
            0 <= i < 5 && #[trigger] spec_cmds()[i] == c && prefix_sum(w@, i) <= impulse
                < prefix_sum(w@, i + 1) && w@[i] > 0,
        r is None <==> impulse >= prefix_sum(w@, 5),
{
    let cs = cmds();
    match pick(w, impulse) {
        Some(i) => {
            assert(spec_cmds()[i as int] == cs@[i as int]);
            proof {
                lemma_prefix_sum_mono(w@, i + 1, 5);
            }
            Some(cs[i])
        },
        None => None,
    }
}

/// The prefix sums of weights do not fall.
pub proof fn lemma_prefix_sum_mono(w: Seq<u32>, i: int, j: int)
    requires
        0 <= i <= j <= w.len(),
    ensures
        prefix_sum(w, i) <= prefix_sum(w, j),
    decreases j - i,
{
    if i < j {
        lemma_prefix_sum_mono(w, i, j - 1);
    }
}

/// Adds a position to a bag of at most `bagsize + 1`: appended while there
/// is room, else put in place of the one at `slot`.
pub fn bag_add<T>(bag: &mut Vec<T>, item: T, bagsize: usize, slot: usize)
    requires
        old(bag)@.len() >= 1,
        old(bag)@.len() - 1 >= bagsize ==> 1 <= slot < old(bag)@.len(),
    ensures
        old(bag)@.len() - 1 < bagsize ==> final(bag)@ == old(bag)@.push(item),
        old(bag)@.len() - 1 >= bagsize ==> final(bag)@ == old(bag)@.update(slot as int, item),
{
    if bag.len() - 1 < bagsize {
        bag.push(item);
    } else {
        bag.set(slot, item);
    }
}

/// Draws a command with probability in proportion to its weight; `None`
/// where every weight is 0.
pub fn choose_cmd(rng: &mut StdRng, w: &Vec<u32>) -> (r: Option<Cmd>)
    requires
        w@.len() == 5,
    ensures
        r is None <==> prefix_sum(w@, 5) == 0,
        r matches Some(c) ==> exists|i: int|
            0 <= i < 5 && #[trigger] spec_cmds()[i] == c && w@[i] > 0,
{
    let tl = total_weight(w);
    if tl == 0 {
        return None;
    }
    let impulse = gen_range_u64(rng, 0, tl);
    pick_cmd(w, impulse)
}

/// The slot that a draw `c` picks from a bag of `bag_len` positions: `c`, or
/// the first slot where `c` is past the end.
pub open spec fn evo_slot_of(c: int, bag_len: int) -> int {
    if c >= bag_len {
        0
    } else {
        c
    }
}

/// The evolving bot's draw of a position from its bag: a random slot below
/// `bagsize`, or the first slot where that one is past the end of the bag.
pub fn evo_slot(rng: &mut StdRng, bagsize: usize, bag_len: usize) -> (r: usize)
    requires
        bagsize >= 1,
        bag_len >= 1,
    ensures
        r < bag_len,
        exists|c: int| 0 <= c < bagsize && r == #[trigger] evo_slot_of(c, bag_len as int),
{
    let chosen = random_index(rng, bagsize);
    assert(evo_slot_of(chosen as int, bag_len as int) == (if chosen >= bag_len { 0int } else { chosen as int }));
    if chosen >= bag_len {
        0
    } else {
        chosen
    }
}

/// Adds a position to a bag of at most `bagsize + 1`: appended while there
/// is room, else put in place of a random one other than the first.
pub fn bag_add_random<T>(rng: &mut StdRng, bag: &mut Vec<T>, item: T, bagsize: usize)
    requires
        old(bag)@.len() >= 1,
        old(bag)@.len() >= 2 || bagsize >= 1,
    ensures
        old(bag)@.len() - 1 < bagsize ==> final(bag)@ == old(bag)@.push(item),
        old(bag)@.len() - 1 >= bagsize ==> exists|slot: int|
            1 <= slot < old(bag)@.len() && final(bag)@ == old(bag)@.update(slot, item),
{
    let n = bag.len();
    if n - 1 < bagsize {
        bag_add(bag, item, bagsize, 0);
    } else {
        let slot = gen_range_u64(rng, 1, n as u64) as usize;
        bag_add(bag, item, bagsize, slot);
    }
}

/// Right after a lambda is collected, the evolving bot weighs a useful move
/// other than the last one at 10, or 90 onto a lambda, whether or not it goes
/// back the way the robot came; without a lambda, going back weighs 1, or 9
/// onto a lambda.
pub proof fn lemma_evo_weight_back(s: State, head: Cmd, d: Dir)
    requires
        spec_useful(s, Cmd::Move(d)),
        Cmd::Move(d) != head,
    ensures
        s.collected ==> evo_weight(s, head, Cmd::Move(d)) == (if s.cell(spec_step(s.rloc, d))
            == Space::Lambda {
            90int
        } else {
            10int
        }),
        !s.collected && spec_opposed(Cmd::Move(d), head) ==> evo_weight(s, head, Cmd::Move(d)) == (
        if s.cell(spec_step(s.rloc, d)) == Space::Lambda {
            9int
        } else {
            1int
        }),
{
}

} // verus!
