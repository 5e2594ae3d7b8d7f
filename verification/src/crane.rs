//! A single crane: where it stands, whether it carries a container, and the
//! commands it has been given so far.
//!
//! Commands are letters: `U`, `D`, `L`, `R` move the crane one cell up, down,
//! left or right; `P` grabs the container under the crane, `Q` puts the held
//! container down, and `B` retires the crane for good.

use vstd::prelude::*;
use vstd::string::StringExecFns;

verus! {

/// What a crane looks like to somebody who only reads the command letters:
/// a position on the (unbounded) integer grid and the grab state.
pub struct CraneState {
    pub row: int,
    pub col: int,
    pub holding: bool,
}

/// The state a crane is in before it has received any command: at the
/// inbound end (column 0) of its home row, carrying nothing.
pub open spec fn fresh_state(home: int) -> CraneState {
    CraneState { row: home, col: 0, holding: false }
}

/// Effect of one command letter. Letters outside the alphabet, and the
/// retiring letter `B`, leave the state as it is.
pub open spec fn step_state(s: CraneState, c: char) -> CraneState {
    if c == 'U' {
        CraneState { row: s.row - 1, ..s }
    } else if c == 'D' {
        CraneState { row: s.row + 1, ..s }
    } else if c == 'L' {
        CraneState { col: s.col - 1, ..s }
    } else if c == 'R' {
        CraneState { col: s.col + 1, ..s }
    } else if c == 'P' {
        CraneState { holding: true, ..s }
    } else if c == 'Q' {
        CraneState { holding: false, ..s }
    } else {
        s
    }
}

/// Effect of a whole command string, read left to right.
pub open spec fn replay(s: CraneState, commands: Seq<char>) -> CraneState
    decreases commands.len(),
{
    if commands.len() == 0 {
        s
    } else {
        step_state(replay(s, commands.drop_last()), commands.last())
    }
}

/// `count` copies of the letter `c`.
pub open spec fn run_of(c: char, count: nat) -> Seq<char> {
    Seq::new(count, |k: int| c)
}

/// The letters that take a crane along one axis from coordinate `from` to
/// coordinate `to`: `back` letters when the target is lower, `forth` letters
/// otherwise.
pub open spec fn steps(from: nat, to: nat, back: char, forth: char) -> Seq<char> {
    if from > to {
        run_of(back, (from - to) as nat)
    } else {
        run_of(forth, (to - from) as nat)
    }
}

/// The letters that take a crane from `(from_i, from_j)` to `(to_i, to_j)`:
/// first the vertical leg, then the horizontal one.
pub open spec fn route(from_i: nat, from_j: nat, to_i: nat, to_j: nat) -> Seq<char> {
    steps(from_i, to_i, 'U', 'D') + steps(from_j, to_j, 'L', 'R')
}

/// Mathematical model of a crane.
pub struct CraneView {
    pub is_big: bool,
    pub row: nat,
    pub col: nat,
    pub holding: bool,
    pub commands: Seq<char>,
}

impl CraneView {
    /// A crane that has just been set up on row `home`.
    pub open spec fn fresh(home: nat) -> CraneView {
        CraneView { is_big: home == 0, row: home, col: 0, holding: false, commands: Seq::empty() }
    }

    /// Position and grab state, as replaying would report them.
    pub open spec fn state(self) -> CraneState {
        CraneState { row: self.row as int, col: self.col as int, holding: self.holding }
    }

    /// The crane after grabbing.
    pub open spec fn grab(self) -> CraneView {
        CraneView { holding: true, commands: self.commands.push('P'), ..self }
    }

    /// The crane after putting its load down.
    pub open spec fn release(self) -> CraneView {
        CraneView { holding: false, commands: self.commands.push('Q'), ..self }
    }

    /// The crane after being retired.
    pub open spec fn retire(self) -> CraneView {
        CraneView { commands: self.commands.push('B'), ..self }
    }

    /// The crane after travelling to `(to_i, to_j)`.
    pub open spec fn travel(self, to_i: nat, to_j: nat) -> CraneView {
        CraneView {
            row: to_i,
            col: to_j,
            commands: self.commands + route(self.row, self.col, to_i, to_j),
            ..self
        }
    }

    /// The crane after carrying a container from `(from_i, from_j)` to
    /// `(to_i, to_j)`: travel, grab, travel, release.
    pub open spec fn carry(self, from_i: nat, from_j: nat, to_i: nat, to_j: nat) -> CraneView {
        self.travel(from_i, from_j).grab().travel(to_i, to_j).release()
    }

    /// The recorded position and grab state are exactly what the recorded
    /// commands produce when replayed from a fresh crane on row `home`.
    pub open spec fn tracks(self, home: nat) -> bool {
        replay(fresh_state(home as int), self.commands) == self.state()
    }
}

/// A crane: its position, whether it holds a container, and every command
/// it has been given, as a string of command letters.
pub struct Crane {
    pub is_big: bool,
    pub pos_i: usize,
    pub pos_j: usize,
    pub hold: bool,
    pub move_s: String,
}

impl View for Crane {
    type V = CraneView;

    open spec fn view(&self) -> CraneView {
        CraneView {
            is_big: self.is_big,
            row: self.pos_i as nat,
            col: self.pos_j as nat,
            holding: self.hold,
            commands: self.move_s@,
        }
    }
}

/// Replaying `a + b` is replaying `a` and then `b`.
pub proof fn lemma_replay_concat(s: CraneState, a: Seq<char>, b: Seq<char>)
    ensures
        replay(s, a + b) == replay(replay(s, a), b),
    decreases b.len(),
{
    if b.len() == 0 {
        assert(a + b =~= a);
    } else {
        lemma_replay_concat(s, a, b.drop_last());
        assert((a + b).drop_last() =~= a + b.drop_last());
        assert((a + b).last() == b.last());
    }
}

/// Replaying one more letter is one more step.
pub proof fn lemma_replay_push(s: CraneState, a: Seq<char>, c: char)
    ensures
        replay(s, a.push(c)) == step_state(replay(s, a), c),
{
    assert(a.push(c).drop_last() =~= a);
    assert(a.push(c).last() == c);
}

/// Replaying a run of one movement letter shifts the crane by the run's
/// length along that letter's direction and changes nothing else.
pub proof fn lemma_replay_run(s: CraneState, c: char, count: nat)
    requires
        c == 'U' || c == 'D' || c == 'L' || c == 'R',
    ensures
        replay(s, run_of(c, count)) == (CraneState {
            row: if c == 'U' {
                s.row - count
            } else if c == 'D' {
                s.row + count
            } else {
                s.row
            },
            col: if c == 'L' {
                s.col - count
            } else if c == 'R' {
                s.col + count
            } else {
                s.col
            },
            holding: s.holding,
        }),
    decreases count,
{
    if count > 0 {
        lemma_replay_run(s, c, (count - 1) as nat);
        assert(run_of(c, count).drop_last() =~= run_of(c, (count - 1) as nat));
        assert(run_of(c, count).last() == c);
    }
}

/// Replaying a route from where the crane stands ends at the route's target.
pub proof fn lemma_replay_route(s: CraneState, from_i: nat, from_j: nat, to_i: nat, to_j: nat)
    requires
        s.row == from_i,
        s.col == from_j,
    ensures
        replay(s, route(from_i, from_j, to_i, to_j)) == (CraneState {
            row: to_i as int,
            col: to_j as int,
            holding: s.holding,
        }),
{
    let vertical = steps(from_i, to_i, 'U', 'D');
    let horizontal = steps(from_j, to_j, 'L', 'R');
    lemma_replay_concat(s, vertical, horizontal);
    if from_i > to_i {
        lemma_replay_run(s, 'U', (from_i - to_i) as nat);
    } else {
        lemma_replay_run(s, 'D', (to_i - from_i) as nat);
    }
    let mid = replay(s, vertical);
    if from_j > to_j {
        lemma_replay_run(mid, 'L', (from_j - to_j) as nat);
    } else {
        lemma_replay_run(mid, 'R', (to_j - from_j) as nat);
    }
}

/// Round trip: a crane that has only ever been set up and then driven
/// through `grab`, `release`, `retire` and `travel` reports the position and
/// grab state that replaying its command string on a fresh crane gives.
/// This is the step of that induction: each operation keeps `tracks`.
pub proof fn lemma_operations_keep_tracking(v: CraneView, home: nat, to_i: nat, to_j: nat)
    requires
        v.tracks(home),
    ensures
        CraneView::fresh(home).tracks(home),
        v.grab().tracks(home),
        v.release().tracks(home),
        v.retire().tracks(home),
        v.travel(to_i, to_j).tracks(home),
{
    let start = fresh_state(home as int);
    lemma_replay_push(start, v.commands, 'P');
    lemma_replay_push(start, v.commands, 'Q');
    lemma_replay_push(start, v.commands, 'B');
    lemma_replay_concat(start, v.commands, route(v.row, v.col, to_i, to_j));
    lemma_replay_route(v.state(), v.row, v.col, to_i, to_j);
}

/// Carrying a container is four tracked operations in a row, so it keeps
/// `tracks` too.
pub proof fn lemma_carry_keeps_tracking(
    v: CraneView,
    home: nat,
    from_i: nat,
    from_j: nat,
    to_i: nat,
    to_j: nat,
)
    requires
        v.tracks(home),
    ensures
        v.carry(from_i, from_j, to_i, to_j).tracks(home),
{
    let a = v.travel(from_i, from_j);
    lemma_operations_keep_tracking(v, home, from_i, from_j);
    let b = a.grab();
    lemma_operations_keep_tracking(a, home, 0, 0);
    let c = b.travel(to_i, to_j);
    lemma_operations_keep_tracking(b, home, to_i, to_j);
    lemma_operations_keep_tracking(c, home, 0, 0);
}

/// Appends `count` copies of the one-letter string `letter` to `s`.
fn append_run(s: &mut String, letter: &str, count: usize)
    requires
        letter@.len() == 1,
    ensures
        final(s)@ == old(s)@ + run_of(letter@[0], count as nat),
{
    let mut done: usize = 0;
    while done < count
        invariant
            done <= count,
            letter@.len() == 1,
            s@ == old(s)@ + run_of(letter@[0], done as nat),
        decreases count - done,
    {
        s.append(letter);
        done = done + 1;
        assert(s@ =~= old(s)@ + run_of(letter@[0], done as nat));
    }
}

impl Crane {
    /// Sets up a crane at the inbound end of row `in_i`. The crane of row 0
    /// is the big one.
    pub fn new(in_i: usize) -> (c: Crane)
        ensures
            c@ == CraneView::fresh(in_i as nat),
    {
        let is_big = in_i == 0;
        let pos_i = in_i;
        let pos_j: usize = 0;
        let hold = false;
        let move_s = String::new();

        Crane { is_big, pos_i, pos_j, hold, move_s }
    }

    /// Grabs the container under the crane.
    pub fn hold(&mut self)
        ensures
            final(self)@ == old(self)@.grab(),
    {
        self.move_s.append("P");
        self.hold = true;
        proof {
            reveal_strlit("P");
            assert(self.move_s@ =~= old(self).move_s@.push('P'));
        }
    }

    /// Puts the held container down.
    pub fn set(&mut self)
        ensures
            final(self)@ == old(self)@.release(),
    {
        self.move_s.append("Q");
        self.hold = false;
        proof {
            reveal_strlit("Q");
            assert(self.move_s@ =~= old(self).move_s@.push('Q'));
        }
    }

    /// Retires the crane.
    pub fn bomb(&mut self)
        ensures
            final(self)@ == old(self)@.retire(),
    {
        self.move_s.append("B");
        proof {
            reveal_strlit("B");
            assert(self.move_s@ =~= old(self).move_s@.push('B'));
        }
    }

    /// Drives the crane to `pos`, row first, then column.
    pub fn move_to(&mut self, pos: (usize, usize))
        ensures
            final(self)@ == old(self)@.travel(pos.0 as nat, pos.1 as nat),
    {
        proof {
            reveal_strlit("U");
            reveal_strlit("D");
            reveal_strlit("L");
            reveal_strlit("R");
        }
        if self.pos_i > pos.0 {
            append_run(&mut self.move_s, "U", self.pos_i - pos.0);
        } else {
            append_run(&mut self.move_s, "D", pos.0 - self.pos_i);
        }
        if self.pos_j > pos.1 {
            append_run(&mut self.move_s, "L", self.pos_j - pos.1);
        } else {
            append_run(&mut self.move_s, "R", pos.1 - self.pos_j);
        }
        self.pos_i = pos.0;
        self.pos_j = pos.1;
        assert(self.move_s@ =~= old(self).move_s@ + route(
            old(self).pos_i as nat,
            old(self).pos_j as nat,
            pos.0 as nat,
            pos.1 as nat,
        ));
    }
}

} // verus!
