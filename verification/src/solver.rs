//! The greedy scheduler: lane by lane, it clears what stands in the way of
//! the lane's next container and sends that container out.

use vstd::prelude::*;
use vstd::string::StrSliceExecFns;
use crate::grid::cell_index;
use crate::grid::lemma_cell_index;
use crate::grid::lemma_cell_split;
use crate::input::valid_arrivals;
use crate::input::Input;
use crate::monitor::Monitor;
use crate::schedule::after_rounds;
use crate::schedule::delivered;
use crate::schedule::lane_drained;
use crate::schedule::lemma_all_done_all_departed;
use crate::schedule::lemma_fresh_orderly;
use crate::schedule::lemma_open_lanes_bound;
use crate::schedule::lemma_outbound_cells_empty;
use crate::schedule::lemma_pending_bound;
use crate::schedule::lemma_pick_none;
use crate::schedule::lemma_pick_unique;
use crate::schedule::lemma_quiet_turn;
use crate::schedule::lemma_relocate_orderly;
use crate::schedule::lemma_retire_keeps_settled;
use crate::schedule::lemma_turn_releases;
use crate::schedule::lemma_turn_settles;
use crate::schedule::lemma_turn_surfaces;
use crate::schedule::parked;
use crate::schedule::scheduled;
use crate::schedule::Run;
use crate::yard::YardView;

verus! {

/// The schedule had to park a container and found every storage cell taken.
#[derive(Debug, Clone, Copy, PartialEq, Eq, Structural)]
pub struct NoFreeStorage {
    /// The container that stands on its inbound frontier cell and could not
    /// be parked.
    pub container: usize,
}

/// What a schedule function returns for a run of the schedule.
pub open spec fn outcome(r: Run) -> Result<(), NoFreeStorage> {
    match r.stuck {
        None => Ok(()),
        Some(id) => Err(NoFreeStorage { container: id }),
    }
}

/// The yard of a run that got stuck is consistent and has no empty storage
/// cell.
pub open spec fn stuck_for_want_of_storage(y: YardView, res: Result<(), NoFreeStorage>) -> bool {
    res is Err ==> y.wf() && !y.has_free()
}

/// The scheduler together with the yard it works on.
pub struct Solver {
    pub n: usize,
    pub monitor: Monitor,
}

impl Solver {
    /// Nothing has happened yet in this solver's yard.
    pub open spec fn fresh(&self) -> bool {
        &&& self.n == self.monitor.n
        &&& self.n * self.n <= usize::MAX
        &&& valid_arrivals(self.n as nat, self.monitor@.arrivals)
        &&& self.monitor@ == YardView::fresh(self.n as nat, self.monitor@.arrivals)
    }

    /// The solver's yard is settled.
    pub open spec fn settled(&self) -> bool {
        self.n == self.monitor.n && self.monitor@.settled()
    }

    /// A solver for the yard of a valid input, with nothing done yet.
    pub fn new(input: Input) -> (s: Solver)
        requires
            input.valid(),
        ensures
            s.n == input.n,
            s.monitor@ == YardView::fresh(input.n as nat, input.a@),
            s.fresh(),
    {
        let n = input.n;
        let monitor = Monitor::new(input);

        Solver { n, monitor }
    }

    /// Picks the lane to drain next: among the outbound lanes that are not
    /// done, the one that needs the fewest relocations, and of several such
    /// the first. `None` when every lane is done.
    pub fn select_lane(&self) -> (picked: Option<usize>)
        requires
            self.n == self.monitor.n,
            self.monitor@.shaped(),
        ensures
            match picked {
                Some(lane) => self.monitor@.is_pick(lane as int),
                None => forall|l: int| 0 <= l < self.n ==> self.monitor@.done(l),
            },
            match picked {
                Some(lane) => self.monitor@.pick() == Some(lane as int),
                None => self.monitor@.pick() is None,
            },
    {
        let n = self.n;
        let ghost y = self.monitor@;
        let mut min_move: usize = n * n;
        let mut min_move_i: usize = n;
        let mut out_i: usize = 0;
        while out_i < n
            invariant
                out_i <= n,
                n == self.n,
                n == self.monitor.n,
                y == self.monitor@,
                y.shaped(),
                min_move_i <= n,
                min_move_i == n ==> min_move == n * n && forall|l: int|
                    0 <= l < out_i ==> y.done(l),
                min_move_i < n ==> {
                    &&& min_move_i < out_i
                    &&& !y.done(min_move_i as int)
                    &&& min_move == y.pending(min_move_i as int)
                    &&& forall|l: int|
                        0 <= l < out_i && !#[trigger] y.done(l) ==> y.pending(min_move_i as int)
                            <= y.pending(l) && (l < min_move_i ==> y.pending(min_move_i as int)
                            < y.pending(l))
                },
            decreases n - out_i,
        {
            if !self.monitor.is_done(out_i) {
                let move_cnt = self.monitor.move_cnt(out_i);
                proof {
                    lemma_pending_bound(y, out_i as int, n as nat);
                }
                if min_move > move_cnt {
                    min_move = move_cnt;
                    min_move_i = out_i;
                }
            }
            out_i += 1;
        }
        if min_move_i == n {
            proof {
                lemma_pick_none(y);
            }
            None
        } else {
            proof {
                lemma_pick_unique(y, min_move_i as int);
            }
            Some(min_move_i)
        }
    }

    /// Releases container `out_ai`, the next one due at its outbound lane:
    /// parks every container that arrives in front of it on its inbound
    /// lane, then carries it to its outbound frontier cell, with the turns
    /// of the yard in between.
    fn deliver(&mut self, out_ai: usize) -> (res: Result<(), NoFreeStorage>)
        requires
            old(self).settled(),
            out_ai < old(self).monitor@.cells(),
            old(self).monitor@.containers[out_ai as int].out_j == old(self).monitor@.out_cnt[old(
                self,
            ).monitor@.containers[out_ai as int].out_i as int],
        ensures
            final(self).n == old(self).n,
            final(self).monitor@.n == old(self).monitor@.n,
            final(self).monitor@ == delivered(old(self).monitor@, out_ai as int).yard,
            res == outcome(delivered(old(self).monitor@, out_ai as int)),
            stuck_for_want_of_storage(final(self).monitor@, res),
            res is Ok ==> final(self).settled() && final(self).monitor@.out_cnt == old(
                self,
            ).monitor@.out_cnt.update(
                old(self).monitor@.containers[out_ai as int].out_i as int,
                (old(self).monitor@.containers[out_ai as int].out_j + 1) as usize,
            ),
    {
        let ghost init = self.monitor@;
        let ghost n = self.n as int;
        let target = *self.monitor.get_container_id(out_ai);
        let in_i = target.in_i;
        let out_in_j = target.in_j;
        proof {
            assert(init.registered(target, out_ai as int));
            assert(init.accounted(target, out_ai as int));
            lemma_cell_split(n, out_ai as int);
            lemma_cell_index(n, in_i as int, out_in_j as int);
        }
        let in_cnt = self.monitor.in_cnt[in_i];
        let ghost from = in_cnt - 1;
        let mut in_j: usize = in_cnt - 1;
        while in_j < out_in_j
            invariant
                self.n == n,
                old(self).n == n,
                self.monitor.n == n,
                init == old(self).monitor@,
                init.settled(),
                target == init.containers[out_ai as int],
                out_ai < init.cells(),
                in_i == target.in_i,
                out_in_j == target.in_j,
                0 <= in_i < n,
                0 <= out_in_j < n,
                from == init.in_cnt[in_i as int] - 1,
                from <= in_j,
                self.monitor@.n == init.n,
                self.monitor@.arrivals == init.arrivals,
                self.monitor@.out_cnt == init.out_cnt,
                self.monitor@.calm(),
                (in_j == from && self.monitor@ == init) || (n >= 2 && in_j <= out_in_j
                    && self.monitor@.in_cnt[in_i as int] == in_j && self.monitor@.at(in_i as int, 0)
                    >= init.cells()),
                parked(self.monitor@, in_i as int, in_j as int, out_in_j as int) == parked(
                    init,
                    in_i as int,
                    from,
                    out_in_j as int,
                ),
            decreases out_in_j - in_j,
        {
            let ghost cur = self.monitor@;
            proof {
                lemma_turn_settles(cur);
                lemma_quiet_turn(cur);
                lemma_turn_surfaces(cur, in_i as int, in_j as int);
                lemma_cell_index(n, in_i as int, in_j as int);
            }
            self.monitor.turn();
            let ghost turned = self.monitor@;
            let container = self.monitor.get_container_from_in(in_i, in_j);
            let ai = container.id;
            let out_i = container.out_i;
            proof {
                assert(turned.registered(turned.containers[ai as int], ai as int));
                assert(cur.registered(cur.containers[ai as int], ai as int));
                lemma_cell_split(n, ai as int);
            }
            let pos = self.monitor.free_space(out_i);
            if pos.1 == 0 {
                return Err(NoFreeStorage { container: ai });
            }
            proof {
                lemma_relocate_orderly(turned, ai as int, pos.0 as int, pos.1 as int);
            }
            self.monitor.relocate(ai, pos);
            in_j += 1;
        }
        let ghost cur = self.monitor@;
        proof {
            lemma_turn_settles(cur);
            if in_j == from && cur == init {
                assert(target.is_board);
                assert(n >= 2);
                lemma_quiet_turn(cur);
            } else {
                lemma_quiet_turn(cur);
                lemma_turn_surfaces(cur, in_i as int, out_in_j as int);
            }
        }
        self.monitor.turn();
        let ghost turned = self.monitor@;
        proof {
            assert(turned.containers[out_ai as int].is_board);
            assert(turned.registered(turned.containers[out_ai as int], out_ai as int));
            lemma_outbound_cells_empty(turned, target.out_i as int);
            lemma_relocate_orderly(turned, out_ai as int, target.out_i as int, n - 1);
        }
        self.monitor.out(out_ai);
        let ghost sent = self.monitor@;
        proof {
            assert forall|d: int| 0 <= d < sent.cells() && d != out_ai implies ({
                let c = #[trigger] sent.containers[d];
                c.is_board ==> c.pos_j != sent.n - 1
            }) by {
                let c = turned.containers[d];
            }
            lemma_turn_releases(sent, out_ai as int);
            lemma_turn_settles(sent);
        }
        self.monitor.turn();
        Ok(())
    }

    /// Releases the containers of outbound lane `lane` that have not left
    /// yet, in rank order.
    fn drain_lane(&mut self, lane: usize) -> (res: Result<(), NoFreeStorage>)
        requires
            old(self).settled(),
            lane < old(self).n,
        ensures
            final(self).n == old(self).n,
            final(self).monitor@.n == old(self).monitor@.n,
            final(self).monitor@ == lane_drained(
                old(self).monitor@,
                lane as int,
                (old(self).n - old(self).monitor@.out_cnt[lane as int]) as nat,
            ).yard,
            res == outcome(
                lane_drained(
                    old(self).monitor@,
                    lane as int,
                    (old(self).n - old(self).monitor@.out_cnt[lane as int]) as nat,
                ),
            ),
            stuck_for_want_of_storage(final(self).monitor@, res),
            res is Ok ==> final(self).settled() && final(self).monitor@.out_cnt == old(
                self,
            ).monitor@.out_cnt.update(lane as int, old(self).n),
    {
        let ghost init = self.monitor@;
        let ghost n = self.n as int;
        let out_cnt = self.monitor.get_out_cnt(lane);
        let mut out_j: usize = out_cnt;
        while out_j < self.n
            invariant
                self.n == n,
                old(self).n == n,
                init == old(self).monitor@,
                init.shaped(),
                init.n == n,
                lane < n,
                out_cnt == init.out_cnt[lane as int],
                out_cnt <= out_j <= n,
                self.settled(),
                self.monitor@.out_cnt == init.out_cnt.update(lane as int, out_j),
                lane_drained(self.monitor@, lane as int, (n - out_j) as nat) == lane_drained(
                    init,
                    lane as int,
                    (n - out_cnt) as nat,
                ),
            decreases self.n - out_j,
        {
            let ghost cur = self.monitor@;
            proof {
                lemma_cell_index(n, lane as int, out_j as int);
                let id = cell_index(n, lane as int, out_j as int);
                assert(cur.registered(cur.containers[id], id));
            }
            let out_ai = self.monitor.get_container(lane, out_j).id;
            let res = self.deliver(out_ai);
            if res.is_err() {
                return res;
            }
            proof {
                assert(self.monitor@.out_cnt =~= init.out_cnt.update(lane as int, (out_j + 1) as usize));
            }
            out_j += 1;
        }
        Ok(())
    }

    /// Runs the whole schedule on a fresh yard.
    ///
    /// One turn brings the first containers in, and every crane but the
    /// first is retired. Then, once per outbound lane, the lane that needs
    /// the fewest relocations is picked and drained. The schedule stops with
    /// an error as soon as a container has to be parked and no storage cell
    /// is empty; when it does not stop, every container has left the yard.
    pub fn solve(&mut self) -> (res: Result<(), NoFreeStorage>)
        requires
            old(self).fresh(),
        ensures
            final(self).n == old(self).n,
            final(self).monitor@ == scheduled(old(self).monitor@).yard,
            res == outcome(scheduled(old(self).monitor@)),
            final(self).monitor@.wf(),
            res is Ok ==> final(self).monitor@.all_departed(),
            res is Err ==> !final(self).monitor@.has_free(),
    {
        let n = self.n;
        let ghost init = self.monitor@;
        proof {
            lemma_fresh_orderly(n as nat, init.arrivals);
            lemma_turn_settles(init);
        }
        self.monitor.turn();
        let ghost turned = self.monitor@;

        let mut i: usize = 1;
        while i < n
            invariant
                1 <= i,
                i <= n || n == 0,
                n == self.n,
                n == old(self).n,
                n == self.monitor.n,
                turned.n == n,
                self.monitor.cranes@.len() == n,
                turned.cranes.len() == n,
                self.monitor@.containers == turned.containers,
                self.monitor@.arrivals == turned.arrivals,
                self.monitor@.in_cnt == turned.in_cnt,
                self.monitor@.out_cnt == turned.out_cnt,
                self.monitor@.board == turned.board,
                forall|r: int|
                    0 <= r < n ==> #[trigger] self.monitor@.cranes[r] == (if 1 <= r < i {
                        turned.cranes[r].retire()
                    } else {
                        turned.cranes[r]
                    }),
            decreases n - i,
        {
            let ghost before = self.monitor@;
            self.monitor.cranes[i].bomb();
            proof {
                assert forall|r: int| 0 <= r < n implies #[trigger] self.monitor@.cranes[r] == (if 1
                    <= r < i + 1 {
                    turned.cranes[r].retire()
                } else {
                    turned.cranes[r]
                }) by {
                    assert(before.cranes[r] == (if 1 <= r < i {
                        turned.cranes[r].retire()
                    } else {
                        turned.cranes[r]
                    }));
                }
            }
            i += 1;
        }
        let ghost start = self.monitor@;
        proof {
            assert(start.cranes =~= turned.with_retired().cranes);
            assert(start == turned.with_retired());
            lemma_retire_keeps_settled(turned);
            lemma_open_lanes_bound(start);
        }

        let mut round: usize = 0;
        while round < n
            invariant
                round <= n,
                n == self.n,
                n == old(self).n,
                init == old(self).monitor@,
                start == init.after_turn().with_retired(),
                start.n == n,
                self.settled(),
                self.monitor@.open_lanes().finite(),
                self.monitor@.open_lanes().len() <= n - round,
                after_rounds(self.monitor@, (n - round) as nat) == after_rounds(start, n as nat),
            decreases n - round,
        {
            let ghost cur = self.monitor@;
            match self.select_lane() {
                None => {
                    proof {
                        lemma_pick_none(cur);
                    }
                },
                Some(lane) => {
                    let res = self.drain_lane(lane);
                    if res.is_err() {
                        return res;
                    }
                    proof {
                        let next = self.monitor@;
                        assert(cur.open_lanes().contains(lane as int));
                        assert(next.open_lanes() =~= cur.open_lanes().remove(lane as int));
                    }
                },
            }
            round += 1;
        }
        proof {
            let last = self.monitor@;
            assert forall|l: int| 0 <= l < last.n implies last.done(l) by {
                if !last.done(l) {
                    assert(last.open_lanes().contains(l));
                    assert(last.open_lanes().remove(l).len() == last.open_lanes().len() - 1);
                }
            }
            lemma_all_done_all_departed(last);
        }
        Ok(())
    }

    /// The length of the longest command string among the cranes, in
    /// letters; 0 when there is no crane.
    pub fn score(&self) -> (best: usize)
        ensures
            forall|i: int|
                0 <= i < self.monitor@.cranes.len() ==> (#[trigger] self.monitor@.cranes[i]).commands.len()
                    <= best,
            self.monitor@.cranes.len() == 0 ==> best == 0,
            self.monitor@.cranes.len() > 0 ==> exists|i: int|
                0 <= i < self.monitor@.cranes.len() && (#[trigger] self.monitor@.cranes[i]).commands.len()
                    == best,
    {
        let mut score: usize = 0;
        let mut i: usize = 0;
        while i < self.monitor.cranes.len()
            invariant
                i <= self.monitor.cranes.len(),
                forall|r: int|
                    0 <= r < i ==> (#[trigger] self.monitor@.cranes[r]).commands.len() <= score,
                i == 0 ==> score == 0,
                i > 0 ==> exists|r: int|
                    0 <= r < i && (#[trigger] self.monitor@.cranes[r]).commands.len() == score,
            decreases self.monitor.cranes.len() - i,
        {
            let len = self.monitor.cranes[i].move_s.as_str().unicode_len();
            proof {
                assert(self.monitor@.cranes[i as int].commands.len() == len);
                if i > 0 {
                    let r = choose|r: int|
                        0 <= r < i && (#[trigger] self.monitor@.cranes[r]).commands.len() == score;
                    assert(self.monitor@.cranes[r].commands.len() == score);
                }
            }
            if len > score {
                score = len;
            }
            i += 1;
        }
        score
    }
}

} // verus!
