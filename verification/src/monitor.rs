//! The yard itself: board, registry of containers, lane counters and cranes,
//! with the operations that change them.

use vstd::prelude::*;
use crate::container::Container;
use crate::crane::Crane;
use crate::crane::CraneView;
use crate::grid::cell_index;
use crate::grid::lemma_cell_index;
use crate::grid::lemma_cell_split;
use crate::grid::lemma_cell_unique;
use crate::input::lemma_every_id_arrives;
use crate::input::slot_of;
use crate::input::Input;
use crate::invariants::lemma_arrival_registered;
use crate::invariants::lemma_drain_counts;
use crate::invariants::lemma_drain_keeps_wf;
use crate::invariants::lemma_first_free_is_free_cell;
use crate::invariants::lemma_fresh_wf;
use crate::invariants::lemma_place_keeps_wf;
use crate::invariants::lemma_relocate_keeps_wf;
use crate::yard::row_rank;
use crate::yard::YardView;

verus! {

/// The yard: an `n` by `n` board between `n` inbound and `n` outbound
/// lanes, the containers, and the cranes. Its model is [`YardView`]; the
/// operations that move containers expect and keep `self@.wf()`.
pub struct Monitor {
    pub n: usize,
    /// Every container, indexed by id.
    pub containers: Vec<Container>,
    /// The arrival matrix, row-major by inbound lane and arrival rank.
    pub in_orders: Vec<usize>,
    /// Per inbound lane, the number of containers already put on the board.
    pub in_cnt: Vec<usize>,
    /// Per outbound lane, the number of containers already gone.
    pub out_cnt: Vec<usize>,
    /// Per cell, the id of the container on it, or `n * n`.
    pub board: Vec<usize>,
    pub cranes: Vec<Crane>,
}

impl View for Monitor {
    type V = YardView;

    open spec fn view(&self) -> YardView {
        YardView {
            n: self.n as nat,
            containers: self.containers@,
            arrivals: self.in_orders@,
            in_cnt: self.in_cnt@,
            out_cnt: self.out_cnt@,
            board: self.board@,
            cranes: Seq::new(self.cranes@.len(), |i: int| self.cranes@[i]@),
        }
    }
}

/// Row `r` occurs in the list `rows`.
spec fn lists(rows: Seq<usize>, r: int) -> bool {
    exists|b: int| 0 <= b < rows.len() && rows[b] == r
}

/// Row `r` has no empty storage cell.
spec fn row_full(y: YardView, r: int) -> bool {
    forall|j: int| !y.free_at(r, j)
}

impl Monitor {
    /// Sets up the yard of a valid input: nothing has arrived yet, the board
    /// is empty, and crane `i` waits at the inbound end of row `i`.
    pub fn new(input: Input) -> (m: Monitor)
        requires
            input.valid(),
        ensures
            m@ == YardView::fresh(input.n as nat, input.a@),
            m@.wf(),
    {
        let n = input.n;
        let cells = input.a.len();
        let ghost a = input.a@;
        proof {
            assert(n <= n * n) by (nonlinear_arith)
                requires
                    n >= 1,
            ;
        }
        // slots[id] is the place of container `id` in the arrival matrix.
        let mut slots: Vec<usize> = vec![0; cells];
        let mut k: usize = 0;
        while k < cells
            invariant
                k <= cells,
                cells == n * n,
                n == input.n,
                a == input.a@,
                input.valid(),
                slots.len() == cells,
                forall|j: int| 0 <= j < k ==> slots[#[trigger] a[j] as int] == j,
            decreases cells - k,
        {
            let id = input.a[k];
            slots[id] = k;
            k += 1;
        }
        let mut containers: Vec<Container> = Vec::new();
        let mut id: usize = 0;
        while id < cells
            invariant
                id <= cells,
                cells == n * n,
                n == input.n,
                a == input.a@,
                input.valid(),
                slots.len() == cells,
                forall|j: int| 0 <= j < cells ==> slots[#[trigger] a[j] as int] == j,
                containers.len() == id,
                forall|d: int|
                    0 <= d < id ==> #[trigger] containers[d] == YardView::fresh(
                        n as nat,
                        a,
                    ).containers[d],
            decreases cells - id,
        {
            proof {
                lemma_every_id_arrives(n as nat, a, id as int);
                assert(slots[a[slot_of(a, id as int)] as int] == slot_of(a, id as int));
            }
            let slot = slots[id];
            containers.push(Container::new(n, id, slot / n, slot % n));
            id += 1;
        }
        let in_orders = input.a;
        let in_cnt: Vec<usize> = vec![0; n];
        let out_cnt: Vec<usize> = vec![0; n];
        let board: Vec<usize> = vec![cells; cells];

        let mut cranes: Vec<Crane> = Vec::new();
        let mut in_i: usize = 0;
        while in_i < n
            invariant
                in_i <= n,
                cranes.len() == in_i,
                forall|i: int| 0 <= i < in_i ==> (#[trigger] cranes[i])@ == CraneView::fresh(i as nat),
            decreases n - in_i,
        {
            cranes.push(Crane::new(in_i));
            in_i += 1;
        }

        let m = Monitor { n, containers, in_orders, in_cnt, out_cnt, board, cranes };
        proof {
            let goal = YardView::fresh(n as nat, a);
            assert(m@.containers =~= goal.containers);
            assert(m@.in_cnt =~= goal.in_cnt);
            assert(m@.out_cnt =~= goal.out_cnt);
            assert(m@.board =~= goal.board);
            assert(m@.cranes =~= goal.cranes);
            assert(m@ == goal);
            lemma_fresh_wf(n as nat, a);
        }
        m
    }

    /// The container with id `ai`.
    pub fn get_container_id(&self, ai: usize) -> (c: &Container)
        requires
            ai < self@.containers.len(),
        ensures
            *c == self@.containers[ai as int],
    {
        &self.containers[ai]
    }

    /// The container that leaves at rank `out_j` of outbound lane `out_i`.
    pub fn get_container(&self, out_i: usize, out_j: usize) -> (c: &Container)
        requires
            self@.shaped(),
            out_i < self.n,
            out_j < self.n,
        ensures
            *c == self@.containers[cell_index(self.n as int, out_i as int, out_j as int)],
    {
        proof {
            lemma_cell_index(self.n as int, out_i as int, out_j as int);
        }
        self.get_container_id(out_i * self.n + out_j)
    }

    /// The content of cell `(i, j)`: a container id, or `n * n` for an empty
    /// cell.
    pub fn get_board(&self, i: usize, j: usize) -> (ai: usize)
        requires
            self@.shaped(),
            i < self.n,
            j < self.n,
        ensures
            ai == self@.at(i as int, j as int),
    {
        proof {
            lemma_cell_index(self.n as int, i as int, j as int);
        }
        self.board[i * self.n + j]
    }

    /// Records container `ai` on cell `pos`, in the board and in the
    /// registry. What stood on the cell before is overwritten.
    pub fn set_board(&mut self, ai: usize, pos: (usize, usize))
        requires
            old(self)@.shaped(),
            ai < old(self)@.cells(),
            pos.0 < old(self).n,
            pos.1 < old(self).n,
        ensures
            final(self)@ == old(self)@.put(ai as int, pos.0 as int, pos.1 as int),
            final(self)@.shaped(),
    {
        proof {
            lemma_cell_index(self.n as int, pos.0 as int, pos.1 as int);
        }
        let cell = pos.0 * self.n + pos.1;
        self.board[cell] = ai;
        self.containers[ai].pos_i = pos.0;
        self.containers[ai].pos_j = pos.1;
        self.containers[ai].is_board = true;
        self.containers[ai].is_in = false;
        self.containers[ai].is_out = false;
        proof {
            let goal = old(self)@.put(ai as int, pos.0 as int, pos.1 as int);
            assert(self@.containers =~= goal.containers);
            assert(self@.board =~= goal.board);
            assert(self@.cranes =~= goal.cranes);
            assert(self@ == goal);
            assert forall|id: int| 0 <= id < goal.cells() implies goal.registered(
                #[trigger] goal.containers[id],
                id,
            ) by {
                assert(old(self)@.registered(old(self)@.containers[id], id));
            }
        }
    }

    /// Records container `ai` as gone through the outbound lane of row
    /// `out_pos.0`, and marks cell `out_pos` empty.
    pub fn set_out(&mut self, ai: usize, out_pos: (usize, usize))
        requires
            old(self)@.shaped(),
            ai < old(self)@.cells(),
            out_pos.0 < old(self).n,
            out_pos.1 < old(self).n,
            old(self)@.out_cnt[out_pos.0 as int] < old(self).n,
        ensures
            final(self)@ == old(self)@.sent_out(ai as int, out_pos.0 as int, out_pos.1 as int),
            final(self)@.shaped(),
    {
        proof {
            lemma_cell_index(self.n as int, out_pos.0 as int, out_pos.1 as int);
        }
        let cell = out_pos.0 * self.n + out_pos.1;
        self.board[cell] = self.n * self.n;
        self.containers[ai].pos_i = self.n;
        self.containers[ai].pos_j = self.n;
        self.containers[ai].is_board = false;
        self.containers[ai].is_in = false;
        self.containers[ai].is_out = true;
        self.out_cnt[out_pos.0] += 1;
        proof {
            let goal = old(self)@.sent_out(ai as int, out_pos.0 as int, out_pos.1 as int);
            assert(self@.containers =~= goal.containers);
            assert(self@.board =~= goal.board);
            assert(self@.out_cnt =~= goal.out_cnt);
            assert(self@.cranes =~= goal.cranes);
            assert(self@ == goal);
            assert forall|id: int| 0 <= id < goal.cells() implies goal.registered(
                #[trigger] goal.containers[id],
                id,
            ) by {
                assert(old(self)@.registered(old(self)@.containers[id], id));
            }
        }
    }

    /// Tells whether cell `(i, j)` holds a container.
    pub fn is_board(&self, i: usize, j: usize) -> (occupied: bool)
        requires
            self@.shaped(),
            i < self.n,
            j < self.n,
        ensures
            occupied == (self@.at(i as int, j as int) < self@.cells()),
    {
        proof {
            lemma_cell_index(self.n as int, i as int, j as int);
        }
        let mut ret = false;
        if self.board[i * self.n + j] < self.n * self.n {
            ret = true;
        }
        ret
    }

    /// Marks cell `pos` empty on the board. The registry is left alone.
    pub fn remove_board(&mut self, pos: (usize, usize))
        requires
            old(self)@.shaped(),
            pos.0 < old(self).n,
            pos.1 < old(self).n,
        ensures
            final(self)@ == old(self)@.lifted(pos.0 as int, pos.1 as int),
            final(self)@.shaped(),
    {
        proof {
            lemma_cell_index(self.n as int, pos.0 as int, pos.1 as int);
        }
        let cell = pos.0 * self.n + pos.1;
        self.board[cell] = self.n * self.n;
        proof {
            let goal = old(self)@.lifted(pos.0 as int, pos.1 as int);
            assert(self@.board =~= goal.board);
            assert(self@.cranes =~= goal.cranes);
            assert(self@ == goal);
        }
    }

    /// The container that arrives at rank `in_j` of inbound lane `in_i`.
    pub fn get_container_from_in(&self, in_i: usize, in_j: usize) -> (c: &Container)
        requires
            self@.shaped(),
            in_i < self.n,
            in_j < self.n,
        ensures
            *c == self@.containers[self@.arrivals[cell_index(
                self.n as int,
                in_i as int,
                in_j as int,
            )] as int],
    {
        proof {
            lemma_cell_index(self.n as int, in_i as int, in_j as int);
        }
        self.get_container_id(self.in_orders[in_i * self.n + in_j])
    }

    /// Tells whether outbound lane `out_i` has released all its containers.
    pub fn is_done(&self, out_i: usize) -> (done: bool)
        requires
            out_i < self@.out_cnt.len(),
        ensures
            done == self@.done(out_i as int),
    {
        if self.out_cnt[out_i] == self.n {
            return true
        }
        false
    }

    /// The number of containers that have left through outbound lane
    /// `out_i`.
    pub fn get_out_cnt(&self, out_i: usize) -> (cnt: usize)
        requires
            out_i < self@.out_cnt.len(),
        ensures
            cnt == self@.out_cnt[out_i as int],
    {
        self.out_cnt[out_i]
    }

    /// Has the working crane carry container `ai` from its cell to the
    /// empty cell `pos`, and records the move in board and registry.
    pub fn relocate(&mut self, ai: usize, pos: (usize, usize))
        requires
            old(self)@.wf(),
            old(self)@.can_relocate(ai as int, pos.0 as int, pos.1 as int),
        ensures
            final(self)@ == old(self)@.after_relocate(ai as int, pos.0 as int, pos.1 as int),
            final(self)@.wf(),
    {
        proof {
            assert(old(self)@.accounted(old(self)@.containers[ai as int], ai as int));
        }
        let start = self.get_container_id(ai).get_pos();
        self.cranes[0].move_to(start);
        self.cranes[0].hold();
        self.cranes[0].move_to(pos);
        self.cranes[0].set();

        self.remove_board(start);
        self.set_board(ai, pos);
        proof {
            let goal = old(self)@.after_relocate(ai as int, pos.0 as int, pos.1 as int);
            assert(self@.containers =~= goal.containers);
            assert(self@.board =~= goal.board);
            assert(self@.cranes =~= goal.cranes);
            assert(self@ == goal);
            lemma_relocate_keeps_wf(old(self)@, ai as int, pos.0 as int, pos.1 as int);
        }
    }

    /// Has the working crane carry container `ai` to the frontier cell of
    /// its outbound lane.
    pub fn out(&mut self, ai: usize)
        requires
            old(self)@.wf(),
            ai < old(self)@.cells(),
            old(self)@.can_relocate(
                ai as int,
                old(self)@.containers[ai as int].out_i as int,
                old(self).n - 1,
            ),
        ensures
            final(self)@ == old(self)@.after_relocate(
                ai as int,
                old(self)@.containers[ai as int].out_i as int,
                old(self).n - 1,
            ),
            final(self)@.wf(),
    {
        proof {
            assert(old(self)@.registered(old(self)@.containers[ai as int], ai as int));
        }
        let out_pos = self.get_container_id(ai).get_out_pos();
        self.relocate(ai, out_pos);
    }

    /// Arrivals: every inbound lane whose frontier cell is empty and that
    /// has containers left puts its next container on that cell.
    pub fn place_at_inbound(&mut self)
        requires
            old(self)@.wf(),
        ensures
            final(self)@ == old(self)@.after_place(),
            final(self)@.wf(),
    {
        let ghost before = self@;
        let ghost after = self@.after_place();
        let mut in_i: usize = 0;
        while in_i < self.n
            invariant
                in_i <= self.n,
                before == old(self)@,
                after == before.after_place(),
                before.wf(),
                self@.shaped(),
                self@.n == before.n,
                self@.arrivals == before.arrivals,
                self@.out_cnt == before.out_cnt,
                self@.cranes == before.cranes,
                forall|i: int|
                    0 <= i < self.n ==> #[trigger] self@.in_cnt[i] == (if i < in_i {
                        after.in_cnt[i]
                    } else {
                        before.in_cnt[i]
                    }),
                forall|k: int|
                    0 <= k < before.cells() ==> #[trigger] self@.board[k] == (if k / (self.n as int)
                        < in_i {
                        after.board[k]
                    } else {
                        before.board[k]
                    }),
                forall|id: int|
                    0 <= id < before.cells() ==> #[trigger] self@.containers[id] == (if before.containers[id].in_i
                        < in_i {
                        after.containers[id]
                    } else {
                        before.containers[id]
                    }),
            decreases self.n - in_i,
        {
            let ghost n = self.n as int;
            let ghost lane = in_i as int;
            let ghost mid = self@;
            proof {
                lemma_cell_index(n, lane, 0);
            }
            if !self.is_board(in_i, 0) && self.in_cnt[in_i] < self.n {
                let in_cnt = self.in_cnt[in_i];
                let ai = self.get_container_from_in(in_i, in_cnt).id;
                proof {
                    lemma_arrival_registered(before, lane, in_cnt as int);
                    assert(before.registered(before.containers[ai as int], ai as int));
                }
                self.set_board(ai, (in_i, 0));
                self.in_cnt[in_i] += 1;
                proof {
                    assert(self@.cranes =~= before.cranes);
                    assert forall|id: int| 0 <= id < self@.cells() implies self@.registered(
                        #[trigger] self@.containers[id],
                        id,
                    ) by {
                        assert(before.registered(before.containers[id], id));
                    }
                }
            }
            proof {
                assert forall|k: int| 0 <= k < before.cells() implies #[trigger] self@.board[k] == (if k
                    / n < in_i + 1 {
                    after.board[k]
                } else {
                    before.board[k]
                }) by {
                    lemma_cell_split(n, k);
                }
                assert forall|id: int| 0 <= id < before.cells() implies #[trigger] self@.containers[id]
                    == (if before.containers[id].in_i < in_i + 1 {
                    after.containers[id]
                } else {
                    before.containers[id]
                }) by {
                    let c = before.containers[id];
                    assert(before.registered(c, id));
                    if c.in_i == lane && before.arriving(c) {
                        lemma_arrival_registered(before, lane, before.in_cnt[lane] as int);
                    }
                }
            }
            in_i += 1;
        }
        proof {
            assert(self@.in_cnt =~= after.in_cnt);
            assert forall|k: int| 0 <= k < before.cells() implies self@.board[k] == after.board[k] by {
                lemma_cell_split(self.n as int, k);
            }
            assert(self@.board =~= after.board);
            assert forall|id: int| 0 <= id < before.cells() implies self@.containers[id]
                == after.containers[id] by {
                assert(before.registered(before.containers[id], id));
            }
            assert(self@.containers =~= after.containers);
            assert(self@ == after);
            lemma_place_keeps_wf(before);
        }
    }

    /// Departures: every container on an outbound frontier cell leaves.
    pub fn drain_outbound(&mut self)
        requires
            old(self)@.wf(),
        ensures
            final(self)@ == old(self)@.after_drain(),
            final(self)@.wf(),
    {
        let ghost before = self@;
        let ghost after = self@.after_drain();
        let mut out_i: usize = 0;
        while out_i < self.n
            invariant
                out_i <= self.n,
                before == old(self)@,
                after == before.after_drain(),
                before.wf(),
                self@.shaped(),
                self@.n == before.n,
                self@.arrivals == before.arrivals,
                self@.in_cnt == before.in_cnt,
                self@.cranes == before.cranes,
                forall|i: int|
                    0 <= i < self.n ==> #[trigger] self@.out_cnt[i] == (if i < out_i {
                        after.out_cnt[i]
                    } else {
                        before.out_cnt[i]
                    }),
                forall|k: int|
                    0 <= k < before.cells() ==> #[trigger] self@.board[k] == (if k / (self.n as int)
                        < out_i {
                        after.board[k]
                    } else {
                        before.board[k]
                    }),
                forall|id: int|
                    0 <= id < before.cells() ==> #[trigger] self@.containers[id] == (if before.containers[id].pos_i
                        < out_i {
                        after.containers[id]
                    } else {
                        before.containers[id]
                    }),
            decreases self.n - out_i,
        {
            let ghost n = self.n as int;
            let ghost lane = out_i as int;
            proof {
                lemma_cell_index(n, lane, n - 1);
                lemma_drain_counts(before, lane);
            }
            if self.is_board(out_i, self.n - 1) {
                let ai = self.get_board(out_i, self.n - 1);
                proof {
                    let c = before.containers[ai as int];
                    assert(before.accounted(c, ai as int));
                    lemma_cell_unique(n, lane, n - 1, c.pos_i as int, c.pos_j as int);
                }
                self.set_out(ai, (out_i, self.n - 1));
                proof {
                    assert(self@.cranes =~= before.cranes);
                }
            }
            proof {
                assert forall|k: int| 0 <= k < before.cells() implies #[trigger] self@.board[k] == (if k
                    / n < out_i + 1 {
                    after.board[k]
                } else {
                    before.board[k]
                }) by {
                    lemma_cell_split(n, k);
                }
                assert forall|id: int| 0 <= id < before.cells() implies #[trigger] self@.containers[id]
                    == (if before.containers[id].pos_i < out_i + 1 {
                    after.containers[id]
                } else {
                    before.containers[id]
                }) by {
                    let c = before.containers[id];
                    assert(before.accounted(c, id));
                    if c.is_board {
                        lemma_cell_index(n, c.pos_i as int, c.pos_j as int);
                    }
                }
            }
            out_i += 1;
        }
        proof {
            assert(self@.out_cnt =~= after.out_cnt);
            assert forall|k: int| 0 <= k < before.cells() implies self@.board[k] == after.board[k] by {
                lemma_cell_split(self.n as int, k);
            }
            assert(self@.board =~= after.board);
            assert forall|id: int| 0 <= id < before.cells() implies self@.containers[id]
                == after.containers[id] by {
                assert(before.accounted(before.containers[id], id));
            }
            assert(self@.containers =~= after.containers);
            assert(self@ == after);
            lemma_drain_keeps_wf(before);
        }
    }

    /// One turn of the yard: arrivals, then departures.
    pub fn turn(&mut self)
        requires
            old(self)@.wf(),
        ensures
            final(self)@ == old(self)@.after_turn(),
            final(self)@.wf(),
    {
        self.place_at_inbound();
        self.drain_outbound();
    }

    /// Estimate of the relocations that outbound lane `out_i` still needs:
    /// for each of its containers that has not arrived yet, the number of
    /// arrivals in front of it on its inbound lane beyond the one due next.
    pub fn move_cnt(&self, out_i: usize) -> (cnt: usize)
        requires
            self@.shaped(),
            out_i < self.n,
        ensures
            cnt == self@.pending(out_i as int),
    {
        let ghost n = self.n as int;
        let mut cnt: usize = 0;
        let mut out_j: usize = 0;
        while out_j < self.n
            invariant
                out_j <= self.n,
                n == self.n,
                self@.shaped(),
                out_i < self.n,
                cnt == self@.pending_upto(out_i as int, out_j as nat),
                cnt <= out_j * n,
            decreases self.n - out_j,
        {
            proof {
                lemma_cell_index(n, out_i as int, out_j as int);
                let id = cell_index(n, out_i as int, out_j as int);
                assert(self@.registered(self@.containers[id], id));
                assert((out_j + 1) * n == out_j * n + n) by (nonlinear_arith);
                assert((out_j + 1) * n <= n * n) by (nonlinear_arith)
                    requires
                        0 <= out_j < n,
                ;
            }
            let container = self.get_container(out_i, out_j);
            if container.is_in {
                let in_i = container.in_i;
                let in_j = container.in_j;
                let in_cnt = self.in_cnt[in_i];
                if in_j > in_cnt {
                    cnt += in_j - in_cnt;
                }
            }
            out_j += 1;
        }
        cnt
    }

    /// Looks for an empty storage cell to park a container that is bound
    /// for outbound lane `out_i`: rows are tried in the order `out_i`,
    /// `out_i + 1`, `out_i - 1`, `out_i + 2`, ..., and within a row the
    /// columns from `n - 2` down to 1. Returns the first empty cell met, and
    /// `(0, 0)`, which is no storage cell, when every storage cell is taken.
    pub fn free_space(&self, out_i: usize) -> (pos: (usize, usize))
        requires
            self@.shaped(),
            out_i < self.n,
        ensures
            self@.has_free() ==> self@.first_free(out_i as int, pos.0 as int, pos.1 as int),
            !self@.has_free() ==> pos == (0usize, 0usize),
            (pos.0 as int, pos.1 as int) == self@.free_cell(out_i as int),
    {
        let ghost n = self.n as int;
        let ghost near = out_i as int;
        proof {
            assert(n == 1 || 2 * n <= n * n) by (nonlinear_arith)
                requires
                    n >= 1,
            ;
        }
        let mut target_i: Vec<usize> = vec![out_i];
        let mut i: usize = 1;
        while i < self.n
            invariant
                1 <= i,
                i <= self.n || self.n == 1,
                n == self.n,
                near == out_i,
                out_i < self.n,
                2 * n <= usize::MAX || n == 1,
                target_i.len() >= 1,
                forall|b: int|
                    0 <= b < target_i.len() ==> (#[trigger] target_i[b]) < n && row_rank(
                        near,
                        target_i[b] as int,
                    ) < 2 * i,
                forall|b: int, c: int|
                    0 <= b < c < target_i.len() ==> row_rank(near, #[trigger] target_i[b] as int)
                        < row_rank(near, #[trigger] target_i[c] as int),
                forall|r: int|
                    0 <= r < n && row_rank(near, r) < 2 * i ==> #[trigger] lists(target_i@, r),
            decreases self.n - i,
        {
            let ghost rows = target_i@;
            if out_i + i < self.n {
                target_i.push(out_i + i);
            }
            let ghost rows_mid = target_i@;
            if out_i >= i {
                target_i.push(out_i - i);
            }
            proof {
                assert forall|r: int|
                    0 <= r < n && row_rank(near, r) < 2 * (i + 1) implies #[trigger] lists(
                    target_i@,
                    r,
                ) by {
                    if row_rank(near, r) < 2 * i {
                        assert(lists(rows, r));
                        let b = choose|b: int| 0 <= b < rows.len() && rows[b] == r;
                        assert(target_i[b] == r);
                    } else if r == near + i {
                        assert(target_i[rows.len() as int] == r);
                    } else {
                        assert(r == near - i);
                        assert(target_i[rows_mid.len() as int] == r);
                    }
                }
            }
            i += 1;
        }
        let mut idx: usize = 0;
        while idx < target_i.len()
            invariant
                idx <= target_i.len(),
                n == self.n,
                near == out_i,
                self@.shaped(),
                forall|b: int| 0 <= b < target_i.len() ==> (#[trigger] target_i[b]) < n,
                forall|b: int, c: int|
                    0 <= b < c < target_i.len() ==> row_rank(near, #[trigger] target_i[b] as int)
                        < row_rank(near, #[trigger] target_i[c] as int),
                forall|r: int| 0 <= r < n ==> #[trigger] lists(target_i@, r),
                forall|b: int| 0 <= b < idx ==> row_full(self@, #[trigger] target_i[b] as int),
            decreases target_i.len() - idx,
        {
            let row = target_i[idx];
            if self.n >= 3 {
                let mut j: usize = self.n - 2;
                while j >= 1
                    invariant
                        j <= self.n - 2,
                        self.n >= 3,
                        n == self.n,
                        near == out_i,
                        self@.shaped(),
                        idx < target_i.len(),
                        row == target_i[idx as int],
                        row < n,
                        forall|b: int| 0 <= b < target_i.len() ==> (#[trigger] target_i[b]) < n,
                        forall|b: int, c: int|
                            0 <= b < c < target_i.len() ==> row_rank(
                                near,
                                #[trigger] target_i[b] as int,
                            ) < row_rank(near, #[trigger] target_i[c] as int),
                        forall|r: int| 0 <= r < n ==> #[trigger] lists(target_i@, r),
                        forall|b: int|
                            0 <= b < idx ==> row_full(self@, #[trigger] target_i[b] as int),
                        forall|j2: int| j < j2 ==> !self@.free_at(row as int, j2),
                    decreases j,
                {
                    let ai = self.get_board(row, j);
                    if ai >= self.n * self.n {
                        proof {
                            let y = self@;
                            assert(y.free_at(row as int, j as int));
                            assert forall|i2: int, j2: int| #[trigger]
                                y.free_at(i2, j2) && !(i2 == row && j2 == j) implies row_rank(
                                near,
                                row as int,
                            ) < row_rank(near, i2) || (row == i2 && j > j2) by {
                                assert(lists(target_i@, i2));
                                let b = choose|b: int|
                                    0 <= b < target_i.len() && target_i[b] == i2;
                                if b < idx {
                                    assert(row_full(y, target_i[b] as int));
                                } else if b > idx {
                                    assert(row_rank(near, target_i[idx as int] as int) < row_rank(
                                        near,
                                        target_i[b] as int,
                                    ));
                                }
                            }
                            assert(y.first_free(near, row as int, j as int));
                            lemma_first_free_is_free_cell(y, near, row as int, j as int);
                        }
                        return (row, j);
                    }
                    j -= 1;
                }
            }
            assert(row_full(self@, row as int));
            idx += 1;
        }
        proof {
            let y = self@;
            assert forall|i2: int, j2: int| !y.free_at(i2, j2) by {
                if 0 <= i2 < n {
                    assert(lists(target_i@, i2));
                    let b = choose|b: int| 0 <= b < target_i.len() && target_i[b] == i2;
                    assert(row_full(y, target_i[b] as int));
                }
            }
        }
        (0, 0)
    }
}

} // verus!
