//! Mathematical model of the yard: the state, what makes a state
//! consistent, and the state after each kind of step.

use vstd::prelude::*;
use crate::container::Container;
use crate::crane::CraneView;
use crate::grid::cell_index;
use crate::input::slot_of;
use crate::input::valid_arrivals;

verus! {

/// The state of a yard with `n` inbound lanes, `n` outbound lanes and an
/// `n` by `n` board.
///
/// `containers` is indexed by container id. `arrivals` is the arrival matrix.
/// `in_cnt[i]` counts the containers that inbound lane `i` has put on the
/// board, `out_cnt[i]` those that have left through outbound lane `i`.
/// `board[cell_index(n, i, j)]` is the id of the container on cell `(i, j)`,
/// or `n * n` when the cell is empty. `cranes[i]` started on row `i`.
pub struct YardView {
    pub n: nat,
    pub containers: Seq<Container>,
    pub arrivals: Seq<usize>,
    pub in_cnt: Seq<usize>,
    pub out_cnt: Seq<usize>,
    pub board: Seq<usize>,
    pub cranes: Seq<CraneView>,
}

impl YardView {
    /// Number of cells, and the value that marks an empty cell.
    pub open spec fn cells(self) -> int {
        (self.n * self.n) as int
    }

    /// Content of cell `(i, j)`.
    pub open spec fn at(self, i: int, j: int) -> usize {
        self.board[cell_index(self.n as int, i, j)]
    }

    /// What never changes about container `id`: its identity, the outbound
    /// lane and rank its id stands for, and its place in the arrival matrix.
    pub open spec fn registered(self, c: Container, id: int) -> bool {
        &&& c.n == self.n
        &&& c.id == id
        &&& c.out_i == id / (self.n as int)
        &&& c.out_j == id % (self.n as int)
        &&& c.in_i < self.n
        &&& c.in_j < self.n
        &&& self.arrivals[cell_index(self.n as int, c.in_i as int, c.in_j as int)] == id
    }

    /// Sizes and ranges: every vector has its length, every id and counter
    /// is in range, and the registry agrees with the arrival matrix.
    pub open spec fn shaped(self) -> bool {
        &&& self.n >= 1
        &&& self.cells() <= usize::MAX
        &&& valid_arrivals(self.n, self.arrivals)
        &&& self.containers.len() == self.cells()
        &&& self.in_cnt.len() == self.n
        &&& self.out_cnt.len() == self.n
        &&& self.board.len() == self.cells()
        &&& self.cranes.len() == self.n
        &&& forall|id: int|
            0 <= id < self.cells() ==> self.registered(#[trigger] self.containers[id], id)
        &&& forall|k: int| 0 <= k < self.cells() ==> (#[trigger] self.board[k]) <= self.cells()
        &&& forall|i: int| 0 <= i < self.n ==> (#[trigger] self.in_cnt[i]) <= self.n
        &&& forall|i: int| 0 <= i < self.n ==> (#[trigger] self.out_cnt[i]) <= self.n
    }

    /// Container `id` is where the board says it is, and in the lifecycle
    /// stage that the lane counters say it is in.
    pub open spec fn accounted(self, c: Container, id: int) -> bool {
        &&& c.lifecycle_ok()
        &&& c.is_board ==> self.at(c.pos_i as int, c.pos_j as int) == id
        &&& c.is_in <==> c.in_j >= self.in_cnt[c.in_i as int]
        &&& c.is_out <==> c.out_j < self.out_cnt[c.out_i as int]
        &&& c.is_board && c.pos_j == self.n - 1 ==> c.out_i == c.pos_i && c.out_j
            == self.out_cnt[c.out_i as int]
    }

    /// The yard is consistent.
    ///
    /// Board and registry describe the same placement: a cell names at most
    /// one container, and a container stands on at most one cell. A
    /// container is waiting exactly while its arrival rank has not been
    /// reached, and gone exactly when its departure rank has been passed, so
    /// each outbound lane releases its containers in rank order. A container
    /// on an outbound frontier cell is the next one due at that lane. Every
    /// crane is where replaying its commands puts it, and the working crane
    /// carries nothing.
    pub open spec fn wf(self) -> bool {
        &&& self.shaped()
        &&& forall|id: int|
            0 <= id < self.cells() ==> self.accounted(#[trigger] self.containers[id], id)
        &&& forall|k: int|
            0 <= k < self.cells() && (#[trigger] self.board[k]) < self.cells() ==> {
                let c = self.containers[self.board[k] as int];
                c.is_board && cell_index(self.n as int, c.pos_i as int, c.pos_j as int) == k
            }
        &&& forall|i: int| 0 <= i < self.n ==> (#[trigger] self.cranes[i]).tracks(i as nat)
        &&& !self.cranes[0].holding
    }

    /// The yard before anything has happened.
    pub open spec fn fresh(n: nat, arrivals: Seq<usize>) -> YardView {
        YardView {
            n,
            containers: Seq::new(
                n * n,
                |id: int|
                    Container::waiting(
                        n as usize,
                        id as usize,
                        (slot_of(arrivals, id) / (n as int)) as usize,
                        (slot_of(arrivals, id) % (n as int)) as usize,
                    ),
            ),
            arrivals,
            in_cnt: Seq::new(n, |i: int| 0usize),
            out_cnt: Seq::new(n, |i: int| 0usize),
            board: Seq::new(n * n, |k: int| (n * n) as usize),
            cranes: Seq::new(n, |i: int| CraneView::fresh(i as nat)),
        }
    }

    /// Inbound lane `i` puts its next container on the board this turn: its
    /// frontier cell is empty and it has containers left.
    pub open spec fn arrives(self, i: int) -> bool {
        self.at(i, 0) >= self.cells() && self.in_cnt[i] < self.n
    }

    /// Container `c` is the one that inbound lane `c.in_i` puts on the board
    /// this turn.
    pub open spec fn arriving(self, c: Container) -> bool {
        c.in_j == self.in_cnt[c.in_i as int] && self.arrives(c.in_i as int)
    }

    /// The yard after every inbound lane with an empty frontier cell has put
    /// its next container there.
    pub open spec fn after_place(self) -> YardView {
        YardView {
            containers: Seq::new(
                self.containers.len(),
                |id: int|
                    {
                        let c = self.containers[id];
                        if self.arriving(c) {
                            c.placed(c.in_i, 0)
                        } else {
                            c
                        }
                    },
            ),
            in_cnt: Seq::new(
                self.in_cnt.len(),
                |i: int|
                    if self.arrives(i) {
                        (self.in_cnt[i] + 1) as usize
                    } else {
                        self.in_cnt[i]
                    },
            ),
            board: Seq::new(
                self.board.len(),
                |k: int|
                    if k % (self.n as int) == 0 && self.arrives(k / (self.n as int)) {
                        self.arrivals[k + self.in_cnt[k / (self.n as int)]]
                    } else {
                        self.board[k]
                    },
            ),
            ..self
        }
    }

    /// A container leaves through outbound lane `i` this turn: the lane's
    /// frontier cell is occupied.
    pub open spec fn departs(self, i: int) -> bool {
        self.at(i, self.n - 1) < self.cells()
    }

    /// The yard after every container on an outbound frontier cell has left.
    pub open spec fn after_drain(self) -> YardView {
        YardView {
            containers: Seq::new(
                self.containers.len(),
                |id: int|
                    {
                        let c = self.containers[id];
                        if c.is_board && c.pos_j == self.n - 1 {
                            c.departed()
                        } else {
                            c
                        }
                    },
            ),
            out_cnt: Seq::new(
                self.out_cnt.len(),
                |i: int|
                    if self.departs(i) {
                        (self.out_cnt[i] + 1) as usize
                    } else {
                        self.out_cnt[i]
                    },
            ),
            board: Seq::new(
                self.board.len(),
                |k: int|
                    if k % (self.n as int) == self.n - 1 && self.board[k] < self.cells() {
                        self.cells() as usize
                    } else {
                        self.board[k]
                    },
            ),
            ..self
        }
    }

    /// The yard one turn later: arrivals first, then departures.
    pub open spec fn after_turn(self) -> YardView {
        self.after_place().after_drain()
    }

    /// The yard with container `id` recorded on cell `(i, j)`, in the board
    /// and in the registry.
    pub open spec fn put(self, id: int, i: int, j: int) -> YardView {
        YardView {
            containers: self.containers.update(
                id,
                self.containers[id].placed(i as usize, j as usize),
            ),
            board: self.board.update(cell_index(self.n as int, i, j), id as usize),
            ..self
        }
    }

    /// The yard with cell `(i, j)` marked empty on the board.
    pub open spec fn lifted(self, i: int, j: int) -> YardView {
        YardView {
            board: self.board.update(cell_index(self.n as int, i, j), self.cells() as usize),
            ..self
        }
    }

    /// The yard with container `id` recorded as gone through the outbound
    /// lane of row `i`, and cell `(i, j)` marked empty.
    pub open spec fn sent_out(self, id: int, i: int, j: int) -> YardView {
        YardView {
            containers: self.containers.update(id, self.containers[id].departed()),
            board: self.board.update(cell_index(self.n as int, i, j), self.cells() as usize),
            out_cnt: self.out_cnt.update(i, (self.out_cnt[i] + 1) as usize),
            ..self
        }
    }

    /// Container `id` may be moved to cell `(i, j)`: it is on the board, the
    /// cell is an empty board cell, and if the cell is an outbound frontier
    /// cell, the container is the next one due at that lane.
    pub open spec fn can_relocate(self, id: int, i: int, j: int) -> bool {
        &&& 0 <= id < self.cells()
        &&& self.containers[id].is_board
        &&& 0 <= i < self.n
        &&& 0 <= j < self.n
        &&& self.at(i, j) >= self.cells()
        &&& j == self.n - 1 ==> self.containers[id].out_i == i && self.containers[id].out_j
            == self.out_cnt[i]
    }

    /// The yard after the working crane has carried container `id` from its
    /// cell to cell `(i, j)`.
    pub open spec fn after_relocate(self, id: int, i: int, j: int) -> YardView {
        let c = self.containers[id];
        YardView {
            containers: self.containers.update(id, c.placed(i as usize, j as usize)),
            board: self.board.update(
                cell_index(self.n as int, c.pos_i as int, c.pos_j as int),
                self.cells() as usize,
            ).update(cell_index(self.n as int, i, j), id as usize),
            cranes: self.cranes.update(
                0,
                self.cranes[0].carry(c.pos_i as nat, c.pos_j as nat, i as nat, j as nat),
            ),
            ..self
        }
    }

    /// Cell `(i, j)` is an empty storage cell: on the board, in neither
    /// frontier column, with no container on it.
    pub open spec fn free_at(self, i: int, j: int) -> bool {
        0 <= i < self.n && 1 <= j < self.n - 1 && self.at(i, j) >= self.cells()
    }

    /// Some storage cell is empty.
    pub open spec fn has_free(self) -> bool {
        exists|i: int, j: int| self.free_at(i, j)
    }

    /// Cell `(i, j)` is the empty storage cell that the search near row
    /// `near` looks at before any other empty storage cell.
    pub open spec fn first_free(self, near: int, i: int, j: int) -> bool {
        &&& self.free_at(i, j)
        &&& forall|i2: int, j2: int| #[trigger]
            self.free_at(i2, j2) && !(i2 == i && j2 == j) ==> searched_before(near, i, j, i2, j2)
    }

    /// The cell that the search near row `near` settles on: the first empty
    /// storage cell, or `(0, 0)` when there is none.
    pub open spec fn free_cell(self, near: int) -> (int, int) {
        if self.has_free() {
            choose|c: (int, int)| self.first_free(near, c.0, c.1)
        } else {
            (0, 0)
        }
    }

    /// How many arrivals container `id` still has in front of it on its
    /// inbound lane, beyond the one that is due next; 0 once it has arrived.
    pub open spec fn wait_of(self, id: int) -> nat {
        let c = self.containers[id];
        if c.is_in && c.in_j > self.in_cnt[c.in_i as int] {
            (c.in_j - self.in_cnt[c.in_i as int]) as nat
        } else {
            0
        }
    }

    /// Sum of `wait_of` over the first `ranks` containers of outbound lane
    /// `lane`.
    pub open spec fn pending_upto(self, lane: int, ranks: nat) -> nat
        decreases ranks,
    {
        if ranks == 0 {
            0
        } else {
            self.pending_upto(lane, (ranks - 1) as nat) + self.wait_of(
                cell_index(self.n as int, lane, ranks - 1),
            )
        }
    }

    /// Estimate of the relocations that outbound lane `lane` still needs:
    /// the sum of `wait_of` over its containers.
    pub open spec fn pending(self, lane: int) -> nat {
        self.pending_upto(lane, self.n)
    }

    /// Outbound lane `lane` has released all its containers.
    pub open spec fn done(self, lane: int) -> bool {
        self.out_cnt[lane] == self.n
    }

    /// Every container has left the yard.
    pub open spec fn all_departed(self) -> bool {
        &&& forall|i: int| 0 <= i < self.n ==> self.done(i)
        &&& forall|id: int|
            0 <= id < self.cells() ==> {
                let c = #[trigger] self.containers[id];
                c.is_out && !c.is_in && !c.is_board
            }
    }
}

/// Place of row `i` in the search order around row `near`: `near` itself,
/// then one row below, one row above, two rows below, two rows above, and so
/// on.
pub open spec fn row_rank(near: int, i: int) -> int {
    if i >= near {
        2 * (i - near)
    } else {
        2 * (near - i) + 1
    }
}

/// The search near row `near` looks at cell `(i1, j1)` before cell
/// `(i2, j2)`: rows in `row_rank` order, and within a row from the outbound
/// side towards the inbound side.
pub open spec fn searched_before(near: int, i1: int, j1: int, i2: int, j2: int) -> bool {
    row_rank(near, i1) < row_rank(near, i2) || (i1 == i2 && j1 > j2)
}

} // verus!
