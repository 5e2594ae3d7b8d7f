//! The greedy schedule as a function of the yard, and the facts about single
//! steps that make it work.

use vstd::prelude::*;
use vstd::set_lib::lemma_int_range;
use vstd::set_lib::lemma_len_subset;
use vstd::set_lib::set_int_range;
use crate::container::Container;
use crate::crane::lemma_operations_keep_tracking;
use crate::grid::cell_index;
use crate::grid::lemma_cell_index;
use crate::grid::lemma_cell_split;
use crate::grid::lemma_cell_unique;
use crate::input::valid_arrivals;
use crate::invariants::lemma_arrival_registered;
use crate::invariants::lemma_drain_counts;
use crate::invariants::lemma_drain_keeps_wf;
use crate::invariants::lemma_fresh_wf;
use crate::invariants::lemma_place_keeps_wf;
use crate::invariants::lemma_relocate_keeps_wf;
use crate::yard::YardView;

verus! {

/// Where a schedule has got to: the yard, and the container that could not
/// be parked because every storage cell was taken, if the schedule stopped
/// for that reason.
pub struct Run {
    pub yard: YardView,
    pub stuck: Option<usize>,
}

impl YardView {
    /// A container on an inbound frontier cell is the latest arrival of
    /// that cell's lane.
    pub open spec fn queued(self, c: Container) -> bool {
        c.is_board && c.pos_j == 0 ==> c.pos_i == c.in_i && c.in_j + 1 == self.in_cnt[c.in_i as int]
    }

    /// The yard is consistent, inbound frontier cells hold nothing but the
    /// latest arrival of their lane, and a lane that has not put anything on
    /// the board yet has an empty frontier cell.
    pub open spec fn orderly(self) -> bool {
        &&& self.wf()
        &&& forall|i: int|
            0 <= i < self.n ==> (#[trigger] self.in_cnt[i]) >= 1 || self.at(i, 0) >= self.cells()
        &&& forall|id: int| 0 <= id < self.cells() ==> self.queued(#[trigger] self.containers[id])
    }

    /// No container stands on an outbound frontier cell.
    pub open spec fn outbound_clear(self) -> bool {
        forall|id: int|
            0 <= id < self.cells() ==> {
                let c = #[trigger] self.containers[id];
                c.is_board ==> c.pos_j != self.n - 1
            }
    }

    /// Orderly, with every inbound lane started and nothing waiting to
    /// leave.
    pub open spec fn calm(self) -> bool {
        &&& self.orderly()
        &&& self.outbound_clear()
        &&& forall|i: int| 0 <= i < self.n ==> (#[trigger] self.in_cnt[i]) >= 1
    }

    /// The state right after a turn of an orderly yard: calm, and every
    /// inbound lane that has containers left shows one on its frontier cell.
    pub open spec fn settled(self) -> bool {
        &&& self.calm()
        &&& forall|i: int|
            0 <= i < self.n && (#[trigger] self.in_cnt[i]) < self.n ==> self.at(i, 0)
                < self.cells()
    }

    /// The yard with every crane but the working one retired.
    pub open spec fn with_retired(self) -> YardView {
        YardView {
            cranes: Seq::new(
                self.cranes.len(),
                |i: int|
                    if i >= 1 {
                        self.cranes[i].retire()
                    } else {
                        self.cranes[i]
                    },
            ),
            ..self
        }
    }

    /// Lane `lane` is the one to drain next: it is not done, no lane that
    /// is not done needs fewer relocations, and none before it needs as few.
    pub open spec fn is_pick(self, lane: int) -> bool {
        &&& 0 <= lane < self.n
        &&& !self.done(lane)
        &&& forall|l: int|
            0 <= l < self.n && !#[trigger] self.done(l) ==> self.pending(lane) <= self.pending(l)
                && (l < lane ==> self.pending(lane) < self.pending(l))
    }

    /// The lane to drain next, or `None` when every lane is done.
    pub open spec fn pick(self) -> Option<int> {
        if exists|lane: int| self.is_pick(lane) {
            Some(choose|lane: int| self.is_pick(lane))
        } else {
            None
        }
    }

    /// The lanes that still have containers to release.
    pub open spec fn open_lanes(self) -> Set<int> {
        Set::new(|i: int| 0 <= i < self.n && !self.done(i))
    }
}

/// Clears inbound lane `in_i` from arrival rank `from` up to, but not
/// including, rank `to`: for each rank in turn, one turn passes, and the
/// container of that rank is carried from the lane's frontier cell to the
/// first empty storage cell near its own outbound lane. Stops, after the
/// turn, at the first container for which no storage cell is empty.
pub open spec fn parked(y: YardView, in_i: int, from: int, to: int) -> Run
    decreases to - from,
{
    if from >= to {
        Run { yard: y, stuck: None }
    } else {
        let turned = y.after_turn();
        let id = y.arrivals[cell_index(y.n as int, in_i, from)];
        let near = y.containers[id as int].out_i as int;
        if !turned.has_free() {
            Run { yard: turned, stuck: Some(id) }
        } else {
            let cell = turned.free_cell(near);
            parked(turned.after_relocate(id as int, cell.0, cell.1), in_i, from + 1, to)
        }
    }
}

/// Releases container `id`: clears what arrives in front of it on its
/// inbound lane, lets a turn pass so that it is on the board, carries it to
/// its outbound frontier cell, and lets a turn pass so that it leaves.
pub open spec fn delivered(y: YardView, id: int) -> Run {
    let c = y.containers[id];
    let cleared = parked(y, c.in_i as int, y.in_cnt[c.in_i as int] - 1, c.in_j as int);
    if cleared.stuck is Some {
        cleared
    } else {
        Run {
            yard: cleared.yard.after_turn().after_relocate(
                id,
                c.out_i as int,
                y.n - 1,
            ).after_turn(),
            stuck: None,
        }
    }
}

/// Releases the last `ranks` containers of outbound lane `lane`, in rank
/// order, and stops at the first that gets stuck.
pub open spec fn lane_drained(y: YardView, lane: int, ranks: nat) -> Run
    decreases ranks,
{
    if ranks == 0 {
        Run { yard: y, stuck: None }
    } else {
        let r = delivered(y, cell_index(y.n as int, lane, y.n - ranks));
        if r.stuck is Some {
            r
        } else {
            lane_drained(r.yard, lane, (ranks - 1) as nat)
        }
    }
}

/// `rounds` rounds of the greedy schedule: each round picks a lane and
/// releases the containers that the lane has not released yet.
pub open spec fn after_rounds(y: YardView, rounds: nat) -> Run
    decreases rounds,
{
    if rounds == 0 {
        Run { yard: y, stuck: None }
    } else {
        match y.pick() {
            None => Run { yard: y, stuck: None },
            Some(lane) => {
                let r = lane_drained(y, lane, (y.n - y.out_cnt[lane]) as nat);
                if r.stuck is Some {
                    r
                } else {
                    after_rounds(r.yard, (rounds - 1) as nat)
                }
            },
        }
    }
}

/// The whole schedule: one turn to bring the first containers in, all
/// cranes but one retired, then one round per outbound lane.
pub open spec fn scheduled(y: YardView) -> Run {
    after_rounds(y.after_turn().with_retired(), y.n)
}

/// A fresh yard is orderly.
pub proof fn lemma_fresh_orderly(n: nat, arrivals: Seq<usize>)
    requires
        valid_arrivals(n, arrivals),
        n * n <= usize::MAX,
    ensures
        YardView::fresh(n, arrivals).orderly(),
{
    lemma_fresh_wf(n, arrivals);
    let y = YardView::fresh(n, arrivals);
    assert forall|i: int| 0 <= i < y.n implies y.at(i, 0) >= y.cells() by {
        lemma_cell_index(n as int, i, 0);
    }
}

/// In a consistent yard an occupied cell `(i, j)` holds a container that is
/// recorded on exactly that cell.
pub proof fn lemma_occupant(y: YardView, i: int, j: int)
    requires
        y.wf(),
        0 <= i < y.n,
        0 <= j < y.n,
        y.at(i, j) < y.cells(),
    ensures
        y.containers[y.at(i, j) as int].is_board,
        y.containers[y.at(i, j) as int].pos_i == i,
        y.containers[y.at(i, j) as int].pos_j == j,
{
    let n = y.n as int;
    lemma_cell_index(n, i, j);
    let k = cell_index(n, i, j);
    let c = y.containers[y.board[k] as int];
    assert(y.accounted(c, y.board[k] as int));
    lemma_cell_unique(n, i, j, c.pos_i as int, c.pos_j as int);
}

/// With nothing on the outbound frontier, every outbound frontier cell is
/// empty.
pub proof fn lemma_outbound_cells_empty(y: YardView, i: int)
    requires
        y.wf(),
        y.outbound_clear(),
        0 <= i < y.n,
    ensures
        y.at(i, y.n - 1) >= y.cells(),
{
    if y.at(i, y.n - 1) < y.cells() {
        lemma_occupant(y, i, y.n - 1);
    }
}

/// A turn of an orderly yard leaves it settled.
pub proof fn lemma_turn_settles(y: YardView)
    requires
        y.orderly(),
    ensures
        y.after_turn().settled(),
{
    let n = y.n as int;
    let p = y.after_place();
    let t = p.after_drain();
    lemma_place_keeps_wf(y);
    lemma_drain_keeps_wf(p);
    assert forall|i: int| 0 <= i < t.n implies (#[trigger] t.in_cnt[i]) >= 1 && (t.in_cnt[i] < t.n
        ==> t.at(i, 0) < t.cells()) by {
        lemma_cell_index(n, i, 0);
        lemma_cell_split(n, cell_index(n, i, 0));
        if y.arrives(i) {
            lemma_arrival_registered(y, i, y.in_cnt[i] as int);
        }
    }
    assert forall|id: int| 0 <= id < t.cells() implies t.queued(#[trigger] t.containers[id]) && ({
        let c = t.containers[id];
        c.is_board ==> c.pos_j != t.n - 1
    }) by {
        let c = y.containers[id];
        assert(y.queued(c));
        assert(y.registered(c, id));
        assert(y.accounted(c, id));
    }
}

/// A turn of a yard with nothing on its outbound frontier releases nothing,
/// provided the yard has more than one lane.
pub proof fn lemma_quiet_turn(y: YardView)
    requires
        y.wf(),
        y.outbound_clear(),
        y.n >= 2,
    ensures
        y.after_turn().out_cnt == y.out_cnt,
        forall|id: int|
            0 <= id < y.cells() && (#[trigger] y.containers[id]).is_board
                ==> y.after_turn().containers[id] == y.containers[id],
{
    let n = y.n as int;
    let p = y.after_place();
    let t = p.after_drain();
    lemma_place_keeps_wf(y);
    assert forall|id: int| 0 <= id < p.cells() implies ({
        let c = #[trigger] p.containers[id];
        c.is_board ==> c.pos_j != p.n - 1
    }) by {
        let c = y.containers[id];
    }
    assert(p.outbound_clear());
    assert forall|i: int| 0 <= i < n implies t.out_cnt[i] == y.out_cnt[i] by {
        lemma_outbound_cells_empty(p, i);
    }
    assert(t.out_cnt =~= y.out_cnt);
    assert forall|id: int|
        0 <= id < y.cells() && (#[trigger] y.containers[id]).is_board implies t.containers[id]
        == y.containers[id] by {
        let c = y.containers[id];
        assert(y.accounted(c, id));
        assert(p.containers[id] == c);
    }
}

/// A turn brings the container of arrival rank `rank` of inbound lane
/// `in_i` to, or leaves it on, the lane's frontier cell, when the lane is
/// either showing that container already or has an empty frontier cell and
/// that container next in line.
pub proof fn lemma_turn_surfaces(y: YardView, in_i: int, rank: int)
    requires
        y.orderly(),
        y.n >= 2,
        0 <= in_i < y.n,
        0 <= rank < y.n,
        (y.in_cnt[in_i] == rank + 1 && y.at(in_i, 0) < y.cells()) || (y.in_cnt[in_i] == rank
            && y.at(in_i, 0) >= y.cells()),
    ensures
        y.after_turn().in_cnt[in_i] == rank + 1,
        y.after_turn().at(in_i, 0) == y.arrivals[cell_index(y.n as int, in_i, rank)],
        y.after_turn().containers[y.arrivals[cell_index(y.n as int, in_i, rank)] as int].is_board,
        y.after_turn().containers[y.arrivals[cell_index(y.n as int, in_i, rank)] as int].pos_i
            == in_i,
        y.after_turn().containers[y.arrivals[cell_index(y.n as int, in_i, rank)] as int].pos_j
            == 0,
{
    let n = y.n as int;
    let p = y.after_place();
    let t = p.after_drain();
    lemma_place_keeps_wf(y);
    lemma_drain_keeps_wf(p);
    lemma_cell_index(n, in_i, 0);
    lemma_cell_index(n, in_i, rank);
    let k = cell_index(n, in_i, 0);
    lemma_cell_split(n, k);
    lemma_arrival_registered(y, in_i, rank);
    let id = y.arrivals[cell_index(n, in_i, rank)];
    if y.at(in_i, 0) < y.cells() {
        lemma_occupant(y, in_i, 0);
        let c = y.containers[y.at(in_i, 0) as int];
        assert(y.queued(c));
        assert(y.registered(c, y.at(in_i, 0) as int));
    }
    assert(p.board[k] == id);
    assert(t.board[k] == id);
    lemma_occupant(t, in_i, 0);
}

/// Moving a container to a cell outside the inbound frontier column keeps
/// the yard orderly, and keeps the outbound frontier clear unless the cell
/// is on it.
pub proof fn lemma_relocate_orderly(y: YardView, id: int, i: int, j: int)
    requires
        y.orderly(),
        y.can_relocate(id, i, j),
        j >= 1,
    ensures
        y.after_relocate(id, i, j).orderly(),
        y.outbound_clear() && j != y.n - 1 ==> y.after_relocate(id, i, j).outbound_clear(),
        y.containers[id].pos_j == 0 ==> y.after_relocate(id, i, j).at(
            y.containers[id].pos_i as int,
            0,
        ) >= y.cells(),
{
    let n = y.n as int;
    let z = y.after_relocate(id, i, j);
    let moved = y.containers[id];
    lemma_relocate_keeps_wf(y, id, i, j);
    assert(y.accounted(moved, id));
    lemma_cell_index(n, moved.pos_i as int, moved.pos_j as int);
    lemma_cell_index(n, i, j);
    assert forall|r: int| 0 <= r < z.n implies (#[trigger] z.in_cnt[r]) >= 1 || z.at(r, 0)
        >= z.cells() by {
        lemma_cell_index(n, r, 0);
        assert(y.in_cnt[r] >= 1 || y.at(r, 0) >= y.cells());
    }
    assert forall|d: int| 0 <= d < z.cells() implies z.queued(#[trigger] z.containers[d]) by {
        assert(y.queued(y.containers[d]));
    }
    if y.outbound_clear() && j != y.n - 1 {
        assert forall|d: int| 0 <= d < z.cells() implies ({
            let c = #[trigger] z.containers[d];
            c.is_board ==> c.pos_j != z.n - 1
        }) by {
            let c = y.containers[d];
        }
    }
}

/// When exactly one container stands on the outbound frontier, a turn
/// releases it and nothing else.
pub proof fn lemma_turn_releases(y: YardView, id: int)
    requires
        y.wf(),
        y.n >= 2,
        0 <= id < y.cells(),
        y.containers[id].is_board,
        y.containers[id].pos_j == y.n - 1,
        forall|d: int|
            0 <= d < y.cells() && d != id ==> {
                let c = #[trigger] y.containers[d];
                c.is_board ==> c.pos_j != y.n - 1
            },
    ensures
        y.after_turn().out_cnt == y.out_cnt.update(
            y.containers[id].out_i as int,
            (y.out_cnt[y.containers[id].out_i as int] + 1) as usize,
        ),
        y.out_cnt[y.containers[id].out_i as int] < y.n,
{
    let n = y.n as int;
    let p = y.after_place();
    let t = p.after_drain();
    let moved = y.containers[id];
    let lane = moved.out_i as int;
    lemma_place_keeps_wf(y);
    assert(y.accounted(moved, id));
    assert(y.registered(moved, id));
    assert(p.accounted(p.containers[id], id));
    assert(p.containers[id] == moved);
    lemma_cell_split(n, id);
    assert forall|i: int| 0 <= i < n implies t.out_cnt[i] == (if i == lane {
        (y.out_cnt[i] + 1) as usize
    } else {
        y.out_cnt[i]
    }) by {
        lemma_drain_counts(p, i);
        lemma_cell_index(n, i, n - 1);
        if p.departs(i) {
            lemma_occupant(p, i, n - 1);
            let d = p.at(i, n - 1) as int;
            let c = y.containers[d];
            assert(p.containers[d].is_board);
            if d != id {
                assert(c.is_board ==> c.pos_j != n - 1);
            }
        }
        if i == lane {
            assert(p.at(lane, n - 1) == id);
        }
    }
    lemma_drain_counts(p, lane);
    assert(t.out_cnt =~= y.out_cnt.update(lane, (y.out_cnt[lane] + 1) as usize));
}

/// Retiring the idle cranes changes nothing but their command strings.
pub proof fn lemma_retire_keeps_settled(y: YardView)
    requires
        y.settled(),
    ensures
        y.with_retired().settled(),
{
    let z = y.with_retired();
    assert forall|i: int| 0 <= i < z.n implies (#[trigger] z.cranes[i]).tracks(i as nat) by {
        assert(y.cranes[i].tracks(i as nat));
        lemma_operations_keep_tracking(y.cranes[i], i as nat, 0, 0);
    }
    assert forall|id: int| 0 <= id < z.cells() implies z.registered(
        #[trigger] z.containers[id],
        id,
    ) && z.accounted(z.containers[id], id) && z.queued(z.containers[id]) by {
        assert(y.registered(y.containers[id], id));
        assert(y.accounted(y.containers[id], id));
        assert(y.queued(y.containers[id]));
    }
    assert forall|k: int| 0 <= k < z.cells() && (#[trigger] z.board[k]) < z.cells() implies ({
        let c = z.containers[z.board[k] as int];
        c.is_board && cell_index(z.n as int, c.pos_i as int, c.pos_j as int) == k
    }) by {
        assert(y.board[k] < y.cells());
    }
    assert forall|i: int| 0 <= i < z.n implies (#[trigger] z.in_cnt[i]) >= 1 && (z.in_cnt[i] < z.n
        ==> z.at(i, 0) < z.cells()) by {
        assert(y.in_cnt[i] >= 1);
    }
}

/// No lane needs `n * n` relocations or more.
pub proof fn lemma_pending_bound(y: YardView, lane: int, ranks: nat)
    requires
        y.shaped(),
        0 <= lane < y.n,
        ranks <= y.n,
    ensures
        y.pending_upto(lane, ranks) <= ranks * (y.n - 1),
        ranks * (y.n - 1) < y.cells(),
    decreases ranks,
{
    let n = y.n as int;
    if ranks > 0 {
        lemma_pending_bound(y, lane, (ranks - 1) as nat);
        lemma_cell_index(n, lane, ranks - 1);
        let id = cell_index(n, lane, ranks - 1);
        assert(y.registered(y.containers[id], id));
        assert(ranks * (n - 1) == (ranks - 1) * (n - 1) + (n - 1)) by (nonlinear_arith);
    }
    assert(ranks * (n - 1) < n * n) by (nonlinear_arith)
        requires
            0 <= ranks <= n,
            n >= 1,
    ;
}

/// At most one lane is the one to drain next, so `pick` names it.
pub proof fn lemma_pick_unique(y: YardView, lane: int)
    requires
        y.is_pick(lane),
    ensures
        y.pick() == Some(lane),
{
    let other = choose|l: int| y.is_pick(l);
    assert(y.is_pick(other));
    assert(!y.done(lane));
    assert(!y.done(other));
}

/// When every lane is done there is nothing to pick.
pub proof fn lemma_pick_none(y: YardView)
    requires
        forall|l: int| 0 <= l < y.n ==> y.done(l),
    ensures
        y.pick() is None,
        y.open_lanes() =~= Set::empty(),
{
}

/// The lanes that are not done are finitely many, at most `n`.
pub proof fn lemma_open_lanes_bound(y: YardView)
    ensures
        y.open_lanes().finite(),
        y.open_lanes().len() <= y.n,
{
    let all = set_int_range(0, y.n as int);
    lemma_int_range(0, y.n as int);
    assert(y.open_lanes().subset_of(all));
    lemma_len_subset(y.open_lanes(), all);
}

/// Once every lane is done, every container is gone.
pub proof fn lemma_all_done_all_departed(y: YardView)
    requires
        y.wf(),
        forall|l: int| 0 <= l < y.n ==> y.done(l),
    ensures
        y.all_departed(),
{
    assert forall|id: int| 0 <= id < y.cells() implies ({
        let c = #[trigger] y.containers[id];
        c.is_out && !c.is_in && !c.is_board
    }) by {
        let c = y.containers[id];
        assert(y.registered(c, id));
        assert(y.accounted(c, id));
        lemma_cell_split(y.n as int, id);
        assert(y.done(c.out_i as int));
    }
}

} // verus!
