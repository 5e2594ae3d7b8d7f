//! The steps of the yard keep it consistent.

use vstd::prelude::*;
use crate::crane::lemma_carry_keeps_tracking;
use crate::crane::fresh_state;
use crate::crane::lemma_operations_keep_tracking;
use crate::crane::replay;
use crate::crane::CraneView;
use crate::grid::cell_index;
use crate::grid::lemma_cell_index;
use crate::grid::lemma_cell_split;
use crate::grid::lemma_cell_unique;
use crate::input::lemma_every_id_arrives;
use crate::input::slot_of;
use crate::input::valid_arrivals;
use crate::yard::searched_before;
use crate::yard::YardView;

verus! {

/// In a shaped yard, the container that the arrival matrix names at rank
/// `j` of inbound lane `i` is registered with exactly that lane and rank.
pub proof fn lemma_arrival_registered(y: YardView, i: int, j: int)
    requires
        y.shaped(),
        0 <= i < y.n,
        0 <= j < y.n,
    ensures
        0 <= cell_index(y.n as int, i, j) < y.cells(),
        y.arrivals[cell_index(y.n as int, i, j)] < y.cells(),
        y.containers[y.arrivals[cell_index(y.n as int, i, j)] as int].in_i == i,
        y.containers[y.arrivals[cell_index(y.n as int, i, j)] as int].in_j == j,
{
    let n = y.n as int;
    lemma_cell_index(n, i, j);
    let k = cell_index(n, i, j);
    let id = y.arrivals[k];
    let c = y.containers[id as int];
    assert(y.registered(c, id as int));
    let k2 = cell_index(n, c.in_i as int, c.in_j as int);
    lemma_cell_index(n, c.in_i as int, c.in_j as int);
    if k2 < k {
        assert(y.arrivals[k2] != y.arrivals[k]);
    } else if k < k2 {
        assert(y.arrivals[k] != y.arrivals[k2]);
    }
    lemma_cell_unique(n, i, j, c.in_i as int, c.in_j as int);
}

/// The fresh yard of a valid arrival matrix is consistent.
pub proof fn lemma_fresh_wf(n: nat, arrivals: Seq<usize>)
    requires
        valid_arrivals(n, arrivals),
        n * n <= usize::MAX,
    ensures
        YardView::fresh(n, arrivals).wf(),
{
    let y = YardView::fresh(n, arrivals);
    assert(n <= n * n) by (nonlinear_arith)
        requires
            n >= 1,
    ;
    assert forall|id: int| 0 <= id < y.cells() implies y.registered(
        #[trigger] y.containers[id],
        id,
    ) && y.accounted(y.containers[id], id) by {
        lemma_every_id_arrives(n, arrivals, id);
        let s = slot_of(arrivals, id);
        lemma_cell_split(n as int, s);
        lemma_cell_split(n as int, id);
    }
    assert forall|i: int| 0 <= i < y.n implies (#[trigger] y.cranes[i]).tracks(i as nat) by {
        lemma_operations_keep_tracking(CraneView::fresh(i as nat), i as nat, 0, 0);
    }
}

/// Arrivals keep the yard consistent.
pub proof fn lemma_place_keeps_wf(y: YardView)
    requires
        y.wf(),
    ensures
        y.after_place().wf(),
{
    let z = y.after_place();
    let n = y.n as int;
    assert forall|id: int| 0 <= id < z.cells() implies z.registered(
        #[trigger] z.containers[id],
        id,
    ) && z.accounted(z.containers[id], id) by {
        let c = y.containers[id];
        assert(y.registered(c, id));
        assert(y.accounted(c, id));
        lemma_cell_index(n, c.in_i as int, 0);
        lemma_cell_index(n, c.in_i as int, c.in_j as int);
        lemma_cell_split(n, id);
        if c.is_board {
            lemma_cell_index(n, c.pos_i as int, c.pos_j as int);
        }
    }
    assert forall|k: int| 0 <= k < z.cells() implies (#[trigger] z.board[k]) <= z.cells() && (z.board[k]
        < z.cells() ==> {
        let c = z.containers[z.board[k] as int];
        c.is_board && cell_index(n, c.pos_i as int, c.pos_j as int) == k
    }) by {
        lemma_cell_split(n, k);
        if k % n == 0 && y.arrives(k / n) {
            lemma_arrival_registered(y, k / n, y.in_cnt[k / n] as int);
        } else if y.board[k] < y.cells() {
            let c = y.containers[y.board[k] as int];
            assert(y.accounted(c, y.board[k] as int));
        }
    }
}

/// Departures keep the yard consistent.
pub proof fn lemma_drain_keeps_wf(y: YardView)
    requires
        y.wf(),
    ensures
        y.after_drain().wf(),
{
    let z = y.after_drain();
    let n = y.n as int;
    assert forall|id: int| 0 <= id < z.cells() implies z.registered(
        #[trigger] z.containers[id],
        id,
    ) && z.accounted(z.containers[id], id) by {
        let c = y.containers[id];
        assert(y.registered(c, id));
        assert(y.accounted(c, id));
        lemma_cell_split(n, id);
        if c.is_board {
            lemma_cell_index(n, c.pos_i as int, c.pos_j as int);
        }
        let lane = c.out_i as int;
        lemma_drain_counts(y, lane);
        lemma_cell_index(n, lane, n - 1);
        if y.departs(lane) && c.out_j == y.out_cnt[lane] {
            let k = cell_index(n, lane, n - 1);
            assert(y.board[k] == id);
            lemma_cell_unique(n, lane, n - 1, c.pos_i as int, c.pos_j as int);
        }
    }
    assert forall|k: int| 0 <= k < z.cells() implies (#[trigger] z.board[k]) <= z.cells() && (z.board[k]
        < z.cells() ==> {
        let c = z.containers[z.board[k] as int];
        c.is_board && cell_index(n, c.pos_i as int, c.pos_j as int) == k
    }) by {
        lemma_cell_split(n, k);
        if y.board[k] < y.cells() {
            let c = y.containers[y.board[k] as int];
            assert(y.accounted(c, y.board[k] as int));
            lemma_cell_index(n, c.pos_i as int, c.pos_j as int);
        }
    }
    assert forall|i: int| 0 <= i < z.n implies (#[trigger] z.out_cnt[i]) <= z.n by {
        lemma_drain_counts(y, i);
    }
}

/// What a turn's departures do to the counter of outbound lane `i`: if the
/// lane's frontier cell is occupied, its container is the one of rank
/// `out_cnt[i]`, and the counter moves on by one; otherwise it stays.
pub proof fn lemma_drain_counts(y: YardView, i: int)
    requires
        y.wf(),
        0 <= i < y.n,
    ensures
        y.departs(i) ==> y.out_cnt[i] < y.n && y.at(i, y.n - 1) == cell_index(
            y.n as int,
            i,
            y.out_cnt[i] as int,
        ) && y.after_drain().out_cnt[i] == y.out_cnt[i] + 1,
        !y.departs(i) ==> y.after_drain().out_cnt[i] == y.out_cnt[i],
{
    let n = y.n as int;
    lemma_cell_index(n, i, n - 1);
    if y.departs(i) {
        let k = cell_index(n, i, n - 1);
        let id = y.board[k];
        let c = y.containers[id as int];
        assert(y.registered(c, id as int));
        assert(y.accounted(c, id as int));
        lemma_cell_unique(n, i, n - 1, c.pos_i as int, c.pos_j as int);
        lemma_cell_split(n, id as int);
    }
}

/// Moving a container to an admissible cell keeps the yard consistent.
pub proof fn lemma_relocate_keeps_wf(y: YardView, id: int, i: int, j: int)
    requires
        y.wf(),
        y.can_relocate(id, i, j),
    ensures
        y.after_relocate(id, i, j).wf(),
{
    let z = y.after_relocate(id, i, j);
    let n = y.n as int;
    let moved = y.containers[id];
    assert(y.registered(moved, id));
    assert(y.accounted(moved, id));
    let from = cell_index(n, moved.pos_i as int, moved.pos_j as int);
    let to = cell_index(n, i, j);
    lemma_cell_index(n, moved.pos_i as int, moved.pos_j as int);
    lemma_cell_index(n, i, j);
    assert forall|d: int| 0 <= d < z.cells() implies z.registered(
        #[trigger] z.containers[d],
        d,
    ) && z.accounted(z.containers[d], d) by {
        let c = y.containers[d];
        assert(y.registered(c, d));
        assert(y.accounted(c, d));
        if d != id && c.is_board {
            lemma_cell_index(n, c.pos_i as int, c.pos_j as int);
        }
    }
    assert forall|k: int| 0 <= k < z.cells() implies (#[trigger] z.board[k]) <= z.cells() && (z.board[k]
        < z.cells() ==> {
        let c = z.containers[z.board[k] as int];
        c.is_board && cell_index(n, c.pos_i as int, c.pos_j as int) == k
    }) by {
        if k != to && k != from && y.board[k] < y.cells() {
            let c = y.containers[y.board[k] as int];
            assert(y.accounted(c, y.board[k] as int));
        }
    }
    assert forall|r: int| 0 <= r < z.n implies (#[trigger] z.cranes[r]).tracks(r as nat) by {
        assert(y.cranes[r].tracks(r as nat));
        if r == 0 {
            lemma_carry_keeps_tracking(
                y.cranes[0],
                0,
                moved.pos_i as nat,
                moved.pos_j as nat,
                i as nat,
                j as nat,
            );
        }
    }
}

/// The first empty storage cell of a search is unique, so it is the cell
/// that `free_cell` names.
pub proof fn lemma_first_free_is_free_cell(y: YardView, near: int, i: int, j: int)
    requires
        y.first_free(near, i, j),
    ensures
        y.has_free(),
        y.free_cell(near) == (i, j),
{
    assert(y.free_at(i, j));
    let found = (i, j);
    assert(y.first_free(near, found.0, found.1));
    let c = choose|c: (int, int)| y.first_free(near, c.0, c.1);
    assert(y.first_free(near, c.0, c.1));
    if !(c.0 == i && c.1 == j) {
        assert(y.free_at(c.0, c.1));
        assert(searched_before(near, i, j, c.0, c.1));
        assert(searched_before(near, c.0, c.1, i, j));
    }
}

/// Occupancy is one to one: in a consistent yard no container is named by
/// two cells, and a container is recorded as on the board exactly when some
/// cell names it, which is then the cell it is recorded on. A cell names at
/// most one container by construction.
pub proof fn lemma_occupancy_one_to_one(y: YardView)
    requires
        y.wf(),
    ensures
        forall|k1: int, k2: int|
            0 <= k1 < y.cells() && 0 <= k2 < y.cells() && y.board[k1] < y.cells() && y.board[k1]
                == y.board[k2] ==> k1 == k2,
        forall|id: int|
            0 <= id < y.cells() ==> ((#[trigger] y.containers[id]).is_board <==> exists|k: int|
                0 <= k < y.cells() && y.board[k] == id),
        forall|k: int|
            0 <= k < y.cells() && (#[trigger] y.board[k]) < y.cells() ==> cell_index(
                y.n as int,
                y.containers[y.board[k] as int].pos_i as int,
                y.containers[y.board[k] as int].pos_j as int,
            ) == k,
{
    let n = y.n as int;
    assert forall|id: int| 0 <= id < y.cells() implies ((#[trigger] y.containers[id]).is_board
        <==> exists|k: int| 0 <= k < y.cells() && y.board[k] == id) by {
        let c = y.containers[id];
        assert(y.accounted(c, id));
        if c.is_board {
            lemma_cell_index(n, c.pos_i as int, c.pos_j as int);
            assert(y.board[cell_index(n, c.pos_i as int, c.pos_j as int)] == id);
        }
    }
}

/// Each outbound lane releases its containers in rank order: the
/// containers that are gone are exactly those whose rank is below their
/// lane's counter, and a container that leaves during a turn has the rank
/// that the counter showed, while the counter moves on by one.
pub proof fn lemma_departures_in_rank_order(y: YardView, id: int)
    requires
        y.wf(),
        0 <= id < y.cells(),
    ensures
        y.containers[id].out_i < y.n,
        y.containers[id].is_out <==> y.containers[id].out_j < y.out_cnt[y.containers[id].out_i as int],
        y.after_turn().containers[id].is_out && !y.containers[id].is_out ==> {
            &&& y.containers[id].out_j == y.out_cnt[y.containers[id].out_i as int]
            &&& y.after_turn().out_cnt[y.containers[id].out_i as int] == y.out_cnt[y.containers[id].out_i as int]
                + 1
        },
        y.containers[id].is_out ==> y.after_turn().containers[id].is_out,
{
    let n = y.n as int;
    let p = y.after_place();
    let t = p.after_drain();
    let c = y.containers[id];
    assert(y.registered(c, id));
    assert(y.accounted(c, id));
    lemma_cell_split(n, id);
    lemma_place_keeps_wf(y);
    assert(p.registered(p.containers[id], id));
    assert(p.accounted(p.containers[id], id));
    lemma_drain_counts(p, c.out_i as int);
    if t.containers[id].is_out && !c.is_out {
        let q = p.containers[id];
        assert(q.is_board && q.pos_j == n - 1);
        lemma_cell_index(n, q.pos_i as int, q.pos_j as int);
    }
}

/// Round trip: in a consistent yard, replaying the command string of crane
/// `i` on a fresh crane of row `i` gives the position and the grab state
/// that the crane records.
pub proof fn lemma_crane_round_trip(y: YardView, i: int)
    requires
        y.wf(),
        0 <= i < y.n,
    ensures
        replay(fresh_state(i), y.cranes[i].commands) == y.cranes[i].state(),
{
    assert(y.cranes[i].tracks(i as nat));
}

/// A lane none of whose containers is still waiting inbound needs no
/// relocations, up to any rank.
pub proof fn lemma_pending_upto_zero(y: YardView, lane: int, ranks: nat)
    requires
        forall|j: int|
            0 <= j < ranks ==> !(#[trigger] y.containers[cell_index(y.n as int, lane, j)]).is_in,
    ensures
        y.pending_upto(lane, ranks) == 0,
    decreases ranks,
{
    if ranks > 0 {
        lemma_pending_upto_zero(y, lane, (ranks - 1) as nat);
        assert(!y.containers[cell_index(y.n as int, lane, ranks - 1)].is_in);
    }
}

/// The estimate of pending relocations is never negative, and it is 0 once
/// every container of the lane that has not left yet is on the board.
pub proof fn lemma_pending_zero_once_arrived(y: YardView, lane: int)
    requires
        forall|j: int|
            0 <= j < y.n ==> !(#[trigger] y.containers[cell_index(y.n as int, lane, j)]).is_in,
    ensures
        y.pending(lane) >= 0,
        y.pending(lane) == 0,
{
    lemma_pending_upto_zero(y, lane, y.n);
}

/// Lane counters only ever move forward, one step at a time: a turn adds
/// at most one arrival and at most one departure per lane, and moving a
/// container changes no counter.
pub proof fn lemma_counters_move_forward(y: YardView, lane: int)
    requires
        y.wf(),
        0 <= lane < y.n,
    ensures
        y.in_cnt[lane] <= y.after_turn().in_cnt[lane] <= y.in_cnt[lane] + 1,
        y.out_cnt[lane] <= y.after_turn().out_cnt[lane] <= y.out_cnt[lane] + 1,
        y.after_turn().in_cnt[lane] <= y.n,
        y.after_turn().out_cnt[lane] <= y.n,
        forall|id: int, i: int, j: int|
            #![trigger y.after_relocate(id, i, j)]
            y.after_relocate(id, i, j).in_cnt == y.in_cnt && y.after_relocate(id, i, j).out_cnt
                == y.out_cnt,
{
    let p = y.after_place();
    assert(y.n <= y.n * y.n) by (nonlinear_arith)
        requires
            y.n >= 1,
    ;
    lemma_place_keeps_wf(y);
    lemma_drain_counts(p, lane);
    lemma_drain_keeps_wf(p);
}

} // verus!
