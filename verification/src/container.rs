//! A container: where it comes from, where it has to go, and where it is now.

use vstd::prelude::*;

verus! {

/// One container of the yard.
///
/// `id` fixes the outbound lane (`out_i = id / n`) and the rank within that
/// lane (`out_j = id % n`). `(in_i, in_j)` is the inbound lane and the rank
/// within its arrival sequence. Exactly one of `is_in`, `is_board` and
/// `is_out` holds; `(pos_i, pos_j)` is a board cell while `is_board` holds
/// and `(n, n)` otherwise.
#[derive(Debug, Clone, Copy)]
pub struct Container {
    pub n: usize,
    pub id: usize,
    pub in_i: usize,
    pub in_j: usize,
    pub out_i: usize,
    pub out_j: usize,
    pub pos_i: usize,
    pub pos_j: usize,
    pub is_in: bool,
    pub is_board: bool,
    pub is_out: bool,
}

impl Container {
    /// The container `id` of an `n`-lane yard while it still waits at rank
    /// `in_j` of inbound lane `in_i`.
    pub open spec fn waiting(n: usize, id: usize, in_i: usize, in_j: usize) -> Container {
        Container {
            n,
            id,
            in_i,
            in_j,
            out_i: id / n,
            out_j: id % n,
            pos_i: n,
            pos_j: n,
            is_in: true,
            is_board: false,
            is_out: false,
        }
    }

    /// This container standing on board cell `(i, j)`.
    pub open spec fn placed(self, i: usize, j: usize) -> Container {
        Container { pos_i: i, pos_j: j, is_in: false, is_board: true, is_out: false, ..self }
    }

    /// This container after it has left through its outbound lane.
    pub open spec fn departed(self) -> Container {
        Container {
            pos_i: self.n,
            pos_j: self.n,
            is_in: false,
            is_board: false,
            is_out: true,
            ..self
        }
    }

    /// Exactly one lifecycle flag is set, and the position is a board cell
    /// exactly while the container is on the board.
    pub open spec fn lifecycle_ok(self) -> bool {
        &&& self.is_in || self.is_board || self.is_out
        &&& !(self.is_in && self.is_board)
        &&& !(self.is_in && self.is_out)
        &&& !(self.is_board && self.is_out)
        &&& self.is_board ==> self.pos_i < self.n && self.pos_j < self.n
        &&& !self.is_board ==> self.pos_i == self.n && self.pos_j == self.n
    }

    pub fn new(n: usize, a: usize, in_i: usize, in_j: usize) -> (c: Container)
        requires
            n > 0,
        ensures
            c == Container::waiting(n, a, in_i, in_j),
    {
        let id = a;
        let out_i = id / n;
        let out_j = id % n;
        let pos_i = n;
        let pos_j = n;
        let is_in = true;
        let is_board = false;
        let is_out = false;

        Container { n, id, in_i, in_j, out_i, out_j, pos_i, pos_j, is_in, is_board, is_out }
    }

    /// Current position: a board cell, or `(n, n)` while off the board.
    pub fn get_pos(&self) -> (pos: (usize, usize))
        ensures
            pos == (self.pos_i, self.pos_j),
    {
        (self.pos_i, self.pos_j)
    }

    /// The outbound frontier cell this container has to leave through.
    pub fn get_out_pos(&self) -> (pos: (usize, usize))
        requires
            self.n >= 1,
        ensures
            pos == (self.out_i, (self.n - 1) as usize),
    {
        (self.out_i, self.n - 1)
    }
}

} // verus!
