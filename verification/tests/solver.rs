use crane_yard::Input;
use crane_yard::NoFreeStorage;
use crane_yard::Solver;

fn five_lanes() -> Input {
    let n = 5;
    let a: Vec<usize> = vec![
        24, 10, 17, 15, 13,
        14, 11,  2,  1,  5,
         7,  9,  6, 21, 20,
         8,  4, 19,  3, 16,
        18, 23, 22,  0, 12,
    ];
    Input { n, a }
}

/// What an observer of the physical yard sees when one crane, starting on
/// cell (0, 0), carries out `commands`, one letter per time step: at the
/// start of a step every inbound lane with an empty frontier cell puts its
/// next container there, then the crane acts, then every container on an
/// outbound frontier cell leaves. Returns, per outbound lane, the ids in
/// the order in which they left, and where the crane ended; panics when a
/// command cannot be carried out.
fn observe(n: usize, a: &[usize], commands: &str) -> (Vec<Vec<usize>>, (usize, usize, bool)) {
    let empty = n * n;
    let mut board = vec![empty; n * n];
    let mut next_in = vec![0usize; n];
    let mut left: Vec<Vec<usize>> = vec![Vec::new(); n];
    let (mut ci, mut cj) = (0usize, 0usize);
    let mut held: Option<usize> = None;
    for (step, c) in commands.chars().enumerate() {
        for i in 0..n {
            let blocked = held.is_some() && (ci, cj) == (i, 0);
            if board[i * n] == empty && next_in[i] < n && !blocked {
                board[i * n] = a[i * n + next_in[i]];
                next_in[i] += 1;
            }
        }
        let here = ci * n + cj;
        match c {
            'P' => {
                assert!(held.is_none(), "step {}: grabs while holding", step);
                assert!(board[here] != empty, "step {}: grabs from an empty cell", step);
                held = Some(board[here]);
                board[here] = empty;
            }
            'Q' => {
                assert!(board[here] == empty, "step {}: releases onto a container", step);
                match held.take() {
                    Some(id) => board[here] = id,
                    None => panic!("step {}: releases while holding nothing", step),
                }
            }
            'U' => {
                assert!(ci > 0, "step {}: leaves the board", step);
                ci -= 1;
            }
            'D' => {
                assert!(ci + 1 < n, "step {}: leaves the board", step);
                ci += 1;
            }
            'L' => {
                assert!(cj > 0, "step {}: leaves the board", step);
                cj -= 1;
            }
            'R' => {
                assert!(cj + 1 < n, "step {}: leaves the board", step);
                cj += 1;
            }
            other => panic!("step {}: unexpected command {}", step, other),
        }
        for i in 0..n {
            let k = i * n + n - 1;
            if board[k] != empty {
                left[i].push(board[k]);
                board[k] = empty;
            }
        }
    }
    (left, (ci, cj, held.is_some()))
}

fn check_complete(input: Input) -> Solver {
    let n = input.n;
    let a = input.a.clone();
    let mut solver = Solver::new(input);
    assert_eq!(solver.solve(), Ok(()));
    for lane in 0..n {
        assert_eq!(solver.monitor.get_out_cnt(lane), n);
        assert_eq!(solver.monitor.in_cnt[lane], n);
        assert!(solver.monitor.is_done(lane));
        assert_eq!(solver.monitor.move_cnt(lane), 0);
        for j in 0..n {
            assert_eq!(solver.monitor.get_board(lane, j), n * n);
        }
    }
    for id in 0..n * n {
        let c = solver.monitor.get_container_id(id);
        assert!(c.is_out && !c.is_in && !c.is_board);
        assert_eq!(c.get_pos(), (n, n));
    }
    for i in 1..n {
        assert_eq!(solver.monitor.cranes[i].move_s, "B");
        let idle = &solver.monitor.cranes[i];
        assert_eq!((idle.pos_i, idle.pos_j, idle.hold), (i, 0, false));
    }
    let crane = &solver.monitor.cranes[0];
    let (left, end) = observe(n, &a, &crane.move_s);
    // With a single lane the container leaves without any command, so the
    // observer, whose clock is the command string, sees nothing.
    if n >= 2 {
        for lane in 0..n {
            let in_rank_order: Vec<usize> = (0..n).map(|j| lane * n + j).collect();
            assert_eq!(left[lane], in_rank_order);
        }
    }
    assert_eq!(end, (crane.pos_i, crane.pos_j, crane.hold));
    assert!(!crane.hold);
    solver
}

#[test]
fn five_lane_yard_is_emptied_in_rank_order() {
    let solver = check_complete(five_lanes());
    assert_eq!(solver.score(), solver.monitor.cranes[0].move_s.len());
    assert!(solver.score() > 25 * 4);
}

#[test]
fn sorted_three_lane_yard_needs_no_parking() {
    let solver = check_complete(Input { n: 3, a: vec![0, 1, 2, 3, 4, 5, 6, 7, 8] });
    assert_eq!(
        solver.monitor.cranes[0].move_s,
        "PRRQLLPRRQLLPRRQDLLPRRQLLPRRQLLPRRQDLLPRRQLLPRRQLLPRRQ"
    );
    assert_eq!(solver.score(), 54);
}

#[test]
fn blocking_container_is_parked_next_to_its_lane() {
    // 1 arrives in front of 0 on inbound lane 0 and is parked on (0, 1).
    let solver = check_complete(Input { n: 3, a: vec![1, 0, 2, 3, 4, 5, 6, 7, 8] });
    assert_eq!(
        solver.monitor.cranes[0].move_s,
        "PRQLPRRQLPRQLLPRRQDLLPRRQLLPRRQLLPRRQDLLPRRQLLPRRQLLPRRQ"
    );
    assert_eq!(solver.score(), 56);
}

#[test]
fn lane_with_fewest_pending_relocations_goes_first() {
    // Lane 1 (ids 3, 4, 5) heads inbound lanes 0 and 1, lane 0 (ids 0, 1, 2)
    // sits at the far end of every inbound lane.
    let input = Input { n: 3, a: vec![3, 4, 0, 5, 6, 1, 7, 8, 2] };
    let mut probe = Solver::new(input.clone());
    probe.monitor.turn();
    assert_eq!(probe.monitor.move_cnt(0), 3);
    assert_eq!(probe.monitor.move_cnt(1), 0);
    assert_eq!(probe.monitor.move_cnt(2), 0);
    assert_eq!(probe.select_lane(), Some(1));
    let solver = check_complete(input);
    // The first container carried out is 3, straight along row 0 down to
    // the frontier cell of lane 1.
    assert!(solver.monitor.cranes[0].move_s.starts_with("PDRRQ"));
}

#[test]
fn ties_go_to_the_lowest_lane() {
    let mut solver = Solver::new(Input { n: 3, a: vec![0, 1, 2, 3, 4, 5, 6, 7, 8] });
    assert_eq!(solver.select_lane(), Some(0));
    solver.monitor.turn();
    assert_eq!(solver.monitor.move_cnt(0), 1);
    assert_eq!(solver.monitor.move_cnt(1), 1);
    assert_eq!(solver.monitor.move_cnt(2), 1);
    assert_eq!(solver.select_lane(), Some(0));
}

#[test]
fn done_lanes_are_not_selected() {
    let mut solver = Solver::new(Input { n: 2, a: vec![0, 1, 2, 3] });
    solver.monitor.turn();
    solver.monitor.out(0);
    solver.monitor.turn();
    solver.monitor.out(1);
    solver.monitor.turn();
    assert!(solver.monitor.is_done(0));
    assert_eq!(solver.select_lane(), Some(1));
    solver.monitor.out(2);
    solver.monitor.turn();
    solver.monitor.out(3);
    solver.monitor.turn();
    assert_eq!(solver.select_lane(), None);
}

#[test]
fn one_lane_yard_needs_no_crane_work() {
    let solver = check_complete(Input { n: 1, a: vec![0] });
    assert_eq!(solver.monitor.cranes[0].move_s, "");
    assert_eq!(solver.score(), 0);
}

#[test]
fn two_lane_yard_without_blocking_is_emptied() {
    let solver = check_complete(Input { n: 2, a: vec![0, 1, 2, 3] });
    assert_eq!(solver.monitor.cranes[0].move_s, "PRQLPRQDLPRQLPRQ");
    assert_eq!(solver.monitor.cranes[1].move_s, "B");
    assert_eq!(solver.score(), 16);
}

#[test]
fn schedule_stops_when_nothing_can_be_parked() {
    // A two-lane yard has no storage cell, and 1 stands in front of 0.
    let mut solver = Solver::new(Input { n: 2, a: vec![1, 0, 3, 2] });
    assert_eq!(solver.solve(), Err(NoFreeStorage { container: 1 }));
    // Nothing was moved: 1 and 3 still stand on their frontier cells.
    assert_eq!(solver.monitor.get_board(0, 0), 1);
    assert_eq!(solver.monitor.get_board(1, 0), 3);
    assert_eq!(solver.monitor.cranes[0].move_s, "");
    assert_eq!(solver.monitor.cranes[1].move_s, "B");
    assert_eq!(solver.monitor.get_out_cnt(0), 0);
    assert_eq!(solver.monitor.free_space(0), (0, 0));
}

#[test]
fn schedule_stops_when_storage_runs_out() {
    // Three lanes have three storage cells. Lane 0 goes first; 4 and 5 are
    // parked to reach 0, 7 to reach 1, and then 8 stands in front of 2.
    let mut solver = Solver::new(Input { n: 3, a: vec![4, 5, 0, 7, 1, 3, 8, 2, 6] });
    assert_eq!(solver.solve(), Err(NoFreeStorage { container: 8 }));
    let monitor = &solver.monitor;
    assert_eq!(monitor.free_space(2), (0, 0));
    assert_eq!(monitor.get_board(1, 1), 4);
    assert_eq!(monitor.get_board(2, 1), 5);
    assert_eq!(monitor.get_board(0, 1), 7);
    assert_eq!(monitor.get_board(2, 0), 8);
    assert_eq!(monitor.get_board(1, 0), 3);
    assert_eq!(monitor.get_board(0, 0), 9);
    assert_eq!(monitor.get_out_cnt(0), 2);
    assert_eq!(monitor.get_out_cnt(1), 0);
    assert_eq!(monitor.get_out_cnt(2), 0);
    assert_eq!(monitor.in_cnt, vec![3, 3, 1]);
    assert_eq!(monitor.cranes[0].move_s, "PDRQULPDDRQUULPRRQDLLPURQDLPURRQ");
    assert_eq!(monitor.cranes[1].move_s, "B");
    assert_eq!(monitor.cranes[2].move_s, "B");
    let stuck = monitor.get_container_id(8);
    assert!(stuck.is_board);
    assert_eq!(stuck.get_pos(), (2, 0));
    assert_eq!(solver.score(), 32);
}

#[test]
fn score_is_the_longest_command_string() {
    let mut solver = Solver::new(Input { n: 3, a: vec![0, 1, 2, 3, 4, 5, 6, 7, 8] });
    assert_eq!(solver.score(), 0);
    solver.monitor.cranes[2].bomb();
    assert_eq!(solver.score(), 1);
    solver.monitor.cranes[1].move_to((2, 2));
    assert_eq!(solver.score(), 3);
    solver.monitor.cranes[0].move_to((0, 2));
    assert_eq!(solver.score(), 3);
}

/// A permutation of `0..n * n`, shuffled by a fixed linear congruential
/// sequence that starts from `seed`.
fn shuffled(n: usize, seed: u64) -> Vec<usize> {
    let mut a: Vec<usize> = (0..n * n).collect();
    let mut x = seed;
    for k in (1..a.len()).rev() {
        x = x.wrapping_mul(6364136223846793005).wrapping_add(1442695040888963407);
        let pick = ((x >> 33) as usize) % (k + 1);
        a.swap(k, pick);
    }
    a
}

/// Runs the schedule on `a` and holds the outcome, whichever it is, against
/// the observer and against the yard's own books. Tells whether the
/// schedule completed.
fn check_run(n: usize, a: Vec<usize>) -> bool {
    let input = Input { n, a: a.clone() };
    assert!(input.is_valid());
    let mut solver = Solver::new(input);
    let res = solver.solve();
    let monitor = &solver.monitor;
    let crane = &monitor.cranes[0];
    let (left, end) = observe(n, &a, &crane.move_s);
    assert_eq!(end, (crane.pos_i, crane.pos_j, crane.hold));
    assert!(!crane.hold);
    for i in 1..n {
        assert_eq!(monitor.cranes[i].move_s, "B");
    }
    for lane in 0..n {
        let gone = monitor.get_out_cnt(lane);
        let in_rank_order: Vec<usize> = (0..gone).map(|j| lane * n + j).collect();
        assert_eq!(left[lane], in_rank_order);
        for j in 0..n {
            let c = monitor.get_container(lane, j);
            assert_eq!(c.is_out, j < gone);
            assert_eq!(c.is_in, c.in_j >= monitor.in_cnt[c.in_i]);
            assert_eq!(c.is_board, !c.is_out && !c.is_in);
            if c.is_board {
                assert_eq!(monitor.get_board(c.pos_i, c.pos_j), c.id);
            }
        }
        for j in 0..n {
            let id = monitor.get_board(lane, j);
            if id < n * n {
                assert_eq!(monitor.get_container_id(id).get_pos(), (lane, j));
            }
        }
    }
    match res {
        Ok(()) => {
            for lane in 0..n {
                assert!(monitor.is_done(lane));
                assert_eq!(monitor.move_cnt(lane), 0);
            }
            true
        }
        Err(NoFreeStorage { container }) => {
            for i in 0..n {
                for j in 1..n - 1 {
                    assert!(monitor.is_board(i, j));
                }
                assert_eq!(monitor.free_space(i), (0, 0));
            }
            let stuck = monitor.get_container_id(container);
            assert!(stuck.is_board);
            assert_eq!(stuck.get_pos(), (stuck.in_i, 0));
            assert!(!monitor.is_done(stuck.out_i));
            false
        }
    }
}

#[test]
fn shuffled_yards_are_emptied_or_stop_with_full_storage() {
    let mut completed = 0;
    let mut stopped = 0;
    for n in 2..8 {
        for seed in 0..40u64 {
            if check_run(n, shuffled(n, seed * 7919 + n as u64)) {
                completed += 1;
            } else {
                stopped += 1;
            }
        }
    }
    assert_eq!(completed + stopped, 6 * 40);
    assert!(completed > 0);
    assert!(stopped > 0);
}

#[test]
fn reversed_arrivals_of_five_lanes() {
    let a: Vec<usize> = (0..25).rev().collect();
    check_run(5, a);
}
