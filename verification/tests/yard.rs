use crane_yard::Container;
use crane_yard::Input;
use crane_yard::Monitor;

fn make_input() -> Input {
    let n = 5;
    let a: Vec<usize> = vec![
        24, 10, 17, 15, 13,
        14, 11,  2,  1,  5,
         7,  9,  6, 21, 20,
         8,  4, 19,  3, 16,
        18, 23, 22,  0, 12,
    ];
    Input { n, a }
}

#[test]
fn test_monitor() {
    let input = make_input();
    let mut monitor = Monitor::new(input.clone());

    // new
    assert_eq!(monitor.containers[0].in_i, 4);
    assert_eq!(monitor.containers[0].in_j, 3);
    assert_eq!(monitor.containers[0].out_i, 0);
    assert_eq!(monitor.containers[0].out_j, 0);

    // is_done
    for i in 0..input.n {
        assert!(!monitor.is_done(i));
    }

    // free_space
    assert_eq!(monitor.free_space(4), (4, 3));
    assert_eq!(monitor.free_space(1), (1, 3));

    // move_cnt
    assert_eq!(monitor.move_cnt(0), 12);

    // get_container
    let container = monitor.get_container(1, 0);
    assert_eq!(container.id, 5);

    // turn
    let ai = monitor.get_board(0, 0);
    assert_eq!(ai, 25);
    monitor.turn();
    let ai = monitor.get_board(1, 0);
    assert_eq!(ai, 14);
    assert_eq!(monitor.containers[ai].get_pos(), (1, 0));
    monitor.relocate(ai, (3, 3));
    let ai = monitor.get_board(3, 3);
    assert_eq!(ai, 14);
    let crane = &monitor.cranes[0];
    let pos = (crane.pos_i, crane.pos_j);
    assert_eq!(pos, (3, 3));

    monitor.turn();
    assert_eq!(monitor.get_board(0, 0), 24);
    let container = monitor.get_container_from_in(0, 0);
    assert_eq!(container.pos_i, 0);
    assert_eq!(container.pos_j, 0);
    monitor.relocate(24, (1, 1));
    let container = monitor.get_container_id(24);
    assert_eq!(container.pos_i, 1);
    assert_eq!(container.pos_j, 1);
    monitor.turn();
    assert_eq!(monitor.get_board(0, 0), 10);
}

#[test]
fn test_container() {
    let c = Container::new(5, 13, 0, 4);
    assert_eq!(c.n, 5);
    assert_eq!(c.id, 13);
    assert_eq!((c.in_i, c.in_j), (0, 4));
    assert_eq!((c.out_i, c.out_j), (2, 3));
    assert_eq!(c.get_pos(), (5, 5));
    assert_eq!(c.get_out_pos(), (2, 4));
    assert!(c.is_in);
    assert!(!c.is_board);
    assert!(!c.is_out);
}

#[test]
fn fresh_yard_is_empty_and_waiting() {
    let monitor = Monitor::new(make_input());
    assert_eq!(monitor.n, 5);
    assert_eq!(monitor.containers.len(), 25);
    assert_eq!(monitor.cranes.len(), 5);
    for id in 0..25 {
        let c = monitor.get_container_id(id);
        assert_eq!(c.id, id);
        assert_eq!(monitor.in_orders[c.in_i * 5 + c.in_j], id);
        assert!(c.is_in && !c.is_board && !c.is_out);
        assert_eq!(c.get_pos(), (5, 5));
    }
    for i in 0..5 {
        assert_eq!(monitor.get_out_cnt(i), 0);
        assert_eq!(monitor.in_cnt[i], 0);
        for j in 0..5 {
            assert_eq!(monitor.get_board(i, j), 25);
            assert!(!monitor.is_board(i, j));
        }
        let crane = &monitor.cranes[i];
        assert_eq!((crane.pos_i, crane.pos_j, crane.hold), (i, 0, false));
        assert_eq!(crane.is_big, i == 0);
        assert_eq!(crane.move_s, "");
    }
}

#[test]
fn first_turn_fills_every_inbound_frontier() {
    let mut monitor = Monitor::new(make_input());
    monitor.turn();
    let first = [24, 14, 7, 8, 18];
    for i in 0..5 {
        assert_eq!(monitor.get_board(i, 0), first[i]);
        assert!(monitor.is_board(i, 0));
        assert_eq!(monitor.in_cnt[i], 1);
        let c = monitor.get_container_id(first[i]);
        assert!(c.is_board && !c.is_in && !c.is_out);
        assert_eq!(c.get_pos(), (i, 0));
    }
    // A second turn changes nothing: the frontier cells are taken.
    monitor.turn();
    for i in 0..5 {
        assert_eq!(monitor.get_board(i, 0), first[i]);
        assert_eq!(monitor.in_cnt[i], 1);
        assert_eq!(monitor.get_out_cnt(i), 0);
    }
}

#[test]
fn relocation_after_one_turn_matches_hand_trace() {
    let mut monitor = Monitor::new(make_input());
    let zero = monitor.get_container_id(0);
    assert_eq!((zero.out_i, zero.out_j, zero.in_i, zero.in_j), (0, 0, 4, 3));
    monitor.turn();
    assert_eq!(monitor.get_board(1, 0), 14);
    monitor.relocate(14, (3, 3));
    assert_eq!(monitor.get_board(1, 0), 25);
    assert_eq!(monitor.get_board(3, 3), 14);
    assert_eq!(monitor.cranes[0].move_s, "DPDDRRRQ");
    monitor.turn();
    assert_eq!(monitor.get_board(0, 0), 24);
    assert_eq!(monitor.get_board(1, 0), 11);
    assert_eq!(monitor.in_cnt, vec![1, 2, 1, 1, 1]);
}

#[test]
fn container_leaves_through_its_lane_in_rank_order() {
    // n = 2, lanes already sorted: 0 and 1 leave through lane 0, 2 and 3
    // through lane 1.
    let mut monitor = Monitor::new(Input { n: 2, a: vec![0, 1, 2, 3] });
    monitor.turn();
    assert_eq!(monitor.get_board(0, 0), 0);
    assert_eq!(monitor.get_board(1, 0), 2);
    monitor.out(0);
    assert_eq!(monitor.get_board(0, 1), 0);
    assert_eq!(monitor.get_board(0, 0), 4);
    assert_eq!(monitor.cranes[0].move_s, "PRQ");
    assert_eq!(monitor.get_out_cnt(0), 0);
    monitor.turn();
    assert_eq!(monitor.get_out_cnt(0), 1);
    assert!(!monitor.is_done(0));
    assert_eq!(monitor.get_board(0, 1), 4);
    assert_eq!(monitor.get_board(0, 0), 1);
    let gone = monitor.get_container_id(0);
    assert!(gone.is_out && !gone.is_board && !gone.is_in);
    assert_eq!(gone.get_pos(), (2, 2));
    monitor.out(1);
    monitor.turn();
    assert_eq!(monitor.get_out_cnt(0), 2);
    assert!(monitor.is_done(0));
    assert!(!monitor.is_done(1));
}

#[test]
fn one_lane_yard_empties_in_one_turn() {
    let mut monitor = Monitor::new(Input { n: 1, a: vec![0] });
    assert_eq!(monitor.free_space(0), (0, 0));
    assert_eq!(monitor.move_cnt(0), 0);
    monitor.turn();
    assert_eq!(monitor.get_board(0, 0), 1);
    assert_eq!(monitor.get_out_cnt(0), 1);
    assert!(monitor.is_done(0));
    assert!(monitor.get_container_id(0).is_out);
}

#[test]
fn low_level_records_change_what_they_say() {
    let mut monitor = Monitor::new(Input { n: 3, a: vec![4, 1, 2, 3, 0, 5, 6, 7, 8] });
    monitor.set_board(4, (1, 1));
    assert_eq!(monitor.get_board(1, 1), 4);
    assert!(monitor.is_board(1, 1));
    let c = *monitor.get_container_id(4);
    assert!(c.is_board && !c.is_in && !c.is_out);
    assert_eq!(c.get_pos(), (1, 1));
    assert_eq!((c.in_i, c.in_j, c.out_i, c.out_j), (0, 0, 1, 1));

    monitor.remove_board((1, 1));
    assert_eq!(monitor.get_board(1, 1), 9);
    assert!(!monitor.is_board(1, 1));
    // The registry is left alone.
    assert!(monitor.get_container_id(4).is_board);

    monitor.set_board(4, (1, 2));
    monitor.set_out(4, (1, 2));
    assert_eq!(monitor.get_board(1, 2), 9);
    assert_eq!(monitor.get_out_cnt(1), 1);
    assert_eq!(monitor.get_out_cnt(0), 0);
    let c = *monitor.get_container_id(4);
    assert!(c.is_out && !c.is_in && !c.is_board);
    assert_eq!(c.get_pos(), (3, 3));
}

#[test]
fn pending_relocations_counts_arrivals_in_front() {
    let mut monitor = Monitor::new(make_input());
    // Lane 0 holds ids 0..5 at inbound ranks 3, 3, 2, 3, 1: 3+3+2+3+1.
    assert_eq!(monitor.move_cnt(0), 12);
    // Lane 1: ids 5..10 at ranks 4, 2, 0, 0, 1.
    assert_eq!(monitor.move_cnt(1), 7);
    monitor.turn();
    // One arrival per lane: every waiting container is one rank nearer, and
    // 7 and 8 are on the board.
    assert_eq!(monitor.move_cnt(0), 7);
    assert_eq!(monitor.move_cnt(1), 4);
}

#[test]
fn pending_relocations_is_zero_once_lane_has_arrived() {
    // Lane 0 of this yard is ids 0, 1, 2, which arrive first on each lane.
    let mut monitor = Monitor::new(Input { n: 3, a: vec![0, 3, 4, 1, 5, 6, 2, 7, 8] });
    assert_eq!(monitor.move_cnt(0), 0);
    monitor.turn();
    for id in 0..3 {
        assert!(monitor.get_container_id(id).is_board);
    }
    assert_eq!(monitor.move_cnt(0), 0);
    // Lane 2 still waits for 6 (rank 2 of lane 1), 7 and 8 (ranks 1, 2 of lane 2).
    assert_eq!(monitor.move_cnt(2), 1 + 0 + 1);
}

#[test]
fn free_space_search_order() {
    // Rows near row 2 of five: 2, 3, 1, 4, 0; columns from 3 down to 1.
    let order = [
        (2, 3), (2, 2), (2, 1),
        (3, 3), (3, 2), (3, 1),
        (1, 3), (1, 2), (1, 1),
        (4, 3), (4, 2), (4, 1),
        (0, 3), (0, 2), (0, 1),
    ];
    let mut monitor = Monitor::new(make_input());
    for (id, expected) in order.iter().enumerate() {
        assert_eq!(monitor.free_space(2), *expected);
        monitor.set_board(id, *expected);
    }
    assert_eq!(monitor.free_space(2), (0, 0));

    // Near the last row the rows below it are missing: 4, 3, 2, 1, 0.
    let mut monitor = Monitor::new(make_input());
    for (id, i) in [4usize, 3, 2, 1, 0].iter().enumerate() {
        for j in [3usize, 2, 1] {
            assert_eq!(monitor.free_space(4), (*i, j));
            monitor.set_board(3 * id + (3 - j), (*i, j));
        }
    }
    assert_eq!(monitor.free_space(4), (0, 0));

    // A taken cell is skipped, frontier columns are never offered.
    let mut monitor = Monitor::new(make_input());
    monitor.set_board(0, (0, 3));
    monitor.set_board(1, (0, 1));
    assert_eq!(monitor.free_space(0), (0, 2));
    monitor.set_board(2, (0, 2));
    assert_eq!(monitor.free_space(0), (1, 3));
    monitor.set_board(3, (0, 0));
    monitor.set_board(4, (1, 4));
    assert_eq!(monitor.free_space(0), (1, 3));
}

#[test]
fn free_space_reports_origin_when_storage_is_full() {
    // n = 3 has three storage cells: column 1 of each row.
    let mut monitor = Monitor::new(Input { n: 3, a: vec![0, 1, 2, 3, 4, 5, 6, 7, 8] });
    monitor.turn();
    assert_eq!(monitor.free_space(2), (2, 1));
    monitor.relocate(0, (2, 1));
    assert_eq!(monitor.free_space(2), (1, 1));
    monitor.relocate(3, (1, 1));
    assert_eq!(monitor.free_space(2), (0, 1));
    assert_eq!(monitor.free_space(0), (0, 1));
    monitor.relocate(6, (0, 1));
    assert_eq!(monitor.free_space(2), (0, 0));
    assert_eq!(monitor.free_space(0), (0, 0));
    // n = 2 has no storage cell at all.
    let small = Monitor::new(Input { n: 2, a: vec![0, 1, 2, 3] });
    assert_eq!(small.free_space(0), (0, 0));
    assert_eq!(small.free_space(1), (0, 0));
}

#[test]
fn board_and_registry_agree_after_every_step() {
    let mut monitor = Monitor::new(make_input());
    let check = |m: &Monitor| {
        let mut on_board = 0;
        for i in 0..5 {
            for j in 0..5 {
                let id = m.get_board(i, j);
                assert!(id <= 25);
                if id < 25 {
                    on_board += 1;
                    let c = m.get_container_id(id);
                    assert!(c.is_board);
                    assert_eq!(c.get_pos(), (i, j));
                }
            }
        }
        let mut flagged = 0;
        for id in 0..25 {
            let c = m.get_container_id(id);
            let flags = [c.is_in, c.is_board, c.is_out];
            assert_eq!(flags.iter().filter(|f| **f).count(), 1);
            if c.is_board {
                flagged += 1;
                assert_eq!(m.get_board(c.pos_i, c.pos_j), id);
            } else {
                assert_eq!(c.get_pos(), (5, 5));
            }
        }
        assert_eq!(on_board, flagged);
    };
    check(&monitor);
    monitor.turn();
    check(&monitor);
    monitor.relocate(14, (3, 3));
    check(&monitor);
    monitor.turn();
    check(&monitor);
    monitor.relocate(24, (1, 1));
    check(&monitor);
    monitor.turn();
    check(&monitor);
    monitor.relocate(11, (1, 3));
    check(&monitor);
    monitor.turn();
    check(&monitor);
}
