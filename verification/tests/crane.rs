use crane_yard::Crane;

/// Replays a command string on a fresh crane of row `home`.
fn replay(home: usize, commands: &str) -> (i64, i64, bool) {
    let mut row = home as i64;
    let mut col = 0i64;
    let mut holding = false;
    for c in commands.chars() {
        match c {
            'U' => row -= 1,
            'D' => row += 1,
            'L' => col -= 1,
            'R' => col += 1,
            'P' => holding = true,
            'Q' => holding = false,
            'B' => {}
            other => panic!("unknown command {}", other),
        }
    }
    (row, col, holding)
}

#[test]
fn new_crane_waits_at_inbound_end() {
    let big = Crane::new(0);
    assert!(big.is_big);
    assert_eq!((big.pos_i, big.pos_j, big.hold), (0, 0, false));
    assert_eq!(big.move_s, "");
    let small = Crane::new(3);
    assert!(!small.is_big);
    assert_eq!((small.pos_i, small.pos_j, small.hold), (3, 0, false));
    assert_eq!(small.move_s, "");
}

#[test]
fn move_to_goes_rows_first_then_columns() {
    let mut crane = Crane::new(0);
    crane.move_to((3, 2));
    assert_eq!(crane.move_s, "DDDRR");
    assert_eq!((crane.pos_i, crane.pos_j), (3, 2));
    crane.move_to((1, 4));
    assert_eq!(crane.move_s, "DDDRRUURR");
    crane.move_to((1, 0));
    assert_eq!(crane.move_s, "DDDRRUURRLLLL");
    crane.move_to((1, 0));
    assert_eq!(crane.move_s, "DDDRRUURRLLLL");
    crane.move_to((0, 0));
    assert_eq!(crane.move_s, "DDDRRUURRLLLLU");
    assert_eq!((crane.pos_i, crane.pos_j), (0, 0));
}

#[test]
fn grab_release_and_retire_are_recorded() {
    let mut crane = Crane::new(2);
    crane.hold();
    assert!(crane.hold);
    assert_eq!(crane.move_s, "P");
    crane.move_to((2, 1));
    crane.set();
    assert!(!crane.hold);
    assert_eq!(crane.move_s, "PRQ");
    crane.bomb();
    assert_eq!(crane.move_s, "PRQB");
    assert_eq!((crane.pos_i, crane.pos_j, crane.hold), (2, 1, false));
}

#[test]
fn replaying_the_commands_gives_the_recorded_state() {
    let mut crane = Crane::new(1);
    let stops = [(4, 4), (0, 2), (0, 0), (3, 1), (3, 1), (1, 0)];
    for (k, stop) in stops.iter().enumerate() {
        crane.move_to(*stop);
        if k % 2 == 0 {
            crane.hold();
        } else {
            crane.set();
        }
        let (row, col, holding) = replay(1, &crane.move_s);
        assert_eq!((row, col), (crane.pos_i as i64, crane.pos_j as i64));
        assert_eq!(holding, crane.hold);
    }
    assert_eq!(crane.move_s, "DDDRRRRPUUUULLQLLPDDDRQPUULQ");
}
