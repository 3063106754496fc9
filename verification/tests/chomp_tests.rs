use chomp::Bar;

#[test]
fn new_bar_ok() {
    let b = Bar::new(4, 5);
    assert!(b.contains(3, 2));
    assert!(b.contains(4, 3));
    assert!(!b.contains(5, 4));
    assert!(b.len() == 20);
}

#[test]
fn chomp_works() {
    let mut b = Bar::new(4, 5);
    assert!(b.contains(4, 3));
    b.chomp(2, 2);
    assert!(!b.contains(2, 2));
    assert!(b.contains(1, 3));
    assert!(b.contains(3, 1));
}

#[test]
fn new_bar_bounds() {
    let b = Bar::new(4, 5);
    for r in 0..8u64 {
        for c in 0..8u64 {
            assert_eq!(b.contains(r, c), r < 5 && c < 4);
        }
    }
}

#[test]
fn new_bar_degenerate() {
    let b = Bar::new(0, 5);
    assert_eq!(b.len(), 0);
    assert!(!b.contains(0, 0));
    let b = Bar::new(4, 0);
    assert_eq!(b.len(), 0);
    assert!(!b.contains(0, 0));
    let b = Bar::new(0, 0);
    assert_eq!(b.len(), 0);
}

#[test]
fn chomp_removes_exact_region() {
    let mut b = Bar::new(4, 5);
    b.chomp(2, 2);
    for r in 0..5u64 {
        for c in 0..4u64 {
            assert_eq!(b.contains(r, c), r < 2 || c < 2);
        }
    }
    assert_eq!(b.len(), 14);
}

#[test]
fn chomp_column_zero_drops_rows() {
    let mut b = Bar::new(3, 3);
    b.chomp(1, 0);
    for r in 0..3u64 {
        for c in 0..3u64 {
            assert_eq!(b.contains(r, c), r < 1);
        }
    }
    assert_eq!(b.len(), 3);
}

/// Every occupied cell of a staircase board has its upper and left
/// neighbours occupied too.
fn assert_staircase(b: &Bar, max_r: u64, max_c: u64) {
    for r in 0..max_r {
        for c in 0..max_c {
            if b.contains(r, c) {
                if r > 0 {
                    assert!(b.contains(r - 1, c));
                }
                if c > 0 {
                    assert!(b.contains(r, c - 1));
                }
            }
        }
    }
}

#[test]
fn staircase_kept_by_moves() {
    let mut b = Bar::new(4, 4);
    assert_staircase(&b, 6, 6);
    for &(r, c) in &[(3u64, 2u64), (1, 3), (2, 1), (0, 2)] {
        assert!(b.contains(r, c));
        b.chomp(r, c);
        assert_staircase(&b, 6, 6);
    }
}

#[test]
fn negamax_lone_poison_is_lost() {
    let b = Bar::new(1, 1);
    assert_eq!(b.negamax(), None);
}

#[test]
fn negamax_small_wins() {
    assert!(Bar::new(2, 1).negamax().is_some());
    assert!(Bar::new(1, 2).negamax().is_some());
    assert!(Bar::new(2, 2).negamax().is_some());
    assert!(Bar::new(3, 2).negamax().is_some());
    assert!(Bar::new(4, 3).negamax().is_some());
}

#[test]
fn negamax_reachable_loss() {
    // The L of three cells: whatever the mover does, the opponent can
    // hand back the lone poison cell.
    let mut b = Bar::new(2, 2);
    b.chomp(1, 1);
    assert_eq!(b.len(), 3);
    assert_eq!(b.negamax(), None);
}

/// The winning move a solver reports must leave the opponent without
/// one; check that on every position reachable from `b`.
fn assert_sound_everywhere(b: &Bar) {
    if let Some((r, c)) = b.negamax() {
        assert!(b.contains(r, c));
        assert!(!(r == 0 && c == 0));
        let mut next = b.clone();
        next.chomp(r, c);
        assert_eq!(next.negamax(), None);
    }
    for &(r, c) in b.occupied_cells().iter() {
        if !(r == 0 && c == 0) {
            let mut next = b.clone();
            next.chomp(r, c);
            assert_sound_everywhere(&next);
        }
    }
}

#[test]
fn negamax_sound_on_small_boards() {
    assert_sound_everywhere(&Bar::new(2, 2));
    assert_sound_everywhere(&Bar::new(3, 2));
}

#[test]
fn random_move_is_legal() {
    let mut b = Bar::new(3, 3);
    for _ in 0..20 {
        let (r, c) = b.random_move();
        assert!(b.contains(r, c));
    }
    b.chomp(1, 1);
    for _ in 0..20 {
        let (r, c) = b.random_move();
        assert!(b.contains(r, c));
    }
    let lone = Bar::new(1, 1);
    assert_eq!(lone.random_move(), (0, 0));
}

#[test]
fn occupied_cells_lists_all() {
    let mut b = Bar::new(3, 2);
    b.chomp(1, 2);
    let cells = b.occupied_cells();
    assert_eq!(cells.len() as u64, b.len());
    for &(r, c) in cells.iter() {
        assert!(b.contains(r, c));
    }
    let mut sorted = cells.clone();
    sorted.sort();
    assert_eq!(sorted, vec![(0, 0), (0, 1), (0, 2), (1, 0), (1, 1)]);
}

#[test]
fn full_game_reaches_poison() {
    // Play the solver against itself, falling back to a random legal
    // move when no forced win exists; the game must end with the poison
    // move, after at most one move per starting cell.
    let mut b = Bar::new(4, 3);
    let mut moves = 0;
    loop {
        let m = match b.negamax() {
            Some(m) => m,
            None => b.random_move(),
        };
        assert!(b.contains(m.0, m.1));
        if m == (0, 0) {
            break;
        }
        b.chomp(m.0, m.1);
        moves += 1;
        assert!(moves <= 12);
    }
}

#[test]
fn render_marks_rows_and_poison() {
    assert_eq!(Bar::new(1, 1).render(), "x\n");
    assert_eq!(Bar::new(2, 2).render(), "xo\noo\n");
    assert_eq!(Bar::new(0, 3).render(), "");
    let mut b = Bar::new(2, 2);
    b.chomp(1, 1);
    assert_eq!(b.render(), "xo\no\n");
    let mut b = Bar::new(4, 3);
    b.chomp(1, 2);
    assert_eq!(b.render(), "xooo\noo\noo\n");
}
