use connect_four_nd::dirs::generate_check_vecs;
use connect_four_nd::Color;
use connect_four_nd::GameError;
use connect_four_nd::GameState;

#[test]
fn axis_full_leaves_board_unchanged() {
    let mut game = GameState::new(&[2, 3]).unwrap();

    // exhaust the drop axis above the fixed coordinate [1]
    for _ in 0..3 {
        assert_eq!(game.play_disk(Color::Red, &mut vec![1]), Ok(false));
    }

    let before = game.clone();
    let round_before = game.current_round();
    let mut pos = vec![1];
    assert_eq!(game.play_disk(Color::Red, &mut pos), Err(GameError::AxisFull));
    assert_eq!(pos, vec![1]);
    assert_eq!(game, before);
    assert_eq!(game.current_round(), round_before);
}

#[test]
fn direction_set_size_follows_dimension_count() {
    for d in 2..=6usize {
        let dirs = generate_check_vecs(d);
        let expected = (3usize.pow(d as u32) - 1) / 2;
        assert_eq!(dirs.len(), expected);
        for v in &dirs {
            assert_eq!(v.len(), d);
            // no direction is the zero vector
            assert!(v.iter().any(|&c| c != 0));
        }
        for i in 0..dirs.len() {
            for j in 0..dirs.len() {
                if i != j {
                    assert!(dirs[i] != dirs[j]);
                }
                // no direction is another's negation
                let neg: Vec<isize> = dirs[j].iter().map(|&c| -c).collect();
                assert!(dirs[i] != neg);
            }
        }
    }
}

#[test]
fn four_in_a_row_horizontal() {
    let mut game = GameState::new(&[7, 6]).unwrap();
    assert_eq!(game.play_disk(Color::Red, &mut vec![0]), Ok(false));
    assert_eq!(game.play_disk(Color::Red, &mut vec![1]), Ok(false));
    assert_eq!(game.play_disk(Color::Red, &mut vec![2]), Ok(false));
    assert_eq!(game.play_disk(Color::Red, &mut vec![3]), Ok(true));
}

#[test]
fn four_in_a_row_vertical() {
    let mut game = GameState::new(&[7, 6]).unwrap();
    for _ in 0..3 {
        assert_eq!(game.play_disk(Color::Yellow, &mut vec![4]), Ok(false));
    }
    let mut pos = vec![4];
    assert_eq!(game.play_disk(Color::Yellow, &mut pos), Ok(true));
    // the winning disk landed on top of the three below it
    assert_eq!(pos, vec![4, 3]);
}

#[test]
fn diagonal_win_in_three_dimensions() {
    let mut game = GameState::new(&[6, 7, 4]).unwrap();

    // four red disks along the space diagonal (k, k, k); yellow disks
    // under them raise each column to the needed height
    assert_eq!(game.play_disk(Color::Red, &mut vec![0, 0]), Ok(false));
    assert_eq!(game.play_disk(Color::Yellow, &mut vec![1, 1]), Ok(false));
    assert_eq!(game.play_disk(Color::Red, &mut vec![1, 1]), Ok(false));
    assert_eq!(game.play_disk(Color::Yellow, &mut vec![2, 2]), Ok(false));
    assert_eq!(game.play_disk(Color::Yellow, &mut vec![2, 2]), Ok(false));
    assert_eq!(game.play_disk(Color::Red, &mut vec![2, 2]), Ok(false));
    assert_eq!(game.play_disk(Color::Yellow, &mut vec![3, 3]), Ok(false));
    assert_eq!(game.play_disk(Color::Yellow, &mut vec![3, 3]), Ok(false));
    assert_eq!(game.play_disk(Color::Yellow, &mut vec![3, 3]), Ok(false));
    let mut pos = vec![3, 3];
    assert_eq!(game.play_disk(Color::Red, &mut pos), Ok(true));
    assert_eq!(pos, vec![3, 3, 3]);
}

#[test]
fn run_at_edge_is_clipped_by_boundary() {
    let mut game = GameState::new(&[4, 4]).unwrap();
    // three red disks whose continuation on one side leaves the board
    assert_eq!(game.play_disk(Color::Red, &mut vec![1]), Ok(false));
    assert_eq!(game.play_disk(Color::Red, &mut vec![2]), Ok(false));
    assert_eq!(game.play_disk(Color::Red, &mut vec![3]), Ok(false));
    // a further disk elsewhere still wins nothing
    assert_eq!(game.play_disk(Color::Red, &mut vec![1]), Ok(false));
}

#[test]
fn round_counter_tracks_disks_played() {
    let mut game = GameState::new(&[7, 6]).unwrap();
    assert_eq!(game.max_rounds(), 42);
    assert_eq!(game.current_round(), 1);
    assert_eq!(game.disks_played(), 0);

    // six alternating disks fill the first column without a win
    for k in 0..6 {
        let color = if k % 2 == 0 { Color::Red } else { Color::Yellow };
        assert_eq!(game.play_disk(color, &mut vec![0]), Ok(false));
        assert_eq!(game.current_round(), k + 2);
        assert_eq!(game.disks_played(), k + 1);
    }

    // a rejected move leaves the counter alone
    assert_eq!(game.play_disk(Color::Red, &mut vec![0]), Err(GameError::AxisFull));
    assert_eq!(game.current_round(), 7);
    assert_eq!(game.disks_played(), 6);

    // two quiet moves advance it by one each
    assert_eq!(game.play_disk(Color::Red, &mut vec![1]), Ok(false));
    assert_eq!(game.play_disk(Color::Red, &mut vec![2]), Ok(false));
    assert_eq!(game.current_round(), 9);

    // a winning move does not advance it: the bottom row holds red disks
    // at the first four columns
    assert_eq!(game.play_disk(Color::Red, &mut vec![3]), Ok(true));
    assert_eq!(game.current_round(), 9);
    assert_eq!(game.disks_played(), 8);
}
