use connect_four_nd::Color;
use connect_four_nd::GameError;
use connect_four_nd::GameState;

#[test]
fn create_with_less_than_two_dimensions() {
    assert_eq!(GameState::new(&[]), Err(GameError::TooFewDimensions));
    assert_eq!(GameState::new(&[6]), Err(GameError::TooFewDimensions));
}

#[test]
fn create_with_up_to_ten_dimensions() {
    let n_dims: usize = 10;
    let dims: [usize; 10] = [3; 10];
    for i in 1..n_dims - 1 {
        assert!(GameState::new(&dims[0..=i]).is_ok());
    }
}

#[test]
fn d2_board_full() {
    let dims: [usize; 10] = [3; 10];
    let mut game = GameState::new(&dims[0..2]).unwrap();

    // fill the board with yellow disks
    // the game can't finish, since no dimension is longer than 3
    for i in 0..game.max_rounds() {
        assert_eq!(game.play_disk(Color::Yellow, &mut vec![i % 3]), Ok(false));
    }

    // check every possible input location
    for i in 0..3 {
        assert_eq!(
            game.play_disk(Color::Yellow, &mut vec![i]),
            Err(GameError::BoardFull)
        );
    }
}

#[test]
fn d2_big_board_full() {
    let x = 1001;
    let y = 1000;
    let mut game = GameState::new(&[x, y]).unwrap();

    // fill the board
    let mut last_played = Color::Red;
    let mut cur_color = Color::Yellow;

    for i in 0..game.max_rounds() {
        assert_eq!(game.play_disk(cur_color, &mut vec![i * 2 % x]), Ok(false));
        std::mem::swap(&mut last_played, &mut cur_color);
    }

    // check every possible input location
    for i in 0..y {
        assert_eq!(
            game.play_disk(Color::Yellow, &mut vec![i]),
            Err(GameError::BoardFull)
        );
    }
}
