use reversi::board::position::BoardPosition;
use reversi::game::engine::{BoardSize, BoardSizeError, GameData, PlaceError};
use reversi::game::player::{Player, Turn};

#[test]
fn player_next() {
    assert_eq!(Player::Black.next(), Player::White);
    assert_eq!(Player::White.next(), Player::Black);
    assert_eq!(Player::Empty.next(), Player::Empty);
}

#[test]
fn turn_next() {
    assert_eq!(Turn::Black.next(), Turn::White);
    assert_eq!(Turn::White.next(), Turn::Black);
    let mut t = Turn::Black;
    t.next_mut();
    assert_eq!(t, Turn::White);
}

#[test]
fn turn_player() {
    assert_eq!(Turn::Black.player(), Player::Black);
    assert_eq!(Turn::White.player(), Player::White);
}

#[test]
fn odd_board_size_rejected() {
    assert_eq!(BoardSize::new(7), Err(BoardSizeError::Odd));
    assert_eq!(BoardSize::new(8).unwrap().size(), 8);
}

#[test]
fn initial_board_and_moves() {
    let eight = BoardSize::new(8).unwrap();
    let game = GameData::new(Turn::Black, eight, eight);
    let b = game.board();
    assert_eq!(b.cell_ref(&BoardPosition { x: 3, y: 3 }), Some(&Player::Black));
    assert_eq!(b.cell_ref(&BoardPosition { x: 4, y: 3 }), Some(&Player::White));
    assert_eq!(b.cell_ref(&BoardPosition { x: 3, y: 4 }), Some(&Player::White));
    assert_eq!(b.cell_ref(&BoardPosition { x: 4, y: 4 }), Some(&Player::Black));
    assert_eq!(b.cell_ref(&BoardPosition { x: 0, y: 0 }), Some(&Player::Empty));
    assert_eq!(*game.turn(), Turn::Black);
    assert_eq!(game.current_player(), Player::Black);
    assert_eq!(game.opposite_player(), Player::White);

    let moves = game.legal_moves_for(Player::Black);
    assert_eq!(moves.len(), 4);
    for (x, y) in [(5i64, 3i64), (4, 2), (3, 5), (2, 4)] {
        assert!(moves.contains(&BoardPosition { x, y }));
    }

    let (black, white) = game.scores();
    assert_eq!((black, white), (2, 2));
}

#[test]
fn place_flips_flanked_run() {
    let eight = BoardSize::new(8).unwrap();
    let mut game = GameData::new(Turn::Black, eight, eight);
    let pos = BoardPosition { x: 5, y: 3 };
    let flipped = game.place(Player::Black, pos).unwrap();
    assert_eq!(flipped, vec![BoardPosition { x: 4, y: 3 }]);
    for x in 0..8i64 {
        for y in 0..8i64 {
            let expect = match (x, y) {
                (3, 3) | (4, 4) | (4, 3) | (5, 3) => Player::Black,
                (3, 4) => Player::White,
                _ => Player::Empty,
            };
            assert_eq!(game.board().cell_ref(&BoardPosition { x, y }), Some(&expect));
        }
    }

    let mut before: Vec<Player> = Vec::new();
    for x in 0..8i64 {
        for y in 0..8i64 {
            before.push(*game.board().cell_ref(&BoardPosition { x, y }).unwrap());
        }
    }
    assert_eq!(game.place(Player::Black, pos), Err(PlaceError::IllegalMove));
    let mut after: Vec<Player> = Vec::new();
    for x in 0..8i64 {
        for y in 0..8i64 {
            after.push(*game.board().cell_ref(&BoardPosition { x, y }).unwrap());
        }
    }
    assert_eq!(before, after);
}

#[test]
fn place_out_of_turn_rejected() {
    let eight = BoardSize::new(8).unwrap();
    let mut game = GameData::new(Turn::Black, eight, eight);
    let pos = BoardPosition { x: 5, y: 3 };
    assert_eq!(game.place(Player::White, pos), Err(PlaceError::IllegalMove));
    assert_eq!(game.place(Player::Empty, pos), Err(PlaceError::IllegalMove));
}

#[test]
fn forced_pass_activates_opponent() {
    let four = BoardSize::new(4).unwrap();
    let mut game = GameData::new(Turn::Black, four, four);
    let seq: [(Player, i64, i64); 8] = [
        (Player::Black, 0, 2),
        (Player::White, 0, 1),
        (Player::Black, 0, 0),
        (Player::White, 0, 3),
        (Player::Black, 1, 3),
        (Player::White, 2, 3),
        (Player::Black, 3, 0),
        (Player::White, 1, 0),
    ];
    for (p, x, y) in seq {
        assert_eq!(game.current_player(), p);
        assert!(game.place(p, BoardPosition { x, y }).is_ok());
        game.advance_turn();
    }
    // Black plays (2,0); White then has no legal move and is silently
    // passed without a placement.
    assert_eq!(*game.turn(), Turn::Black);
    assert!(game.place(Player::Black, BoardPosition { x: 2, y: 0 }).is_ok());
    assert!(game.legal_moves_for(Player::White).is_empty());
    assert!(!game.legal_moves_for(Player::Black).is_empty());
    game.advance_turn();
    assert_eq!(*game.turn(), Turn::Black);
    assert!(!game.is_game_over());
}

#[test]
fn double_pass_ends_game() {
    let two = BoardSize::new(2).unwrap();
    let mut game = GameData::new(Turn::Black, two, two);
    assert!(!game.is_game_over());
    assert!(game.legal_moves_for(Player::Black).is_empty());
    assert!(game.legal_moves_for(Player::White).is_empty());
    game.advance_turn();
    assert!(game.is_game_over());
    let (black, white) = game.scores();
    // every cell of the 2x2 board is seeded, so the scores sum to the full
    // cell count with no empties left over
    assert_eq!((black, white), (2, 2));
}

#[test]
fn replay_reproduces_board() {
    let four = BoardSize::new(4).unwrap();
    let seq: [(Player, i64, i64); 9] = [
        (Player::Black, 0, 2),
        (Player::White, 0, 1),
        (Player::Black, 0, 0),
        (Player::White, 0, 3),
        (Player::Black, 1, 3),
        (Player::White, 2, 3),
        (Player::Black, 3, 0),
        (Player::White, 1, 0),
        (Player::Black, 2, 0),
    ];
    let mut g1 = GameData::new(Turn::Black, four, four);
    for (p, x, y) in seq {
        assert!(g1.place(p, BoardPosition { x, y }).is_ok());
        g1.advance_turn();
    }
    let mut g2 = GameData::new(Turn::Black, four, four);
    for (p, x, y) in seq {
        assert!(g2.place(p, BoardPosition { x, y }).is_ok());
        g2.advance_turn();
    }
    for x in 0..4i64 {
        for y in 0..4i64 {
            assert_eq!(
                g1.board().cell_ref(&BoardPosition { x, y }),
                g2.board().cell_ref(&BoardPosition { x, y })
            );
        }
    }
}

#[test]
fn reset_restores_opening() {
    let eight = BoardSize::new(8).unwrap();
    let mut game = GameData::new(Turn::Black, eight, eight);
    assert!(game.place(Player::Black, BoardPosition { x: 5, y: 3 }).is_ok());
    game.advance_turn();
    game.reset();
    assert_eq!(*game.turn(), Turn::Black);
    let (black, white) = game.scores();
    assert_eq!((black, white), (2, 2));
    assert_eq!(
        game.board().cell_ref(&BoardPosition { x: 5, y: 3 }),
        Some(&Player::Empty)
    );
    assert_eq!(
        game.board().cell_ref(&BoardPosition { x: 3, y: 3 }),
        Some(&Player::Black)
    );
}

#[test]
fn notify_turn_stuck_log() {
    let eight = BoardSize::new(8).unwrap();
    let mut game = GameData::new(Turn::Black, eight, eight);
    assert!(!game.is_turn_stuck());
    game.notify_turn_stuck();
    assert!(!game.is_turn_stuck());
    game.next_turn();
    game.notify_turn_stuck();
    assert!(game.is_turn_stuck());
    assert!(game.is_game_over());
}
