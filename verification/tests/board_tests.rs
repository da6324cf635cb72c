use reversi::board::builder::{BuildError, BuildResult, Builder};
use reversi::board::direction::{Axis, Direction};
use reversi::board::grid::Board;
use reversi::board::position::{position_pairs, BoardPosition};
use reversi::board::scan::Iter;
use reversi::board::size::{Size, SizeError};

#[test]
fn ok() {
    assert!(Builder::new()
        .size(Size::new(1, 1).unwrap())
        .build::<()>(())
        .is_ok());
}

#[test]
fn missing_size() {
    let result = Builder::new().build::<()>(());
    assert_eq!(result, BuildResult::Err(BuildError::MissingSize));
}

#[test]
fn apply_up() {
    let mut pos = BoardPosition { x: 1, y: 1 };
    pos.apply_direction(&Direction::Up, 1);
    assert_eq!(pos, BoardPosition { x: 1, y: 2 });
}

#[test]
fn apply_down() {
    let mut pos = BoardPosition { x: 1, y: 1 };
    pos.apply_direction(&Direction::Down, 1);
    assert_eq!(pos, BoardPosition { x: 1, y: 0 });
}

#[test]
fn apply_left() {
    let mut pos = BoardPosition { x: 1, y: 1 };
    pos.apply_direction(&Direction::Left, 1);
    assert_eq!(pos, BoardPosition { x: 0, y: 1 });
}

#[test]
fn apply_right() {
    let mut pos = BoardPosition { x: 1, y: 1 };
    pos.apply_direction(&Direction::Right, 1);
    assert_eq!(pos, BoardPosition { x: 2, y: 1 });
}

#[test]
fn apply_up_left() {
    let mut pos = BoardPosition { x: 1, y: 1 };
    pos.apply_direction(&Direction::UpLeft, 1);
    assert_eq!(pos, BoardPosition { x: 0, y: 2 });
}

#[test]
fn apply_up_right() {
    let mut pos = BoardPosition { x: 1, y: 1 };
    pos.apply_direction(&Direction::UpRight, 1);
    assert_eq!(pos, BoardPosition { x: 2, y: 2 });
}

#[test]
fn apply_down_left() {
    let mut pos = BoardPosition { x: 1, y: 1 };
    pos.apply_direction(&Direction::DownLeft, 1);
    assert_eq!(pos, BoardPosition { x: 0, y: 0 });
}

#[test]
fn apply_down_right() {
    let mut pos = BoardPosition { x: 1, y: 1 };
    pos.apply_direction(&Direction::DownRight, 1);
    assert_eq!(pos, BoardPosition { x: 2, y: 0 });
}

#[test]
fn up() {
    let size: Size = Size::new(1, 2).unwrap();
    let board = Board::<()>::new(size, ());
    let mut iter = Iter::new(&board, BoardPosition { x: 0, y: 0 }, Direction::Up, 1);
    assert!(iter.next(&board).is_some());
    assert!(iter.next(&board).is_none());
}

#[test]
fn mutate() {
    type Cell = Option<()>;
    let size: Size = Size::new(1, 2).unwrap();
    let mut board = Board::<Cell>::new(size, None);
    let mut iter = Iter::new(&board, BoardPosition { x: 0, y: 0 }, Direction::Up, 1);
    let mut visited: Vec<BoardPosition> = Vec::new();
    while let Some((pos, _)) = iter.next(&board) {
        visited.push(pos);
    }
    for pos in &visited {
        assert!(board.set_cell(pos, Some(())));
    }
    let mut board2 = Board::<Cell>::new(size, None);
    assert!(board2.set_cell(&BoardPosition { x: 0, y: 1 }, Some(())));
    assert_eq!(board, board2);
}

#[test]
fn zero_size_rejected() {
    assert_eq!(Size::new(0, 4), Err(SizeError::ZeroSize(Axis::X)));
    assert_eq!(Size::new(4, 0), Err(SizeError::ZeroSize(Axis::Y)));
    assert_eq!(Size::new(0, 0), Err(SizeError::ZeroSize(Axis::X)));
    assert!(Size::new(1, 1).is_ok());
}

#[test]
fn size_accessors() {
    let s = Size::new(3, 9).unwrap();
    assert_eq!(s.x(), 3);
    assert_eq!(s.y(), 9);
}

#[test]
fn grid_fully_populated() {
    let size = Size::new(3, 5).unwrap();
    let board = Board::<u8>::new(size, 7);
    let mut n = 0;
    for x in 0..3i64 {
        for y in 0..5i64 {
            assert_eq!(board.cell_ref(&BoardPosition { x, y }), Some(&7));
            n += 1;
        }
    }
    assert_eq!(n, 15);
    assert!(board.cell_ref(&BoardPosition { x: 3, y: 0 }).is_none());
    assert!(board.cell_ref(&BoardPosition { x: 0, y: 5 }).is_none());
    assert!(board.cell_ref(&BoardPosition { x: -1, y: 0 }).is_none());
}

#[test]
fn set_cell_out_of_range() {
    let size = Size::new(2, 2).unwrap();
    let mut board = Board::<u8>::new(size, 0);
    assert!(!board.set_cell(&BoardPosition { x: 2, y: 0 }, 9));
    assert!(!board.set_cell(&BoardPosition { x: 0, y: -1 }, 9));
    for x in 0..2i64 {
        for y in 0..2i64 {
            assert_eq!(board.cell_ref(&BoardPosition { x, y }), Some(&0));
        }
    }
}

#[test]
fn ray_reaches_edge() {
    let size = Size::new(8, 8).unwrap();
    let board = Board::<u8>::new(size, 0);
    let start = BoardPosition { x: 2, y: 3 };
    let mut it = Iter::new(&board, start, Direction::Right, 1);
    let mut count = 0;
    while let Some((pos, _)) = it.next(&board) {
        assert_ne!(pos, start);
        count += 1;
    }
    assert_eq!(count, 5);
    assert!(it.next(&board).is_none());

    let mut it2 = Iter::new(&board, start, Direction::UpRight, 1);
    let mut count2 = 0;
    while it2.next(&board).is_some() {
        count2 += 1;
    }
    assert_eq!(count2, 4);

    let mut it3 = Iter::new(&board, start, Direction::Left, 1);
    let mut count3 = 0;
    while it3.next(&board).is_some() {
        count3 += 1;
    }
    assert_eq!(count3, 2);
}

#[test]
fn position_pairs_row_major() {
    let pairs = position_pairs(2, 3);
    assert_eq!(pairs, vec![(0, 0), (1, 0), (0, 1), (1, 1), (0, 2), (1, 2)]);
    assert!(position_pairs(0, 3).is_empty());
}
