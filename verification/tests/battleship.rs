use rust_labs::battleship::{Board, Boat, Error, BSIZE};

#[test]
fn test_new_board() {
    let boats = [4, 3, 2, 1];
    let board = Board::new(&boats);
    assert_eq!(board.boats, boats);
    for row in &board.data {
        for &cell in row {
            assert_eq!(cell, 0);
        }
    }
}

#[test]
fn test_add_boat_success() {
    let boats = [1, 0, 0, 0];
    let mut board = Board::new(&boats);
    let result = board.add_boat(Boat::Horizontal(1), (0, 0));
    assert!(result.is_ok());
    assert_eq!(board.data[0][0], 1);
}

#[test]
fn test_add_boat_out_of_bounds() {
    let boats = [1, 0, 0, 0];
    let mut board = Board::new(&boats);
    let result = board.add_boat(Boat::Horizontal(1), (BSIZE, BSIZE));
    assert!(matches!(result, Err(Error::OutOfBounds)));
}

#[test]
fn test_add_boat_overlap() {
    let boats = [2, 0, 0, 0];
    let mut board = Board::new(&boats);
    board.add_boat(Boat::Horizontal(1), (0, 0)).unwrap();
    let result = board.add_boat(Boat::Horizontal(1), (0, 0));
    assert!(matches!(result, Err(Error::Overlap)));
}

#[test]
fn test_add_boat_touching() {
    let boats = [0, 2, 0, 0];
    let mut board = Board::new(&boats);
    board.add_boat(Boat::Horizontal(2), (0, 0)).unwrap();
    let result = board.add_boat(Boat::Horizontal(2), (0, 1));
    assert!(matches!(result, Err(Error::Overlap)));
}

#[test]
fn test_to_string() {
    let boats = [1, 0, 0, 0];
    let mut board = Board::new(&boats);
    board.add_boat(Boat::Horizontal(1), (0, 0)).unwrap();
    let board_str = board.to_string();
    let expected_str = "0 0 0 0\n\
    B - - - - - - - - - - - - - - - - - - - \n\
    - - - - - - - - - - - - - - - - - - - - \n\
    - - - - - - - - - - - - - - - - - - - - \n\
    - - - - - - - - - - - - - - - - - - - - \n\
    - - - - - - - - - - - - - - - - - - - - \n\
    - - - - - - - - - - - - - - - - - - - - \n\
    - - - - - - - - - - - - - - - - - - - - \n\
    - - - - - - - - - - - - - - - - - - - - \n\
    - - - - - - - - - - - - - - - - - - - - \n\
    - - - - - - - - - - - - - - - - - - - - \n\
    - - - - - - - - - - - - - - - - - - - - \n\
    - - - - - - - - - - - - - - - - - - - - \n\
    - - - - - - - - - - - - - - - - - - - - \n\
    - - - - - - - - - - - - - - - - - - - - \n\
    - - - - - - - - - - - - - - - - - - - - \n\
    - - - - - - - - - - - - - - - - - - - - \n\
    - - - - - - - - - - - - - - - - - - - - \n\
    - - - - - - - - - - - - - - - - - - - - \n\
    - - - - - - - - - - - - - - - - - - - - \n\
    - - - - - - - - - - - - - - - - - - - - \n";
    assert_eq!(board_str, expected_str);
}

#[test]
fn board_boat_count_exhausted() {
    let mut board = Board::new(&[0, 0, 1, 0]);
    let result = board.add_boat(Boat::Vertical(1), (3, 3));
    assert!(matches!(result, Err(Error::BoatCount)));
    assert_eq!(board.data[3][3], 0);
}

#[test]
fn board_vertical_boat_marks_column_and_counts_down() {
    let mut board = Board::new(&[0, 0, 1, 0]);
    board.add_boat(Boat::Vertical(3), (17, 5)).unwrap();
    assert_eq!(board.boats, [0, 0, 0, 0]);
    assert_eq!(board.data[17][5], 1);
    assert_eq!(board.data[18][5], 1);
    assert_eq!(board.data[19][5], 1);
    assert_eq!(board.data[16][5], 0);
}

#[test]
fn board_vertical_boat_past_edge_is_out_of_bounds() {
    let mut board = Board::new(&[0, 0, 1, 0]);
    let result = board.add_boat(Boat::Vertical(3), (18, 5));
    assert!(matches!(result, Err(Error::OutOfBounds)));
}

#[test]
fn board_overlap_keeps_cells_marked_before_the_clash() {
    let mut board = Board::new(&[1, 0, 1, 0]);
    board.add_boat(Boat::Horizontal(1), (0, 2)).unwrap();
    let result = board.add_boat(Boat::Horizontal(3), (0, 0));
    assert!(matches!(result, Err(Error::Overlap)));
    assert_eq!(board.data[0][0], 1);
    assert_eq!(board.data[0][1], 1);
    assert_eq!(board.boats, [0, 0, 1, 0]);
}

#[test]
fn board_from_reads_counts_and_cells() {
    let board = Board::from("4 3 +2 1\nB - B\n- B".to_string());
    assert_eq!(board.boats, [4, 3, 2, 1]);
    assert_eq!(board.data[0][0], 1);
    assert_eq!(board.data[0][1], 0);
    assert_eq!(board.data[0][2], 1);
    assert_eq!(board.data[1][0], 0);
    assert_eq!(board.data[1][1], 1);
    assert_eq!(board.data[1][4], 0);
    assert_eq!(board.data[2][0], 0);
}

#[test]
fn board_round_trips_through_its_text() {
    let mut board = Board::new(&[1, 2, 0, 1]);
    board.add_boat(Boat::Horizontal(1), (0, 0)).unwrap();
    board.add_boat(Boat::Vertical(4), (16, 19)).unwrap();
    board.add_boat(Boat::Horizontal(2), (5, 7)).unwrap();
    let text = board.to_string();
    let back = Board::from(text.clone());
    assert_eq!(back.boats, board.boats);
    assert_eq!(back.data, board.data);
    assert_eq!(back.to_string(), text);
}
