use rusty_at_sudoku::grid::Field::Empty;
use rusty_at_sudoku::{Field, Sudoku};

#[test]
fn empty_puzzle() {
    let str_puzzle = "* * * * * * * * *\n".to_owned()
        + "* * * * * * * * *\n"
        + "* * * * * * * * *\n"
        + "* * * * * * * * *\n"
        + "* * * * * * * * *\n"
        + "* * * * * * * * *\n"
        + "* * * * * * * * *\n"
        + "* * * * * * * * *\n"
        + "* * * * * * * * *\n";

    let puzzle = Sudoku::read_from(str_puzzle.as_bytes()).unwrap();

    for field in puzzle.into_iter() {
        assert_eq!(field, Empty);
    }
}

#[test]
fn full_puzzle() {
    let str_puzzle = "1 2 3 4 5 6 7 8 9\n".to_owned()
        + "1 2 3 4 5 6 7 8 9\n"
        + "1 2 3 4 5 6 7 8 9\n"
        + "1 2 3 4 5 6 7 8 9\n"
        + "1 2 3 4 5 6 7 8 9\n"
        + "1 2 3 4 5 6 7 8 9\n"
        + "1 2 3 4 5 6 7 8 9\n"
        + "1 2 3 4 5 6 7 8 9\n"
        + "1 2 3 4 5 6 7 8 9\n";

    let puzzle = Sudoku::read_from(str_puzzle.as_bytes()).unwrap();
    let mut expectation = 1;

    for field in puzzle.into_iter() {
        assert_eq!(field, Field::Filled(expectation));

        expectation += 1;
        if expectation > 9 {
            expectation = 1;
        }
    }
}

#[test]
fn invalid_parse() {
    let str_puzzle = "1 22 3 4 5 6 7 8 9\n".to_owned()
        + "1 2 3 4 5 6 7 8 9\n"
        + "1 2 3 4 5 6 7 8 9\n"
        + "1 2 3 4 5 6 7 8 9\n"
        + "1 2 3 4 5 6 7 8 9\n"
        + "1 2 3 4 5 6 7 8 9\n"
        + "1 2 3 4 5 6 7 8 9\n"
        + "1 2 3 4 5 6 7 8 9\n"
        + "1 2 3 4 5 6 7 8 9\n";

    assert!(Sudoku::read_from(str_puzzle.as_bytes()).is_none());

    let str_puzzle = "1 2 3 4 5 6 7 8 9\n".to_owned()
        + "1 2 3 4 5 6 L 8 9\n"
        + "1 2 3 4 5 6 7 8 9\n"
        + "1 2 3 4 5 6 7 8 9\n"
        + "1 2 3 4 5 6 7 8 9\n"
        + "1 2 3 4 5 6 7 8 9\n"
        + "1 2 3 4 5 6 7 8 9\n"
        + "1 2 3 4 5 6 7 8 9\n"
        + "1 2 3 4 5 6 7 8 9\n";

    assert!(Sudoku::read_from(str_puzzle.as_bytes()).is_none());

    let str_puzzle = "1 2 3 4 5 6 7 8 9\n".to_owned()
        + "1 2 3 4 5 6 7 8 9\n"
        + "1 2 3 4 5 6 7 8 9\n"
        + "1 2 3 4 5 6 7 8 9\n"
        + "1 2 3 4 5 6 7 8 9\n"
        + "1 2 3 4 5 6 7 8 9\n"
        + "1 2 3 4 $ 6 7 8 9\n"
        + "1 2 3 4 5 6 7 8 9\n"
        + "1 2 3 4 5 6 7 8 9\n";

    assert!(Sudoku::read_from(str_puzzle.as_bytes()).is_none());
}

#[test]
fn row_iter() {
    let str_puzzle = "1 2 3 4 5 6 7 8 9\n".to_owned()
        + "2 3 4 5 6 7 8 9 1\n"
        + "3 4 5 6 7 8 9 1 2\n"
        + "4 5 6 7 8 9 1 2 3\n"
        + "5 6 7 8 9 1 2 3 4\n"
        + "6 7 8 9 1 2 3 4 5\n"
        + "7 8 9 1 2 3 4 5 6\n"
        + "8 9 1 2 3 4 5 6 7\n"
        + "9 1 2 3 4 5 6 7 8\n";

    let puzzle = Sudoku::read_from(str_puzzle.as_bytes()).unwrap();

    for (starting_index, row) in puzzle.rows().into_iter().enumerate() {
        let mut expectations = [1, 2, 3, 4, 5, 6, 7, 8, 9].map(Field::Filled);
        expectations.rotate_left(starting_index);

        itertools::assert_equal(row.iter(), &expectations);
    }
}

#[test]
fn row_of() {
    let str_puzzle = "1 2 3 4 5 6 7 8 9\n".to_owned()
        + "2 3 4 5 6 7 8 9 1\n"
        + "3 4 5 6 7 8 9 1 2\n"
        + "4 5 6 7 8 9 1 2 3\n"
        + "5 6 7 8 9 1 2 3 4\n"
        + "6 7 8 9 1 2 3 4 5\n"
        + "7 8 9 1 2 3 4 5 6\n"
        + "8 9 1 2 3 4 5 6 7\n"
        + "9 1 2 3 4 5 6 7 8\n";

    let puzzle = Sudoku::read_from(str_puzzle.as_bytes()).unwrap();

    for row_index in 0..9 {
        for col_index in 0..9 {
            let mut expectations = [1, 2, 3, 4, 5, 6, 7, 8, 9].map(Field::Filled);
            expectations.rotate_left(row_index);

            let index = col_index + 9 * row_index;
            let row = puzzle.row_of(index);

            itertools::assert_equal(row.iter(), &expectations);
        }
    }
}

#[test]
fn col_iter() {
    let str_puzzle = "1 2 3 4 5 6 7 8 9\n".to_owned()
        + "2 3 4 5 6 7 8 9 1\n"
        + "3 4 5 6 7 8 9 1 2\n"
        + "4 5 6 7 8 9 1 2 3\n"
        + "5 6 7 8 9 1 2 3 4\n"
        + "6 7 8 9 1 2 3 4 5\n"
        + "7 8 9 1 2 3 4 5 6\n"
        + "8 9 1 2 3 4 5 6 7\n"
        + "9 1 2 3 4 5 6 7 8\n";

    let puzzle = Sudoku::read_from(str_puzzle.as_bytes()).unwrap();

    for (starting_index, col) in puzzle.cols().into_iter().enumerate() {
        let mut expectations = [1, 2, 3, 4, 5, 6, 7, 8, 9].map(Field::Filled);
        expectations.rotate_left(starting_index);

        itertools::assert_equal(col.into_iter(), expectations);
    }
}

#[test]
fn col_of() {
    let str_puzzle = "1 2 3 4 5 6 7 8 9\n".to_owned()
        + "2 3 4 5 6 7 8 9 1\n"
        + "3 4 5 6 7 8 9 1 2\n"
        + "4 5 6 7 8 9 1 2 3\n"
        + "5 6 7 8 9 1 2 3 4\n"
        + "6 7 8 9 1 2 3 4 5\n"
        + "7 8 9 1 2 3 4 5 6\n"
        + "8 9 1 2 3 4 5 6 7\n"
        + "9 1 2 3 4 5 6 7 8\n";

    let puzzle = Sudoku::read_from(str_puzzle.as_bytes()).unwrap();

    for row_index in 0..9 {
        for col_index in 0..9 {
            let mut expectations = [1, 2, 3, 4, 5, 6, 7, 8, 9].map(Field::Filled);
            expectations.rotate_left(row_index);

            let index = row_index + 9 * col_index;
            let col = puzzle.col_of(index);

            itertools::assert_equal(col.into_iter(), expectations);
        }
    }
}

#[test]
fn square_iter() {
    let str_puzzle = "1 2 3 2 3 4 3 4 5\n".to_owned()
        + "4 5 6 5 6 7 6 7 8\n"
        + "7 8 9 8 9 1 9 1 2\n"
        + "4 5 6 5 6 7 6 7 8\n"
        + "7 8 9 8 9 1 9 1 2\n"
        + "1 2 3 2 3 4 3 4 5\n"
        + "7 8 9 8 9 1 9 1 2\n"
        + "1 2 3 2 3 4 3 4 5\n"
        + "4 5 6 5 6 7 6 7 8\n";

    let puzzle = Sudoku::read_from(str_puzzle.as_bytes()).unwrap();

    for (starting_index, square) in puzzle.squares().into_iter().enumerate() {
        let mut expectations = [1, 2, 3, 4, 5, 6, 7, 8, 9].map(Field::Filled);
        expectations.rotate_left(starting_index);

        itertools::assert_equal(square.into_iter(), expectations);
    }
}

#[test]
fn square_of() {
    let str_puzzle = "1 2 3 2 3 4 3 4 5\n".to_owned()
        + "4 5 6 5 6 7 6 7 8\n"
        + "7 8 9 8 9 1 9 1 2\n"
        + "4 5 6 5 6 7 6 7 8\n"
        + "7 8 9 8 9 1 9 1 2\n"
        + "1 2 3 2 3 4 3 4 5\n"
        + "7 8 9 8 9 1 9 1 2\n"
        + "1 2 3 2 3 4 3 4 5\n"
        + "4 5 6 5 6 7 6 7 8\n";

    let puzzle = Sudoku::read_from(str_puzzle.as_bytes()).unwrap();

    for row_index in 0..9 {
        for col_index in 0..9 {
            let mut expectations = [1, 2, 3, 4, 5, 6, 7, 8, 9].map(Field::Filled);
            let rotate_amount = (col_index % 3) + 3 * (row_index / 3);
            expectations.rotate_left(rotate_amount);

            let index = (((3 * col_index) % 9) + col_index / 3) + (row_index * 9);
            let square = puzzle.square_of(index);

            itertools::assert_equal(square.into_iter(), expectations);
        }
    }
}

#[test]
fn is_valid() {
    let str_puzzle = "1 2 3 4 5 6 7 8 9\n".to_owned()
        + "4 5 6 7 8 9 1 2 3\n"
        + "7 8 9 1 2 3 4 5 6\n"
        + "2 3 4 5 6 7 8 9 1\n"
        + "5 6 7 8 9 1 2 3 4\n"
        + "8 9 1 2 3 4 5 6 7\n"
        + "3 4 5 6 7 8 9 1 2\n"
        + "6 7 8 9 1 2 3 4 5\n"
        + "9 1 2 3 4 5 6 7 8\n";

    let puzzle = Sudoku::read_from(str_puzzle.as_bytes()).unwrap();

    assert!(puzzle.is_valid());
}

#[test]
fn easy_solve() {
    let str_puzzle = "* 8 6 * 4 1 * 3 9\n".to_owned()
        + "* 4 * * * 7 8 * *\n"
        + "* * 9 * * 6 2 4 *\n"
        + "7 3 * * * 4 6 * *\n"
        + "1 * * 2 * * * 9 5\n"
        + "* * * 6 5 * * 7 4\n"
        + "* * 2 * 6 9 5 * 3\n"
        + "8 * * 3 1 * * * 2\n"
        + "6 5 3 * * * 9 * *\n";

    let puzzle = Sudoku::read_from(str_puzzle.as_bytes()).unwrap();

    let puzzle = puzzle.solve().unwrap();

    let str_answer = "2 8 6 5 4 1 7 3 9\n".to_owned()
        + "3 4 1 9 2 7 8 5 6\n"
        + "5 7 9 8 3 6 2 4 1\n"
        + "7 3 5 1 9 4 6 2 8\n"
        + "1 6 4 2 7 8 3 9 5\n"
        + "9 2 8 6 5 3 1 7 4\n"
        + "4 1 2 7 6 9 5 8 3\n"
        + "8 9 7 3 1 5 4 6 2\n"
        + "6 5 3 4 8 2 9 1 7\n";
    let answer = Sudoku::read_from(str_answer.as_bytes()).unwrap();

    assert_eq!(puzzle, answer);
}
