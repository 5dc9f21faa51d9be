use puzzles::sudoku::board::{CellValue, ParseError, Puzzle};
use puzzles::sudoku::solver::Solver;

const EASY_PUZZLE: &str = "8--5-47-2\n9327-8---\n---1--98-\n-543-----\n-2-6-9-5-\n-----584-\n-13--6---\n---4-2693\n6-98-7--5";

fn parse(text: &str) -> Puzzle {
    Puzzle::from_str(text.as_bytes()).unwrap()
}

#[test]
fn test_rows() {
    let puzzle: Puzzle = parse(EASY_PUZZLE);

    assert_eq!(
        puzzle
            .get_rows()
            .into_iter()
            .map(|row| row.cells().into_iter().map(|cell| cell.value()).collect())
            .collect::<Vec<Vec<CellValue>>>(),
        vec![
            vec![
                CellValue::EIGHT,
                CellValue::EMPTY,
                CellValue::EMPTY,
                CellValue::FIVE,
                CellValue::EMPTY,
                CellValue::FOUR,
                CellValue::SEVEN,
                CellValue::EMPTY,
                CellValue::TWO
            ],
            vec![
                CellValue::NINE,
                CellValue::THREE,
                CellValue::TWO,
                CellValue::SEVEN,
                CellValue::EMPTY,
                CellValue::EIGHT,
                CellValue::EMPTY,
                CellValue::EMPTY,
                CellValue::EMPTY
            ],
            vec![
                CellValue::EMPTY,
                CellValue::EMPTY,
                CellValue::EMPTY,
                CellValue::ONE,
                CellValue::EMPTY,
                CellValue::EMPTY,
                CellValue::NINE,
                CellValue::EIGHT,
                CellValue::EMPTY
            ],
            vec![
                CellValue::EMPTY,
                CellValue::FIVE,
                CellValue::FOUR,
                CellValue::THREE,
                CellValue::EMPTY,
                CellValue::EMPTY,
                CellValue::EMPTY,
                CellValue::EMPTY,
                CellValue::EMPTY
            ],
            vec![
                CellValue::EMPTY,
                CellValue::TWO,
                CellValue::EMPTY,
                CellValue::SIX,
                CellValue::EMPTY,
                CellValue::NINE,
                CellValue::EMPTY,
                CellValue::FIVE,
                CellValue::EMPTY
            ],
            vec![
                CellValue::EMPTY,
                CellValue::EMPTY,
                CellValue::EMPTY,
                CellValue::EMPTY,
                CellValue::EMPTY,
                CellValue::FIVE,
                CellValue::EIGHT,
                CellValue::FOUR,
                CellValue::EMPTY
            ],
            vec![
                CellValue::EMPTY,
                CellValue::ONE,
                CellValue::THREE,
                CellValue::EMPTY,
                CellValue::EMPTY,
                CellValue::SIX,
                CellValue::EMPTY,
                CellValue::EMPTY,
                CellValue::EMPTY
            ],
            vec![
                CellValue::EMPTY,
                CellValue::EMPTY,
                CellValue::EMPTY,
                CellValue::FOUR,
                CellValue::EMPTY,
                CellValue::TWO,
                CellValue::SIX,
                CellValue::NINE,
                CellValue::THREE
            ],
            vec![
                CellValue::SIX,
                CellValue::EMPTY,
                CellValue::NINE,
                CellValue::EIGHT,
                CellValue::EMPTY,
                CellValue::SEVEN,
                CellValue::EMPTY,
                CellValue::EMPTY,
                CellValue::FIVE
            ],
        ]
    )
}

#[test]
fn test_cols() {
    let puzzle: Puzzle = parse(EASY_PUZZLE);

    assert_eq!(
        puzzle
            .get_cols()
            .into_iter()
            .map(|row| row.cells().into_iter().map(|cell| cell.value()).collect())
            .collect::<Vec<Vec<CellValue>>>(),
        vec![
            vec![
                CellValue::EIGHT,
                CellValue::NINE,
                CellValue::EMPTY,
                CellValue::EMPTY,
                CellValue::EMPTY,
                CellValue::EMPTY,
                CellValue::EMPTY,
                CellValue::EMPTY,
                CellValue::SIX
            ],
            vec![
                CellValue::EMPTY,
                CellValue::THREE,
                CellValue::EMPTY,
                CellValue::FIVE,
                CellValue::TWO,
                CellValue::EMPTY,
                CellValue::ONE,
                CellValue::EMPTY,
                CellValue::EMPTY
            ],
            vec![
                CellValue::EMPTY,
                CellValue::TWO,
                CellValue::EMPTY,
                CellValue::FOUR,
                CellValue::EMPTY,
                CellValue::EMPTY,
                CellValue::THREE,
                CellValue::EMPTY,
                CellValue::NINE
            ],
            vec![
                CellValue::FIVE,
                CellValue::SEVEN,
                CellValue::ONE,
                CellValue::THREE,
                CellValue::SIX,
                CellValue::EMPTY,
                CellValue::EMPTY,
                CellValue::FOUR,
                CellValue::EIGHT
            ],
            vec![
                CellValue::EMPTY,
                CellValue::EMPTY,
                CellValue::EMPTY,
                CellValue::EMPTY,
                CellValue::EMPTY,
                CellValue::EMPTY,
                CellValue::EMPTY,
                CellValue::EMPTY,
                CellValue::EMPTY
            ],
            vec![
                CellValue::FOUR,
                CellValue::EIGHT,
                CellValue::EMPTY,
                CellValue::EMPTY,
                CellValue::NINE,
                CellValue::FIVE,
                CellValue::SIX,
                CellValue::TWO,
                CellValue::SEVEN
            ],
            vec![
                CellValue::SEVEN,
                CellValue::EMPTY,
                CellValue::NINE,
                CellValue::EMPTY,
                CellValue::EMPTY,
                CellValue::EIGHT,
                CellValue::EMPTY,
                CellValue::SIX,
                CellValue::EMPTY
            ],
            vec![
                CellValue::EMPTY,
                CellValue::EMPTY,
                CellValue::EIGHT,
                CellValue::EMPTY,
                CellValue::FIVE,
                CellValue::FOUR,
                CellValue::EMPTY,
                CellValue::NINE,
                CellValue::EMPTY
            ],
            vec![
                CellValue::TWO,
                CellValue::EMPTY,
                CellValue::EMPTY,
                CellValue::EMPTY,
                CellValue::EMPTY,
                CellValue::EMPTY,
                CellValue::EMPTY,
                CellValue::THREE,
                CellValue::FIVE
            ],
        ]
    )
}

#[test]
fn test_sub_grids() {
    let puzzle: Puzzle = parse(EASY_PUZZLE);

    assert_eq!(
        puzzle
            .get_subgrids()
            .into_iter()
            .map(|row| row.cells().into_iter().map(|cell| cell.value()).collect())
            .collect::<Vec<Vec<CellValue>>>(),
        vec![
            vec![
                CellValue::EIGHT,
                CellValue::EMPTY,
                CellValue::EMPTY,
                CellValue::NINE,
                CellValue::THREE,
                CellValue::TWO,
                CellValue::EMPTY,
                CellValue::EMPTY,
                CellValue::EMPTY
            ],
            vec![
                CellValue::FIVE,
                CellValue::EMPTY,
                CellValue::FOUR,
                CellValue::SEVEN,
                CellValue::EMPTY,
                CellValue::EIGHT,
                CellValue::ONE,
                CellValue::EMPTY,
                CellValue::EMPTY
            ],
            vec![
                CellValue::SEVEN,
                CellValue::EMPTY,
                CellValue::TWO,
                CellValue::EMPTY,
                CellValue::EMPTY,
                CellValue::EMPTY,
                CellValue::NINE,
                CellValue::EIGHT,
                CellValue::EMPTY
            ],
            vec![
                CellValue::EMPTY,
                CellValue::FIVE,
                CellValue::FOUR,
                CellValue::EMPTY,
                CellValue::TWO,
                CellValue::EMPTY,
                CellValue::EMPTY,
                CellValue::EMPTY,
                CellValue::EMPTY
            ],
            vec![
                CellValue::THREE,
                CellValue::EMPTY,
                CellValue::EMPTY,
                CellValue::SIX,
                CellValue::EMPTY,
                CellValue::NINE,
                CellValue::EMPTY,
                CellValue::EMPTY,
                CellValue::FIVE
            ],
            vec![
                CellValue::EMPTY,
                CellValue::EMPTY,
                CellValue::EMPTY,
                CellValue::EMPTY,
                CellValue::FIVE,
                CellValue::EMPTY,
                CellValue::EIGHT,
                CellValue::FOUR,
                CellValue::EMPTY
            ],
            vec![
                CellValue::EMPTY,
                CellValue::ONE,
                CellValue::THREE,
                CellValue::EMPTY,
                CellValue::EMPTY,
                CellValue::EMPTY,
                CellValue::SIX,
                CellValue::EMPTY,
                CellValue::NINE
            ],
            vec![
                CellValue::EMPTY,
                CellValue::EMPTY,
                CellValue::SIX,
                CellValue::FOUR,
                CellValue::EMPTY,
                CellValue::TWO,
                CellValue::EIGHT,
                CellValue::EMPTY,
                CellValue::SEVEN
            ],
            vec![
                CellValue::EMPTY,
                CellValue::EMPTY,
                CellValue::EMPTY,
                CellValue::SIX,
                CellValue::NINE,
                CellValue::THREE,
                CellValue::EMPTY,
                CellValue::EMPTY,
                CellValue::FIVE
            ],
        ]
    )
}

#[test]
fn parse_rejects_too_few_rows() {
    assert!(matches!(
        Puzzle::from_str(b"123456789\n---------"),
        Err(ParseError::WrongNumberOfRows)
    ));
    assert!(matches!(
        Puzzle::from_str(b""),
        Err(ParseError::WrongNumberOfRows)
    ));
}

#[test]
fn parse_skips_narrow_rows() {
    // A short row does not count; the nine wide ones fill the grid.
    let text = "123456789\nxx\n123456789\n123456789\n123456789\n123456789\n123456789\n123456789\n123456789\n123456789";
    let puzzle = parse(text);
    assert!(puzzle.get_rows().iter().count() == 9);
    assert_eq!(
        puzzle
            .get_rows()
            .into_iter()
            .map(|row| row.cells().into_iter().map(|cell| cell.value()).collect())
            .collect::<Vec<Vec<CellValue>>>()[0],
        vec![
            CellValue::ONE,
            CellValue::TWO,
            CellValue::THREE,
            CellValue::FOUR,
            CellValue::FIVE,
            CellValue::SIX,
            CellValue::SEVEN,
            CellValue::EIGHT,
            CellValue::NINE
        ]
    );
}

#[test]
fn solver_fills_an_easy_puzzle() {
    let puzzle = parse(EASY_PUZZLE);
    assert!(puzzle.is_valid());
    assert!(!puzzle.is_complete());
    let mut solver = Solver::from(puzzle);
    solver.solve();
    assert!(solver.puzzle.is_valid());
    assert!(solver.puzzle.is_complete());
}

#[test]
fn solver_keeps_given_values() {
    let puzzle = parse(EASY_PUZZLE);
    let given: Vec<CellValue> = puzzle.get_cells().iter().map(|c| c.value()).collect();
    let mut solver = Solver::from(puzzle);
    solver.solve();
    for (k, cell) in solver.puzzle.get_cells().iter().enumerate() {
        if given[k] != CellValue::EMPTY {
            assert_eq!(cell.value(), given[k]);
        }
    }
}

#[test]
fn new_solver_starts_empty() {
    let solver = Solver::new();
    assert!(solver
        .puzzle
        .get_cells()
        .iter()
        .all(|c| c.value() == CellValue::EMPTY));
}

#[test]
fn symbols_print_digits() {
    assert_eq!(CellValue::EMPTY.symbol(), b'-');
    assert_eq!(CellValue::ONE.symbol(), b'1');
    assert_eq!(CellValue::NINE.symbol(), b'9');
}
