use fileshards::minesweeper::{Cell, Field};

fn lines(text: &str) -> Vec<String> {
    text.lines().map(String::from).collect::<Vec<_>>()
}

fn sample_field() -> Field {
    Field {
        width: 4,
        height: 4,
        cells: vec![
            Cell::Mine, Cell::Empty, Cell::Empty, Cell::Empty,
            Cell::Empty, Cell::Empty, Cell::Empty, Cell::Empty,
            Cell::Empty, Cell::Mine, Cell::Empty, Cell::Empty,
            Cell::Empty, Cell::Empty, Cell::Empty, Cell::Empty,
        ],
    }
}

fn sample_solution() -> Field {
    Field {
        width: 4,
        height: 4,
        cells: vec![
            Cell::Mine, Cell::Number(1), Cell::Number(0), Cell::Number(0),
            Cell::Number(2), Cell::Number(2), Cell::Number(1), Cell::Number(0),
            Cell::Number(1), Cell::Mine, Cell::Number(1), Cell::Number(0),
            Cell::Number(1), Cell::Number(1), Cell::Number(1), Cell::Number(0),
        ],
    }
}

#[test]
fn test_parser() {
    let input = lines("4 4\n*...\n....\n.*..\n....");

    let field: Result<Field, _> = input.try_into();

    assert!(field.is_ok());

    let field = field.unwrap();

    assert_eq!(field, sample_field());

    assert_eq!(field.solve(), sample_solution());
}

#[test]
fn test_solver() {
    let field = sample_field();

    assert_eq!(field.solve(), sample_solution());
}

#[test]
fn test_broken_width() {
    let input = lines("5 4\n*...\n....\n.*..\n....");

    let field: Result<Field, _> = input.try_into();

    assert!(field.is_err());
    assert!(field.unwrap_err().contains("Expected width"))
}

#[test]
fn test_broken_heighth() {
    let input = lines("4 5\n*...\n....\n.*..\n....");

    let field: Result<Field, _> = input.try_into();

    assert!(field.is_err());
    assert!(field.unwrap_err().contains("Lines count missmatches"))
}

#[test]
fn test_broken_input_value() {
    let input = lines("ww5 4\n*...\n....\n.*..\n....");

    let field: Result<Field, _> = input.try_into();

    assert!(field.is_err());
    assert!(field.unwrap_err().contains("Expected numbers on sizes but got an"))
}

#[test]
fn test_broken_input_count() {
    let input = lines("4 4 666\n*...\n....\n.*..\n....");

    let field: Result<Field, _> = input.try_into();

    assert!(field.is_err());
    assert!(field.unwrap_err().contains("Expected 2 arguments: width and height"))
}

#[test]
fn test_broken_unknown_symbolt() {
    let input = lines("4 4\n*.w.\n....\n.*..\n....");

    let field: Result<Field, _> = input.try_into();

    assert!(field.is_err());
    assert!(field.unwrap_err().contains("Expected symbols"))
}

#[test]
fn field_error_messages_are_complete() {
    let width = Field::from_lines(&lines("5 4\n*...\n....\n.*..\n....")).unwrap_err();
    assert_eq!(width, "Expected width 5, found 4 on line 1");
    let height = Field::from_lines(&lines("4 5\n*...\n....\n.*..\n....")).unwrap_err();
    assert_eq!(height, "Lines count missmatches, expected: 5, found: 4.");
    let value = Field::from_lines(&lines("ww5 4\n*...")).unwrap_err();
    assert_eq!(value, "Expected numbers on sizes but got an \"ww5\".");
    let count = Field::from_lines(&lines("4 4 666\n*...")).unwrap_err();
    assert_eq!(count, "Expected 2 arguments: width and height, found: 3.");
    let symbol = Field::from_lines(&lines("4 4\n*...\n....\n.*.w\n....")).unwrap_err();
    assert_eq!(symbol, "Expected symbols '.' or '*', found: w on line 3 with index 4");
    let empty = Field::from_lines(&Vec::new()).unwrap_err();
    assert_eq!(empty, "Couldn't get field sizes.");
}

#[test]
fn sizes_accept_plus_sign_and_reject_overflow() {
    assert_eq!(Field::read_sizes(" +3\t12 "), Ok((3, 12)));
    assert_eq!(Field::read_sizes("3\u{3000}\u{a0}4"), Ok((3, 4)));
    assert!(Field::read_sizes("99999999999999999999999 1").is_err());
    assert!(Field::read_sizes("").unwrap_err().contains("found: 0."));
}

#[test]
fn solve_counts_all_eight_neighbours() {
    let field = Field {
        width: 3,
        height: 3,
        cells: vec![
            Cell::Mine, Cell::Mine, Cell::Mine,
            Cell::Mine, Cell::Empty, Cell::Mine,
            Cell::Mine, Cell::Mine, Cell::Mine,
        ],
    };
    assert_eq!(field.solve().cells[4], Cell::Number(8));
    let empty = Field { width: 0, height: 0, cells: vec![] };
    assert_eq!(empty.solve(), empty);
}

#[test]
fn cell_symbols() {
    assert_eq!(Cell::from_symbol('*'), Ok(Cell::Mine));
    assert_eq!(Cell::from_symbol('.'), Ok(Cell::Empty));
    assert_eq!(Cell::from_symbol('x'), Err("Unknown character x".to_string()));
}

#[test]
fn solved_field_renders_row_by_row() {
    let text = sample_solution().render();
    assert_eq!(text, "*100\n2210\n1*10\n1110");
    assert_eq!(sample_field().render(), "*   \n    \n *  \n    ");
    assert_eq!(Cell::Number(7).symbol(), '7');
}
