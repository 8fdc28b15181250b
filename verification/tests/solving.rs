use sudoku::board::Board;

const CLASSIC: &str = "53..7....6..195....98....6.8...6...34..8.3..17...2...6.6....28....419..5....8..79";
const CLASSIC_SOLUTION: &str =
    "534678912672195348198342567859761423426853791713924856961537284287419635345286179";

#[test]
fn round_trip_well_formed_line() {
    let b = Board::from_str(CLASSIC).unwrap();
    assert_eq!(b.to_format_string(), CLASSIC);
}

#[test]
fn round_trip_empty_line() {
    let p = ".".repeat(81);
    let b = Board::from_str(&p).unwrap();
    assert_eq!(b.to_format_string(), p);
}

#[test]
fn rejects_short_input() {
    assert!(Board::from_str("123").is_none());
}

#[test]
fn rejects_long_input() {
    let p = ".".repeat(82);
    assert!(Board::from_str(&p).is_none());
}

#[test]
fn rejects_zero_digit() {
    let p = format!("0{}", ".".repeat(80));
    assert!(Board::from_str(&p).is_none());
}

#[test]
fn rejects_letter() {
    let p = format!("{}a{}", ".".repeat(40), ".".repeat(40));
    assert!(Board::from_str(&p).is_none());
}

#[test]
fn views_project_groups() {
    let p = format!("123456789{}", ".".repeat(72));
    let b = Board::from_str(&p).unwrap();
    let rows = b.rows();
    assert_eq!(rows.len(), 9);
    assert_eq!(
        rows[0],
        vec![
            Some(1),
            Some(2),
            Some(3),
            Some(4),
            Some(5),
            Some(6),
            Some(7),
            Some(8),
            Some(9)
        ]
    );
    assert_eq!(rows[1], vec![None; 9]);
    let cols = b.columns();
    assert_eq!(cols.len(), 9);
    assert_eq!(cols[0][0], Some(1));
    assert_eq!(cols[8][0], Some(9));
    assert_eq!(cols[0][1], None);
    let sqs = b.subsquares();
    assert_eq!(sqs.len(), 9);
    assert_eq!(&sqs[0][0..3], &[Some(1), Some(2), Some(3)]);
    assert_eq!(&sqs[1][0..3], &[Some(4), Some(5), Some(6)]);
    assert_eq!(&sqs[2][0..3], &[Some(7), Some(8), Some(9)]);
    assert_eq!(&sqs[0][3..9], &[None; 6]);
}

#[test]
fn duplicate_in_row_is_invalid() {
    let p = format!("5...5....{}", ".".repeat(72));
    let b = Board::from_str(&p).unwrap();
    assert!(!b.is_valid());
}

#[test]
fn duplicate_in_column_is_invalid() {
    let p = format!("7........{}7........{}", ".".repeat(9), ".".repeat(54));
    let b = Board::from_str(&p).unwrap();
    assert!(!b.is_valid());
}

#[test]
fn duplicate_in_subsquare_is_invalid() {
    let p = format!("3........{}.3.......{}", "", ".".repeat(63));
    let b = Board::from_str(&p).unwrap();
    assert!(!b.is_valid());
}

#[test]
fn distinct_digits_are_valid() {
    let b = Board::from_str(CLASSIC).unwrap();
    assert!(b.is_valid());
}

#[test]
fn solves_classic_puzzle() {
    let mut b = Board::from_str(CLASSIC).unwrap();
    b.solve();
    assert!(b.is_valid());
    assert_eq!(b.to_format_string(), CLASSIC_SOLUTION);
}

#[test]
fn solves_partial_first_row() {
    let p = format!(".......12{}", ".".repeat(72));
    let mut b = Board::from_str(&p).unwrap();
    b.solve();
    assert!(b.is_valid());
    let out = b.to_format_string();
    assert!(!out.contains('.'));
    assert_eq!(&out[7..9], "12");
}

#[test]
fn solves_empty_board() {
    let p = ".".repeat(81);
    let mut b = Board::from_str(&p).unwrap();
    b.solve();
    assert!(b.is_valid());
    let out = b.to_format_string();
    assert!(!out.contains('.'));
    for r in 0..9 {
        let mut digits: Vec<char> = out[r * 9..(r + 1) * 9].chars().collect();
        digits.sort();
        assert_eq!(digits, vec!['1', '2', '3', '4', '5', '6', '7', '8', '9']);
    }
}

#[test]
fn repeated_solves_are_identical() {
    let mut b1 = Board::from_str(CLASSIC).unwrap();
    let mut b2 = Board::from_str(CLASSIC).unwrap();
    b1.solve();
    b2.solve();
    assert_eq!(b1.to_format_string(), b2.to_format_string());
}

#[test]
fn unsolvable_board_left_unchanged() {
    let p = format!("12345678.........9{}", ".".repeat(63));
    let mut b = Board::from_str(&p).unwrap();
    assert!(b.is_valid());
    b.solve();
    assert!(b.is_valid());
    assert_eq!(b.to_format_string(), p);
}

#[test]
fn solve_recursive_from_start_reports_success() {
    let mut b = Board::from_str(CLASSIC).unwrap();
    assert!(b.solve_recursive(0, 0));
    assert_eq!(b.to_format_string(), CLASSIC_SOLUTION);
}

#[test]
fn solve_recursive_reports_failure_on_dead_end() {
    let p = format!("12345678.........9{}", ".".repeat(63));
    let mut b = Board::from_str(&p).unwrap();
    assert!(!b.solve_recursive(0, 0));
    assert_eq!(b.to_format_string(), p);
}

#[test]
fn display_grid_layout() {
    let p = format!("123456789{}", ".".repeat(72));
    let b = Board::from_str(&p).unwrap();
    let sep = "-------------\n";
    let empty_row = "|   |   |   |\n";
    let mut expected = String::new();
    expected.push_str(sep);
    expected.push_str("|123|456|789|\n");
    expected.push_str(empty_row);
    expected.push_str(empty_row);
    expected.push_str(sep);
    for _ in 0..3 {
        expected.push_str(empty_row);
    }
    expected.push_str(sep);
    for _ in 0..3 {
        expected.push_str(empty_row);
    }
    expected.push_str(sep);
    assert_eq!(b.to_display_string(), expected);
}

#[test]
fn cell_at_reads_row_major() {
    let p = format!(".......12{}", ".".repeat(72));
    let b = Board::from_str(&p).unwrap();
    assert_eq!(b.cell_at(0).digit(), None);
    assert_eq!(b.cell_at(7).digit(), Some(1));
    assert_eq!(b.cell_at(8).digit(), Some(2));
}
