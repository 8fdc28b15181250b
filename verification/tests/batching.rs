use sudoku::batch::chunk_lines;
use sudoku::batch::solve_line;
use sudoku::batch::solve_lines;

const CLASSIC: &str = "53..7....6..195....98....6.8...6...34..8.3..17...2...6.6....28....419..5....8..79";
const CLASSIC_SOLUTION: &str =
    "534678912672195348198342567859761423426853791713924856961537284287419635345286179";

fn sample_lines() -> Vec<String> {
    vec![
        CLASSIC.to_string(),
        format!(".......12{}", ".".repeat(72)),
        ".".repeat(81),
        format!("12345678.........9{}", ".".repeat(63)),
    ]
}

#[test]
fn solve_line_solves_a_puzzle() {
    assert_eq!(solve_line(CLASSIC), Some(CLASSIC_SOLUTION.to_string()));
}

#[test]
fn solve_line_rejects_ill_formed_line() {
    assert_eq!(solve_line("not a puzzle"), None);
}

#[test]
fn solve_line_rejects_duplicate_clues() {
    let p = format!("5...5....{}", ".".repeat(72));
    assert_eq!(solve_line(&p), None);
}

#[test]
fn solve_line_returns_consistent_unsolvable_line_unchanged() {
    let p = format!("12345678.........9{}", ".".repeat(63));
    assert_eq!(solve_line(&p), Some(p.clone()));
}

#[test]
fn solve_lines_keeps_input_order() {
    let lines = sample_lines();
    let outs = solve_lines(&lines).unwrap();
    assert_eq!(outs.len(), lines.len());
    for (i, line) in lines.iter().enumerate() {
        assert_eq!(outs[i], solve_line(line).unwrap());
    }
}

#[test]
fn solve_lines_rejects_batch_with_bad_line() {
    let mut lines = sample_lines();
    lines.push("bad".to_string());
    assert_eq!(solve_lines(&lines), None);
}

#[test]
fn chunking_preserves_order() {
    let lines = sample_lines();
    let chunks = chunk_lines(&lines, 3);
    assert_eq!(chunks.len(), 2);
    assert_eq!(chunks[0].len(), 3);
    assert_eq!(chunks[1].len(), 1);
    let rejoined: Vec<String> = chunks.iter().flat_map(|c| c.iter().cloned()).collect();
    assert_eq!(rejoined, lines);
}

#[test]
fn chunked_solving_matches_direct_solving() {
    let lines = sample_lines();
    let direct = solve_lines(&lines).unwrap();
    for chunk_size in 1..=5 {
        let chunks = chunk_lines(&lines, chunk_size);
        let mut joined: Vec<String> = Vec::new();
        for chunk in &chunks {
            joined.extend(solve_lines(chunk).unwrap());
        }
        assert_eq!(joined, direct);
    }
}

#[test]
fn chunking_oversized_chunk_is_whole_input() {
    let lines = sample_lines();
    let chunks = chunk_lines(&lines, 100);
    assert_eq!(chunks.len(), 1);
    assert_eq!(chunks[0], lines);
}

#[test]
fn chunking_empty_input_gives_no_chunks() {
    let lines: Vec<String> = Vec::new();
    let chunks = chunk_lines(&lines, 1);
    assert!(chunks.is_empty());
    assert_eq!(solve_lines(&lines), Some(Vec::new()));
}
