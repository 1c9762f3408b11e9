use tags::{solve, Board};

fn board(text: &str) -> Board {
    Board::from_string(text).unwrap()
}

fn blank(b: &Board) -> (usize, usize) {
    for r in 0..3 {
        for c in 0..3 {
            if b.get(r, c).is_empty() {
                return (r, c);
            }
        }
    }
    panic!("no blank");
}

fn one_move(a: &Board, b: &Board) -> bool {
    let (r, c) = blank(a);
    let mut options: Vec<(usize, usize)> = Vec::new();
    if r > 0 {
        options.push((r - 1, c));
    }
    if r < 2 {
        options.push((r + 1, c));
    }
    if c > 0 {
        options.push((r, c - 1));
    }
    if c < 2 {
        options.push((r, c + 1));
    }
    options.into_iter().any(|(r2, c2)| {
        let mut x = *a;
        x.swap(r, c, r2, c2);
        x == *b
    })
}

fn check_solution(start: &Board, seq: &[Board]) {
    let mut prev = *start;
    for b in seq {
        assert!(one_move(&prev, b));
        prev = *b;
    }
    assert!(prev.is_solved());
}

#[test]
fn solved_input_gives_empty_sequence() {
    let seq = solve(board("123\n456\n78.")).unwrap();
    assert!(seq.is_empty());
}

#[test]
fn one_move_from_solved() {
    let seq = solve(board("123\n456\n7.8")).unwrap();
    assert_eq!(seq.len(), 1);
    assert_eq!(seq[0].to_string(), "123\n456\n78.");
}

#[test]
fn two_moves_from_solved() {
    let mut b = board("123\n456\n78.");
    b.swap(2, 2, 2, 1);
    b.swap(2, 1, 1, 1);
    assert_eq!(b.to_string(), "123\n4.6\n758");
    let seq = solve(b).unwrap();
    assert_eq!(seq.len(), 2);
    assert!(seq[1].is_solved());
    check_solution(&b, &seq);
}

#[test]
fn unsolvable_board() {
    assert!(solve(board("213\n456\n78.")).is_none());
}

#[test]
fn solution_is_valid_path() {
    let start = board("867\n254\n3.1");
    let seq = solve(start).unwrap();
    check_solution(&start, &seq);
    assert_eq!(seq.len(), 31);
}

#[test]
fn shortest_length_small_cases() {
    let start = board(".12\n453\n786");
    let seq = solve(start).unwrap();
    check_solution(&start, &seq);
    assert_eq!(seq.len(), 4);
}

#[test]
fn odd_parity_boards_have_no_solution() {
    for text in ["213\n456\n78.", "123\n456\n87.", "123\n546\n78.", "3.1\n425\n786"] {
        let b = board(text);
        let seq = solve(b);
        let mut inversions = 0;
        let mut tiles: Vec<u8> = Vec::new();
        for r in 0..3 {
            for c in 0..3 {
                if let Some(n) = b.get(r, c).number() {
                    tiles.push(n);
                }
            }
        }
        for i in 0..tiles.len() {
            for j in i + 1..tiles.len() {
                if tiles[i] > tiles[j] {
                    inversions += 1;
                }
            }
        }
        assert_eq!(seq.is_some(), inversions % 2 == 0, "board {}", text);
    }
}

#[test]
fn even_parity_board_is_solved() {
    let start = board("1.3\n425\n786");
    let seq = solve(start).unwrap();
    check_solution(&start, &seq);
    assert_eq!(seq.len(), 3);
    assert_eq!(seq[0].to_string(), "123\n4.5\n786");
}

#[test]
fn solve_does_not_change_start() {
    let start = board("123\n4.6\n758");
    let copy = start;
    let _ = solve(start);
    assert_eq!(start, copy);
}
