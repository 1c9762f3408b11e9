use tags::{Board, ParseError, Tile};

fn board(text: &str) -> Board {
    Board::from_string(text).unwrap()
}

#[test]
fn tile_new_and_accessors() {
    let t = Tile::new(Some(5));
    assert_eq!(t.number(), Some(5));
    assert!(!t.is_empty());
    let e = Tile::new(None);
    assert_eq!(e.number(), None);
    assert!(e.is_empty());
    assert_eq!(Tile::empty(), e);
}

#[test]
fn board_new_and_get() {
    let n = |v: u8| Tile::new(Some(v));
    let b = Board::new([
        [n(1), n(2), n(3)],
        [n(4), n(5), n(6)],
        [n(7), n(8), Tile::empty()],
    ]);
    assert_eq!(b.get(0, 0).number(), Some(1));
    assert_eq!(b.get(1, 2).number(), Some(6));
    assert!(b.get(2, 2).is_empty());
    assert!(b.is_solved());
    assert_eq!(b, board("123\n456\n78."));
}

#[test]
fn swap_exchanges_cells() {
    let mut b = board("123\n456\n7.8");
    b.swap(2, 1, 2, 2);
    assert!(b.is_solved());
    assert_eq!(b.to_string(), "123\n456\n78.");
}

#[test]
fn render_exact_text() {
    let b = board(".12\n345\n678");
    assert_eq!(b.to_string(), ".12\n345\n678");
    assert!(b.get(0, 0).is_empty());
    assert_eq!(b.get(2, 2).number(), Some(8));
}

#[test]
fn parse_render_round_trip() {
    for text in ["123\n456\n78.", ".12\n345\n678", "867\n254\n3.1", "5.7\n812\n643"] {
        let b = board(text);
        let again = board(&b.to_string());
        assert_eq!(again, b);
        assert_eq!(again.to_string(), text);
    }
}

#[test]
fn render_shape() {
    let s = board("867\n254\n3.1").to_string();
    let lines: Vec<&str> = s.split('\n').collect();
    assert_eq!(lines.len(), 3);
    let mut seen: Vec<char> = Vec::new();
    for line in lines {
        assert_eq!(line.chars().count(), 3);
        for c in line.chars() {
            assert!(c == '.' || ('1'..='8').contains(&c));
            assert!(!seen.contains(&c));
            seen.push(c);
        }
    }
    assert_eq!(seen.len(), 9);
}

#[test]
fn is_solved_only_for_goal() {
    assert!(board("123\n456\n78.").is_solved());
    assert!(!board("123\n456\n7.8").is_solved());
    assert!(!board("213\n456\n78.").is_solved());
    assert!(!board(".12\n345\n678").is_solved());
}

#[test]
fn parse_ignores_trailing_content() {
    let b = board("123x\n456yy\n78.\nextra");
    assert!(b.is_solved());
    let c = board("123\n456\n78.\n");
    assert!(c.is_solved());
}

#[test]
fn parse_rejects_letter() {
    assert_eq!(Board::from_string("a12\n345\n678"), Err(ParseError::InvalidChar));
}

#[test]
fn parse_rejects_zero_and_nine() {
    assert_eq!(Board::from_string("012\n345\n678"), Err(ParseError::InvalidChar));
    assert_eq!(Board::from_string("912\n345\n678"), Err(ParseError::InvalidChar));
}

#[test]
fn parse_rejects_duplicates() {
    assert_eq!(Board::from_string("112\n345\n678"), Err(ParseError::InvalidTiles));
    assert_eq!(Board::from_string("..2\n345\n678"), Err(ParseError::InvalidTiles));
}

#[test]
fn parse_rejects_short_text() {
    assert_eq!(Board::from_string("123\n456"), Err(ParseError::InvalidTiles));
    assert_eq!(Board::from_string(""), Err(ParseError::InvalidTiles));
}

#[test]
fn parse_missing_cell_is_blank() {
    let b = board("12\n345\n678");
    assert_eq!(b.to_string(), "12.\n345\n678");
}
