//! The 3x3 board, its text form, and the moves of the puzzle.
use vstd::prelude::*;

use crate::tile::Tile;

verus! {

/// Cells of a board, row-major, 0 for the blank: a valid board holds each of
/// 0..=8 exactly once.
pub open spec fn is_board(s: Seq<u8>) -> bool {
    &&& s.len() == 9
    &&& forall|i: int| 0 <= i < 9 ==> #[trigger] s[i] <= 8
    &&& forall|i: int, j: int| 0 <= i < 9 && 0 <= j < 9 && i != j ==> s[i] != s[j]
    &&& forall|v: u8| v <= 8 ==> #[trigger] s.contains(v)
}

/// The one solved arrangement: 1..8 in row-major order, the blank last.
pub open spec fn goal() -> Seq<u8> {
    seq![1u8, 2, 3, 4, 5, 6, 7, 8, 0]
}

/// Two cells (row-major indices) share a side.
pub open spec fn adjacent(p: int, q: int) -> bool {
    &&& 0 <= p < 9
    &&& 0 <= q < 9
    &&& {
        ||| p - q == 3
        ||| q - p == 3
        ||| (p - q == 1 && p % 3 != 0)
        ||| (q - p == 1 && q % 3 != 0)
    }
}

/// `s` with the contents of cells `p` and `q` exchanged.
pub open spec fn swapped(s: Seq<u8>, p: int, q: int) -> Seq<u8> {
    s.update(p, s[q]).update(q, s[p])
}

/// `b` follows from `a` by sliding one tile into the blank.
pub open spec fn is_move(a: Seq<u8>, b: Seq<u8>) -> bool {
    exists|p: int, q: int| adjacent(p, q) && a[p] == 0 && b == #[trigger] swapped(a, p, q)
}

/// Character of a cell value in the text form.
pub open spec fn tile_char(v: u8) -> char {
    if v == 1 {
        '1'
    } else if v == 2 {
        '2'
    } else if v == 3 {
        '3'
    } else if v == 4 {
        '4'
    } else if v == 5 {
        '5'
    } else if v == 6 {
        '6'
    } else if v == 7 {
        '7'
    } else if v == 8 {
        '8'
    } else {
        '.'
    }
}

/// The characters that may stand for a cell: `.` and the digits 1 to 8.
pub open spec fn is_tile_char(c: char) -> bool {
    c == '.' || c == '1' || c == '2' || c == '3' || c == '4' || c == '5' || c == '6' || c == '7'
        || c == '8'
}

/// Cell value of a character: its digit, 0 for `.` and for any other character.
pub open spec fn char_value(c: char) -> u8 {
    if c == '1' {
        1
    } else if c == '2' {
        2
    } else if c == '3' {
        3
    } else if c == '4' {
        4
    } else if c == '5' {
        5
    } else if c == '6' {
        6
    } else if c == '7' {
        7
    } else if c == '8' {
        8
    } else {
        0
    }
}

/// Row `r` of a board as three characters.
pub open spec fn row_text(s: Seq<u8>, r: int) -> Seq<char> {
    seq![tile_char(s[3 * r]), tile_char(s[3 * r + 1]), tile_char(s[3 * r + 2])]
}

/// Text form of a board: three rows of three characters joined by newlines.
pub open spec fn render(s: Seq<u8>) -> Seq<char> {
    row_text(s, 0) + seq!['\n'] + row_text(s, 1) + seq!['\n'] + row_text(s, 2)
}

/// The lines of a text, split at each newline (a text without one is one line).
pub open spec fn lines(s: Seq<char>) -> Seq<Seq<char>>
    decreases s.len(),
{
    if s.len() == 0 {
        seq![Seq::empty()]
    } else {
        let pre = lines(s.drop_last());
        if s.last() == '\n' {
            pre.push(Seq::empty())
        } else {
            pre.update(pre.len() - 1, pre.last().push(s.last()))
        }
    }
}

/// The character that a text gives to cell `k`: column `k % 3` of line `k / 3`,
/// if the line is that long.
pub open spec fn text_cell(s: Seq<char>, k: int) -> Option<char> {
    let ls = lines(s);
    if k / 3 < ls.len() && k % 3 < ls[k / 3].len() {
        Some(ls[k / 3][k % 3])
    } else {
        None
    }
}

/// Every character that a text gives to a cell is `.` or a digit 1 to 8.
pub open spec fn text_chars_ok(s: Seq<char>) -> bool {
    forall|k: int| 0 <= k < 9 ==> (#[trigger] text_cell(s, k) matches Some(c) ==> is_tile_char(c))
}

/// The cell values that a text gives, with 0 for a cell it leaves out.
pub open spec fn text_cells(s: Seq<char>) -> Seq<u8> {
    Seq::new(
        9,
        |k: int|
            match text_cell(s, k) {
                Some(c) => char_value(c),
                None => 0u8,
            },
    )
}

/// Why a text is not a board.
#[derive(Clone, Copy, Debug, PartialEq, Eq)]
pub enum ParseError {
    /// A cell holds a character other than `.` and the digits 1 to 8.
    InvalidChar,
    /// The cells do not hold each tile exactly once.
    InvalidTiles,
}

/// The values of nine tiles.
pub open spec fn tile_values(cells: [Tile; 9]) -> Seq<u8> {
    Seq::new(9, |i: int| cells[i]@)
}

/// A board's row-major cells, each tile present once.
fn cells_form_board(cells: &[Tile; 9]) -> (r: bool)
    ensures
        r == is_board(tile_values(*cells)),
{
    let ghost s = tile_values(*cells);
    let mut i: usize = 0;
    while i < 9
        invariant
            i <= 9,
            s.len() == 9,
            s == tile_values(*cells),
            forall|m: int| 0 <= m < 9 ==> #[trigger] s[m] == cells[m]@,
            forall|k: int| 0 <= k < i ==> s[k] <= 8,
            forall|k: int, j: int| 0 <= k < i && 0 <= j < 9 && k != j ==> s[k] != s[j],
        decreases 9 - i,
    {
        if cells[i].value() > 8 {
            assert(s[i as int] > 8);
            return false;
        }
        let mut j: usize = 0;
        while j < 9
            invariant
                i < 9,
                j <= 9,
                s.len() == 9,
                s == tile_values(*cells),
                forall|m: int| 0 <= m < 9 ==> #[trigger] s[m] == cells[m]@,
                forall|l: int| 0 <= l < j && l != i ==> s[i as int] != s[l],
            decreases 9 - j,
        {
            if j != i && cells[i].value() == cells[j].value() {
                assert(s[i as int] == s[j as int]);
                return false;
            }
            j += 1;
        }
        i += 1;
    }
    let mut v: u8 = 0;
    while v < 9
        invariant
            v <= 9,
            s.len() == 9,
            s == tile_values(*cells),
            forall|m: int| 0 <= m < 9 ==> #[trigger] s[m] == cells[m]@,
            forall|w: u8| w < v ==> #[trigger] s.contains(w),
        decreases 9 - v,
    {
        let mut j: usize = 0;
        let mut found = false;
        while j < 9
            invariant
                j <= 9,
                v < 9,
                s.len() == 9,
                s == tile_values(*cells),
                forall|m: int| 0 <= m < 9 ==> #[trigger] s[m] == cells[m]@,
                found ==> s.contains(v),
                !found ==> forall|l: int| 0 <= l < j ==> s[l] != v,
            decreases 9 - j,
        {
            if cells[j].value() == v {
                assert(s[j as int] == v);
                found = true;
            }
            j += 1;
        }
        if !found {
            assert(!s.contains(v));
            return false;
        }
        v += 1;
    }
    true
}

/// Text of one cell value.
fn tile_text(v: u8) -> (r: &'static str)
    ensures
        r@ == seq![tile_char(v)],
{
    if v == 1 {
        proof { reveal_strlit("1"); }
        "1"
    } else if v == 2 {
        proof { reveal_strlit("2"); }
        "2"
    } else if v == 3 {
        proof { reveal_strlit("3"); }
        "3"
    } else if v == 4 {
        proof { reveal_strlit("4"); }
        "4"
    } else if v == 5 {
        proof { reveal_strlit("5"); }
        "5"
    } else if v == 6 {
        proof { reveal_strlit("6"); }
        "6"
    } else if v == 7 {
        proof { reveal_strlit("7"); }
        "7"
    } else if v == 8 {
        proof { reveal_strlit("8"); }
        "8"
    } else {
        proof { reveal_strlit("."); }
        "."
    }
}

/// Value of a digit from 1 to 8.
fn digit_value(c: char) -> (v: u8)
    requires
        '1' <= c <= '8',
    ensures
        1 <= v <= 8,
        v == char_value(c),
{
    ((c as u32) - ('0' as u32)) as u8
}

/// How the cells that a text gives change when one character is appended.
proof fn lemma_text_cell_push(pre: Seq<char>, c: char)
    ensures
        ({
            let ls = lines(pre);
            let cur = pre.push(c);
            let k0 = (ls.len() - 1) * 3 + ls.last().len();
            forall|k: int|
                0 <= k < 9 ==> #[trigger] text_cell(cur, k) == if c != '\n' && ls.len() <= 3
                    && ls.last().len() < 3 && k == k0 {
                    Some(c)
                } else {
                    text_cell(pre, k)
                }
        }),
{
    let cur = pre.push(c);
    assert(cur.drop_last() =~= pre);
    let ls = lines(pre);
    assert(ls.len() >= 1) by {
        lemma_lines_nonempty(pre);
    }
}

/// A text has at least one line.
proof fn lemma_lines_nonempty(s: Seq<char>)
    ensures
        lines(s).len() >= 1,
    decreases s.len(),
{
    if s.len() > 0 {
        lemma_lines_nonempty(s.drop_last());
    }
}

/// Splitting a text extended by one character.
proof fn lemma_lines_push(pre: Seq<char>, c: char)
    ensures
        lines(pre.push(c)) == if c == '\n' {
            lines(pre).push(Seq::empty())
        } else {
            lines(pre).update(lines(pre).len() - 1, lines(pre).last().push(c))
        },
{
    assert(pre.push(c).drop_last() =~= pre);
}

/// The text form of a board splits into its three rows.
proof fn lemma_render_lines(s: Seq<u8>)
    requires
        s.len() == 9,
    ensures
        lines(render(s)) == seq![row_text(s, 0), row_text(s, 1), row_text(s, 2)],
{
    let c = Seq::new(9, |i: int| tile_char(s[i]));
    let e = Seq::<char>::empty();
    assert(lines(e) == seq![e]);
    let t1 = e.push(c[0]);
    lemma_lines_push(e, c[0]);
    assert(lines(t1) =~~= seq![seq![c[0]]]);
    let t2 = t1.push(c[1]);
    lemma_lines_push(t1, c[1]);
    assert(lines(t2) =~~= seq![seq![c[0], c[1]]]);
    let t3 = t2.push(c[2]);
    lemma_lines_push(t2, c[2]);
    assert(lines(t3) =~~= seq![row_text(s, 0)]);
    let t4 = t3.push('\n');
    lemma_lines_push(t3, '\n');
    assert(lines(t4) =~~= seq![row_text(s, 0), e]);
    let t5 = t4.push(c[3]);
    lemma_lines_push(t4, c[3]);
    assert(lines(t5) =~~= seq![row_text(s, 0), seq![c[3]]]);
    let t6 = t5.push(c[4]);
    lemma_lines_push(t5, c[4]);
    assert(lines(t6) =~~= seq![row_text(s, 0), seq![c[3], c[4]]]);
    let t7 = t6.push(c[5]);
    lemma_lines_push(t6, c[5]);
    assert(lines(t7) =~~= seq![row_text(s, 0), row_text(s, 1)]);
    let t8 = t7.push('\n');
    lemma_lines_push(t7, '\n');
    assert(lines(t8) =~~= seq![row_text(s, 0), row_text(s, 1), e]);
    let t9 = t8.push(c[6]);
    lemma_lines_push(t8, c[6]);
    assert(lines(t9) =~~= seq![row_text(s, 0), row_text(s, 1), seq![c[6]]]);
    let t10 = t9.push(c[7]);
    lemma_lines_push(t9, c[7]);
    assert(lines(t10) =~~= seq![row_text(s, 0), row_text(s, 1), seq![c[6], c[7]]]);
    let t11 = t10.push(c[8]);
    lemma_lines_push(t10, c[8]);
    assert(t11 =~= render(s));
    assert(lines(t11) =~~= seq![row_text(s, 0), row_text(s, 1), row_text(s, 2)]);
}

/// Cell `k` of a board's text is the character of the board's cell `k`.
proof fn lemma_render_cell(s: Seq<u8>, k: int)
    requires
        s.len() == 9,
        0 <= k < 9,
    ensures
        text_cell(render(s), k) == Some(tile_char(s[k])),
{
    lemma_render_lines(s);
    let ls = lines(render(s));
    if k < 3 {
        assert(k / 3 == 0 && k % 3 == k);
    } else if k < 6 {
        assert(k / 3 == 1 && k % 3 == k - 3);
    } else {
        assert(k / 3 == 2 && k % 3 == k - 6);
    }
}

/// Distinct cell values have distinct characters, and a character's value
/// gives it back.
proof fn lemma_tile_char(v: u8, w: u8)
    requires
        v <= 8,
        w <= 8,
    ensures
        is_tile_char(tile_char(v)),
        char_value(tile_char(v)) == v,
        v != w ==> tile_char(v) != tile_char(w),
{
}

/// Valid boards with the same packed number are the same board.
pub proof fn lemma_pack_injective(s: Seq<u8>, t: Seq<u8>)
    requires
        is_board(s),
        is_board(t),
        pack_from(s, 0) == pack_from(t, 0),
    ensures
        s == t,
{
    lemma_pack_suffix(s, t, 0);
    assert(s =~= t);
}

/// Equal packed suffixes have equal cells.
proof fn lemma_pack_suffix(s: Seq<u8>, t: Seq<u8>, i: int)
    requires
        is_board(s),
        is_board(t),
        0 <= i <= 9,
        pack_from(s, i) == pack_from(t, i),
    ensures
        forall|j: int| i <= j < 9 ==> s[j] == t[j],
    decreases 9 - i,
{
    if i < 9 {
        assert(s[i] <= 8 && t[i] <= 8);
        lemma_pack_nonneg(s, i + 1);
        lemma_pack_nonneg(t, i + 1);
        assert(s[i] == t[i]);
        lemma_pack_suffix(s, t, i + 1);
    }
}

/// Packed numbers are not negative.
proof fn lemma_pack_nonneg(s: Seq<u8>, i: int)
    ensures
        pack_from(s, i) >= 0,
    decreases 9 - i,
{
    if 0 <= i < 9 {
        lemma_pack_nonneg(s, i + 1);
    }
}

/// The packed number of a valid board fits below `CODE_LIMIT`.
pub proof fn lemma_pack_nonneg_bound(s: Seq<u8>)
    requires
        is_board(s),
    ensures
        0 <= pack_from(s, 0) < CODE_LIMIT,
{
    lemma_pack_bound(s, 0);
    reveal_with_fuel(pow16, 10);
}

/// Packed suffixes stay below the matching power of 16.
proof fn lemma_pack_bound(s: Seq<u8>, i: int)
    requires
        is_board(s),
        0 <= i <= 9,
    ensures
        0 <= pack_from(s, i) < pow16((9 - i) as nat),
    decreases 9 - i,
{
    if i < 9 {
        lemma_pack_bound(s, i + 1);
        assert(s[i] <= 8);
        assert(pow16((9 - i) as nat) == 16 * pow16((9 - i - 1) as nat));
    }
}

/// Powers of 16 grow with the exponent.
proof fn lemma_pow16_le(m: nat, n: nat)
    requires
        m <= n,
    ensures
        1 <= pow16(m) <= pow16(n),
    decreases n,
{
    if n > 0 {
        if m < n {
            lemma_pow16_le(m, (n - 1) as nat);
        } else {
            lemma_pow16_le((m - 1) as nat, (n - 1) as nat);
        }
    }
}

/// The text of a valid board reads back as the same board.
pub proof fn lemma_parse_render(b: Board)
    requires
        b.wf(),
    ensures
        text_chars_ok(render(b@)),
        is_board(text_cells(render(b@))),
        text_cells(render(b@)) == b@,
{
    let s = b@;
    assert forall|k: int| 0 <= k < 9 implies #[trigger] text_cell(render(s), k) == Some(
        tile_char(s[k]),
    ) by {
        lemma_render_cell(s, k);
    }
    assert forall|k: int| 0 <= k < 9 implies #[trigger] text_cells(render(s))[k] == s[k] by {
        assert(text_cell(render(s), k) == Some(tile_char(s[k])));
        assert(s[k] <= 8);
    }
    assert(text_cells(render(s)) =~= s);
}

/// The text of a valid board is three lines of three characters, each of `.`
/// and the digits 1 to 8 standing in exactly one cell.
pub proof fn lemma_render_shape(b: Board)
    requires
        b.wf(),
    ensures
        lines(render(b@)).len() == 3,
        forall|r: int| 0 <= r < 3 ==> #[trigger] lines(render(b@))[r].len() == 3,
        forall|k: int|
            0 <= k < 9 ==> (#[trigger] text_cell(render(b@), k) matches Some(c) && is_tile_char(c)),
        forall|k: int, l: int|
            0 <= k < 9 && 0 <= l < 9 && k != l ==> #[trigger] text_cell(render(b@), k)
                != #[trigger] text_cell(render(b@), l),
        forall|c: char|
            is_tile_char(c) ==> exists|k: int| 0 <= k < 9 && #[trigger] text_cell(render(b@), k)
                == Some(c),
{
    let s = b@;
    let t = render(s);
    lemma_render_lines(s);
    assert forall|k: int| 0 <= k < 9 implies (#[trigger] text_cell(t, k) matches Some(c)
        && is_tile_char(c)) by {
        lemma_render_cell(s, k);
        lemma_tile_char(s[k], s[k]);
    }
    assert forall|k: int, l: int|
        0 <= k < 9 && 0 <= l < 9 && k != l implies #[trigger] text_cell(t, k)
            != #[trigger] text_cell(t, l) by {
        lemma_render_cell(s, k);
        lemma_render_cell(s, l);
        lemma_tile_char(s[k], s[l]);
    }
    assert forall|c: char| is_tile_char(c) implies exists|k: int|
        0 <= k < 9 && #[trigger] text_cell(t, k) == Some(c) by {
        let v = char_value(c);
        assert(v <= 8);
        assert(s.contains(v));
        let k = choose|k: int| 0 <= k < s.len() && s[k] == v;
        lemma_render_cell(s, k);
        assert(tile_char(v) == c);
    }
}

/// Base-16 number whose digits, lowest first, are the cells from `i` on.
pub open spec fn pack_from(s: Seq<u8>, i: int) -> int
    decreases 9 - i,
{
    if 0 <= i < 9 {
        s[i] + 16 * pack_from(s, i + 1)
    } else {
        0
    }
}

/// Powers of 16.
pub open spec fn pow16(n: nat) -> int
    decreases n,
{
    if n == 0 {
        1
    } else {
        16 * pow16((n - 1) as nat)
    }
}

/// Bound on the number that packs a board's cells.
pub const CODE_LIMIT: u64 = 68719476736;

/// A 3x3 board of tiles.
#[derive(Clone, Copy, Debug, PartialEq, Eq, Hash)]
pub struct Board {
    cells: [Tile; 9],
}

impl View for Board {
    type V = Seq<u8>;

    /// The cells' values in row-major order.
    closed spec fn view(&self) -> Seq<u8> {
        tile_values(self.cells)
    }
}

impl Board {
    /// The board holds each tile exactly once.
    pub open spec fn wf(&self) -> bool {
        is_board(self@)
    }

    /// Creates a board from a 3x3 matrix of tiles, each tile present once.
    pub fn new(tiles: [[Tile; 3]; 3]) -> (b: Self)
        requires
            is_board(
                Seq::new(9, |i: int| tiles[i / 3][i % 3]@),
            ),
        ensures
            b@ == Seq::new(9, |i: int| tiles[i / 3][i % 3]@),
            b.wf(),
    {
        let b = Board {
            cells: [
                tiles[0][0],
                tiles[0][1],
                tiles[0][2],
                tiles[1][0],
                tiles[1][1],
                tiles[1][2],
                tiles[2][0],
                tiles[2][1],
                tiles[2][2],
            ],
        };
        assert(b@ =~= Seq::new(9, |i: int| tiles[i / 3][i % 3]@));
        b
    }

    /// The tile at `row` and `col`.
    pub fn get(&self, row: usize, col: usize) -> (t: Tile)
        requires
            row < 3,
            col < 3,
        ensures
            t@ == self@[row * 3 + col],
    {
        self.cells[row * 3 + col]
    }

    /// Exchanges the tiles at (`r1`, `c1`) and (`r2`, `c2`).
    pub fn swap(&mut self, r1: usize, c1: usize, r2: usize, c2: usize)
        requires
            r1 < 3,
            c1 < 3,
            r2 < 3,
            c2 < 3,
        ensures
            final(self)@ == swapped(old(self)@, r1 * 3 + c1, r2 * 3 + c2),
            old(self).wf() ==> final(self).wf(),
    {
        let p = r1 * 3 + c1;
        let q = r2 * 3 + c2;
        let tp = self.cells[p];
        let tq = self.cells[q];
        self.cells[p] = tq;
        self.cells[q] = tp;
        assert(self@ =~= swapped(old(self)@, p as int, q as int));
        proof {
            if old(self).wf() {
                lemma_swapped_board(old(self)@, p as int, q as int);
            }
        }
    }

    /// Appends row `r` of the board to `out`.
    fn push_row(&self, out: &mut String, r: usize)
        requires
            r < 3,
        ensures
            final(out)@ == old(out)@ + row_text(self@, r as int),
    {
        out.append(tile_text(self.cells[3 * r].value()));
        out.append(tile_text(self.cells[3 * r + 1].value()));
        out.append(tile_text(self.cells[3 * r + 2].value()));
        assert(out@ =~= old(out)@ + row_text(self@, r as int));
    }

    /// The board as text: three lines of three characters, `.` for the blank,
    /// joined by newlines with none at the end.
    pub fn to_string(&self) -> (r: String)
        ensures
            r@ == render(self@),
    {
        let mut out = String::new();
        proof {
            reveal_strlit("\n");
        }
        self.push_row(&mut out, 0);
        out.append("\n");
        self.push_row(&mut out, 1);
        out.append("\n");
        self.push_row(&mut out, 2);
        assert(out@ =~= render(self@));
        out
    }

    /// Reads a board from text: the first three characters of each of the first
    /// three lines give the cells; what follows them is ignored.
    pub fn from_string(s: &str) -> (r: Result<Board, ParseError>)
        ensures
            match r {
                Err(ParseError::InvalidChar) => !text_chars_ok(s@),
                Err(ParseError::InvalidTiles) => text_chars_ok(s@) && !is_board(text_cells(s@)),
                Ok(b) => text_chars_ok(s@) && is_board(text_cells(s@)) && b@ == text_cells(s@),
            },
    {
        let n = s.unicode_len();
        let mut cells: [Tile; 9] = [
            Tile::empty(),
            Tile::empty(),
            Tile::empty(),
            Tile::empty(),
            Tile::empty(),
            Tile::empty(),
            Tile::empty(),
            Tile::empty(),
            Tile::empty(),
        ];
        let mut row: usize = 0;
        let mut col: usize = 0;
        let mut bad = false;
        let mut i: usize = 0;
        assert(s@.take(0) =~= Seq::<char>::empty());
        while i < n
            invariant
                n == s@.len(),
                i <= n,
                row < lines(s@.take(i as int)).len() <= i + 1,
                row + 1 == lines(s@.take(i as int)).len(),
                col == lines(s@.take(i as int)).last().len() <= i,
                bad == !text_chars_ok(s@.take(i as int)),
                tile_values(cells) == text_cells(s@.take(i as int)),
            decreases n - i,
        {
            let c = s.get_char(i);
            let ghost pre = s@.take(i as int);
            let ghost cur = s@.take(i + 1);
            let ghost k0 = row * 3 + col;
            let ghost old_cells = cells;
            assert(cur =~= pre.push(c));
            assert(cur.drop_last() =~= pre);
            proof {
                lemma_text_cell_push(pre, c);
            }
            if c == '\n' {
                row = row + 1;
                col = 0;
            } else {
                if row < 3 && col < 3 {
                    let k = row * 3 + col;
                    if c == '.' {
                        cells[k] = Tile::empty();
                    } else if '1' <= c && c <= '8' {
                        cells[k] = Tile::new(Some(digit_value(c)));
                    } else {
                        bad = true;
                    }
                }
                col = col + 1;
            }
            assert forall|m: int| 0 <= m < 9 implies #[trigger] tile_values(cells)[m] == text_cells(
                cur,
            )[m] by {
                assert(tile_values(old_cells)[m] == text_cells(pre)[m]);
                assert(text_cell(cur, m) == text_cell(pre, m) || (m == k0
                    && text_cell(cur, m) == Some(c)));
            }
            assert(tile_values(cells) =~= text_cells(cur));
            proof {
            if bad {
                if !text_chars_ok(pre) {
                    let m = choose|m: int| 0 <= m < 9
                        && !(#[trigger] text_cell(pre, m) matches Some(d) ==> is_tile_char(d));
                    assert(text_cell(cur, m) == text_cell(pre, m));
                } else {
                    assert(text_cell(cur, (k0) as int) == Some(c));
                }
            } else {
                assert forall|m: int| 0 <= m < 9
                    implies (#[trigger] text_cell(cur, m) matches Some(d) ==> is_tile_char(d)) by {
                    assert(text_cell(cur, m) == text_cell(pre, m) || (m == k0
                        && text_cell(cur, m) == Some(c)));
                }
            }
            }
            assert(bad == !text_chars_ok(cur));
            i += 1;
        }
        assert(s@.take(n as int) =~= s@);
        if bad {
            Err(ParseError::InvalidChar)
        } else if cells_form_board(&cells) {
            Ok(Board { cells })
        } else {
            Err(ParseError::InvalidTiles)
        }
    }

    /// The cells packed into one number, four bits per cell.
    pub(crate) fn code(&self) -> (c: u64)
        requires
            self.wf(),
        ensures
            c == pack_from(self@, 0),
            c < CODE_LIMIT,
    {
        proof {
            reveal_with_fuel(pow16, 10);
        }
        assert(pow16(9) == CODE_LIMIT);
        let mut acc: u64 = 0;
        let mut i: usize = 9;
        while i > 0
            invariant
                i <= 9,
                self.wf(),
                acc == pack_from(self@, i as int),
                acc < pow16((9 - i) as nat),
                pow16(9) == CODE_LIMIT,
            decreases i,
        {
            i -= 1;
            let v = self.cells[i].value();
            assert(v == self@[i as int]);
            proof {
                assert(pow16((9 - i) as nat) == 16 * pow16((9 - i - 1) as nat));
                lemma_pow16_le((9 - i) as nat, 9);
            }
            acc = acc * 16 + v as u64;
        }
        acc
    }

    /// Whether the board is the solved arrangement.
    pub fn is_solved(&self) -> (r: bool)
        ensures
            r == (self@ == goal()),
    {
        let mut i: usize = 0;
        while i < 8
            invariant
                i <= 8,
                forall|k: int| 0 <= k < i ==> self@[k] == k + 1,
            decreases 8 - i,
        {
            if self.cells[i].value() as usize != i + 1 {
                return false;
            }
            i += 1;
        }
        let r = self.cells[8].is_empty();
        assert(r ==> self@ =~= goal());
        r
    }

    /// Row-major index of the blank.
    pub(crate) fn blank_index(&self) -> (p: usize)
        requires
            self.wf(),
        ensures
            p < 9,
            self@[p as int] == 0,
    {
        let mut i: usize = 0;
        while i < 8
            invariant
                i <= 8,
                forall|k: int| 0 <= k < i ==> self@[k] != 0,
            decreases 8 - i,
        {
            if self.cells[i].is_empty() {
                return i;
            }
            i += 1;
        }
        assert(self@.contains(0u8));
        i
    }
}

/// Exchanging two cells of a valid board gives a valid board.
pub proof fn lemma_swapped_board(s: Seq<u8>, p: int, q: int)
    requires
        is_board(s),
        0 <= p < 9,
        0 <= q < 9,
    ensures
        is_board(swapped(s, p, q)),
{
    let t = swapped(s, p, q);
    assert forall|v: u8| v <= 8 implies #[trigger] t.contains(v) by {
        assert(s.contains(v));
        let i = choose|i: int| 0 <= i < 9 && s[i] == v;
        if i == p {
            assert(t[q] == v);
        } else if i == q {
            assert(t[p] == v);
        } else {
            assert(t[i] == v);
        }
    }
}

} // verus!
