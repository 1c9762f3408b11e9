//! The parity of a board's tile order, which no move changes.
use vstd::prelude::*;

use crate::board::{adjacent, goal, is_board, is_move, lemma_swapped_board, swapped};
use crate::solver::{is_path, is_solution};

verus! {

/// Two tiles stand in the wrong order: both are numbered and the earlier one is
/// larger.
#[verifier::opaque]
pub open spec fn out_of_order(x: u8, y: u8) -> int {
    if x != 0 && y != 0 && x > y {
        1
    } else {
        0
    }
}

/// Pairs of numbered tiles in the wrong order among nine cells, read in order.
pub open spec fn inversions9(
    x0: u8,
    x1: u8,
    x2: u8,
    x3: u8,
    x4: u8,
    x5: u8,
    x6: u8,
    x7: u8,
    x8: u8,
) -> int {
    out_of_order(x0, x1) + out_of_order(x0, x2) + out_of_order(x0, x3) + out_of_order(x0, x4)
        + out_of_order(x0, x5) + out_of_order(x0, x6) + out_of_order(x0, x7) + out_of_order(x0, x8)
        + out_of_order(x1, x2) + out_of_order(x1, x3) + out_of_order(x1, x4) + out_of_order(x1, x5)
        + out_of_order(x1, x6) + out_of_order(x1, x7) + out_of_order(x1, x8) + out_of_order(x2, x3)
        + out_of_order(x2, x4) + out_of_order(x2, x5) + out_of_order(x2, x6) + out_of_order(x2, x7)
        + out_of_order(x2, x8) + out_of_order(x3, x4) + out_of_order(x3, x5) + out_of_order(x3, x6)
        + out_of_order(x3, x7) + out_of_order(x3, x8) + out_of_order(x4, x5) + out_of_order(x4, x6)
        + out_of_order(x4, x7) + out_of_order(x4, x8) + out_of_order(x5, x6) + out_of_order(x5, x7)
        + out_of_order(x5, x8) + out_of_order(x6, x7) + out_of_order(x6, x8) + out_of_order(x7, x8)
}

/// Number of pairs of numbered tiles that stand in the wrong order, reading
/// the cells row by row.
pub open spec fn inversions(s: Seq<u8>) -> int {
    inversions9(s[0], s[1], s[2], s[3], s[4], s[5], s[6], s[7], s[8])
}

/// Facts on one pair: a blank is in order with anything, and two distinct
/// numbered tiles are out of order one way round exactly.
proof fn lemma_out_of_order(x: u8, y: u8)
    ensures
        x == 0 ==> out_of_order(x, y) == 0 && out_of_order(y, x) == 0,
        x != 0 && y != 0 && x != y ==> out_of_order(x, y) + out_of_order(y, x) == 1,
        0 <= out_of_order(x, y) <= 1,
{
    reveal(out_of_order);
}

/// A move from a board whose blank is at cell 0 keeps the parity of
/// the number of pairs in the wrong order.
proof fn lemma_move_parity_0(a: Seq<u8>, q: int)
    requires
        a.len() == 9,
        a[0] == 0,
        adjacent(0, q),
        forall|k: int| 0 <= k < 9 && k != 0 ==> a[k] != 0 && a[k] != a[q] || k == q,
    ensures
        inversions(swapped(a, 0, q)) % 2 == inversions(a) % 2,
{
    lemma_out_of_order(0, a[1]);
    lemma_out_of_order(0, a[2]);
    lemma_out_of_order(0, a[3]);
    lemma_out_of_order(0, a[4]);
    lemma_out_of_order(0, a[5]);
    lemma_out_of_order(0, a[6]);
    lemma_out_of_order(0, a[7]);
    lemma_out_of_order(0, a[8]);
    if q == 1 {
        assert(swapped(a, 0, 1) =~= a.update(0, a[1]).update(1, 0));
    } else if q == 3 {
        assert(swapped(a, 0, 3) =~= a.update(0, a[3]).update(3, 0));
        lemma_out_of_order(a[3], a[1]);
        lemma_out_of_order(a[3], a[2]);
    }
}

/// A move from a board whose blank is at cell 1 keeps the parity of
/// the number of pairs in the wrong order.
proof fn lemma_move_parity_1(a: Seq<u8>, q: int)
    requires
        a.len() == 9,
        a[1] == 0,
        adjacent(1, q),
        forall|k: int| 0 <= k < 9 && k != 1 ==> a[k] != 0 && a[k] != a[q] || k == q,
    ensures
        inversions(swapped(a, 1, q)) % 2 == inversions(a) % 2,
{
    lemma_out_of_order(0, a[0]);
    lemma_out_of_order(0, a[2]);
    lemma_out_of_order(0, a[3]);
    lemma_out_of_order(0, a[4]);
    lemma_out_of_order(0, a[5]);
    lemma_out_of_order(0, a[6]);
    lemma_out_of_order(0, a[7]);
    lemma_out_of_order(0, a[8]);
    if q == 0 {
        assert(swapped(a, 1, 0) =~= a.update(1, a[0]).update(0, 0));
    } else if q == 2 {
        assert(swapped(a, 1, 2) =~= a.update(1, a[2]).update(2, 0));
    } else if q == 4 {
        assert(swapped(a, 1, 4) =~= a.update(1, a[4]).update(4, 0));
        lemma_out_of_order(a[4], a[2]);
        lemma_out_of_order(a[4], a[3]);
    }
}

/// A move from a board whose blank is at cell 2 keeps the parity of
/// the number of pairs in the wrong order.
proof fn lemma_move_parity_2(a: Seq<u8>, q: int)
    requires
        a.len() == 9,
        a[2] == 0,
        adjacent(2, q),
        forall|k: int| 0 <= k < 9 && k != 2 ==> a[k] != 0 && a[k] != a[q] || k == q,
    ensures
        inversions(swapped(a, 2, q)) % 2 == inversions(a) % 2,
{
    lemma_out_of_order(0, a[0]);
    lemma_out_of_order(0, a[1]);
    lemma_out_of_order(0, a[3]);
    lemma_out_of_order(0, a[4]);
    lemma_out_of_order(0, a[5]);
    lemma_out_of_order(0, a[6]);
    lemma_out_of_order(0, a[7]);
    lemma_out_of_order(0, a[8]);
    if q == 1 {
        assert(swapped(a, 2, 1) =~= a.update(2, a[1]).update(1, 0));
    } else if q == 5 {
        assert(swapped(a, 2, 5) =~= a.update(2, a[5]).update(5, 0));
        lemma_out_of_order(a[5], a[3]);
        lemma_out_of_order(a[5], a[4]);
    }
}

/// A move from a board whose blank is at cell 3 keeps the parity of
/// the number of pairs in the wrong order.
proof fn lemma_move_parity_3(a: Seq<u8>, q: int)
    requires
        a.len() == 9,
        a[3] == 0,
        adjacent(3, q),
        forall|k: int| 0 <= k < 9 && k != 3 ==> a[k] != 0 && a[k] != a[q] || k == q,
    ensures
        inversions(swapped(a, 3, q)) % 2 == inversions(a) % 2,
{
    lemma_out_of_order(0, a[0]);
    lemma_out_of_order(0, a[1]);
    lemma_out_of_order(0, a[2]);
    lemma_out_of_order(0, a[4]);
    lemma_out_of_order(0, a[5]);
    lemma_out_of_order(0, a[6]);
    lemma_out_of_order(0, a[7]);
    lemma_out_of_order(0, a[8]);
    if q == 0 {
        assert(swapped(a, 3, 0) =~= a.update(3, a[0]).update(0, 0));
        lemma_out_of_order(a[0], a[1]);
        lemma_out_of_order(a[0], a[2]);
    } else if q == 4 {
        assert(swapped(a, 3, 4) =~= a.update(3, a[4]).update(4, 0));
    } else if q == 6 {
        assert(swapped(a, 3, 6) =~= a.update(3, a[6]).update(6, 0));
        lemma_out_of_order(a[6], a[4]);
        lemma_out_of_order(a[6], a[5]);
    }
}

/// A move from a board whose blank is at cell 4 keeps the parity of
/// the number of pairs in the wrong order.
proof fn lemma_move_parity_4(a: Seq<u8>, q: int)
    requires
        a.len() == 9,
        a[4] == 0,
        adjacent(4, q),
        forall|k: int| 0 <= k < 9 && k != 4 ==> a[k] != 0 && a[k] != a[q] || k == q,
    ensures
        inversions(swapped(a, 4, q)) % 2 == inversions(a) % 2,
{
    lemma_out_of_order(0, a[0]);
    lemma_out_of_order(0, a[1]);
    lemma_out_of_order(0, a[2]);
    lemma_out_of_order(0, a[3]);
    lemma_out_of_order(0, a[5]);
    lemma_out_of_order(0, a[6]);
    lemma_out_of_order(0, a[7]);
    lemma_out_of_order(0, a[8]);
    if q == 1 {
        assert(swapped(a, 4, 1) =~= a.update(4, a[1]).update(1, 0));
        lemma_out_of_order(a[1], a[2]);
        lemma_out_of_order(a[1], a[3]);
    } else if q == 3 {
        assert(swapped(a, 4, 3) =~= a.update(4, a[3]).update(3, 0));
    } else if q == 5 {
        assert(swapped(a, 4, 5) =~= a.update(4, a[5]).update(5, 0));
    } else if q == 7 {
        assert(swapped(a, 4, 7) =~= a.update(4, a[7]).update(7, 0));
        lemma_out_of_order(a[7], a[5]);
        lemma_out_of_order(a[7], a[6]);
    }
}

/// A move from a board whose blank is at cell 5 keeps the parity of
/// the number of pairs in the wrong order.
proof fn lemma_move_parity_5(a: Seq<u8>, q: int)
    requires
        a.len() == 9,
        a[5] == 0,
        adjacent(5, q),
        forall|k: int| 0 <= k < 9 && k != 5 ==> a[k] != 0 && a[k] != a[q] || k == q,
    ensures
        inversions(swapped(a, 5, q)) % 2 == inversions(a) % 2,
{
    lemma_out_of_order(0, a[0]);
    lemma_out_of_order(0, a[1]);
    lemma_out_of_order(0, a[2]);
    lemma_out_of_order(0, a[3]);
    lemma_out_of_order(0, a[4]);
    lemma_out_of_order(0, a[6]);
    lemma_out_of_order(0, a[7]);
    lemma_out_of_order(0, a[8]);
    if q == 2 {
        assert(swapped(a, 5, 2) =~= a.update(5, a[2]).update(2, 0));
        lemma_out_of_order(a[2], a[3]);
        lemma_out_of_order(a[2], a[4]);
    } else if q == 4 {
        assert(swapped(a, 5, 4) =~= a.update(5, a[4]).update(4, 0));
    } else if q == 8 {
        assert(swapped(a, 5, 8) =~= a.update(5, a[8]).update(8, 0));
        lemma_out_of_order(a[8], a[6]);
        lemma_out_of_order(a[8], a[7]);
    }
}

/// A move from a board whose blank is at cell 6 keeps the parity of
/// the number of pairs in the wrong order.
proof fn lemma_move_parity_6(a: Seq<u8>, q: int)
    requires
        a.len() == 9,
        a[6] == 0,
        adjacent(6, q),
        forall|k: int| 0 <= k < 9 && k != 6 ==> a[k] != 0 && a[k] != a[q] || k == q,
    ensures
        inversions(swapped(a, 6, q)) % 2 == inversions(a) % 2,
{
    lemma_out_of_order(0, a[0]);
    lemma_out_of_order(0, a[1]);
    lemma_out_of_order(0, a[2]);
    lemma_out_of_order(0, a[3]);
    lemma_out_of_order(0, a[4]);
    lemma_out_of_order(0, a[5]);
    lemma_out_of_order(0, a[7]);
    lemma_out_of_order(0, a[8]);
    if q == 3 {
        assert(swapped(a, 6, 3) =~= a.update(6, a[3]).update(3, 0));
        lemma_out_of_order(a[3], a[4]);
        lemma_out_of_order(a[3], a[5]);
    } else if q == 7 {
        assert(swapped(a, 6, 7) =~= a.update(6, a[7]).update(7, 0));
    }
}

/// A move from a board whose blank is at cell 7 keeps the parity of
/// the number of pairs in the wrong order.
proof fn lemma_move_parity_7(a: Seq<u8>, q: int)
    requires
        a.len() == 9,
        a[7] == 0,
        adjacent(7, q),
        forall|k: int| 0 <= k < 9 && k != 7 ==> a[k] != 0 && a[k] != a[q] || k == q,
    ensures
        inversions(swapped(a, 7, q)) % 2 == inversions(a) % 2,
{
    lemma_out_of_order(0, a[0]);
    lemma_out_of_order(0, a[1]);
    lemma_out_of_order(0, a[2]);
    lemma_out_of_order(0, a[3]);
    lemma_out_of_order(0, a[4]);
    lemma_out_of_order(0, a[5]);
    lemma_out_of_order(0, a[6]);
    lemma_out_of_order(0, a[8]);
    if q == 4 {
        assert(swapped(a, 7, 4) =~= a.update(7, a[4]).update(4, 0));
        lemma_out_of_order(a[4], a[5]);
        lemma_out_of_order(a[4], a[6]);
    } else if q == 6 {
        assert(swapped(a, 7, 6) =~= a.update(7, a[6]).update(6, 0));
    } else if q == 8 {
        assert(swapped(a, 7, 8) =~= a.update(7, a[8]).update(8, 0));
    }
}

/// A move from a board whose blank is at cell 8 keeps the parity of
/// the number of pairs in the wrong order.
proof fn lemma_move_parity_8(a: Seq<u8>, q: int)
    requires
        a.len() == 9,
        a[8] == 0,
        adjacent(8, q),
        forall|k: int| 0 <= k < 9 && k != 8 ==> a[k] != 0 && a[k] != a[q] || k == q,
    ensures
        inversions(swapped(a, 8, q)) % 2 == inversions(a) % 2,
{
    lemma_out_of_order(0, a[0]);
    lemma_out_of_order(0, a[1]);
    lemma_out_of_order(0, a[2]);
    lemma_out_of_order(0, a[3]);
    lemma_out_of_order(0, a[4]);
    lemma_out_of_order(0, a[5]);
    lemma_out_of_order(0, a[6]);
    lemma_out_of_order(0, a[7]);
    if q == 5 {
        assert(swapped(a, 8, 5) =~= a.update(8, a[5]).update(5, 0));
        lemma_out_of_order(a[5], a[6]);
        lemma_out_of_order(a[5], a[7]);
    } else if q == 7 {
        assert(swapped(a, 8, 7) =~= a.update(8, a[7]).update(7, 0));
    }
}

/// A move keeps the parity of the number of pairs in the wrong order, and
/// leaves a valid board.
pub proof fn lemma_move_parity(a: Seq<u8>, b: Seq<u8>)
    requires
        is_board(a),
        is_move(a, b),
    ensures
        is_board(b),
        inversions(b) % 2 == inversions(a) % 2,
{
    let (p, q) = choose|p: int, q: int| adjacent(p, q) && a[p] == 0 && b
        == #[trigger] swapped(a, p, q);
    lemma_swapped_board(a, p, q);
    assert forall|k: int| 0 <= k < 9 && k != p implies a[k] != 0 && a[k] != a[q] || k == q by {
        assert(a[k] != a[p]);
    }
    if p == 0 {
        lemma_move_parity_0(a, q);
    } else if p == 1 {
        lemma_move_parity_1(a, q);
    } else if p == 2 {
        lemma_move_parity_2(a, q);
    } else if p == 3 {
        lemma_move_parity_3(a, q);
    } else if p == 4 {
        lemma_move_parity_4(a, q);
    } else if p == 5 {
        lemma_move_parity_5(a, q);
    } else if p == 6 {
        lemma_move_parity_6(a, q);
    } else if p == 7 {
        lemma_move_parity_7(a, q);
    } else {
        lemma_move_parity_8(a, q);
    }
}

/// The solved board has no pair in the wrong order.
pub proof fn lemma_goal_parity()
    ensures
        inversions(goal()) == 0,
{
    reveal(out_of_order);
}

/// Each board along a path from a valid board is valid, with the parity of the
/// first.
proof fn lemma_path_parity(start: Seq<u8>, steps: Seq<Seq<u8>>, n: int)
    requires
        is_board(start),
        is_path(start, steps),
        0 < n <= steps.len(),
    ensures
        is_board(steps[n - 1]),
        inversions(steps[n - 1]) % 2 == inversions(start) % 2,
    decreases n,
{
    assert(is_move(if n - 1 == 0 { start } else { steps[n - 2] }, steps[n - 1]));
    if n == 1 {
        lemma_move_parity(start, steps[0]);
    } else {
        lemma_path_parity(start, steps, n - 1);
        lemma_move_parity(steps[n - 2], steps[n - 1]);
    }
}

/// A board that some sequence of moves solves has an even number of pairs of
/// tiles in the wrong order, as the solved board has: a board with an odd
/// number has no solution.
pub proof fn lemma_solution_parity(start: Seq<u8>, steps: Seq<Seq<u8>>)
    requires
        is_board(start),
        is_solution(start, steps),
    ensures
        inversions(start) % 2 == 0,
{
    lemma_goal_parity();
    if steps.len() > 0 {
        lemma_path_parity(start, steps, steps.len() as int);
    }
}

} // verus!
