//! Breadth-first search for the shortest solution of a board.
use vstd::prelude::*;
use vstd::set_lib::{lemma_int_range, lemma_len_subset, lemma_map_size, set_int_range};
use vstd::std_specs::hash::group_hash_axioms;

use std::collections::HashSet;

use crate::board::{
    adjacent, goal, is_board, is_move, lemma_pack_injective, lemma_pack_nonneg_bound, pack_from,
    swapped, Board, CODE_LIMIT,
};
use crate::parity::{inversions, lemma_goal_parity, lemma_solution_parity};

verus! {

broadcast use group_hash_axioms;

/// The cell values of each board of a sequence.
pub open spec fn views(v: Seq<Board>) -> Seq<Seq<u8>> {
    v.map_values(|b: Board| b@)
}

/// Each board of `steps` follows by one move from the one before it, the first
/// from `from`.
pub open spec fn is_path(from: Seq<u8>, steps: Seq<Seq<u8>>) -> bool {
    forall|k: int|
        0 <= k < steps.len() ==> is_move(if k
            == 0 { from } else { steps[k - 1] }, #[trigger] steps[k])
}

/// `steps` leads from `from` to the solved board.
pub open spec fn is_solution(from: Seq<u8>, steps: Seq<Seq<u8>>) -> bool {
    &&& is_path(from, steps)
    &&& steps.len() == 0 ==> from == goal()
    &&& steps.len() > 0 ==> steps.last() == goal()
}

/// A set of numbers below `CODE_LIMIT` has at most `CODE_LIMIT` members.
proof fn lemma_codes_bound(codes: Set<u64>)
    requires
        codes.finite(),
        forall|c: u64| codes.contains(c) ==> c < CODE_LIMIT,
    ensures
        codes.len() <= CODE_LIMIT,
{
    let f = |c: u64| c as int;
    let ints = codes.map(f);
    lemma_map_size(codes, ints, f);
    lemma_int_range(0, CODE_LIMIT as int);
    assert(ints.subset_of(set_int_range(0, CODE_LIMIT as int)));
    lemma_len_subset(ints, set_int_range(0, CODE_LIMIT as int));
}

/// The cells next to cell `p`, in increasing order.
fn neighbors(p: usize) -> (qs: Vec<usize>)
    requires
        p < 9,
    ensures
        forall|j: int| 0 <= j < qs.len() ==> adjacent(p as int, #[trigger] qs[j] as int),
        forall|q: int| adjacent(p as int, q) ==> qs@.contains(q as usize),
{
    let qs: Vec<usize> = if p == 0 {
        vec![1, 3]
    } else if p == 1 {
        vec![0, 2, 4]
    } else if p == 2 {
        vec![1, 5]
    } else if p == 3 {
        vec![0, 4, 6]
    } else if p == 4 {
        vec![1, 3, 5, 7]
    } else if p == 5 {
        vec![2, 4, 8]
    } else if p == 6 {
        vec![3, 7]
    } else if p == 7 {
        vec![4, 6, 8]
    } else {
        vec![5, 7]
    };
    assert forall|q: int| adjacent(p as int, q) implies qs@.contains(q as usize) by {
        if p == 0 {
            assert(q == 1 || q == 3);
            assert(qs[0] == 1 && qs[1] == 3);
        } else if p == 1 {
            assert(qs[0] == 0 && qs[1] == 2 && qs[2] == 4);
        } else if p == 2 {
            assert(qs[0] == 1 && qs[1] == 5);
        } else if p == 3 {
            assert(qs[0] == 0 && qs[1] == 4 && qs[2] == 6);
        } else if p == 4 {
            assert(qs[0] == 1 && qs[1] == 3 && qs[2] == 5 && qs[3] == 7);
        } else if p == 5 {
            assert(qs[0] == 2 && qs[1] == 4 && qs[2] == 8);
        } else if p == 6 {
            assert(qs[0] == 3 && qs[1] == 7);
        } else if p == 7 {
            assert(qs[0] == 4 && qs[1] == 6 && qs[2] == 8);
        } else {
            assert(qs[0] == 5 && qs[1] == 7);
        }
    }
    qs
}

/// Number of moves from the first board of the tree to the board at `k`.
pub open spec fn depth(parent: Seq<usize>, k: int) -> nat
    decreases k,
{
    if 0 < k < parent.len() && parent[k] < k {
        depth(parent, parent[k] as int) + 1
    } else {
        0
    }
}

/// Boards later in the tree are no closer to its first board.
pub open spec fn depth_ordered(parent: Seq<usize>) -> bool {
    forall|i: int, j: int|
        0 <= i <= j < parent.len() ==> #[trigger] depth(parent, i) <= #[trigger] depth(parent, j)
}

/// The tree holds `b` at most one move deeper than the board at `k`.
pub open spec fn covers(nodes: Seq<Board>, parent: Seq<usize>, k: int, b: Seq<u8>) -> bool {
    exists|m: int|
        0 <= m < nodes.len() && #[trigger] nodes[m]@ == b && depth(parent, m)
            <= depth(parent, k) + 1
}

/// Every board one move from a board before `head` is in the tree.
pub open spec fn expanded(nodes: Seq<Board>, parent: Seq<usize>, head: int) -> bool {
    forall|k: int, b: Seq<u8>|
        0 <= k < head && #[trigger] is_move(nodes[k]@, b) ==> covers(nodes, parent, k, b)
}

/// Depths of the boards already in a tree stay when one is added.
proof fn lemma_depth_push(parent: Seq<usize>, x: usize, k: int)
    requires
        forall|i: int| 0 < i < parent.len() ==> #[trigger] parent[i] < i,
        0 <= k < parent.len(),
    ensures
        depth(parent.push(x), k) == depth(parent, k),
    decreases k,
{
    if 0 < k {
        lemma_depth_push(parent, x, parent[k] as int);
    }
}

/// In a tree expanded up to `head`, the end of every path of `n` moves from the
/// first board is in the tree at depth at most `n`, when all boards are
/// expanded or `n` is at most the depth of the board at `head`.
proof fn lemma_reach(nodes: Seq<Board>, parent: Seq<usize>, head: int, steps: Seq<Seq<u8>>)
    requires
        is_tree(nodes, parent),
        nodes.len() >= 1,
        0 <= head <= nodes.len(),
        depth_ordered(parent),
        expanded(nodes, parent, head),
        is_path(nodes[0]@, steps),
        steps.len() > 0,
        head == nodes.len() || steps.len() <= depth(parent, head),
    ensures
        exists|m: int|
            0 <= m < nodes.len() && #[trigger] nodes[m]@ == steps.last() && depth(parent, m)
                <= steps.len(),
    decreases steps.len(),
{
    let n = steps.len() as int;
    let pre = steps.drop_last();
    assert(is_move(if n == 1 { nodes[0]@ } else { steps[n - 2] }, steps[n - 1]));
    let ghost m0: int;
    if n == 1 {
        assert(depth(parent, 0) == 0);
        m0 = 0;
    } else {
        assert forall|k: int| 0 <= k < pre.len() implies is_move(
            if k == 0 {
                nodes[0]@
            } else {
                pre[k - 1]
            },
            #[trigger] pre[k],
        ) by {
            assert(pre[k] == steps[k]);
            assert(is_move(if k == 0 { nodes[0]@ } else { steps[k - 1] }, steps[k]));
        }
        lemma_reach(nodes, parent, head, pre);
        m0 = choose|m: int|
            0 <= m < nodes.len() && #[trigger] nodes[m]@ == pre.last() && depth(parent, m)
                <= pre.len();
        assert(steps[n - 2] == pre.last());
    }
    assert(depth(parent, m0) <= n - 1);
    if m0 >= head {
        assert(depth(parent, head) <= depth(parent, m0));
    }
    assert(is_move(nodes[m0]@, steps.last()));
    assert(covers(nodes, parent, m0, steps.last()));
}

/// Adding a board one move below the board at `head` keeps the depths of the
/// others, orders the depths, and keeps what the tree covers.
proof fn lemma_grow(nodes: Seq<Board>, parent: Seq<usize>, next: Board, head: usize)
    requires
        is_tree(nodes, parent),
        0 <= head < nodes.len(),
        depth_ordered(parent),
        forall|k: int| head <= k < nodes.len() ==> #[trigger] depth(parent, k)
            <= depth(parent, head as int) + 1,
    ensures
        ({
            let nodes2 = nodes.push(next);
            let parent2 = parent.push(head as usize);
            &&& forall|k: int| 0 <= k < nodes.len() ==> #[trigger] depth(parent2, k)
                == depth(parent, k)
            &&& depth(parent2, nodes.len() as int) == depth(parent, head as int) + 1
            &&& depth_ordered(parent2)
            &&& forall|k: int| head <= k < nodes2.len() ==> #[trigger] depth(parent2, k)
                <= depth(parent2, head as int) + 1
            &&& forall|k: int, b: Seq<u8>| 0 <= k < nodes.len()
                && #[trigger] covers(nodes, parent, k, b) ==> covers(nodes2, parent2, k, b)
            &&& covers(nodes2, parent2, head as int, next@)
        }),
{
    let nodes2 = nodes.push(next);
    let parent2 = parent.push(head as usize);
    let n = nodes.len() as int;
    assert forall|k: int| 0 <= k < n implies #[trigger] depth(parent2, k) == depth(parent, k) by {
        lemma_depth_push(parent, head as usize, k);
    }
    assert(parent2[n] == head as usize);
    assert(depth(parent2, n) == depth(parent2, head as int) + 1);
    assert forall|i: int, j: int| 0 <= i <= j < parent2.len()
        implies #[trigger] depth(parent2, i) <= #[trigger] depth(parent2, j) by {
        if j == n && i < n {
            if i <= head {
                assert(depth(parent, i) <= depth(parent, head as int));
            }
        }
    }
    assert forall|k: int, b: Seq<u8>| 0 <= k < n && #[trigger] covers(nodes, parent, k, b)
        implies covers(nodes2, parent2, k, b) by {
        let m = choose|m: int| 0 <= m < nodes.len() && #[trigger] nodes[m]@ == b
            && depth(parent, m) <= depth(parent, k) + 1;
        assert(nodes2[m] == nodes[m]);
    }
    assert(nodes2[n] == next);
}

/// The search tree: every board after the first was reached by one move from
/// the board at its parent index, which comes before it.
pub open spec fn is_tree(nodes: Seq<Board>, parent: Seq<usize>) -> bool {
    &&& nodes.len() == parent.len()
    &&& forall|k: int| 0 <= k < nodes.len() ==> (#[trigger] nodes[k]).wf()
    &&& forall|k: int|
        0 < k < nodes.len() ==> #[trigger] parent[k] < k
            && is_move(nodes[parent[k] as int]@, nodes[k]@)
}

/// The moves from the first board of the tree to the board at `last`.
fn trace(nodes: &Vec<Board>, parent: &Vec<usize>, last: usize) -> (r: Vec<Board>)
    requires
        is_tree(nodes@, parent@),
        0 < last < nodes.len(),
    ensures
        r.len() == depth(parent@, last as int),
        r.len() > 0,
        is_path(nodes[0]@, views(r@)),
        views(r@).last() == nodes[last as int]@,
{
    let mut rev: Vec<Board> = Vec::new();
    let mut k: usize = last;
    while k != 0
        invariant
            is_tree(nodes@, parent@),
            k < nodes.len(),
            last < nodes.len(),
            rev.len() == 0 ==> k == last,
            rev.len() + depth(parent@, k as int) == depth(parent@, last as int),
            rev.len() > 0 ==> rev[0]@ == nodes[last as int]@,
            rev.len() > 0 ==> is_move(nodes[k as int]@, rev@.last()@),
            forall|j: int| 0 <= j < rev.len() - 1 ==> is_move(#[trigger] rev[j + 1]@, rev[j]@),
        decreases k,
    {
        rev.push(nodes[k]);
        k = parent[k];
    }
    let mut out: Vec<Board> = Vec::new();
    let mut i: usize = rev.len();
    while i > 0
        invariant
            i <= rev.len(),
            rev.len() > 0,
            rev[0]@ == nodes[last as int]@,
            is_move(nodes[0]@, rev@.last()@),
            forall|j: int| 0 <= j < rev.len() - 1 ==> is_move(#[trigger] rev[j + 1]@, rev[j]@),
            out.len() + i == rev.len(),
            rev.len() == depth(parent@, last as int),
            forall|j: int| 0 <= j < out.len() ==> #[trigger] out[j] == rev[rev.len() - 1 - j],
        decreases i,
    {
        i -= 1;
        out.push(rev[i]);
    }
    assert forall|j: int| 0 <= j < views(out@).len() implies is_move(
        if j == 0 {
            nodes[0]@
        } else {
            views(out@)[j - 1]
        },
        #[trigger] views(out@)[j],
    ) by {
        let n = rev.len() as int;
        assert(views(out@)[j] == out[j]@);
        assert(out[j] == rev[n - 1 - j]);
        if j > 0 {
            assert(views(out@)[j - 1] == out[j - 1]@);
            assert(out[j - 1] == rev[(n - 1 - j) + 1]);
            assert(is_move(rev[(n - 1 - j) + 1]@, rev[n - 1 - j]@));
        }
    }
    assert(views(out@).last() == out[out.len() - 1]@);
    out
}

/// The state of the search: a tree of boards from `start`, none of them
/// solved, whose packed numbers make up `visited`, expanded before `head`,
/// with depths that grow by at most one from `head` on.
#[verifier::opaque]
pub open spec fn search_ok(
    nodes: Seq<Board>,
    parent: Seq<usize>,
    visited: Set<u64>,
    head: int,
) -> bool {
    &&& is_tree(nodes, parent)
    &&& 1 <= nodes.len() <= CODE_LIMIT
    &&& 0 <= head <= nodes.len()
    &&& visited.finite()
    &&& visited.len() == nodes.len()
    &&& forall|c: u64| visited.contains(c) ==> c < CODE_LIMIT
    &&& forall|m: int| 0 <= m < nodes.len()
        ==> visited.contains(#[trigger] pack_from(nodes[m]@, 0) as u64)
    &&& forall|c: u64| visited.contains(c) ==> exists|m: int| 0 <= m < nodes.len()
        && #[trigger] pack_from(nodes[m]@, 0) == c
    &&& forall|m: int| 0 <= m < nodes.len() ==> #[trigger] nodes[m]@ != goal()
    &&& depth_ordered(parent)
    &&& head < nodes.len() ==> forall|k: int| head <= k < nodes.len()
        ==> #[trigger] depth(parent, k) <= depth(parent, head) + 1
    &&& expanded(nodes, parent, head)
}

/// The search starts from a tree that holds `start` alone.
proof fn lemma_search_start(start: Board, c: u64)
    requires
        start.wf(),
        start@ != goal(),
        c == pack_from(start@, 0),
        c < CODE_LIMIT,
    ensures
        search_ok(seq![start], seq![0usize], set![c], 0),
{
    reveal(search_ok);
    let nodes = seq![start];
    assert(pack_from(nodes[0]@, 0) == c);
    assert(depth(seq![0usize], 0) == 0);
}

/// A board one move from the board at `head`, and not yet visited, joins the
/// tree.
proof fn lemma_search_add(
    nodes: Seq<Board>,
    parent: Seq<usize>,
    visited: Set<u64>,
    head: usize,
    next: Board,
    c: u64,
)
    requires
        search_ok(nodes, parent, visited, head as int),
        head < nodes.len(),
        next.wf(),
        next@ != goal(),
        is_move(nodes[head as int]@, next@),
        c == pack_from(next@, 0),
        c < CODE_LIMIT,
        !visited.contains(c),
    ensures
        search_ok(nodes.push(next), parent.push(head), visited.insert(c), head as int),
        nodes.len() + 1 <= CODE_LIMIT,
        forall|k: int, b: Seq<u8>|
            0 <= k < nodes.len() && #[trigger] covers(nodes, parent, k, b) ==> covers(
                nodes.push(next),
                parent.push(head),
                k,
                b,
            ),
        covers(nodes.push(next), parent.push(head), head as int, next@),
{
    reveal(search_ok);
    let nodes2 = nodes.push(next);
    let visited2 = visited.insert(c);
    lemma_codes_bound(visited2);
    lemma_grow(nodes, parent, next, head);
    assert(nodes2[nodes.len() as int] == next);
    assert forall|m: int| 0 <= m < nodes2.len()
        implies visited2.contains(#[trigger] pack_from(nodes2[m]@, 0) as u64) by {
        if m < nodes.len() {
            assert(nodes2[m] == nodes[m]);
        }
    }
    assert forall|c2: u64| visited2.contains(c2) implies exists|m: int| 0 <= m < nodes2.len()
        && #[trigger] pack_from(nodes2[m]@, 0) == c2 by {
        if c2 == c {
            assert(pack_from(nodes2[nodes.len() as int]@, 0) == c2);
        } else {
            let m = choose|m: int| 0 <= m < nodes.len() && #[trigger] pack_from(nodes[m]@, 0) == c2;
            assert(nodes2[m] == nodes[m]);
        }
    }
    assert forall|m: int| 0 <= m < nodes2.len() implies #[trigger] nodes2[m]@ != goal() by {
        if m < nodes.len() {
            assert(nodes2[m] == nodes[m]);
        }
    }
    assert forall|k: int, b: Seq<u8>| 0 <= k < head && #[trigger] is_move(nodes2[k]@, b)
        implies covers(nodes2, parent.push(head), k, b) by {
        assert(nodes2[k] == nodes[k]);
        assert(covers(nodes, parent, k, b));
    }
}

/// A board that packs to a visited number is in the tree, at most one move
/// deeper than the board at `head`.
proof fn lemma_search_seen(
    nodes: Seq<Board>,
    parent: Seq<usize>,
    visited: Set<u64>,
    head: usize,
    next: Board,
)
    requires
        search_ok(nodes, parent, visited, head as int),
        head < nodes.len(),
        next.wf(),
        visited.contains(pack_from(next@, 0) as u64),
    ensures
        covers(nodes, parent, head as int, next@),
{
    reveal(search_ok);
    let c = pack_from(next@, 0) as u64;
    lemma_pack_nonneg_bound(next@);
    let m = choose|m: int| 0 <= m < nodes.len() && #[trigger] pack_from(nodes[m]@, 0) == c;
    lemma_pack_injective(nodes[m]@, next@);
    if m < head {
        assert(depth(parent, m) <= depth(parent, head as int));
    }
}

/// Once every board one move from the board at `head` is in the tree, the
/// search moves on to the next board.
proof fn lemma_search_next(
    nodes: Seq<Board>,
    parent: Seq<usize>,
    visited: Set<u64>,
    head: usize,
)
    requires
        search_ok(nodes, parent, visited, head as int),
        head < nodes.len(),
        forall|b: Seq<u8>| #[trigger] is_move(nodes[head as int]@, b)
            ==> covers(nodes, parent, head as int, b),
    ensures
        search_ok(nodes, parent, visited, head + 1),
{
    reveal(search_ok);
    if head + 1 < nodes.len() {
        assert(depth(parent, head as int) <= depth(parent, head + 1));
    }
}

/// The boards one move from `a` are those that `neighbors` lists from its
/// blank.
proof fn lemma_moves_from_blank(a: Seq<u8>, p: int, b: Seq<u8>)
    requires
        is_board(a),
        0 <= p < 9,
        a[p] == 0,
        is_move(a, b),
    ensures
        exists|q: int| adjacent(p, q) && b == #[trigger] swapped(a, p, q),
{
    let (p2, q2) = choose|p2: int, q2: int| adjacent(p2, q2) && a[p2] == 0 && b
        == #[trigger] swapped(a, p2, q2);
    assert(p2 == p);
    assert(swapped(a, p, q2) == b);
}

/// A board added below the board at `head` is one move deeper.
proof fn lemma_search_goal_depth(
    nodes: Seq<Board>,
    parent: Seq<usize>,
    visited: Set<u64>,
    head: usize,
    next: Board,
)
    requires
        search_ok(nodes, parent, visited, head as int),
        head < nodes.len(),
    ensures
        depth(parent.push(head), nodes.len() as int) == depth(parent, head as int) + 1,
{
    reveal(search_ok);
    lemma_grow(nodes, parent, next, head);
}

/// When the board added at the end of a tree at depth one more than the board
/// at `head` is solved, no solution is shorter than that.
proof fn lemma_search_found(
    nodes: Seq<Board>,
    parent: Seq<usize>,
    visited: Set<u64>,
    head: usize,
    steps: Seq<Seq<u8>>,
)
    requires
        search_ok(nodes, parent, visited, head as int),
        head < nodes.len(),
        is_solution(nodes[0]@, steps),
    ensures
        depth(parent, head as int) + 1 <= steps.len(),
{
    reveal(search_ok);
    if steps.len() <= depth(parent, head as int) {
        assert(steps.len() > 0);
        lemma_reach(nodes, parent, head as int, steps);
    }
}

/// When every board of the tree is expanded, no sequence of moves solves its
/// first board.
proof fn lemma_search_exhausted(
    nodes: Seq<Board>,
    parent: Seq<usize>,
    visited: Set<u64>,
    steps: Seq<Seq<u8>>,
)
    requires
        search_ok(nodes, parent, visited, nodes.len() as int),
    ensures
        !is_solution(nodes[0]@, steps),
{
    reveal(search_ok);
    if is_solution(nodes[0]@, steps) {
        lemma_reach(nodes, parent, nodes.len() as int, steps);
    }
}

/// The shortest sequence of moves that solves `start`: the boards after each
/// move, the last of them solved. Empty when `start` is solved already; `None`
/// when no sequence of moves solves it.
pub fn solve(start: Board) -> (r: Option<Vec<Board>>)
    requires
        start.wf(),
    ensures
        start@ == goal() ==> (r matches Some(v) && v.len() == 0),
        r matches Some(v) ==> is_solution(start@, views(v@)),
        r matches Some(v) ==> forall|steps: Seq<Seq<u8>>|
            #[trigger] is_solution(start@, steps) ==> v.len() <= steps.len(),
        r is None ==> forall|steps: Seq<Seq<u8>>| !#[trigger] is_solution(start@, steps),
        r is Some ==> inversions(start@) % 2 == 0,
{
    if start.is_solved() {
        proof {
            lemma_goal_parity();
        }
        return Some(Vec::new());
    }
    let mut nodes: Vec<Board> = Vec::new();
    let mut parent: Vec<usize> = Vec::new();
    let mut visited: HashSet<u64> = HashSet::new();
    nodes.push(start);
    parent.push(0);
    let c0 = start.code();
    visited.insert(c0);
    let mut head: usize = 0;
    proof {
        assert(nodes@ == seq![start]);
        assert(parent@ == seq![0usize]);
        assert(visited@ == set![c0]);
        lemma_search_start(start, c0);
    }
    while head < nodes.len()
        invariant
            search_ok(nodes@, parent@, visited@, head as int),
            is_tree(nodes@, parent@),
            head <= nodes.len() <= CODE_LIMIT,
            nodes[0] == start,
            start@ != goal(),
        decreases CODE_LIMIT - head,
    {
        let board = nodes[head];
        let p = board.blank_index();
        let qs = neighbors(p);
        let mut j: usize = 0;
        while j < qs.len()
            invariant
                search_ok(nodes@, parent@, visited@, head as int),
                is_tree(nodes@, parent@),
                nodes.len() <= CODE_LIMIT,
                nodes[0] == start,
                start@ != goal(),
                head < nodes.len(),
                board == nodes[head as int],
                p < 9,
                board@[p as int] == 0,
                forall|i: int| 0 <= i < qs.len() ==> adjacent(p as int, #[trigger] qs[i] as int),
                forall|i: int|
                    0 <= i < j ==> covers(
                        nodes@,
                        parent@,
                        head as int,
                        #[trigger] swapped(board@, p as int, qs[i] as int),
                    ),
            decreases qs.len() - j,
        {
            let q = qs[j];
            let mut next = board;
            next.swap(p / 3, p % 3, q / 3, q % 3);
            assert(next@ == swapped(board@, p as int, q as int));
            assert(is_move(board@, next@));
            let c = next.code();
            if !visited.contains(&c) {
                let solved = next.is_solved();
                let ghost old_nodes = nodes@;
                let ghost old_parent = parent@;
                let ghost old_visited = visited@;
                if solved {
                    nodes.push(next);
                    parent.push(head);
                    proof {
                        lemma_search_goal_depth(old_nodes, old_parent, old_visited, head, next);
                        assert(nodes@ == old_nodes.push(next));
                        assert(parent@ == old_parent.push(head));
                    }
                    let path = trace(&nodes, &parent, nodes.len() - 1);
                    proof {
                        assert forall|steps: Seq<Seq<u8>>| #[trigger]
                            is_solution(start@, steps) implies path.len() <= steps.len() by {
                            lemma_search_found(old_nodes, old_parent, old_visited, head, steps);
                        }
                        lemma_solution_parity(start@, views(path@));
                    }
                    return Some(path);
                }
                proof {
                    lemma_search_add(old_nodes, old_parent, old_visited, head, next, c);
                }
                visited.insert(c);
                nodes.push(next);
                parent.push(head);
                proof {
                    assert(nodes@ == old_nodes.push(next));
                    assert(parent@ == old_parent.push(head));
                    assert forall|i: int| 0 <= i < j + 1 implies covers(
                        nodes@,
                        parent@,
                        head as int,
                        #[trigger] swapped(board@, p as int, qs[i] as int),
                    ) by {
                        if i < j {
                            let b = swapped(board@, p as int, qs[i] as int);
                            assert(covers(old_nodes, old_parent, head as int, b));
                        }
                    }
                }
            } else {
                proof {
                    lemma_search_seen(nodes@, parent@, visited@, head, next);
                }
            }
            j += 1;
        }
        proof {
            assert forall|b: Seq<u8>| #[trigger] is_move(nodes[head as int]@, b)
                implies covers(nodes@, parent@, head as int, b) by {
                lemma_moves_from_blank(board@, p as int, b);
                let q2 = choose|q2: int| adjacent(p as int, q2) && b
                    == #[trigger] swapped(board@, p as int, q2);
                assert(qs@.contains(q2 as usize));
                let i = choose|i: int| 0 <= i < qs.len() && qs@[i] == q2 as usize;
                let b2 = swapped(board@, p as int, qs[i] as int);
                assert(covers(nodes@, parent@, head as int, b2));
            }
            lemma_search_next(nodes@, parent@, visited@, head);
        }
        head += 1;
    }
    proof {
        assert forall|steps: Seq<Seq<u8>>| !#[trigger] is_solution(start@, steps) by {
            lemma_search_exhausted(nodes@, parent@, visited@, steps);
        }
    }
    None
}

} // verus!
