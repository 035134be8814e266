//! The invariant of the best-first search and the facts that follow from it:
//! the selected node carries its true distance from the start, and a search
//! that runs dry has proved the goal unreachable.

use vstd::prelude::*;
use crate::graph::{exhausted, fresh, improvable, improved, indexed, is_best, relaxed, seed, Node};
use crate::tile::{adjacent, lemma_manhattan_triangle, manhattan, TilePos};
use crate::walk::{connects, is_walk, lemma_walk_covers, reachable};

verus! {

/// The number of nodes that the search has not visited yet.
pub open spec fn unvisited_count(nodes: Seq<Node>) -> nat
    decreases nodes.len(),
{
    if nodes.len() == 0 {
        0
    } else {
        unvisited_count(nodes.drop_last()) + if nodes.last().visited {
            0nat
        } else {
            1nat
        }
    }
}

/// The count depends on the visited flags alone.
pub proof fn lemma_count_same(before: Seq<Node>, after: Seq<Node>)
    requires
        before.len() == after.len(),
        forall|j: int| 0 <= j < before.len() ==> (#[trigger] after[j]).visited == before[j].visited,
    ensures
        unvisited_count(after) == unvisited_count(before),
    decreases before.len(),
{
    if before.len() > 0 {
        lemma_count_same(before.drop_last(), after.drop_last());
    }
}

/// The count is at most the number of nodes, and at least one where some
/// node is unvisited.
pub proof fn lemma_count_bounds(nodes: Seq<Node>, j: int)
    ensures
        unvisited_count(nodes) <= nodes.len(),
        0 <= j < nodes.len() && !nodes[j].visited ==> unvisited_count(nodes) >= 1,
    decreases nodes.len(),
{
    if nodes.len() > 0 {
        lemma_count_bounds(nodes.drop_last(), j);
    }
}

/// Visiting one more node lowers the count by one.
pub proof fn lemma_count_visit(before: Seq<Node>, after: Seq<Node>, b: int)
    requires
        before.len() == after.len(),
        0 <= b < before.len(),
        !before[b].visited,
        after[b].visited,
        forall|j: int|
            0 <= j < before.len() && j != b ==> (#[trigger] after[j]).visited == before[j].visited,
    ensures
        unvisited_count(after) + 1 == unvisited_count(before),
    decreases before.len(),
{
    if b == before.len() - 1 {
        lemma_count_same(before.drop_last(), after.drop_last());
    } else {
        lemma_count_visit(before.drop_last(), after.drop_last(), b);
    }
}

/// The node in slot `i` is either untouched, or it records how it was
/// reached: through a visited neighbour whose cost is one less.
pub open spec fn linked(
    nodes: Seq<Node>,
    index: Map<TilePos, usize>,
    goal: TilePos,
    i: int,
) -> bool {
    let n = nodes[i];
    if n.score == u64::MAX {
        n == fresh(n.pos)
    } else {
        &&& n.heuristic_score == n.score + manhattan(n.pos, goal)
        &&& n.previous_pos is Some
        &&& index.contains_key(n.previous_pos->0)
        &&& nodes[index[n.previous_pos->0] as int].visited
        &&& nodes[index[n.previous_pos->0] as int].score + 1 == n.score
        &&& adjacent(n.previous_pos->0, n.pos)
    }
}

/// Slot 0 holds the start at cost 0, and every other node is linked.
pub open spec fn chained(
    nodes: Seq<Node>,
    index: Map<TilePos, usize>,
    start: TilePos,
    goal: TilePos,
) -> bool {
    &&& indexed(nodes, index)
    &&& nodes.len() >= 1
    &&& nodes[0] == Node { visited: nodes[0].visited, ..seed(start) }
    &&& forall|i: int| 1 <= i < nodes.len() ==> #[trigger] linked(nodes, index, goal, i)
}

/// Every neighbour of the node in slot `i` has been reached, at a cost of
/// no more than one step beyond it.
pub open spec fn settled(nodes: Seq<Node>, i: int) -> bool {
    forall|j: int|
        0 <= j < nodes.len() && adjacent(nodes[i].pos, (#[trigger] nodes[j]).pos) ==> nodes[j].score
            <= nodes[i].score + 1 && nodes[j].score < u64::MAX
}

/// The arena fits in memory, and a finite cost never exceeds the number of
/// visited nodes.
pub open spec fn bounded(nodes: Seq<Node>) -> bool {
    &&& nodes.len() <= usize::MAX
    &&& forall|i: int|
        0 <= i < nodes.len() && (#[trigger] nodes[i]).score < u64::MAX ==> nodes[i].score
            + unvisited_count(nodes) <= nodes.len()
}

/// Every visited node is settled.
#[verifier::opaque]
pub open spec fn all_settled(nodes: Seq<Node>) -> bool {
    forall|i: int| 0 <= i < nodes.len() && (#[trigger] nodes[i]).visited ==> settled(nodes, i)
}

/// No visited node has a higher priority than an unvisited one.
#[verifier::opaque]
pub open spec fn ordered(nodes: Seq<Node>) -> bool {
    forall|i: int, j: int|
        0 <= i < nodes.len() && 0 <= j < nodes.len() && (#[trigger] nodes[i]).visited && !(
        #[trigger] nodes[j]).visited ==> nodes[i].heuristic_score <= nodes[j].heuristic_score
}

/// What holds each time the search is about to select a node.
pub open spec fn search_inv(
    nodes: Seq<Node>,
    index: Map<TilePos, usize>,
    start: TilePos,
    goal: TilePos,
) -> bool {
    &&& chained(nodes, index, start, goal)
    &&& !nodes[0].visited ==> forall|i: int|
        1 <= i < nodes.len() ==> (#[trigger] nodes[i]).score == u64::MAX
    &&& forall|i: int| 0 <= i < nodes.len() && (#[trigger] nodes[i]).visited ==> nodes[i].pos != goal
    &&& all_settled(nodes)
    &&& ordered(nodes)
    &&& bounded(nodes)
}

/// A freshly built graph satisfies the invariant.
pub proof fn lemma_initial(
    nodes: Seq<Node>,
    index: Map<TilePos, usize>,
    start: TilePos,
    goal: TilePos,
)
    requires
        indexed(nodes, index),
        1 <= nodes.len() <= usize::MAX,
        nodes[0] == seed(start),
        forall|i: int| 1 <= i < nodes.len() ==> #[trigger] nodes[i] == fresh(nodes[i].pos),
    ensures
        search_inv(nodes, index, start, goal),
{
    assert forall|i: int| 1 <= i < nodes.len() implies #[trigger] linked(nodes, index, goal, i) by {
        assert(nodes[i] == fresh(nodes[i].pos));
    }
    assert forall|i: int| 0 <= i < nodes.len() implies !(#[trigger] nodes[i]).visited by {
        if i >= 1 {
            assert(nodes[i] == fresh(nodes[i].pos));
        }
    }
    reveal(all_settled);
    reveal(ordered);
    lemma_count_bounds(nodes, 0);
}

/// A visited node other than the start has a finite cost and the priority
/// that goes with it.
pub proof fn lemma_reached(
    nodes: Seq<Node>,
    index: Map<TilePos, usize>,
    start: TilePos,
    goal: TilePos,
    i: int,
)
    requires
        chained(nodes, index, start, goal),
        1 <= i < nodes.len(),
        nodes[i].visited || nodes[i].score < u64::MAX || nodes[i].heuristic_score < u128::MAX,
    ensures
        nodes[i].score < u64::MAX,
        nodes[i].heuristic_score == nodes[i].score + manhattan(nodes[i].pos, goal),
        nodes[i].heuristic_score < u128::MAX,
{
    assert(linked(nodes, index, goal, i));
}

/// Follows `walk` from the start up to position `i` and reports the first
/// position at which it leaves the visited nodes, or -1 if it does not. The
/// cost recorded at that position is at most the number of steps taken.
pub proof fn lemma_frontier(
    nodes: Seq<Node>,
    index: Map<TilePos, usize>,
    start: TilePos,
    goal: TilePos,
    walk: Seq<TilePos>,
    i: int,
) -> (j: int)
    requires
        search_inv(nodes, index, start, goal),
        is_walk(index.dom(), walk),
        walk[0] == start,
        0 <= i < walk.len(),
    ensures
        -1 <= j <= i,
        j == -1 ==> nodes[index[walk[i]] as int].visited && nodes[index[walk[i]] as int].score <= i,
        j >= 0 ==> !nodes[index[walk[j]] as int].visited && nodes[index[walk[j]] as int].score <= j
            && nodes[index[walk[j]] as int].score < u64::MAX,
    decreases i,
{
    assert(index.dom().contains(walk[i]));
    assert(index.contains_key(walk[i]));
    let here = index[walk[i]] as int;
    if i == 0 {
        assert(index.contains_key(nodes[0].pos) && index[nodes[0].pos] == 0);
        if nodes[0].visited {
            -1
        } else {
            0
        }
    } else {
        let j = lemma_frontier(nodes, index, start, goal, walk, i - 1);
        if j >= 0 {
            j
        } else {
            assert(index.dom().contains(walk[i - 1]));
            assert(index.contains_key(walk[i - 1]));
            let prev = index[walk[i - 1]] as int;
            assert(nodes[prev].visited);
            assert(settled(nodes, prev)) by {
                reveal(all_settled);
            }
            assert(adjacent(walk[i - 1], walk[i]));
            assert(nodes[here].pos == walk[i]);
            assert(nodes[here].score <= nodes[prev].score + 1 && nodes[here].score < u64::MAX);
            if nodes[here].visited {
                -1
            } else {
                i
            }
        }
    }
}

/// The cost of the selected node is a lower bound for every walk from the
/// start to its tile.
pub proof fn lemma_best_is_closest(
    nodes: Seq<Node>,
    index: Map<TilePos, usize>,
    start: TilePos,
    goal: TilePos,
    b: int,
    walk: Seq<TilePos>,
)
    requires
        search_inv(nodes, index, start, goal),
        is_best(nodes, b),
        connects(index.dom(), walk, start, nodes[b].pos),
    ensures
        nodes[b].score <= walk.len() - 1,
{
    let last = walk.len() - 1;
    let j = lemma_frontier(nodes, index, start, goal, walk, last);
    assert(index.contains_key(nodes[b].pos) && index[nodes[b].pos] == b);
    assert(j >= 0);
    assert(index.dom().contains(walk[j]));
    assert(index.contains_key(walk[j]));
    let y = index[walk[j]] as int;
    assert(nodes[y].pos == walk[j]);
    assert(!nodes[y].visited);
    assert(nodes[b].heuristic_score <= nodes[y].heuristic_score);
    if b >= 1 {
        lemma_reached(nodes, index, start, goal, b);
        if y == 0 {
            assert(nodes[b].score == u64::MAX);
        } else {
            lemma_reached(nodes, index, start, goal, y);
            lemma_walk_covers(index.dom(), walk, j, last);
            lemma_manhattan_triangle(nodes[y].pos, nodes[b].pos, goal);
        }
    }
}

/// When no unvisited node of finite priority is left, no walk leads from the
/// start to the goal.
pub proof fn lemma_exhausted_unreachable(
    nodes: Seq<Node>,
    index: Map<TilePos, usize>,
    start: TilePos,
    goal: TilePos,
)
    requires
        search_inv(nodes, index, start, goal),
        exhausted(nodes),
    ensures
        !reachable(index.dom(), start, goal),
{
    if reachable(index.dom(), start, goal) {
        let walk = choose|walk: Seq<TilePos>| connects(index.dom(), walk, start, goal);
        let last = walk.len() - 1;
        let j = lemma_frontier(nodes, index, start, goal, walk, last);
        assert(index.dom().contains(walk[last]));
        assert(index.contains_key(walk[last]));
        if j == -1 {
            let g = index[walk[last]] as int;
            assert(nodes[g].visited);
            assert(nodes[g].pos == goal);
        } else {
            assert(index.dom().contains(walk[j]));
            assert(index.contains_key(walk[j]));
            let y = index[walk[j]] as int;
            assert(!nodes[y].visited);
            assert(nodes[y].heuristic_score == u128::MAX);
            if y >= 1 {
                lemma_reached(nodes, index, start, goal, y);
            }
        }
    }
}

/// `node` once the search has visited it.
pub open spec fn visited_copy(node: Node) -> Node {
    Node { visited: true, ..node }
}

/// The arena after the step that visits slot `b`: the node in that slot is
/// visited and each of its neighbours is relaxed from it.
pub open spec fn step(nodes: Seq<Node>, b: int, goal: TilePos) -> Seq<Node> {
    Seq::new(
        nodes.len(),
        |j: int|
            if j == b {
                visited_copy(nodes[b])
            } else if adjacent(nodes[b].pos, nodes[j].pos) {
                relaxed(nodes[j], visited_copy(nodes[b]), goal)
            } else {
                nodes[j]
            },
    )
}

/// What one step changes and what it leaves alone.
spec fn step_frame(before: Seq<Node>, after: Seq<Node>, b: int) -> bool {
    &&& after.len() == before.len()
    &&& forall|j: int|
        0 <= j < before.len() ==> {
            &&& (#[trigger] after[j]).pos == before[j].pos
            &&& after[j].visited == (before[j].visited || j == b)
            &&& after[j].score <= before[j].score
            &&& before[j].visited ==> after[j] == before[j]
        }
}

/// A step keeps every tile in its slot, visits slot `b` and nothing else,
/// raises no cost and leaves the visited nodes alone.
proof fn lemma_step_frame(before: Seq<Node>, b: int, goal: TilePos)
    requires
        0 <= b < before.len(),
        !before[b].visited,
        before[b].score < u64::MAX,
    ensures
        step_frame(before, step(before, b, goal), b),
        step(before, b, goal)[b] == visited_copy(before[b]),
{
    let after = step(before, b, goal);
    assert forall|j: int| 0 <= j < before.len() implies {
        &&& (#[trigger] after[j]).pos == before[j].pos
        &&& after[j].visited == (before[j].visited || j == b)
        &&& after[j].score <= before[j].score
        &&& before[j].visited ==> after[j] == before[j]
    } by {
        let from = visited_copy(before[b]);
        if j != b && adjacent(before[b].pos, before[j].pos) && improvable(before[j], from) {
            assert(after[j] == improved(before[j], from, goal));
        }
    }
}

/// The selected node has a finite cost, and unless it is the start itself
/// the start has been visited before it.
pub proof fn lemma_best_reached(
    nodes: Seq<Node>,
    index: Map<TilePos, usize>,
    start: TilePos,
    goal: TilePos,
    b: int,
)
    requires
        search_inv(nodes, index, start, goal),
        is_best(nodes, b),
    ensures
        nodes[b].score < u64::MAX,
        nodes[b].score + unvisited_count(nodes) <= nodes.len(),
        unvisited_count(nodes) >= 1,
        b >= 1 ==> nodes[0].visited && nodes[b].heuristic_score == nodes[b].score + manhattan(
            nodes[b].pos,
            goal,
        ),
{
    lemma_count_bounds(nodes, b);
    if b >= 1 {
        lemma_reached(nodes, index, start, goal, b);
    }
}

/// A step keeps the links in place and leaves the start visited.
proof fn lemma_step_chained(
    before: Seq<Node>,
    index: Map<TilePos, usize>,
    start: TilePos,
    goal: TilePos,
    b: int,
)
    requires
        search_inv(before, index, start, goal),
        is_best(before, b),
    ensures
        chained(step(before, b, goal), index, start, goal),
        step(before, b, goal)[0].visited,
{
    let after = step(before, b, goal);
    lemma_best_reached(before, index, start, goal, b);
    lemma_step_frame(before, b, goal);
    let from = visited_copy(before[b]);
    assert(indexed(after, index)) by {
        assert forall|i: int| 0 <= i < after.len() implies index.contains_key(
            (#[trigger] after[i]).pos,
        ) && index[after[i].pos] == i by {
            assert(before[i].pos == after[i].pos);
        }
        assert forall|p: TilePos| #[trigger] index.contains_key(p) implies index[p] < after.len()
            && after[index[p] as int].pos == p by {
            assert(before[index[p] as int].pos == p);
            assert(after[index[p] as int].pos == p);
        }
    }
    assert(after[0] == visited_copy(before[0]));
    assert forall|i: int| 1 <= i < after.len() implies #[trigger] linked(after, index, goal, i) by {
        assert(linked(before, index, goal, i));
        if i != b && adjacent(before[b].pos, before[i].pos) && improvable(before[i], from) {
            assert(after[i] == improved(before[i], from, goal));
            assert(index.contains_key(before[b].pos) && index[before[b].pos] == b);
            assert(after[b].visited);
        } else {
            assert(after[i] == before[i] || (i == b && after[i] == visited_copy(before[i])));
            if before[i].score < u64::MAX {
                let k = index[before[i].previous_pos->0] as int;
                assert(before[k].visited);
                assert(after[k] == before[k]);
            }
        }
    }
}

/// After a step every visited node is settled, the one just visited too.
proof fn lemma_step_settled(
    before: Seq<Node>,
    index: Map<TilePos, usize>,
    start: TilePos,
    goal: TilePos,
    b: int,
)
    requires
        search_inv(before, index, start, goal),
        is_best(before, b),
    ensures
        all_settled(step(before, b, goal)),
{
    let after = step(before, b, goal);
    lemma_best_reached(before, index, start, goal, b);
    lemma_step_frame(before, b, goal);
    lemma_count_visit(before, after, b);
    let from = visited_copy(before[b]);
    assert forall|i: int| 0 <= i < after.len() && (#[trigger] after[i]).visited implies settled(
        after,
        i,
    ) by {
        if i == b {
            assert forall|j: int|
                0 <= j < after.len() && adjacent(after[b].pos, (#[trigger] after[j]).pos) implies
                after[j].score <= after[b].score + 1 && after[j].score < u64::MAX by {
                assert(before[j].pos == after[j].pos);
                assert(j != b);
                if before[j].visited {
                    assert(before[j].heuristic_score <= before[b].heuristic_score) by {
                        reveal(ordered);
                    }
                    if j >= 1 {
                        lemma_reached(before, index, start, goal, j);
                        lemma_manhattan_triangle(before[b].pos, before[j].pos, goal);
                    }
                } else {
                    lemma_count_bounds(after, j);
                    assert(after[j] == relaxed(before[j], from, goal));
                }
            }
        } else {
            assert(before[i].visited);
            assert(settled(before, i)) by {
                reveal(all_settled);
            }
            assert forall|j: int|
                0 <= j < after.len() && adjacent(after[i].pos, (#[trigger] after[j]).pos) implies
                after[j].score <= after[i].score + 1 && after[j].score < u64::MAX by {
                assert(before[j].pos == after[j].pos);
                assert(before[j].score <= before[i].score + 1 && before[j].score < u64::MAX);
            }
        }
    }
    reveal(all_settled);
}

/// After a step no visited node has a higher priority than an unvisited one.
proof fn lemma_step_ordered(
    before: Seq<Node>,
    index: Map<TilePos, usize>,
    start: TilePos,
    goal: TilePos,
    b: int,
)
    requires
        search_inv(before, index, start, goal),
        is_best(before, b),
    ensures
        ordered(step(before, b, goal)),
{
    let after = step(before, b, goal);
    lemma_best_reached(before, index, start, goal, b);
    lemma_step_frame(before, b, goal);
    let from = visited_copy(before[b]);
    assert forall|i: int, j: int|
        0 <= i < after.len() && 0 <= j < after.len() && (#[trigger] after[i]).visited && !(
        #[trigger] after[j]).visited implies after[i].heuristic_score <= after[j].heuristic_score by {
        assert(!before[j].visited && j != b);
        assert(before[b].heuristic_score <= before[j].heuristic_score);
        assert(before[b].heuristic_score <= after[j].heuristic_score) by {
            if adjacent(before[b].pos, before[j].pos) && improvable(before[j], from) {
                assert(after[j] == improved(before[j], from, goal));
                lemma_manhattan_triangle(before[b].pos, before[j].pos, goal);
            } else {
                assert(after[j] == before[j]);
            }
        }
        if i != b {
            assert(before[i].visited && after[i] == before[i]);
            assert(before[i].heuristic_score <= before[b].heuristic_score) by {
                reveal(ordered);
            }
        }
    }
    reveal(ordered);
}

/// One step of the search keeps the invariant and visits one more node.
pub proof fn lemma_step_preserves(
    before: Seq<Node>,
    index: Map<TilePos, usize>,
    start: TilePos,
    goal: TilePos,
    b: int,
)
    requires
        search_inv(before, index, start, goal),
        is_best(before, b),
        before[b].pos != goal,
    ensures
        search_inv(step(before, b, goal), index, start, goal),
        unvisited_count(step(before, b, goal)) + 1 == unvisited_count(before),
{
    let after = step(before, b, goal);
    lemma_best_reached(before, index, start, goal, b);
    lemma_step_frame(before, b, goal);
    lemma_count_visit(before, after, b);
    lemma_step_chained(before, index, start, goal, b);
    lemma_step_settled(before, index, start, goal, b);
    lemma_step_ordered(before, index, start, goal, b);
    let from = visited_copy(before[b]);
    assert forall|i: int|
        0 <= i < after.len() && (#[trigger] after[i]).score < u64::MAX implies after[i].score
            + unvisited_count(after) <= after.len() by {
        if i != b && adjacent(before[b].pos, before[i].pos) && improvable(before[i], from) {
            assert(after[i] == improved(before[i], from, goal));
        } else {
            assert(after[i].score == before[i].score);
        }
    }
    assert forall|i: int| 0 <= i < after.len() && (#[trigger] after[i]).visited implies after[i].pos
        != goal by {
        assert(before[i].pos == after[i].pos);
    }
}

/// Visiting a node breaks no link.
pub proof fn lemma_mark_chained(
    before: Seq<Node>,
    after: Seq<Node>,
    index: Map<TilePos, usize>,
    start: TilePos,
    goal: TilePos,
    b: int,
)
    requires
        chained(before, index, start, goal),
        0 <= b < before.len(),
        before[b].score < u64::MAX,
        after == before.update(b, visited_copy(before[b])),
    ensures
        chained(after, index, start, goal),
{
    assert forall|i: int| 0 <= i < after.len() implies index.contains_key((#[trigger] after[i]).pos)
        && index[after[i].pos] == i by {
        assert(before[i].pos == after[i].pos);
    }
    assert forall|p: TilePos| #[trigger] index.contains_key(p) implies index[p] < after.len()
        && after[index[p] as int].pos == p by {
        assert(before[index[p] as int].pos == p);
    }
    assert forall|i: int| 1 <= i < after.len() implies #[trigger] linked(after, index, goal, i) by {
        assert(linked(before, index, goal, i));
        if before[i].score < u64::MAX {
            let k = index[before[i].previous_pos->0] as int;
            assert(after[k].visited && after[k].score == before[k].score);
        }
    }
}

} // verus!
