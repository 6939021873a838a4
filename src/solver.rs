use crate::maze::{
    count_grid, lemma_count_grid_update, lemma_count_grid_zero, lemma_move_in_bounds, lemma_moves,
    lemma_simple_walk_unique, lemma_only_path, ranked,
    Coords, Maze, MazeView,
};
use std::collections::VecDeque;
use vstd::prelude::*;

verus! {

/// Errors of the solver.
#[derive(Clone, Copy, Debug, PartialEq, Eq, Structural)]
pub enum SolverError {
    /// No walk leads from the start to the end.
    EndNotReached,
}

/// A sequence of cells from the start of a maze to its end.
#[derive(Clone, Debug)]
pub struct Path {
    pub data: Vec<Coords>,
}

/// `p` is a walk from `a` to `b` that visits no cell twice.
pub open spec fn is_simple_walk(v: MazeView, p: Seq<Coords>, a: Coords, b: Coords) -> bool {
    &&& v.is_walk(p)
    &&& p[0] == a
    &&& p.last() == b
    &&& p.no_duplicates()
}

/// `p` is a shortest walk from the start of `v` to its end, with no cell
/// twice: what the solver returns.
pub open spec fn is_solution(v: MazeView, p: Seq<Coords>) -> bool {
    &&& is_simple_walk(v, p, v.start, v.end)
    &&& forall|w: Seq<Coords>| v.is_walk(w) && w[0] == v.start && w.last() == v.end ==> p.len() <= w.len()
}

pub open spec fn pred_view(pred: &Vec<Vec<Option<Coords>>>) -> Seq<Seq<Option<Coords>>> {
    pred@.map_values(|r: Vec<Option<Coords>>| r@)
}

pub open spec fn pred_at(pv: Seq<Seq<Option<Coords>>>, c: Coords) -> Option<Coords> {
    pv[c.y as int][c.x as int]
}

pub open spec fn undiscovered(pv: Seq<Seq<Option<Coords>>>) -> nat {
    count_grid(pv, |o: Option<Coords>| o is None)
}

/// The breadth-first search so far: `order` lists the discovered cells in
/// discovery order, the first `head` of them expanded, and exactly the
/// discovered cells have a parent recorded in `pv`.
#[verifier::opaque]
pub open spec fn search_ok(
    v: MazeView,
    pv: Seq<Seq<Option<Coords>>>,
    order: Seq<Coords>,
    from: Seq<int>,
    head: int,
) -> bool {
    &&& parents_ok(v, pv, order, from)
    &&& 0 <= head <= order.len()
    &&& forall|c: Coords| #[trigger] v.in_bounds(c) ==> (pred_at(pv, c) is Some <==> order.contains(c))
}

/// The discovered cells are distinct cells of the grid, the first is the
/// start, and each other one records an earlier one that opens onto it.
pub open spec fn parents_ok(
    v: MazeView,
    pv: Seq<Seq<Option<Coords>>>,
    order: Seq<Coords>,
    from: Seq<int>,
) -> bool {
    &&& pv.len() == v.height
    &&& forall|y: int| 0 <= y < v.height ==> #[trigger] pv[y].len() == v.width
    &&& order.len() >= 1
    &&& order[0] == v.start
    &&& order.no_duplicates()
    &&& from.len() == order.len()
    &&& forall|k: int| 0 <= k < order.len() ==> v.in_bounds(#[trigger] order[k])
    &&& forall|k: int| 1 <= k < order.len() ==> {
        &&& 0 <= #[trigger] from[k] < k
        &&& pred_at(pv, order[k]) == Some(order[from[k]])
        &&& v.has_move(order[from[k]], order[k])
    }
}

/// Distances of the search: the start is at 0, each other discovered cell
/// one further than its parent, they never decrease along `order`, and
/// every move out of one of the first `head` cells reaches a discovered cell
/// at most one further.
#[verifier::opaque]
pub open spec fn layers_ok(v: MazeView, order: Seq<Coords>, from: Seq<int>, dist: Seq<int>, head: int) -> bool {
    &&& dist.len() == order.len()
    &&& dist[0] == 0
    &&& forall|k: int| 1 <= k < order.len() ==> #[trigger] dist[k] == dist[from[k]] + 1
    &&& forall|i: int, j: int| #![trigger dist[i], dist[j]] 0 <= i <= j < order.len() ==> dist[i] <= dist[j]
    &&& forall|k: int, m: Coords| 0 <= k < head && #[trigger] v.has_move(order[k], m) ==>
        exists|j: int| 0 <= j < order.len() && #[trigger] order[j] == m && dist[j] <= dist[k] + 1
}

/// Every cell of a walk from the start is discovered, at a distance no
/// greater than its place on the walk.
pub proof fn lemma_walk_dist(v: MazeView, order: Seq<Coords>, from: Seq<int>, dist: Seq<int>, p: Seq<Coords>, i: int)
    requires
        layers_ok(v, order, from, dist, order.len() as int),
        v.is_walk(p),
        order.len() >= 1,
        p[0] == order[0],
        0 <= i < p.len(),
    ensures
        exists|j: int| 0 <= j < order.len() && #[trigger] order[j] == p[i] && dist[j] <= i,
    decreases i,
{
    reveal(layers_ok);
    if i == 0 {
        assert(order[0] == p[0]);
    } else {
        lemma_walk_dist(v, order, from, dist, p, i - 1);
        let k = choose|k: int| 0 <= k < order.len() && #[trigger] order[k] == p[i - 1] && dist[k] <= i - 1;
        let j = i - 1;
        assert(v.has_move(p[j], p[j + 1]));
        assert(v.has_move(order[k], p[i]));
    }
}

pub proof fn lemma_search_facts(v: MazeView, pv: Seq<Seq<Option<Coords>>>, order: Seq<Coords>, from: Seq<int>, head: int)
    requires
        search_ok(v, pv, order, from, head),
    ensures
        parents_ok(v, pv, order, from),
        0 <= head <= order.len(),
        forall|c: Coords| #[trigger] v.in_bounds(c) ==> (pred_at(pv, c) is Some <==> order.contains(c)),
{
    reveal(search_ok);
}

pub proof fn lemma_layers_facts(v: MazeView, order: Seq<Coords>, from: Seq<int>, dist: Seq<int>, head: int)
    requires
        layers_ok(v, order, from, dist, head),
    ensures
        dist.len() == order.len(),
        dist[0] == 0,
        forall|k: int| 1 <= k < order.len() ==> #[trigger] dist[k] == dist[from[k]] + 1,
        forall|k: int, m: Coords| 0 <= k < head && #[trigger] v.has_move(order[k], m) ==>
            exists|j: int| 0 <= j < order.len() && #[trigger] order[j] == m && dist[j] <= dist[k] + 1,
{
    reveal(layers_ok);
}

/// The search before its first expansion: only the start is discovered.
pub proof fn lemma_search_start(v: MazeView, pv: Seq<Seq<Option<Coords>>>)
    requires
        v.wf(),
        pv.len() == v.height,
        forall|y: int| 0 <= y < v.height ==> #[trigger] pv[y].len() == v.width,
        forall|c: Coords| #[trigger] v.in_bounds(c) ==> (pred_at(pv, c) is Some <==> c == v.start),
    ensures
        search_ok(v, pv, seq![v.start], seq![0int], 0),
        layers_ok(v, seq![v.start], seq![0int], seq![0int], 0),
{
    reveal(search_ok);
    reveal(layers_ok);
    let order = seq![v.start];
    assert forall|c: Coords| #[trigger] v.in_bounds(c) implies (pred_at(pv, c) is Some <==> order.contains(c)) by {
        if c == v.start {
            assert(order[0] == c);
        }
    }
    assert(v.in_bounds(v.start));
}

/// Discovering `m` from the cell last expanded keeps the search consistent
/// and leaves one cell fewer undiscovered.
pub proof fn lemma_discover_search(
    v: MazeView,
    pv0: Seq<Seq<Option<Coords>>>,
    pv: Seq<Seq<Option<Coords>>>,
    order0: Seq<Coords>,
    from0: Seq<int>,
    head: int,
    possible_move: Coords,
)
    requires
        v.wf(),
        search_ok(v, pv0, order0, from0, head - 1),
        1 <= head <= order0.len(),
        v.has_move(order0[head - 1], possible_move),
        v.in_bounds(possible_move),
        pred_at(pv0, possible_move) is None,
        pv == pv0.update(possible_move.y as int, pv0[possible_move.y as int].update(possible_move.x as int, Some(order0[head - 1]))),
    ensures
        search_ok(v, pv, order0.push(possible_move), from0.push(head - 1), head - 1),
        undiscovered(pv) + 1 == undiscovered(pv0),
{
    reveal(search_ok);
    let coords = order0[head - 1];
    let order = order0.push(possible_move);
    let from = from0.push(head - 1);
    lemma_count_grid_update(pv0, possible_move.y as int, possible_move.x as int, Some(coords),
        |o: Option<Coords>| o is None);
    assert(!order0.contains(possible_move));
    assert forall|c: Coords| #[trigger] v.in_bounds(c) implies (pred_at(pv, c) is Some <==> order.contains(c)) by {
        if c == possible_move {
            assert(order[order.len() - 1] == c);
        } else {
            assert(c.y != possible_move.y || c.x != possible_move.x);
            assert(pred_at(pv, c) == pred_at(pv0, c));
            if order0.contains(c) {
                let k = choose|k: int| 0 <= k < order0.len() && order0[k] == c;
                assert(order[k] == c);
            }
            if order.contains(c) {
                let k = choose|k: int| 0 <= k < order.len() && order[k] == c;
                assert(order0[k] == c);
            }
        }
    }
    assert forall|y: int| 0 <= y < v.height implies #[trigger] pv[y].len() == v.width by {
        assert(pv0[y].len() == v.width);
    }
    assert forall|k: int| 1 <= k < order.len() implies {
        &&& 0 <= #[trigger] from[k] < k
        &&& pred_at(pv, order[k]) == Some(order[from[k]])
        &&& v.has_move(order[from[k]], order[k])
    } by {
        if k < order0.len() {
            assert(order[k] == order0[k]);
            assert(order0[k] != possible_move);
            assert(order0[k].y != possible_move.y || order0[k].x != possible_move.x);
        }
    }
    assert forall|k: int| 0 <= k < order.len() implies v.in_bounds(#[trigger] order[k]) by {
        if k < order0.len() {
            assert(order[k] == order0[k]);
        }
    }
}

/// Discovering `m` one further than the cell last expanded keeps the
/// distances consistent.
pub proof fn lemma_discover_layers(
    v: MazeView,
    order0: Seq<Coords>,
    from0: Seq<int>,
    dist0: Seq<int>,
    head: int,
    possible_move: Coords,
)
    requires
        layers_ok(v, order0, from0, dist0, head - 1),
        from0.len() == order0.len(),
        forall|k: int| 1 <= k < order0.len() ==> 0 <= #[trigger] from0[k] < k,
        1 <= head <= order0.len(),
        dist0[order0.len() - 1] <= dist0[head - 1] + 1,
    ensures
        ({
            let order = order0.push(possible_move);
            let from = from0.push(head - 1);
            let dist = dist0.push(dist0[head - 1] + 1);
            &&& layers_ok(v, order, from, dist, head - 1)
            &&& dist[order.len() - 1] <= dist[head - 1] + 1
            &&& dist[head - 1] == dist0[head - 1]
        }),
{
    reveal(layers_ok);
    let order = order0.push(possible_move);
    let from = from0.push(head - 1);
    let dist = dist0.push(dist0[head - 1] + 1);
    assert forall|k: int| 1 <= k < order.len() implies #[trigger] dist[k] == dist[from[k]] + 1 by {
        if k < order0.len() {
            assert(dist[k] == dist0[k]);
            assert(from[k] == from0[k]);
            assert(dist0[k] == dist0[from0[k]] + 1);
            assert(dist[from0[k]] == dist0[from0[k]]);
        }
    }
    assert forall|a: int, b: int| #![trigger dist[a], dist[b]] 0 <= a <= b < order.len() implies dist[a] <= dist[b] by {
        if b < order0.len() {
            assert(dist[a] == dist0[a] && dist[b] == dist0[b]);
        } else if a < order0.len() {
            assert(dist0[a] <= dist0[order0.len() - 1]);
        }
    }
    assert forall|k: int, m: Coords| 0 <= k < head - 1 && #[trigger] v.has_move(order[k], m) implies
        exists|j: int| 0 <= j < order.len() && #[trigger] order[j] == m && dist[j] <= dist[k] + 1 by {
        assert(order[k] == order0[k]);
        let j = choose|j: int| 0 <= j < order0.len() && #[trigger] order0[j] == m && dist0[j] <= dist0[k] + 1;
        assert(order[j] == m);
    }
}

/// A cell already discovered lies at most one further than the cell last
/// expanded.
pub proof fn lemma_known_dist(v: MazeView, order: Seq<Coords>, from: Seq<int>, dist: Seq<int>, head: int, m: Coords)
    requires
        layers_ok(v, order, from, dist, head - 1),
        1 <= head <= order.len(),
        dist[order.len() - 1] <= dist[head - 1] + 1,
        order.contains(m),
    ensures
        exists|q: int| 0 <= q < order.len() && #[trigger] order[q] == m && dist[q] <= dist[head - 1] + 1,
{
    reveal(layers_ok);
    let q = choose|q: int| 0 <= q < order.len() && order[q] == m;
    assert(dist[q] <= dist[order.len() - 1]);
}

/// Once every move out of the cell last expanded reaches a discovered cell
/// at most one further, that cell counts as expanded.
pub proof fn lemma_expand_done(
    v: MazeView,
    pv: Seq<Seq<Option<Coords>>>,
    order: Seq<Coords>,
    from: Seq<int>,
    dist: Seq<int>,
    head: int,
    moves: Seq<Coords>,
)
    requires
        search_ok(v, pv, order, from, head - 1),
        layers_ok(v, order, from, dist, head - 1),
        1 <= head <= order.len(),
        dist[order.len() - 1] <= dist[head - 1] + 1,
        moves == v.moves(order[head - 1]),
        forall|b: Coords| #[trigger] v.moves(order[head - 1]).contains(b) <==> v.has_move(order[head - 1], b),
        forall|j: int| #![trigger moves[j]] 0 <= j < moves.len() ==> exists|q: int| 0 <= q < order.len()
            && #[trigger] order[q] == moves[j] && dist[q] <= dist[head - 1] + 1,
    ensures
        search_ok(v, pv, order, from, head),
        layers_ok(v, order, from, dist, head),
        head < order.len() ==> dist[order.len() - 1] <= dist[head] + 1,
{
    reveal(search_ok);
    reveal(layers_ok);
    assert forall|k: int, m: Coords| 0 <= k < head && #[trigger] v.has_move(order[k], m) implies
        exists|j: int| 0 <= j < order.len() && #[trigger] order[j] == m && dist[j] <= dist[k] + 1 by {
        if k == head - 1 {
            assert(moves.contains(m));
            let j = choose|j: int| 0 <= j < moves.len() && moves[j] == m;
            let q = choose|q: int| 0 <= q < order.len() && #[trigger] order[q] == moves[j] && dist[q] <= dist[head - 1] + 1;
            assert(order[q] == m);
        }
    }
    if head < order.len() {
        assert(dist[head - 1] <= dist[head]);
    }
}

fn new_pred(width: usize, height: usize) -> (r: Vec<Vec<Option<Coords>>>)
    ensures
        pred_view(&r).len() == height,
        forall|y: int| 0 <= y < height ==> #[trigger] pred_view(&r)[y].len() == width,
        forall|y: int, x: int| 0 <= y < height && 0 <= x < width ==> pred_view(&r)[y][x] is None,
{
    let mut pred: Vec<Vec<Option<Coords>>> = Vec::new();
    let mut y: usize = 0;
    while y < height
        invariant
            y <= height,
            pred.len() == y,
            forall|j: int| 0 <= j < y ==> (#[trigger] pred@[j])@.len() == width,
            forall|j: int, i: int| 0 <= j < y && 0 <= i < width ==> pred@[j]@[i] is None,
        decreases height - y,
    {
        let mut row: Vec<Option<Coords>> = Vec::new();
        let mut x: usize = 0;
        while x < width
            invariant
                x <= width,
                row.len() == x,
                forall|i: int| 0 <= i < x ==> row@[i] is None,
            decreases width - x,
        {
            row.push(None);
            x = x + 1;
        }
        pred.push(row);
        y = y + 1;
    }
    pred
}

fn set_pred(pred: &mut Vec<Vec<Option<Coords>>>, c: &Coords, p: Coords)
    requires
        c.y < pred_view(old(pred)).len(),
        c.x < pred_view(old(pred))[c.y as int].len(),
    ensures
        pred_view(final(pred)) =~= pred_view(old(pred)).update(
            c.y as int,
            pred_view(old(pred))[c.y as int].update(c.x as int, Some(p)),
        ),
        pred_view(final(pred)) == pred_view(old(pred)).update(
            c.y as int,
            pred_view(old(pred))[c.y as int].update(c.x as int, Some(p)),
        ),
{
    pred[c.y].set(c.x, Some(p));
}

/// Breadth-first search from the start of `maze` until every cell reachable
/// from it is discovered; returns, for each discovered cell, the cell it was
/// discovered from, with the discovery order, each parent's place in it, and
/// each cell's distance from the start.
fn explore(maze: &Maze) -> (r: (Vec<Vec<Option<Coords>>>, Ghost<Seq<Coords>>, Ghost<Seq<int>>, Ghost<Seq<int>>))
    requires
        maze@.wf(),
    ensures
        search_ok(maze@, pred_view(&r.0), r.1@, r.2@, r.1@.len() as int),
        layers_ok(maze@, r.1@, r.2@, r.3@, r.1@.len() as int),
{
    let ghost v = maze@;
    let (width, height) = maze.get_dimensions();
    let start_coords = *maze.get_start_point();
    let mut pred = new_pred(width, height);
    proof {
        assert(v.in_bounds(start_coords));
    }
    set_pred(&mut pred, &start_coords, start_coords);
    let mut queue: VecDeque<Coords> = VecDeque::new();
    queue.push_back(start_coords);
    let ghost mut order: Seq<Coords> = seq![start_coords];
    let ghost mut from: Seq<int> = seq![0int];
    let ghost mut dist: Seq<int> = seq![0int];
    let ghost mut head: int = 0;
    proof {
        let pv = pred_view(&pred);
        assert forall|c: Coords| #[trigger] v.in_bounds(c) implies (pred_at(pv, c) is Some <==> c == v.start) by {
            if c != start_coords {
                assert(c.y != start_coords.y || c.x != start_coords.x);
            }
        }
        lemma_search_start(v, pv);
    }
    while queue.len() > 0
        invariant
            v == maze@,
            v.wf(),
            width == v.width,
            height == v.height,
            search_ok(v, pred_view(&pred), order, from, head),
            layers_ok(v, order, from, dist, head),
            head < order.len() ==> dist[order.len() - 1] <= dist[head] + 1,
            0 <= head <= order.len(),
            queue@ == order.subrange(head, order.len() as int),
        decreases 2 * undiscovered(pred_view(&pred)) + queue@.len(),
    {
        let ghost measure = 2 * undiscovered(pred_view(&pred)) + queue@.len();
        let coords = queue.pop_front().unwrap();
        proof {
            assert(coords == order[head]);
            head = head + 1;
        }
        proof {
            lemma_search_facts(v, pred_view(&pred), order, from, head - 1);
        }
        let possible_moves = maze.get_possible_moves(&coords);
        proof {
            lemma_moves(v, coords);
        }
        let mut i: usize = 0;
        while i < possible_moves.len()
            invariant
                v == maze@,
                v.wf(),
                width == v.width,
                height == v.height,
                search_ok(v, pred_view(&pred), order, from, head - 1),
                layers_ok(v, order, from, dist, head - 1),
                dist[order.len() - 1] <= dist[head - 1] + 1,
                1 <= head <= order.len(),
                coords == order[head - 1],
                possible_moves@ == v.moves(coords),
                forall|b: Coords| v.moves(coords).contains(b) <==> v.has_move(coords, b),
                forall|j: int| 0 <= j < v.moves(coords).len() ==> v.has_move(coords, #[trigger] v.moves(coords)[j]),
                i <= possible_moves.len(),
                forall|j: int| #![trigger possible_moves@[j]] 0 <= j < i ==> exists|q: int| 0 <= q < order.len()
                    && #[trigger] order[q] == possible_moves@[j] && dist[q] <= dist[head - 1] + 1,
                queue@ == order.subrange(head, order.len() as int),
                2 * undiscovered(pred_view(&pred)) + queue@.len() < measure,
            decreases possible_moves.len() - i,
        {
            let possible_move = possible_moves[i];
            proof {
                assert(v.has_move(coords, possible_move));
                lemma_search_facts(v, pred_view(&pred), order, from, head - 1);
                assert(v.in_bounds(coords));
                lemma_move_in_bounds(v, coords, possible_move);
                assert(pred_view(&pred)[possible_move.y as int] == pred@[possible_move.y as int]@);
            }
            let known = pred[possible_move.y][possible_move.x].is_some();
            if !known {
                let ghost pv0 = pred_view(&pred);
                let ghost order0 = order;
                let ghost from0 = from;
                let ghost dist0 = dist;
                set_pred(&mut pred, &possible_move, coords);
                queue.push_back(possible_move);
                proof {
                    lemma_layers_facts(v, order0, from0, dist0, head - 1);
                    lemma_search_facts(v, pv0, order0, from0, head - 1);
                    lemma_discover_search(v, pv0, pred_view(&pred), order0, from0, head, possible_move);
                    lemma_discover_layers(v, order0, from0, dist0, head, possible_move);
                    order = order0.push(possible_move);
                    from = from0.push(head - 1);
                    dist = dist0.push(dist0[head - 1] + 1);
                    assert forall|j: int| #![trigger possible_moves@[j]] 0 <= j <= i implies exists|q: int| 0 <= q < order.len()
                        && #[trigger] order[q] == possible_moves@[j] && dist[q] <= dist[head - 1] + 1 by {
                        if j < i {
                            let q = choose|q: int| 0 <= q < order0.len() && #[trigger] order0[q] == possible_moves@[j]
                                && dist0[q] <= dist0[head - 1] + 1;
                            assert(order[q] == possible_moves@[j]);
                            assert(dist[q] == dist0[q]);
                        } else {
                            assert(order[order.len() - 1] == possible_move);
                        }
                    }
                    assert(queue@ =~= order.subrange(head, order.len() as int));
                }
            } else {
                proof {
                    lemma_known_dist(v, order, from, dist, head, possible_move);
                }
            }
            i = i + 1;
        }
        proof {
            lemma_expand_done(v, pred_view(&pred), order, from, dist, head, possible_moves@);
        }
    }
    (pred, Ghost(order), Ghost(from), Ghost(dist))
}

/// Reversing a chain of distinct cells, each opening onto the one before,
/// that runs from the end back to the start gives a simple walk from the
/// start to the end.
pub proof fn lemma_reversed_walk(v: MazeView, order: Seq<Coords>, ks: Seq<int>, rev: Seq<Coords>, p: Seq<Coords>)
    requires
        order.no_duplicates(),
        forall|k: int| 0 <= k < order.len() ==> v.in_bounds(#[trigger] order[k]),
        rev.len() == ks.len(),
        rev.len() >= 1,
        forall|i: int| 0 <= i < ks.len() ==> 0 <= #[trigger] ks[i] < order.len(),
        forall|i: int, j: int| #![trigger ks[i], ks[j]] 0 <= i < j < ks.len() ==> ks[j] < ks[i],
        forall|i: int| 0 <= i < ks.len() ==> rev[i] == order[#[trigger] ks[i]],
        forall|i: int| 0 <= i < ks.len() - 1 ==> v.has_move(rev[i + 1], #[trigger] rev[i]),
        rev[0] == v.end,
        rev.last() == v.start,
        p.len() == rev.len(),
        forall|i: int| 0 <= i < rev.len() ==> #[trigger] p[i] == rev[rev.len() - 1 - i],
    ensures
        is_simple_walk(v, p, v.start, v.end),
{
    let n = rev.len() as int;
    assert(p[0] == rev[n - 1]);
    assert(p[n - 1] == rev[0]);
    assert forall|i: int| 0 <= i < p.len() implies v.in_bounds(#[trigger] p[i]) by {
        assert(p[i] == order[ks[n - 1 - i]]);
    }
    assert forall|i: int| 0 <= i < p.len() - 1 implies v.has_move(p[i], #[trigger] p[i + 1]) by {
        assert(p[i] == rev[n - 1 - i]);
        assert(p[i + 1] == rev[n - 2 - i]);
        let j = n - 2 - i;
        assert(v.has_move(rev[j + 1], rev[j]));
    }
    assert forall|a: int, b: int| 0 <= a < p.len() && 0 <= b < p.len() && a != b implies p[a] != p[b] by {
        assert(p[a] == order[ks[n - 1 - a]]);
        assert(p[b] == order[ks[n - 1 - b]]);
        let ia = n - 1 - a;
        let ib = n - 1 - b;
        if a < b {
            assert(ks[ia] < ks[ib]);
        } else {
            assert(ks[ib] < ks[ia]);
        }
    }
}

/// The entries of `v` in reverse order.
fn reversed(v: &Vec<Coords>) -> (r: Vec<Coords>)
    ensures
        r@.len() == v@.len(),
        forall|i: int| 0 <= i < v@.len() ==> #[trigger] r@[i] == v@[v@.len() - 1 - i],
{
    let mut data: Vec<Coords> = Vec::new();
    let n = v.len();
    let mut j: usize = 0;
    while j < n
        invariant
            n == v@.len(),
            j <= n,
            data@.len() == j,
            forall|i: int| 0 <= i < j ==> #[trigger] data@[i] == v@[n - 1 - i],
        decreases n - j,
    {
        data.push(v[n - 1 - j]);
        j = j + 1;
    }
    data
}

/// Follows the recorded parents from the end back to the start and returns
/// the cells passed, start first.
#[verifier::rlimit(30)]
fn trace_back(
    maze: &Maze,
    pred: &Vec<Vec<Option<Coords>>>,
    order: Ghost<Seq<Coords>>,
    from: Ghost<Seq<int>>,
    dist: Ghost<Seq<int>>,
) -> (r: Vec<Coords>)
    requires
        maze@.wf(),
        parents_ok(maze@, pred_view(pred), order@, from@),
        dist@.len() == order@.len(),
        dist@[0] == 0,
        forall|k: int| 1 <= k < order@.len() ==> #[trigger] dist@[k] == dist@[from@[k]] + 1,
        order@.contains(maze@.end),
    ensures
        is_simple_walk(maze@, r@, maze@.start, maze@.end),
        exists|k: int| 0 <= k < order@.len() && order@[k] == maze@.end && r@.len() == dist@[k] + 1,
{
    let ghost v = maze@;
    let ghost order = order@;
    let ghost from = from@;
    let ghost dist = dist@;
    let ghost pv = pred_view(pred);
    let start_coords = *maze.get_start_point();
    let end_coords = *maze.get_end_point();
    proof {
        assert(pv[end_coords.y as int] == pred@[end_coords.y as int]@);
    }
    let ghost mut k: int = choose|k: int| 0 <= k < order.len() && order[k] == end_coords;
    let ghost k_end = k;
    let mut rev: Vec<Coords> = Vec::new();
    let ghost mut ks: Seq<int> = Seq::empty();
    let mut current_coords = end_coords;
    while current_coords != start_coords
        invariant
            v == maze@,
            v.wf(),
            parents_ok(v, pv, order, from),
            pv == pred_view(pred),
            0 <= k < order.len(),
            order[k] == current_coords,
            start_coords == v.start,
            rev@.len() == ks.len(),
            forall|i: int| 0 <= i < ks.len() ==> k < #[trigger] ks[i] < order.len(),
            forall|i: int, j: int| #![trigger ks[i], ks[j]] 0 <= i < j < ks.len() ==> ks[j] < ks[i],
            forall|i: int| 0 <= i < ks.len() ==> rev@[i] == order[#[trigger] ks[i]],
            ks.len() == 0 ==> current_coords == end_coords,
            ks.len() > 0 ==> rev@[0] == end_coords,
            forall|i: int| 0 <= i < ks.len() - 1 ==> v.has_move(rev@[i + 1], #[trigger] rev@[i]),
            ks.len() > 0 ==> v.has_move(current_coords, rev@[ks.len() - 1]),
            dist.len() == order.len(),
            dist[0] == 0,
            forall|k: int| 1 <= k < order.len() ==> #[trigger] dist[k] == dist[from[k]] + 1,
            0 <= k_end < order.len(),
            order[k_end] == end_coords,
            dist[k] + ks.len() == dist[k_end],
        decreases k,
    {
        proof {
            if k == 0 {
                assert(order[0] == v.start);
            }
            assert(k >= 1);
            assert(v.in_bounds(order[k]));
        }
        rev.push(current_coords);
        proof {
            assert(pv[current_coords.y as int] == pred@[current_coords.y as int]@);
            assert(pred_at(pv, order[k]) == Some(order[from[k]]));
        }
        let next = pred[current_coords.y][current_coords.x].unwrap();
        proof {
            assert(next == order[from[k]]);
            ks = ks.push(k);
            k = from[k];
        }
        current_coords = next;
    }
    rev.push(current_coords);
    proof {
        let ks0 = ks;
        ks = ks.push(k);
        assert(k == 0) by {
            assert(order[0] == order[k]);
        }
        assert forall|i: int, j: int| #![trigger ks[i], ks[j]] 0 <= i < j < ks.len() implies ks[j] < ks[i] by {
            if j < ks0.len() {
                assert(ks[j] == ks0[j] && ks[i] == ks0[i]);
            } else {
                assert(ks[i] == ks0[i]);
            }
        }
    }
    let data = reversed(&rev);
    proof {
        lemma_reversed_walk(v, order, ks, rev@, data@);
        assert(data@.len() == dist[k_end] + 1);
    }
    data
}

/// A perfect maze has one walk without repeats from its start to its end,
/// so solving it twice gives the same path.
pub proof fn lemma_solution_unique(v: MazeView, p: Seq<Coords>, q: Seq<Coords>)
    requires
        v.is_perfect(),
        is_simple_walk(v, p, v.start, v.end),
        is_simple_walk(v, q, v.start, v.end),
    ensures
        p == q,
{
    let (par, rank) = choose|par: Map<Coords, Coords>, rank: Map<Coords, nat>| {
        &&& v.oriented_by(par)
        &&& ranked(par, rank)
        &&& v.ranks_tree(rank)
    };
    lemma_simple_walk_unique(v, par, p, q);
}

/// On a grid whose only passages join consecutive cells of a walk `q`
/// without repeats from the start to the end, the solver returns `q`.
pub proof fn lemma_solution_is_only_path(v: MazeView, q: Seq<Coords>, p: Seq<Coords>)
    requires
        is_simple_walk(v, q, v.start, v.end),
        forall|c: Coords, b: Coords| v.in_bounds(c) && #[trigger] v.has_move(c, b) ==>
            exists|i: int| 0 <= i < q.len() - 1 && ((#[trigger] q[i] == c && q[i + 1] == b) || (q[i] == b && q[i + 1] == c)),
        is_solution(v, p),
    ensures
        p == q,
{
    lemma_only_path(v, q, p);
}

/// A shortest walk from the start of `maze` to its end, found by
/// breadth-first search; fails exactly when no walk leads there.
pub fn solve_maze(maze: &Maze) -> (r: Result<Path, SolverError>)
    requires
        maze@.wf(),
    ensures
        r is Ok <==> maze@.reachable(maze@.start, maze@.end),
        r is Ok ==> is_solution(maze@, r->Ok_0.data@),
        r is Err ==> r == Err::<Path, SolverError>(SolverError::EndNotReached),
{
    let ghost v = maze@;
    let (pred, order, from, dist) = explore(maze);
    let end_coords = *maze.get_end_point();
    proof {
        lemma_search_facts(v, pred_view(&pred), order@, from@, order@.len() as int);
        lemma_layers_facts(v, order@, from@, dist@, order@.len() as int);
        assert(v.in_bounds(end_coords));
        assert(pred_view(&pred)[end_coords.y as int] == pred@[end_coords.y as int]@);
    }
    if pred[end_coords.y][end_coords.x].is_none() {
        proof {
            let order = order@;
            assert(!order.contains(end_coords));
            if v.reachable(v.start, end_coords) {
                let p = choose|p: Seq<Coords>| v.is_walk(p) && p[0] == v.start && p.last() == end_coords;
                assert(order[0] == p[0]);
                lemma_walk_dist(v, order, from@, dist@, p, p.len() - 1);
                let j = choose|j: int| 0 <= j < order.len() && #[trigger] order[j] == p[p.len() - 1] && dist@[j] <= p.len() - 1;
                assert(order.contains(end_coords));
            }
        }
        return Err(SolverError::EndNotReached);
    }
    let data = trace_back(maze, &pred, order, from, dist);
    proof {
        assert(v.is_walk(data@) && data@[0] == v.start && data@.last() == v.end);
        let k = choose|k: int| 0 <= k < order@.len() && order@[k] == v.end && data@.len() == dist@[k] + 1;
        assert forall|w: Seq<Coords>| v.is_walk(w) && w[0] == v.start && w.last() == v.end
            implies data@.len() <= w.len() by {
            assert(order@[0] == w[0]);
            lemma_walk_dist(v, order@, from@, dist@, w, w.len() - 1);
            let j = choose|j: int| 0 <= j < order@.len() && #[trigger] order@[j] == w[w.len() - 1] && dist@[j] <= w.len() - 1;
            assert(order@[j] == order@[k]);
        }
    }
    Ok(Path { data })
}

} // verus!
