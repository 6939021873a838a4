use crate::maze::{
    blank_cell, directions_in_grid, lemma_directions_in_grid, lemma_set_cell, is_closed, is_in_maze, lemma_count_grid_bound,
    lemma_count_grid_update, lemma_count_grid_zero, lemma_count_grid_full, lemma_reachable_trans, lemma_walk_grows, opens_down, opens_right,
    opposite, side, step, with_side, Cell, Coords, Direction, LinkType, Maze, MazeError,
    MazeGenerator, MazeView, ranked,
};
use rand::seq::SliceRandom;
use vstd::prelude::*;

verus! {

/// Wilson's algorithm: loop-erased random walks grown into a uniform
/// spanning tree.
pub struct WilsonGenerator;

/// The directions recorded by a walk, one per cell, row by row.
pub open spec fn scratch_view(dirs: &Vec<Vec<Direction>>) -> Seq<Seq<Direction>> {
    dirs@.map_values(|r: Vec<Direction>| r@)
}

pub open spec fn scratch_ok(dirs: Seq<Seq<Direction>>, w: int, h: int) -> bool {
    &&& dirs.len() == h
    &&& forall|y: int| 0 <= y < h ==> #[trigger] dirs[y].len() == w
}

pub open spec fn dir_at(dirs: Seq<Seq<Direction>>, c: Coords) -> Direction {
    dirs[c.y as int][c.x as int]
}

/// `chain` follows the recorded directions from its first cell: its cells
/// are distinct and in bounds, and every cell but the last is outside the
/// tree and records an in-grid step to the next one.
pub open spec fn chain_ok(v: MazeView, dirs: Seq<Seq<Direction>>, chain: Seq<Coords>) -> bool {
    &&& chain.len() >= 1
    &&& chain.no_duplicates()
    &&& forall|i: int| 0 <= i < chain.len() ==> v.in_bounds(#[trigger] chain[i])
    &&& forall|i: int| 0 <= i < chain.len() - 1 ==> {
        &&& !v.cell(#[trigger] chain[i]).in_maze
        &&& directions_in_grid(v.width, v.height, chain[i]).contains(dir_at(dirs, chain[i]))
        &&& step(chain[i], dir_at(dirs, chain[i])) == chain[i + 1]
    }
}

/// Following the recorded directions from `start` reaches the tree.
pub open spec fn leads_to_tree(v: MazeView, dirs: Seq<Seq<Direction>>, start: Coords) -> bool {
    exists|chain: Seq<Coords>| {
        &&& chain_ok(v, dirs, chain)
        &&& chain[0] == start
        &&& v.cell(chain.last()).in_maze
    }
}

/// `v` with a passage carved from `c` in direction `d`, and `c` joined to the tree.
pub open spec fn carve(v: MazeView, c: Coords, d: Direction) -> MazeView {
    let n = step(c, d);
    let v1 = v.set_cell(c, Cell { in_maze: true, ..with_side(v.cell(c), d, LinkType::Path) });
    v1.set_cell(n, with_side(v1.cell(n), opposite(d), LinkType::Path))
}

/// `v` with the first `k` steps of `chain` carved, each from its cell in the
/// direction recorded there.
pub open spec fn carve_chain(v: MazeView, dirs: Seq<Seq<Direction>>, chain: Seq<Coords>, k: nat) -> MazeView
    decreases k,
{
    if k == 0 {
        v
    } else {
        let w = carve_chain(v, dirs, chain, (k - 1) as nat);
        carve(w, chain[k - 1], dir_at(dirs, chain[k - 1]))
    }
}

/// The commit phase on a growing tree after `count` steps: its invariant,
/// the parents chosen so far and the ranks of the chain.
#[verifier::opaque]
pub open spec fn tree_state(
    v0: MazeView,
    dv: Seq<Seq<Direction>>,
    chain: Seq<Coords>,
    v: MazeView,
    count: int,
    par: Map<Coords, Coords>,
    rank: Map<Coords, nat>,
    rank0: Map<Coords, nat>,
) -> bool {
    &&& v0.is_growing_tree()
    &&& v0.cell(chain.last()).in_maze
    &&& follow_inv(v0, dv, chain, v, count)
    &&& v.oriented_by(par)
    &&& ranked(par, rank)
    &&& rank == chain_ranks(rank0, chain)
    &&& v0.ranks_tree(rank0)
    &&& v.cell(v0.start).in_maze
}

/// The commit phase starts on a growing tree whose passages are oriented,
/// with the start in the tree, and the recorded directions lead to it.
#[verifier::opaque]
pub open spec fn tree_start(v: MazeView, dirs: Seq<Seq<Direction>>, coords: Coords) -> bool {
    &&& v.is_growing_tree()
    &&& v.has_orientation()
    &&& v.cell(v.start).in_maze
    &&& leads_to_tree(v, dirs, coords)
}

pub proof fn lemma_leads_follows(v: MazeView, dirs: Seq<Seq<Direction>>, coords: Coords)
    requires
        leads_to_tree(v, dirs, coords),
    ensures
        follows_to_end(v, dirs, coords),
{
    let chain = choose|chain: Seq<Coords>| {
        &&& chain_ok(v, dirs, chain)
        &&& chain[0] == coords
        &&& v.cell(chain.last()).in_maze
    };
    assert(chain_ok(v, dirs, chain) && chain[0] == coords
        && (v.cell(chain.last()).in_maze || dir_at(dirs, chain.last()) == Direction::Blank));
}

pub proof fn lemma_tree_start_leads(v: MazeView, dirs: Seq<Seq<Direction>>, coords: Coords)
    ensures
        tree_start(v, dirs, coords) ==> leads_to_tree(v, dirs, coords),
{
    reveal(tree_start);
}

/// A blank direction on the way is met only at the chain's end, which lies
/// outside the tree.
pub proof fn lemma_blank_at_end(v0: MazeView, dv: Seq<Seq<Direction>>, chain: Seq<Coords>, v: MazeView, count: int)
    requires
        chain_ok(v0, dv, chain),
        v0.cell(chain.last()).in_maze || dir_at(dv, chain.last()) == Direction::Blank,
        0 <= count < chain.len(),
        v.width == v0.width,
        v.height == v0.height,
        membership_kept(v0, v, chain, count),
        !v.cell(chain[count]).in_maze,
        dir_at(dv, chain[count]) == Direction::Blank,
    ensures
        count == chain.len() - 1,
        !v0.cell(chain.last()).in_maze,
{
    if count < chain.len() - 1 {
        lemma_directions_in_grid(v0.width, v0.height, chain[count]);
        assert(directions_in_grid(v0.width, v0.height, chain[count]).contains(dir_at(dv, chain[count])));
    }
    lemma_commit_where(v0, dv, chain, v, count);
}

/// The place of `c` on `chain`.
pub open spec fn chain_index(chain: Seq<Coords>, c: Coords) -> int {
    choose|i: int| 0 <= i < chain.len() && chain[i] == c
}

/// The ranks of `rank0` with the cells of `chain` before its last one added,
/// counting down along the chain to the rank of its last cell.
pub open spec fn chain_ranks(rank0: Map<Coords, nat>, chain: Seq<Coords>) -> Map<Coords, nat> {
    Map::new(
        |c: Coords| rank0.dom().contains(c) || exists|i: int| 0 <= i < chain.len() - 1 && chain[i] == c,
        |c: Coords| if rank0.dom().contains(c) {
            rank0[c]
        } else {
            (rank0[chain.last()] + (chain.len() - 1 - chain_index(chain, c))) as nat
        },
    )
}

pub proof fn lemma_chain_rank(v0: MazeView, dv: Seq<Seq<Direction>>, rank0: Map<Coords, nat>, chain: Seq<Coords>, k: int)
    requires
        chain_ok(v0, dv, chain),
        v0.ranks_tree(rank0),
        v0.cell(chain.last()).in_maze,
        0 <= k < chain.len() - 1,
    ensures
        chain_ranks(rank0, chain).dom().contains(chain[k]),
        chain_ranks(rank0, chain)[chain[k]] == rank0[chain.last()] + (chain.len() - 1 - k),
        chain_ranks(rank0, chain).dom().contains(chain[k + 1]),
        chain_ranks(rank0, chain)[chain[k + 1]] == rank0[chain.last()] + (chain.len() - 2 - k),
{
    let last = chain.last();
    assert(v0.in_bounds(last));
    assert(rank0.dom().contains(last));
    assert(v0.in_bounds(chain[k]));
    assert(!rank0.dom().contains(chain[k]));
    assert(chain[k] == chain[k]);
    let j = chain_index(chain, chain[k]);
    assert(j == k);
    if k + 1 < chain.len() - 1 {
        assert(v0.in_bounds(chain[k + 1]));
        assert(!rank0.dom().contains(chain[k + 1]));
        assert(chain[k + 1] == chain[k + 1]);
        let j2 = chain_index(chain, chain[k + 1]);
        assert(j2 == k + 1);
    } else {
        assert(chain[k + 1] == last);
    }
}

/// When the commit phase ends, the chain ranks number exactly the tree.
pub proof fn lemma_rank_done(
    v0: MazeView,
    dv: Seq<Seq<Direction>>,
    chain: Seq<Coords>,
    rank0: Map<Coords, nat>,
    vf: MazeView,
    count: int,
)
    requires
        chain_ok(v0, dv, chain),
        v0.ranks_tree(rank0),
        count == chain.len() - 1,
        vf.width == v0.width,
        vf.height == v0.height,
        follow_inv(v0, dv, chain, vf, count),
    ensures
        vf.ranks_tree(chain_ranks(rank0, chain)),
{
    reveal(follow_inv);
    reveal(membership_kept);
    reveal(passed_cells_joined);
    let rank = chain_ranks(rank0, chain);
    assert forall|c: Coords| #[trigger] rank.dom().contains(c) <==> vf.in_bounds(c) && vf.cell(c).in_maze by {
        if rank.dom().contains(c) {
            if rank0.dom().contains(c) {
                assert(v0.in_bounds(c) && v0.cell(c).in_maze);
                assert(vf.in_bounds(c));
            } else {
                let i = choose|i: int| 0 <= i < chain.len() - 1 && chain[i] == c;
                assert(vf.cell(chain[i]).in_maze);
                assert(v0.in_bounds(chain[i]));
            }
        }
        if vf.in_bounds(c) && vf.cell(c).in_maze {
            if !v0.cell(c).in_maze {
                let i = choose|i: int| 0 <= i < count && chain[i] == c;
                assert(0 <= i < chain.len() - 1 && chain[i] == c);
                assert(rank.dom().contains(c));
            } else {
                assert(v0.in_bounds(c));
                assert(rank0.dom().contains(c));
            }
        }
    }

}

/// Adding the chain's ranks keeps every parent below its child.
pub proof fn lemma_rank_extends(par: Map<Coords, Coords>, rank0: Map<Coords, nat>, chain: Seq<Coords>)
    requires
        ranked(par, rank0),
    ensures
        ranked(par, chain_ranks(rank0, chain)),
{
    let rank = chain_ranks(rank0, chain);
    assert forall|c: Coords| #[trigger] par.dom().contains(c) implies {
        &&& rank.dom().contains(c)
        &&& rank.dom().contains(par[c])
        &&& rank[par[c]] < rank[c]
    } by {
        assert(rank0.dom().contains(c));
    }
}

/// Following the recorded directions from `start` ends, without meeting a
/// cell twice, either at a cell of the tree or at a cell that records no
/// direction.
pub open spec fn follows_to_end(v: MazeView, dirs: Seq<Seq<Direction>>, start: Coords) -> bool {
    exists|chain: Seq<Coords>| {
        &&& chain_ok(v, dirs, chain)
        &&& chain[0] == start
        &&& (v.cell(chain.last()).in_maze || dir_at(dirs, chain.last()) == Direction::Blank)
    }
}

/// Carving from a cell outside the tree joins exactly that cell to the tree.
pub proof fn lemma_carve_in_maze_count(v: MazeView, c: Coords, d: Direction)
    requires
        v.wf(),
        v.in_bounds(c),
        directions_in_grid(v.width, v.height, c).contains(d),
        !v.cell(c).in_maze,
    ensures
        carve(v, c, d).in_maze_count() == v.in_maze_count() + 1,
{
    lemma_step_in_grid(v, c, d);
    let n = step(c, d);
    let c1 = Cell { in_maze: true, ..with_side(v.cell(c), d, LinkType::Path) };
    let v1 = v.set_cell(c, c1);
    lemma_set_cell(v, c, c1);
    let c2 = with_side(v1.cell(n), opposite(d), LinkType::Path);
    assert(v1.cell(n) == v.cell(n));
    let fi = |k: Cell| is_in_maze(k);
    lemma_count_grid_update(v.cells, c.y as int, c.x as int, c1, fi);
    lemma_count_grid_update(v1.cells, n.y as int, n.x as int, c2, fi);
}

/// One step of the commit phase on any well-formed grid: it stays
/// well-formed (and symmetric, if it was), joins one cell, and records the
/// cells joined so far.
pub proof fn lemma_commit_step(v0: MazeView, dv: Seq<Seq<Direction>>, chain: Seq<Coords>, v: MazeView, count: int)
    requires
        chain_ok(v0, dv, chain),
        0 <= count < chain.len() - 1,
        v.width == v0.width,
        v.height == v0.height,
        v.wf(),
        membership_kept(v0, v, chain, count),
        !v.cell(chain[count]).in_maze,
    ensures
        ({
            let c = chain[count];
            let d = dir_at(dv, c);
            let v2 = carve(v, c, d);
            &&& directions_in_grid(v.width, v.height, c).contains(d)
            &&& v.in_bounds(c)
            &&& step(c, d) == chain[count + 1]
            &&& v2.wf()
            &&& v2.width == v.width && v2.height == v.height
            &&& v2.start == v.start && v2.end == v.end
            &&& (v.symmetric() ==> v2.symmetric())
            &&& v2.in_maze_count() == v.in_maze_count() + 1
            &&& membership_kept(v0, v2, chain, count + 1)
        }),
{
    let c = chain[count];
    let d = dir_at(dv, c);
    assert(v0.in_bounds(c));
    lemma_carve_cells(v, c, d);
    lemma_carve_borders(v, c, d);
    if v.symmetric() {
        lemma_carve_symmetric(v, c, d);
    }
    lemma_carve_in_maze_count(v, c, d);
    lemma_step_membership(v0, dv, chain, v, count);
}

/// Where the commit phase stands at a cell outside the tree: short of the
/// chain's end it follows a recorded direction; at the end the direction is
/// blank.
pub proof fn lemma_commit_where(v0: MazeView, dv: Seq<Seq<Direction>>, chain: Seq<Coords>, v: MazeView, count: int)
    requires
        chain_ok(v0, dv, chain),
        v0.cell(chain.last()).in_maze || dir_at(dv, chain.last()) == Direction::Blank,
        0 <= count < chain.len(),
        v.width == v0.width,
        v.height == v0.height,
        membership_kept(v0, v, chain, count),
    ensures
        count == chain.len() - 1 && !v.cell(chain[count]).in_maze ==> !v0.cell(chain.last()).in_maze
            && dir_at(dv, chain[count]) == Direction::Blank,
        count < chain.len() - 1 ==> !v.cell(chain[count]).in_maze,
        count == chain.len() - 1 && v.cell(chain[count]).in_maze ==> v0.cell(chain.last()).in_maze,
        forall|c: Coords| #[trigger] v0.in_bounds(c) && v0.cell(c).in_maze ==> v.cell(c).in_maze,
{
    reveal(membership_kept);
    assert forall|c: Coords| #[trigger] v0.in_bounds(c) && v0.cell(c).in_maze implies v.cell(c).in_maze by {
        assert(v.in_bounds(c));
    }
    let c = chain[count];
    assert(v0.in_bounds(c));
    assert(v.in_bounds(c));
    if count < chain.len() - 1 && v.cell(c).in_maze {
        assert(!v0.cell(c).in_maze);
        let i = choose|i: int| 0 <= i < count && chain[i] == c;
        assert(chain[i] == chain[count]);
    }
    if count == chain.len() - 1 && v.cell(c).in_maze && !v0.cell(c).in_maze {
        let i = choose|i: int| 0 <= i < count && chain[i] == c;
        assert(chain[i] == chain[count]);
    }
}

/// The commit phase after `count` steps along `chain` from `v0`: the grid is
/// the chain carved that far, symmetric if `v0` was, with `count` more cells
/// in the tree.
#[verifier::opaque]
pub open spec fn commit_state(v0: MazeView, dv: Seq<Seq<Direction>>, chain: Seq<Coords>, v: MazeView, count: int) -> bool {
    &&& v == carve_chain(v0, dv, chain, count as nat)
    &&& (v0.symmetric() ==> v.symmetric())
    &&& v.in_maze_count() == v0.in_maze_count() + count
}

/// One step of the commit phase keeps the loop's facts: the grid stays
/// well-formed (and symmetric, if it was), is the chain carved one step
/// further, and on a growing tree keeps the tree's invariant with `c`
/// taking its next cell as parent.
pub proof fn lemma_commit_advance(
    v0: MazeView,
    dv: Seq<Seq<Direction>>,
    chain: Seq<Coords>,
    v: MazeView,
    count: int,
    tree0: bool,
    par: Map<Coords, Coords>,
    rank: Map<Coords, nat>,
    rank0: Map<Coords, nat>,
) -> (par2: Map<Coords, Coords>)
    requires
        chain_ok(v0, dv, chain),
        v0.width * v0.height <= usize::MAX,
        0 <= count < chain.len() - 1,
        v.width == v0.width,
        v.height == v0.height,
        v.start == v0.start,
        v.wf(),
        membership_kept(v0, v, chain, count),
        commit_state(v0, dv, chain, v, count),
        !v.cell(chain[count]).in_maze,
        tree0 ==> tree_state(v0, dv, chain, v, count, par, rank, rank0),
    ensures
        ({
            let c = chain[count];
            let v2 = carve(v, c, dir_at(dv, c));
            &&& v2.wf()
            &&& v2.width == v0.width && v2.height == v0.height
            &&& v2.start == v0.start
            &&& membership_kept(v0, v2, chain, count + 1)
            &&& commit_state(v0, dv, chain, v2, count + 1)
            &&& count + 1 <= usize::MAX
            &&& chain[count + 1] == step(c, dir_at(dv, c))
            &&& (tree0 ==> tree_state(v0, dv, chain, v2, count + 1, par2, rank, rank0))
        }),
{
    reveal(commit_state);
    let c = chain[count];
    let d = dir_at(dv, c);
    lemma_commit_step(v0, dv, chain, v, count);
    let v2 = carve(v, c, d);
    lemma_count_grid_bound(v2.cells, v2.width, |k: Cell| is_in_maze(k));
    assert(v2.height * v2.width == v2.width * v2.height) by (nonlinear_arith);
    if tree0 {
        reveal(tree_state);
        lemma_follow_next(v0, dv, chain, v, count);
        lemma_orient_step(v, par, c, d);
        lemma_chain_rank(v0, dv, rank0, chain, count);
        let p2 = par.insert(c, step(c, d));
        assert forall|x: Coords| #[trigger] p2.dom().contains(x) implies {
            &&& rank.dom().contains(x)
            &&& rank.dom().contains(p2[x])
            &&& rank[p2[x]] < rank[x]
        } by {
            if x != c {
                assert(par.dom().contains(x));
            }
        }
        lemma_follow_step(v0, dv, chain, v, count);
        p2
    } else {
        par
    }
}

pub proof fn lemma_step_in_grid(v: MazeView, c: Coords, d: Direction)
    requires
        v.wf(),
        v.in_bounds(c),
        directions_in_grid(v.width, v.height, c).contains(d),
    ensures
        d != Direction::Blank,
        v.in_bounds(step(c, d)),
        step(c, d) != c,
        step(step(c, d), opposite(d)) == c,
        directions_in_grid(v.width, v.height, step(c, d)).contains(opposite(d)),
{
    lemma_directions_in_grid(v.width, v.height, c);
    let n = step(c, d);
    if d == Direction::Up {
        assert(n.y + 1 == c.y && n.x == c.x);
    } else if d == Direction::Down {
        assert(n.y == c.y + 1 && n.x == c.x);
    } else if d == Direction::Left {
        assert(n.x + 1 == c.x && n.y == c.y);
    } else {
        assert(n.x == c.x + 1 && n.y == c.y);
    }
    lemma_directions_in_grid(v.width, v.height, n);
}

pub proof fn lemma_reachable_grows(v1: MazeView, v2: MazeView, a: Coords, b: Coords)
    requires
        v1.reachable(a, b),
        v1.opens_within(v2),
    ensures
        v2.reachable(a, b),
{
    let p = choose|p: Seq<Coords>| v1.is_walk(p) && p[0] == a && p.last() == b;
    lemma_walk_grows(v1, v2, p);
}

/// The cells of a carved grid: `c` and its neighbour change, nothing else.
pub proof fn lemma_carve_cells(v: MazeView, c: Coords, d: Direction)
    requires
        v.wf(),
        v.in_bounds(c),
        directions_in_grid(v.width, v.height, c).contains(d),
    ensures
        ({
            let v2 = carve(v, c, d);
            let n = step(c, d);
            &&& v2.shape_ok()
            &&& v2.width == v.width && v2.height == v.height
            &&& v2.start == v.start && v2.end == v.end
            &&& forall|x: Coords| v.in_bounds(x) ==> #[trigger] v2.cell(x) == (
                if x == c {
                    Cell { in_maze: true, ..with_side(v.cell(c), d, LinkType::Path) }
                } else if x == n {
                    with_side(v.cell(n), opposite(d), LinkType::Path)
                } else {
                    v.cell(x)
                })
        }),
{
    lemma_step_in_grid(v, c, d);
    let n = step(c, d);
    let c1 = Cell { in_maze: true, ..with_side(v.cell(c), d, LinkType::Path) };
    let v1 = v.set_cell(c, c1);
    lemma_set_cell(v, c, c1);
    let c2 = with_side(v1.cell(n), opposite(d), LinkType::Path);
    lemma_set_cell(v1, n, c2);
    assert(v1.cell(n) == v.cell(n));
}

/// Carving one passage keeps the grid well-formed and symmetric and only
/// opens sides.
pub proof fn lemma_carve_shape(v: MazeView, c: Coords, d: Direction)
    requires
        v.wf(),
        v.symmetric(),
        v.in_bounds(c),
        directions_in_grid(v.width, v.height, c).contains(d),
    ensures
        ({
            let v2 = carve(v, c, d);
            let n = step(c, d);
            &&& v2.wf()
            &&& v2.symmetric()
            &&& v.opens_within(v2)
            &&& v2.width == v.width && v2.height == v.height
            &&& v2.start == v.start && v2.end == v.end
            &&& v2.cell(c).in_maze
            &&& v2.has_move(n, c)
            &&& forall|x: Coords| #[trigger] v.in_bounds(x) ==> v2.cell(x) == (
                if x == c {
                    Cell { in_maze: true, ..with_side(v.cell(c), d, LinkType::Path) }
                } else if x == n {
                    with_side(v.cell(n), opposite(d), LinkType::Path)
                } else {
                    v.cell(x)
                })
        }),
{
    lemma_step_in_grid(v, c, d);
    lemma_directions_in_grid(v.width, v.height, c);
    lemma_carve_cells(v, c, d);
    lemma_carve_borders(v, c, d);
    lemma_carve_symmetric(v, c, d);
    let v2 = carve(v, c, d);
    let n = step(c, d);
    assert(v.opens_within(v2)) by {
        assert forall|x: Coords| #[trigger] v.in_bounds(x) implies {
            &&& (v.cell(x).top == LinkType::Path ==> v2.cell(x).top == LinkType::Path)
            &&& (v.cell(x).right == LinkType::Path ==> v2.cell(x).right == LinkType::Path)
            &&& (v.cell(x).bottom == LinkType::Path ==> v2.cell(x).bottom == LinkType::Path)
            &&& (v.cell(x).left == LinkType::Path ==> v2.cell(x).left == LinkType::Path)
        } by {
            assert(v2.cell(x) == (if x == c {
                Cell { in_maze: true, ..with_side(v.cell(c), d, LinkType::Path) }
            } else if x == n {
                with_side(v.cell(n), opposite(d), LinkType::Path)
            } else {
                v.cell(x)
            }));
        }
    }
    assert(v2.cell(n) == with_side(v.cell(n), opposite(d), LinkType::Path));
    assert(v2.cell(c) == Cell { in_maze: true, ..with_side(v.cell(c), d, LinkType::Path) });
    assert(v2.has_move(n, c));
}

pub proof fn lemma_carve_borders(v: MazeView, c: Coords, d: Direction)
    requires
        v.wf(),
        v.in_bounds(c),
        directions_in_grid(v.width, v.height, c).contains(d),
    ensures
        carve(v, c, d).borders_closed(),
{
    lemma_step_in_grid(v, c, d);
    lemma_directions_in_grid(v.width, v.height, c);
    lemma_carve_cells(v, c, d);
    let v2 = carve(v, c, d);
    let n = step(c, d);
    lemma_directions_in_grid(v.width, v.height, n);
    assert forall|x: Coords| #[trigger] v2.in_bounds(x) implies {
        &&& (x.y == 0 ==> v2.cell(x).top == LinkType::Wall)
        &&& (x.x == v2.width - 1 ==> v2.cell(x).right == LinkType::Wall)
        &&& (x.y == v2.height - 1 ==> v2.cell(x).bottom == LinkType::Wall)
        &&& (x.x == 0 ==> v2.cell(x).left == LinkType::Wall)
    } by {
        assert(v.in_bounds(x));
    }
}

#[verifier::spinoff_prover]
pub proof fn lemma_carve_symmetric(v: MazeView, c: Coords, d: Direction)
    requires
        v.wf(),
        v.symmetric(),
        v.in_bounds(c),
        directions_in_grid(v.width, v.height, c).contains(d),
    ensures
        carve(v, c, d).symmetric(),
{
    lemma_step_in_grid(v, c, d);
    lemma_directions_in_grid(v.width, v.height, c);
    lemma_carve_cells(v, c, d);
    let v2 = carve(v, c, d);
    let n = step(c, d);
    assert forall|x: Coords| #[trigger] v2.in_bounds(x) && x.x + 1 < v2.width
        implies v2.cell(x).right == v2.cell(step(x, Direction::Right)).left by {
        let r = step(x, Direction::Right);
        assert(v.in_bounds(x) && v.in_bounds(r));
        assert(v.cell(x).right == v.cell(r).left);
        if x == c && d == Direction::Right {
            assert(r == n);
        }
        if r == c && d == Direction::Left {
            assert(x.x == n.x && x.y == n.y);
        }
        if x == n && d == Direction::Left {
            assert(r == c);
        }
        if r == n && d == Direction::Right {
            assert(x.x == c.x && x.y == c.y);
        }
    }
    assert forall|x: Coords| #[trigger] v2.in_bounds(x) && x.y + 1 < v2.height
        implies v2.cell(x).bottom == v2.cell(step(x, Direction::Down)).top by {
        let b = step(x, Direction::Down);
        assert(v.in_bounds(x) && v.in_bounds(b));
        assert(v.cell(x).bottom == v.cell(b).top);
        if x == c && d == Direction::Down {
            assert(b == n);
        }
        if b == c && d == Direction::Up {
            assert(x.x == n.x && x.y == n.y);
        }
        if x == n && d == Direction::Up {
            assert(b == c);
        }
        if b == n && d == Direction::Down {
            assert(x.x == c.x && x.y == c.y);
        }
    }
}

/// The moves of a carved grid: those of the grid, and the new passage both ways.
pub proof fn lemma_carve_moves(v: MazeView, c: Coords, d: Direction)
    requires
        v.wf(),
        v.symmetric(),
        v.in_bounds(c),
        directions_in_grid(v.width, v.height, c).contains(d),
    ensures
        forall|x: Coords, b: Coords| v.in_bounds(x) && #[trigger] carve(v, c, d).has_move(x, b) ==> {
            ||| v.has_move(x, b)
            ||| x == c && b == step(c, d)
            ||| x == step(c, d) && b == c
        },
{
    lemma_step_in_grid(v, c, d);
    lemma_carve_shape(v, c, d);
    let v2 = carve(v, c, d);
    let n = step(c, d);
    assert forall|x: Coords, b: Coords| v.in_bounds(x) && #[trigger] v2.has_move(x, b) implies {
        ||| v.has_move(x, b)
        ||| x == c && b == n
        ||| x == n && b == c
    } by {
        if x == c {
            assert(v2.cell(c) == Cell { in_maze: true, ..with_side(v.cell(c), d, LinkType::Path) });
        } else if x == n {
            assert(v2.cell(n) == with_side(v.cell(n), opposite(d), LinkType::Path));
        } else {
            assert(v2.cell(x) == v.cell(x));
        }
    }
}

/// Carving from `c` toward `step(c, d)` keeps the passages oriented once
/// `c` takes that neighbour as parent.
pub proof fn lemma_orient_step(v: MazeView, par: Map<Coords, Coords>, c: Coords, d: Direction)
    requires
        v.wf(),
        v.symmetric(),
        v.in_bounds(c),
        directions_in_grid(v.width, v.height, c).contains(d),
        v.oriented_by(par),
        !v.cell(c).in_maze,
        v.cell(v.start).in_maze,
    ensures
        carve(v, c, d).oriented_by(par.insert(c, step(c, d))),
        carve(v, c, d).cell(v.start).in_maze,
{
    lemma_step_in_grid(v, c, d);
    lemma_carve_shape(v, c, d);
    lemma_carve_moves(v, c, d);
    let v2 = carve(v, c, d);
    let n = step(c, d);
    let par2 = par.insert(c, n);
    assert(v.in_bounds(v.start));
    assert(c != v.start);
    assert(!par.dom().contains(c));
    assert forall|x: Coords| #[trigger] par2.dom().contains(x) implies v2.in_bounds(x) && v2.cell(x).in_maze by {
        if x != c {
            assert(par.dom().contains(x));
            assert(v.in_bounds(x) && v.cell(x).in_maze);
        }
    }
    assert forall|x: Coords, b: Coords| v2.in_bounds(x) && #[trigger] v2.has_move(x, b) implies {
        ||| par2.dom().contains(x) && par2[x] == b
        ||| par2.dom().contains(b) && par2[b] == x
    } by {
        assert(v.in_bounds(x));
        if v.has_move(x, b) {
            if par.dom().contains(x) && par[x] == b {
                assert(x != c);
            } else {
                assert(par.dom().contains(b) && par[b] == x);
                assert(b != c);
            }
        }
    }
}

/// Carving from a cell outside the tree through a closed side joins that cell
/// to the tree and adds exactly one passage.
pub proof fn lemma_carve_counts(v: MazeView, c: Coords, d: Direction)
    requires
        v.wf(),
        v.symmetric(),
        v.in_bounds(c),
        directions_in_grid(v.width, v.height, c).contains(d),
        !v.cell(c).in_maze,
        side(v.cell(c), d) == LinkType::Wall,
    ensures
        carve(v, c, d).in_maze_count() == v.in_maze_count() + 1,
        carve(v, c, d).passage_count() == v.passage_count() + 1,
{
    lemma_step_in_grid(v, c, d);
    lemma_directions_in_grid(v.width, v.height, c);
    let n = step(c, d);
    let c1 = Cell { in_maze: true, ..with_side(v.cell(c), d, LinkType::Path) };
    let v1 = v.set_cell(c, c1);
    lemma_set_cell(v, c, c1);
    let c2 = with_side(v1.cell(n), opposite(d), LinkType::Path);
    let v2 = v1.set_cell(n, c2);
    assert(v1.cell(n) == v.cell(n));
    // the side of the neighbour that faces `c` was closed too
    if d == Direction::Right {
        assert(v.in_bounds(c) && c.x + 1 < v.width);
    } else if d == Direction::Down {
        assert(v.in_bounds(c) && c.y + 1 < v.height);
    } else if d == Direction::Left {
        assert(v.in_bounds(n) && n.x + 1 < v.width);
        assert(step(n, Direction::Right) == c);
    } else {
        assert(v.in_bounds(n) && n.y + 1 < v.height);
        assert(step(n, Direction::Down) == c);
    }
    assert(side(v.cell(n), opposite(d)) == LinkType::Wall);
    let fi = |k: Cell| is_in_maze(k);
    let fr = |k: Cell| opens_right(k);
    let fd = |k: Cell| opens_down(k);
    lemma_count_grid_update(v.cells, c.y as int, c.x as int, c1, fi);
    lemma_count_grid_update(v.cells, c.y as int, c.x as int, c1, fr);
    lemma_count_grid_update(v.cells, c.y as int, c.x as int, c1, fd);
    lemma_count_grid_update(v1.cells, n.y as int, n.x as int, c2, fi);
    lemma_count_grid_update(v1.cells, n.y as int, n.x as int, c2, fr);
    lemma_count_grid_update(v1.cells, n.y as int, n.x as int, c2, fd);
}

/// Relies on rand's `SliceRandom::choose` over the thread-local generator:
/// on a non-empty slice it returns one of the slice's elements.
#[verifier::external_body]
fn choose_direction(options: &Vec<Direction>) -> (r: Direction)
    requires
        options.len() > 0,
    ensures
        options@.contains(r),
{
    *options.choose(&mut rand::thread_rng()).unwrap()
}

/// A walk record for a `width` by `height` grid, every entry blank.
fn new_scratch(width: usize, height: usize) -> (r: Vec<Vec<Direction>>)
    ensures
        scratch_ok(scratch_view(&r), width as int, height as int),
{
    let mut dirs: Vec<Vec<Direction>> = Vec::new();
    let mut y: usize = 0;
    while y < height
        invariant
            y <= height,
            dirs.len() == y,
            forall|j: int| 0 <= j < y ==> (#[trigger] dirs@[j])@.len() == width,
        decreases height - y,
    {
        let mut row: Vec<Direction> = Vec::new();
        let mut x: usize = 0;
        while x < width
            invariant
                x <= width,
                row.len() == x,
            decreases width - x,
        {
            row.push(Direction::Blank);
            x = x + 1;
        }
        dirs.push(row);
        y = y + 1;
    }
    dirs
}

fn set_direction(dirs: &mut Vec<Vec<Direction>>, c: &Coords, d: Direction)
    requires
        c.y < old(dirs)@.len(),
        c.x < old(dirs)@[c.y as int]@.len(),
    ensures
        scratch_view(final(dirs)) =~= scratch_view(old(dirs)).update(
            c.y as int,
            scratch_view(old(dirs))[c.y as int].update(c.x as int, d),
        ),
        scratch_view(final(dirs)) == scratch_view(old(dirs)).update(
            c.y as int,
            scratch_view(old(dirs))[c.y as int].update(c.x as int, d),
        ),
{
    dirs[c.y].set(c.x, d);
}

/// The walk record `dv` differs from `dirs0` only at cells outside the tree,
/// and there holds directions that stay in the grid.
#[verifier::opaque]
pub open spec fn changed_only_outside(v: MazeView, dv: Seq<Seq<Direction>>, dirs0: Seq<Seq<Direction>>) -> bool {
    forall|c: Coords| #[trigger] v.in_bounds(c) && dir_at(dv, c) != dir_at(dirs0, c) ==> {
        &&& !v.cell(c).in_maze
        &&& directions_in_grid(v.width, v.height, c).contains(dir_at(dv, c))
    }
}

/// One step of the walk records its direction at the current cell only,
/// which is outside the tree, and the direction stays in the grid.
pub proof fn lemma_walk_frame(
    v: MazeView,
    old_dirs: Seq<Seq<Direction>>,
    dv: Seq<Seq<Direction>>,
    dirs0: Seq<Seq<Direction>>,
    cur: Coords,
    d: Direction,
)
    requires
        v.in_bounds(cur),
        !v.cell(cur).in_maze,
        directions_in_grid(v.width, v.height, cur).contains(d),
        scratch_ok(old_dirs, v.width, v.height),
        dv == old_dirs.update(cur.y as int, old_dirs[cur.y as int].update(cur.x as int, d)),
        changed_only_outside(v, old_dirs, dirs0),
    ensures
        changed_only_outside(v, dv, dirs0),
        dir_at(dv, cur) == d,
        forall|c: Coords| #[trigger] v.in_bounds(c) && c != cur ==> dir_at(dv, c) == dir_at(old_dirs, c),
{
    reveal(changed_only_outside);
    assert forall|c: Coords| #[trigger] v.in_bounds(c) && c != cur implies dir_at(dv, c) == dir_at(old_dirs, c) by {
        if c.y == cur.y {
            assert(c.x != cur.x);
        }
    }
}

/// Extends the loop-erased chain by one step of the walk, cutting the loop
/// when the step returns to a cell already on it.
pub proof fn lemma_walk_extend(
    v: MazeView,
    old_dirs: Seq<Seq<Direction>>,
    dv: Seq<Seq<Direction>>,
    old_chain: Seq<Coords>,
    cur: Coords,
    rand_dir: Direction,
) -> (chain: Seq<Coords>)
    requires
        v.wf(),
        chain_ok(v, old_dirs, old_chain),
        old_chain.last() == cur,
        !v.cell(cur).in_maze,
        directions_in_grid(v.width, v.height, cur).contains(rand_dir),
        dir_at(dv, cur) == rand_dir,
        forall|c: Coords| #[trigger] v.in_bounds(c) && c != cur ==> dir_at(dv, c) == dir_at(old_dirs, c),
    ensures
        chain_ok(v, dv, chain),
        chain[0] == old_chain[0],
        chain.last() == step(cur, rand_dir),
{
    lemma_step_in_grid(v, cur, rand_dir);
    let next = step(cur, rand_dir);
    let mut chain = old_chain;
    assert forall|i: int| 0 <= i < old_chain.len() - 1 implies
        dir_at(dv, #[trigger] old_chain[i]) == dir_at(old_dirs, old_chain[i]) by {
        assert(old_chain[i] != cur);
        assert(v.in_bounds(old_chain[i]));
    }
    if exists|j: int| 0 <= j < old_chain.len() && old_chain[j] == next {
        let j = choose|j: int| 0 <= j < old_chain.len() && old_chain[j] == next;
        chain = old_chain.subrange(0, j + 1);
        assert(chain_ok(v, dv, chain)) by {
            assert forall|i: int| 0 <= i < chain.len() - 1 implies {
                &&& !v.cell(#[trigger] chain[i]).in_maze
                &&& directions_in_grid(v.width, v.height, chain[i]).contains(dir_at(dv, chain[i]))
                &&& step(chain[i], dir_at(dv, chain[i])) == chain[i + 1]
            } by {
                assert(chain[i] == old_chain[i]);
                assert(chain[i + 1] == old_chain[i + 1]);
            }
            assert forall|i: int| 0 <= i < chain.len() implies v.in_bounds(#[trigger] chain[i]) by {
                assert(chain[i] == old_chain[i]);
            }
        }
    } else {
        chain = old_chain.push(next);
        assert(chain_ok(v, dv, chain)) by {
            assert forall|i: int| 0 <= i < chain.len() - 1 implies {
                &&& !v.cell(#[trigger] chain[i]).in_maze
                &&& directions_in_grid(v.width, v.height, chain[i]).contains(dir_at(dv, chain[i]))
                &&& step(chain[i], dir_at(dv, chain[i])) == chain[i + 1]
            } by {
                assert(chain[i] == old_chain[i]);
                if i < old_chain.len() - 1 {
                    assert(chain[i + 1] == old_chain[i + 1]);
                }
            }
            assert forall|i: int| 0 <= i < chain.len() implies v.in_bounds(#[trigger] chain[i]) by {
                if i < old_chain.len() {
                    assert(chain[i] == old_chain[i]);
                }
            }
            assert forall|i: int, k: int| 0 <= i < chain.len() && 0 <= k < chain.len() && i != k
                implies chain[i] != chain[k] by {
                if i < old_chain.len() && k < old_chain.len() {
                    assert(chain[i] == old_chain[i] && chain[k] == old_chain[k]);
                } else if i < old_chain.len() {
                    assert(chain[i] == old_chain[i]);
                } else {
                    assert(chain[k] == old_chain[k]);
                }
            }
        }
    }
    if old_chain.len() == 1 {
        assert(chain[0] == old_chain[0]);
    }
    chain
}

/// Records the drawn direction `d` at `cur` and moves `cur` one step that way.
fn walk_step(maze: &Maze, dirs: &mut Vec<Vec<Direction>>, cur: &mut Coords, d: Direction)
    requires
        maze@.wf(),
        maze@.in_bounds(*old(cur)),
        scratch_ok(scratch_view(old(dirs)), maze@.width, maze@.height),
        directions_in_grid(maze@.width, maze@.height, *old(cur)).contains(d),
    ensures
        scratch_view(final(dirs)) == scratch_view(old(dirs)).update(
            old(cur).y as int,
            scratch_view(old(dirs))[old(cur).y as int].update(old(cur).x as int, d),
        ),
        *final(cur) == step(*old(cur), d),
        maze@.in_bounds(*final(cur)),
{
    proof {
        lemma_step_in_grid(maze@, *cur, d);
        lemma_directions_in_grid(maze@.width, maze@.height, *cur);
        assert(scratch_view(dirs)[cur.y as int] == dirs@[cur.y as int]@);
    }
    set_direction(dirs, cur, d);
    match d {
        Direction::Down => {
            cur.y = cur.y + 1;
        },
        Direction::Up => {
            cur.y = cur.y - 1;
        },
        Direction::Left => {
            cur.x = cur.x - 1;
        },
        Direction::Right => {
            cur.x = cur.x + 1;
        },
        Direction::Blank => {},
    }
}

impl WilsonGenerator {
    /// Walks at random from `start_coords` until the walk meets the tree,
    /// recording in `dirs` the direction last taken from each cell.
    fn random_walk(maze: &Maze, dirs: &mut Vec<Vec<Direction>>, start_coords: &Coords) -> (r: (Result<(), MazeError>, u64))
        requires
            maze@.wf(),
            maze@.width > 1 || maze@.height > 1,
            maze@.in_bounds(*start_coords),
            scratch_ok(scratch_view(old(dirs)), maze@.width, maze@.height),
        ensures
            scratch_ok(scratch_view(final(dirs)), maze@.width, maze@.height),
            forall|c: Coords| #[trigger] maze@.in_bounds(c)
                && dir_at(scratch_view(final(dirs)), c) != dir_at(scratch_view(old(dirs)), c) ==> {
                &&& !maze@.cell(c).in_maze
                &&& directions_in_grid(maze@.width, maze@.height, c).contains(dir_at(scratch_view(final(dirs)), c))
            },
            maze@.cell(*start_coords).in_maze ==> r.0 is Ok && r.1 == 0 && scratch_view(final(dirs)) == scratch_view(old(dirs)),
            r.0 is Ok ==> leads_to_tree(maze@, scratch_view(final(dirs)), *start_coords),
            r.0 is Err ==> r.0 == Err::<(), MazeError>(MazeError::WalkLimitReached) && r.1 == u64::MAX,
    {
        let ghost dirs0 = scratch_view(dirs);
        proof {
            reveal(changed_only_outside);
        }
        let mut current_coords = *start_coords;
        let ghost mut chain: Seq<Coords> = seq![*start_coords];
        let mut steps: u64 = 0;
        while !maze.borrow_cell(&current_coords).in_maze
            invariant
                maze@.wf(),
                maze@.width > 1 || maze@.height > 1,
                scratch_ok(scratch_view(dirs), maze@.width, maze@.height),
                chain_ok(maze@, scratch_view(dirs), chain),
                chain[0] == *start_coords,
                chain.last() == current_coords,
                scratch_ok(dirs0, maze@.width, maze@.height),
                dirs0 == scratch_view(old(dirs)),
                changed_only_outside(maze@, scratch_view(dirs), dirs0),
                maze@.cell(*start_coords).in_maze ==> scratch_view(dirs) == dirs0 && steps == 0,
            decreases u64::MAX - steps,
        {
            proof {
                if chain.len() > 1 {
                    assert(!maze@.cell(chain[0]).in_maze);
                }
            }
            if steps == u64::MAX {
                proof {
                    reveal(changed_only_outside);
                }
                return (Err(MazeError::WalkLimitReached), steps);
            }
            steps = steps + 1;
            let possible_directions = maze.get_directions_possible(&current_coords);
            proof {
                lemma_directions_in_grid(maze@.width, maze@.height, current_coords);
                if maze@.width > 1 {
                    if current_coords.x > 0 {
                        assert(possible_directions@.contains(Direction::Left));
                    } else {
                        assert(possible_directions@.contains(Direction::Right));
                    }
                } else {
                    if current_coords.y > 0 {
                        assert(possible_directions@.contains(Direction::Up));
                    } else {
                        assert(possible_directions@.contains(Direction::Down));
                    }
                }
            }
            let rand_dir = choose_direction(&possible_directions);
            let ghost old_dirs = scratch_view(dirs);
            let ghost cur = current_coords;
            proof {
                lemma_step_in_grid(maze@, cur, rand_dir);
            }
            walk_step(maze, dirs, &mut current_coords, rand_dir);
            proof {
                lemma_walk_frame(maze@, old_dirs, scratch_view(dirs), dirs0, cur, rand_dir);
                chain = lemma_walk_extend(maze@, old_dirs, scratch_view(dirs), chain, cur, rand_dir);
            }
        }
        proof {
            reveal(changed_only_outside);
        }
        (Ok(()), steps)
    }

    /// Follows the recorded directions from `coords` to the tree, carving each
    /// step on both sides and joining each cell passed to the tree; returns
    /// how many joined, or fails at a cell that records no direction.
    fn follow_path(maze: &mut Maze, dirs: &Vec<Vec<Direction>>, coords: &Coords) -> (r: Result<usize, MazeError>)
        requires
            old(maze)@.wf(),
            old(maze)@.width * old(maze)@.height <= usize::MAX,
            scratch_ok(scratch_view(dirs), old(maze)@.width, old(maze)@.height),
            follows_to_end(old(maze)@, scratch_view(dirs), *coords),
        ensures
            final(maze)@.wf(),
            final(maze)@.width == old(maze)@.width,
            final(maze)@.height == old(maze)@.height,
            old(maze)@.symmetric() ==> final(maze)@.symmetric(),
            old(maze)@.cell(*coords).in_maze ==> r == Ok::<usize, MazeError>(0) && final(maze)@ == old(maze)@,
            exists|chain: Seq<Coords>| {
                &&& chain_ok(old(maze)@, scratch_view(dirs), chain)
                &&& chain[0] == *coords
                &&& final(maze)@ == carve_chain(old(maze)@, scratch_view(dirs), chain, (chain.len() - 1) as nat)
                &&& old(maze)@.cell(chain.last()).in_maze ==> r == Ok::<usize, MazeError>((chain.len() - 1) as usize)
                &&& !old(maze)@.cell(chain.last()).in_maze ==> {
                    &&& dir_at(scratch_view(dirs), chain.last()) == Direction::Blank
                    &&& r == Err::<usize, MazeError>(MazeError::GenerationInvariantViolation)
                }
            },
            leads_to_tree(old(maze)@, scratch_view(dirs), *coords) ==> r is Ok,
            r is Ok ==> final(maze)@.in_maze_count() == old(maze)@.in_maze_count() + r->Ok_0,
            r is Ok && !old(maze)@.cell(*coords).in_maze ==> r->Ok_0 >= 1,
            forall|c: Coords| #[trigger] old(maze)@.in_bounds(c) && old(maze)@.cell(c).in_maze
                ==> final(maze)@.cell(c).in_maze,
            tree_start(old(maze)@, scratch_view(dirs), *coords) ==> {
                &&& final(maze)@.is_growing_tree()
                &&& final(maze)@.has_orientation()
                &&& final(maze)@.cell(final(maze)@.start).in_maze
            },
    {
        let ghost dv = scratch_view(dirs);
        let ghost v0 = maze@;
        let ghost leads = leads_to_tree(v0, dv, *coords);
        let ghost chain = if leads {
            choose|chain: Seq<Coords>| {
                &&& chain_ok(v0, dv, chain)
                &&& chain[0] == *coords
                &&& v0.cell(chain.last()).in_maze
            }
        } else {
            choose|chain: Seq<Coords>| {
                &&& chain_ok(v0, dv, chain)
                &&& chain[0] == *coords
                &&& (v0.cell(chain.last()).in_maze || dir_at(dv, chain.last()) == Direction::Blank)
            }
        };
        let ghost tree0 = tree_start(v0, dv, *coords) && !v0.cell(*coords).in_maze;
        let ghost (par0, rank0) = choose|par: Map<Coords, Coords>, rank: Map<Coords, nat>| {
            &&& v0.oriented_by(par)
            &&& ranked(par, rank)
            &&& v0.ranks_tree(rank)
        };
        let ghost mut par = par0;
        let ghost rank = chain_ranks(rank0, chain);
        proof {
            reveal(membership_kept);
            if v0.cell(chain[0]).in_maze && chain.len() > 1 {
                assert(!v0.cell(chain[0]).in_maze);
            }
            reveal(tree_start);
            if tree0 {
                lemma_rank_extends(par0, rank0, chain);
                lemma_follow_start(v0, dv, chain);
                reveal(tree_state);
            }
        }
        proof {
            reveal(commit_state);
        }
        let mut current_coords = *coords;
        let mut count: usize = 0;
        let mut blank_met = false;
        while !blank_met && !maze.borrow_cell(&current_coords).in_maze
            invariant
                blank_met ==> {
                    &&& count == chain.len() - 1
                    &&& !v0.cell(chain.last()).in_maze
                    &&& dir_at(dv, chain.last()) == Direction::Blank
                    &&& !maze@.cell(chain[count as int]).in_maze
                },
                v0 == old(maze)@,
                v0.wf(),
                v0.width * v0.height <= usize::MAX,
                dv == scratch_view(dirs),
                scratch_ok(dv, v0.width, v0.height),
                chain_ok(v0, dv, chain),
                chain[0] == *coords,
                v0.cell(chain.last()).in_maze || dir_at(dv, chain.last()) == Direction::Blank,
                leads ==> v0.cell(chain.last()).in_maze,
                0 <= count < chain.len(),
                current_coords == chain[count as int],
                maze@.wf(),
                maze@.width == v0.width,
                maze@.height == v0.height,
                maze@.start == v0.start,
                membership_kept(v0, maze@, chain, count as int),
                commit_state(v0, dv, chain, maze@, count as int),
                tree0 ==> tree_state(v0, dv, chain, maze@, count as int, par, rank, rank0),
            decreases chain.len() - count + (if blank_met { 0int } else { 1int }),
        {
            let ghost v = maze@;
            let ghost c = current_coords;
            proof {
                lemma_commit_where(v0, dv, chain, v, count as int);
            }
            proof {
                assert(dv[c.y as int] == dirs@[c.y as int]@);
            }
            let d = dirs[current_coords.y][current_coords.x];
            proof {
                assert(d == dir_at(dv, c));
            }
            if d == Direction::Blank {
                proof {
                    lemma_blank_at_end(v0, dv, chain, v, count as int);
                }
                blank_met = true;
            } else {
                proof {
                    assert(count < chain.len() - 1);
                    assert(v0.in_bounds(c));
                    lemma_step_in_grid(v, c, d);
                    lemma_directions_in_grid(v.width, v.height, c);
                    lemma_set_cell(v, c, Cell { in_maze: true, ..with_side(v.cell(c), d, LinkType::Path) });
                }
                match d {
                    Direction::Up => {
                        let cell = maze.borrow_cell_mut(&current_coords);
                        cell.in_maze = true;
                        cell.top = LinkType::Path;
                        current_coords.y = current_coords.y - 1;
                        maze.borrow_cell_mut(&current_coords).bottom = LinkType::Path;
                    },
                    Direction::Down => {
                        let cell = maze.borrow_cell_mut(&current_coords);
                        cell.in_maze = true;
                        cell.bottom = LinkType::Path;
                        current_coords.y = current_coords.y + 1;
                        maze.borrow_cell_mut(&current_coords).top = LinkType::Path;
                    },
                    Direction::Left => {
                        let cell = maze.borrow_cell_mut(&current_coords);
                        cell.in_maze = true;
                        cell.left = LinkType::Path;
                        current_coords.x = current_coords.x - 1;
                        maze.borrow_cell_mut(&current_coords).right = LinkType::Path;
                    },
                    Direction::Right => {
                        let cell = maze.borrow_cell_mut(&current_coords);
                        cell.in_maze = true;
                        cell.right = LinkType::Path;
                        current_coords.x = current_coords.x + 1;
                        maze.borrow_cell_mut(&current_coords).left = LinkType::Path;
                    },
                    Direction::Blank => {},
                }
                proof {
                    assert(maze@ == carve(v, c, d));
                    par = lemma_commit_advance(v0, dv, chain, v, count as int, tree0, par, rank, rank0);
                }
                count = count + 1;
            }
        }
        proof {
            reveal(commit_state);
        }
        if blank_met {
            proof {
                lemma_tree_start_leads(v0, dv, *coords);
                assert(!leads);
                assert(!v0.cell(*coords).in_maze) by {
                    if chain.len() > 1 {
                        assert(!v0.cell(chain[0]).in_maze);
                    }
                }
                lemma_commit_where(v0, dv, chain, maze@, count as int);
            }
            return Err(MazeError::GenerationInvariantViolation);
        }
        proof {
            lemma_commit_where(v0, dv, chain, maze@, count as int);
            if tree0 {
                reveal(tree_state);
                lemma_follow_done(v0, dv, chain, maze@, count as int);
                assert(maze@.oriented_by(par));
                lemma_rank_done(v0, dv, chain, rank0, maze@, count as int);
            }
        }
        Ok(count)
    }
}

/// After `count` steps along `chain`: the passed cells are in the tree and
/// reachable back from the current cell.
#[verifier::opaque]
pub open spec fn passed_cells_joined(v: MazeView, chain: Seq<Coords>, count: int) -> bool {
    forall|i: int| 0 <= i < count ==> {
        &&& v.cell(#[trigger] chain[i]).in_maze
        &&& v.reachable(chain[count], chain[i])
    }
}

/// After `count` steps along `chain` from `v0`: the tree holds what it held
/// and the passed cells, nothing else.
#[verifier::opaque]
pub open spec fn membership_kept(v0: MazeView, v: MazeView, chain: Seq<Coords>, count: int) -> bool {
    &&& forall|x: Coords| #[trigger] v.in_bounds(x) && v.cell(x).in_maze ==>
        v0.cell(x).in_maze || exists|i: int| 0 <= i < count && chain[i] == x
    &&& forall|x: Coords| #[trigger] v.in_bounds(x) && v0.cell(x).in_maze ==> v.cell(x).in_maze
}

/// After `count` steps along `chain`: the cells outside the tree are closed,
/// but for the current one, whose only open side leads back along the chain.
#[verifier::opaque]
pub open spec fn outside_closed(v: MazeView, chain: Seq<Coords>, count: int) -> bool {
    let cur = chain[count];
    &&& forall|x: Coords| #[trigger] v.in_bounds(x) && !v.cell(x).in_maze && x != cur
        ==> is_closed(v.cell(x))
    &&& count == 0 ==> is_closed(v.cell(cur))
    &&& count > 0 && !v.cell(cur).in_maze ==> forall|d: Direction|
        side(v.cell(cur), d) == LinkType::Path ==> #[trigger] step(cur, d) == chain[count - 1]
}

/// The state of the commit phase after `count` steps along `chain` from `v0`.
#[verifier::opaque]
pub open spec fn follow_inv(v0: MazeView, dv: Seq<Seq<Direction>>, chain: Seq<Coords>, v: MazeView, count: int) -> bool {
    &&& v.wf()
    &&& v.symmetric()
    &&& v0.opens_within(v)
    &&& v.start == v0.start
    &&& v.end == v0.end
    &&& v.passage_count() + 1 == v.in_maze_count()
    &&& passed_cells_joined(v, chain, count)
    &&& membership_kept(v0, v, chain, count)
    &&& outside_closed(v, chain, count)
}

pub proof fn lemma_follow_start(v0: MazeView, dv: Seq<Seq<Direction>>, chain: Seq<Coords>)
    requires
        v0.is_growing_tree(),
        chain_ok(v0, dv, chain),
        !v0.cell(chain[0]).in_maze,
    ensures
        follow_inv(v0, dv, chain, v0, 0),
{
    reveal(follow_inv);
    reveal(passed_cells_joined);
    reveal(membership_kept);
    reveal(outside_closed);
    assert(v0.in_bounds(chain[0]));
}

/// Before a step: the current cell records an in-grid direction whose side
/// is still closed.
pub proof fn lemma_follow_next(v0: MazeView, dv: Seq<Seq<Direction>>, chain: Seq<Coords>, v: MazeView, count: int)
    requires
        chain_ok(v0, dv, chain),
        v0.cell(chain.last()).in_maze,
        0 <= count < chain.len(),
        v.width == v0.width,
        v.height == v0.height,
        follow_inv(v0, dv, chain, v, count),
        !v.cell(chain[count]).in_maze,
    ensures
        count < chain.len() - 1,
        directions_in_grid(v.width, v.height, chain[count]).contains(dir_at(dv, chain[count])),
        step(chain[count], dir_at(dv, chain[count])) == chain[count + 1],
        side(v.cell(chain[count]), dir_at(dv, chain[count])) == LinkType::Wall,
        v.wf(),
        v.symmetric(),
        v.in_bounds(chain[count]),
{
    reveal(follow_inv);
    reveal(membership_kept);
    reveal(outside_closed);
    let c = chain[count];
    if count == chain.len() - 1 {
        assert(v0.in_bounds(c));
        assert(v.in_bounds(c));
        assert(v.cell(c).in_maze);
    }
    assert(count < chain.len() - 1);
    let d = dir_at(dv, c);
    assert(directions_in_grid(v0.width, v0.height, c).contains(d));
    lemma_step_in_grid(v, c, d);
    if count > 0 {
        assert(chain[count - 1] != chain[count + 1]);
        if side(v.cell(c), d) == LinkType::Path {
            assert(step(c, d) == chain[count - 1]);
        }
    }
}

pub proof fn lemma_step_joined(v0: MazeView, dv: Seq<Seq<Direction>>, chain: Seq<Coords>, v: MazeView, count: int)
    requires
        chain_ok(v0, dv, chain),
        0 <= count < chain.len() - 1,
        v.width == v0.width,
        v.height == v0.height,
        v.wf(),
        v.symmetric(),
        directions_in_grid(v.width, v.height, chain[count]).contains(dir_at(dv, chain[count])),
        step(chain[count], dir_at(dv, chain[count])) == chain[count + 1],
        passed_cells_joined(v, chain, count),
    ensures
        passed_cells_joined(carve(v, chain[count], dir_at(dv, chain[count])), chain, count + 1),
{
    reveal(passed_cells_joined);
    let c = chain[count];
    let d = dir_at(dv, c);
    let n = step(c, d);
    let v2 = carve(v, c, d);
    assert(v0.in_bounds(c));
    lemma_carve_shape(v, c, d);
    let w = seq![n, c];
    assert(v2.is_walk(w));
    assert(w[0] == n && w.last() == c);
    assert(v2.reachable(n, c));
    assert forall|i: int| 0 <= i < count + 1 implies {
        &&& v2.cell(#[trigger] chain[i]).in_maze
        &&& v2.reachable(n, chain[i])
    } by {
        if i < count {
            assert(v.reachable(c, chain[i]));
            lemma_reachable_grows(v, v2, c, chain[i]);
            lemma_reachable_trans(v2, n, c, chain[i]);
            assert(chain[i] != c);
            assert(v0.in_bounds(chain[i]));
            assert(v.cell(chain[i]).in_maze);
        }
    }
}

pub proof fn lemma_step_membership(v0: MazeView, dv: Seq<Seq<Direction>>, chain: Seq<Coords>, v: MazeView, count: int)
    requires
        chain_ok(v0, dv, chain),
        0 <= count < chain.len() - 1,
        v.width == v0.width,
        v.height == v0.height,
        v.wf(),
        directions_in_grid(v.width, v.height, chain[count]).contains(dir_at(dv, chain[count])),
        membership_kept(v0, v, chain, count),
    ensures
        membership_kept(v0, carve(v, chain[count], dir_at(dv, chain[count])), chain, count + 1),
{
    reveal(membership_kept);
    let c = chain[count];
    let d = dir_at(dv, c);
    let n = step(c, d);
    let v2 = carve(v, c, d);
    assert(v0.in_bounds(c));
    lemma_step_in_grid(v, c, d);
    lemma_carve_cells(v, c, d);
    assert forall|x: Coords| #[trigger] v2.in_bounds(x) && v2.cell(x).in_maze implies
        v0.cell(x).in_maze || exists|i: int| 0 <= i < count + 1 && chain[i] == x by {
        assert(v.in_bounds(x));
        if x != c {
            assert(v.cell(x).in_maze);
            if !v0.cell(x).in_maze {
                let i = choose|i: int| 0 <= i < count && chain[i] == x;
                assert(chain[i] == x);
            }
        } else {
            assert(chain[count] == x);
        }
    }
    assert forall|x: Coords| #[trigger] v2.in_bounds(x) && v0.cell(x).in_maze implies v2.cell(x).in_maze by {
        assert(v.in_bounds(x));
    }
}

pub proof fn lemma_step_closed(v0: MazeView, dv: Seq<Seq<Direction>>, chain: Seq<Coords>, v: MazeView, count: int)
    requires
        chain_ok(v0, dv, chain),
        0 <= count < chain.len() - 1,
        v.width == v0.width,
        v.height == v0.height,
        v.wf(),
        v.symmetric(),
        directions_in_grid(v.width, v.height, chain[count]).contains(dir_at(dv, chain[count])),
        step(chain[count], dir_at(dv, chain[count])) == chain[count + 1],
        outside_closed(v, chain, count),
    ensures
        outside_closed(carve(v, chain[count], dir_at(dv, chain[count])), chain, count + 1),
{
    reveal(outside_closed);
    let c = chain[count];
    let d = dir_at(dv, c);
    let n = step(c, d);
    let v2 = carve(v, c, d);
    assert(v0.in_bounds(c));
    lemma_step_in_grid(v, c, d);
    lemma_carve_shape(v, c, d);
    assert forall|x: Coords| #[trigger] v2.in_bounds(x) && !v2.cell(x).in_maze && x != n
        implies is_closed(v2.cell(x)) by {
        assert(v.in_bounds(x));
    }
    if !v2.cell(n).in_maze {
        assert(v.in_bounds(n));
        assert(!v.cell(n).in_maze);
        assert(is_closed(v.cell(n)));
        assert forall|dd: Direction| side(v2.cell(n), dd) == LinkType::Path
            implies #[trigger] step(n, dd) == chain[count] by {
            assert(dd == opposite(d));
        }
    }
}

/// One step of the commit phase keeps its invariant and joins one cell.
pub proof fn lemma_follow_step(v0: MazeView, dv: Seq<Seq<Direction>>, chain: Seq<Coords>, v: MazeView, count: int)
    requires
        chain_ok(v0, dv, chain),
        v0.cell(chain.last()).in_maze,
        0 <= count < chain.len(),
        v.width == v0.width,
        v.height == v0.height,
        follow_inv(v0, dv, chain, v, count),
        !v.cell(chain[count]).in_maze,
    ensures
        ({
            let v2 = carve(v, chain[count], dir_at(dv, chain[count]));
            &&& count + 1 < chain.len()
            &&& follow_inv(v0, dv, chain, v2, count + 1)
            &&& v2.wf()
            &&& v2.width == v.width
            &&& v2.height == v.height
            &&& v2.in_maze_count() == v.in_maze_count() + 1
        }),
{
    lemma_follow_next(v0, dv, chain, v, count);
    reveal(follow_inv);
    let c = chain[count];
    let d = dir_at(dv, c);
    let v2 = carve(v, c, d);
    lemma_carve_shape(v, c, d);
    lemma_carve_counts(v, c, d);
    lemma_step_joined(v0, dv, chain, v, count);
    lemma_step_membership(v0, dv, chain, v, count);
    lemma_step_closed(v0, dv, chain, v, count);
    assert(v0.opens_within(v2)) by {
        assert forall|x: Coords| #[trigger] v0.in_bounds(x) implies {
            &&& (v0.cell(x).top == LinkType::Path ==> v2.cell(x).top == LinkType::Path)
            &&& (v0.cell(x).right == LinkType::Path ==> v2.cell(x).right == LinkType::Path)
            &&& (v0.cell(x).bottom == LinkType::Path ==> v2.cell(x).bottom == LinkType::Path)
            &&& (v0.cell(x).left == LinkType::Path ==> v2.cell(x).left == LinkType::Path)
        } by {
            assert(v.in_bounds(x));
        }
    }
}

/// When the commit phase meets the tree, the grid is a growing tree again.
pub proof fn lemma_follow_done(v0: MazeView, dv: Seq<Seq<Direction>>, chain: Seq<Coords>, v: MazeView, count: int)
    requires
        v0.is_growing_tree(),
        chain_ok(v0, dv, chain),
        0 <= count < chain.len(),
        v.width == v0.width,
        v.height == v0.height,
        follow_inv(v0, dv, chain, v, count),
        v.cell(chain[count]).in_maze,
        v.in_maze_count() == v0.in_maze_count() + count,
        !v0.cell(chain[0]).in_maze,
    ensures
        v.is_growing_tree(),
        count >= 1,
{
    reveal(follow_inv);
    lemma_follow_done_reach(v0, dv, chain, v, count);
    reveal(outside_closed);
    reveal(membership_kept);
    let c = chain[count];
    assert(v0.in_bounds(c));
    if count == 0 {
        assert(v.in_bounds(chain[0]));
        assert(v0.cell(chain[0]).in_maze);
    }
}

pub proof fn lemma_follow_done_reach(v0: MazeView, dv: Seq<Seq<Direction>>, chain: Seq<Coords>, v: MazeView, count: int)
    requires
        v0.is_growing_tree(),
        chain_ok(v0, dv, chain),
        0 <= count < chain.len(),
        v.width == v0.width,
        v.height == v0.height,
        v0.opens_within(v),
        v.start == v0.start,
        passed_cells_joined(v, chain, count),
        membership_kept(v0, v, chain, count),
        v.cell(chain[count]).in_maze,
    ensures
        forall|x: Coords| #[trigger] v.in_bounds(x) && v.cell(x).in_maze ==> v.reachable(v.start, x),
{
    reveal(passed_cells_joined);
    reveal(membership_kept);
    let c = chain[count];
    assert(v0.in_bounds(c));
    assert forall|x: Coords| #[trigger] v.in_bounds(x) && v.cell(x).in_maze implies v.reachable(v.start, x) by {
        assert(v0.in_bounds(x));
        if v0.cell(x).in_maze {
            lemma_reachable_grows(v0, v, v0.start, x);
        } else {
            let i = choose|i: int| 0 <= i < count && chain[i] == x;
            assert(v.reachable(c, chain[i]));
            assert(v.in_bounds(c));
            if !v0.cell(c).in_maze {
                let k = choose|k: int| 0 <= k < count && chain[k] == c;
                assert(chain[k] == chain[count]);
            }
            lemma_reachable_grows(v0, v, v0.start, c);
            lemma_reachable_trans(v, v.start, c, x);
        }
    }
}

impl MazeGenerator for WilsonGenerator {
    fn generate(&self, maze: &mut Maze) -> (r: Result<(), MazeError>) {
        let (width, height) = maze.get_dimensions();
        proof {
            assert(width * height >= 1) by (nonlinear_arith)
                requires width >= 1, height >= 1;
        }
        let mut remaining: usize = width * height - 1;
        let origin = Coords { x: 0, y: 0 };
        let ghost v0 = maze@;
        proof {
            assert(v0.in_bounds(origin));
        }
        maze.borrow_cell_mut(&origin).in_maze = true;
        proof {
            let v = maze@;
            let c1 = Cell { in_maze: true, ..blank_cell() };
            assert(v.cell(origin) == c1);
            lemma_set_cell(v0, origin, c1);
            assert(v == v0.set_cell(origin, c1));
            assert forall|x: Coords| #[trigger] v.in_bounds(x) implies v.cell(x) == (if x == origin { c1 } else { blank_cell() }) by {
                assert(v0.in_bounds(x));
            }
            let fi = |k: Cell| is_in_maze(k);
            let fr = |k: Cell| opens_right(k);
            let fd = |k: Cell| opens_down(k);
            assert forall|y: int, x: int| 0 <= y < v0.cells.len() && 0 <= x < v0.cells[y].len()
                implies #[trigger] v0.cells[y][x] == blank_cell() by {
                assert(v0.in_bounds(Coords { x: x as usize, y: y as usize }));
            }
            assert forall|y: int, x: int| 0 <= y < v.cells.len() && 0 <= x < v.cells[y].len()
                implies !opens_right(#[trigger] v.cells[y][x]) && !opens_down(v.cells[y][x]) by {
                assert(v.in_bounds(Coords { x: x as usize, y: y as usize }));
            }
            lemma_count_grid_zero(v0.cells, fi);
            lemma_count_grid_zero(v.cells, fr);
            lemma_count_grid_zero(v.cells, fd);
            lemma_count_grid_update(v0.cells, 0, 0, c1, fi);
            let w = seq![origin];
            assert(v.is_walk(w));
            assert(w[0] == v.start && w.last() == origin);
            assert(v.reachable(v.start, origin));
            assert(v.symmetric());
            let par = Map::<Coords, Coords>::empty();
            assert forall|c: Coords, b: Coords| v.in_bounds(c) && #[trigger] v.has_move(c, b) implies {
                ||| par.dom().contains(c) && par[c] == b
                ||| par.dom().contains(b) && par[b] == c
            } by {
                assert(v.cell(c) == (if c == origin { c1 } else { blank_cell() }));
            }
            assert(v.oriented_by(par));
            let rank = Map::<Coords, nat>::empty().insert(origin, 0);
            assert forall|c: Coords| #[trigger] rank.dom().contains(c) <==> v.in_bounds(c) && v.cell(c).in_maze by {
                if v.in_bounds(c) {
                    assert(v.cell(c) == (if c == origin { c1 } else { blank_cell() }));
                }
            }
            assert(ranked(par, rank));
            assert(v.ranks_tree(rank));
        }
        let mut dirs = new_scratch(width, height);
        let mut curr_coords = Coords { x: 0, y: 0 };
        while remaining > 0
            invariant
                v0.width == width,
                v0.height == height,
                old(maze)@.width == width,
                old(maze)@.height == height,
                maze@.is_growing_tree(),
                maze@.has_orientation(),
                maze@.cell(maze@.start).in_maze,
                maze@.width == width,
                maze@.height == height,
                width * height <= usize::MAX,
                remaining == width * height - maze@.in_maze_count(),
                maze@.in_bounds(curr_coords),
                forall|c: Coords| #[trigger] maze@.in_bounds(c) && (c.y < curr_coords.y || (c.y == curr_coords.y
                    && c.x < curr_coords.x)) ==> maze@.cell(c).in_maze,
                scratch_ok(scratch_view(&dirs), width as int, height as int),
            decreases remaining,
        {
            while maze.borrow_cell(&curr_coords).in_maze
                invariant
                    v0.width == width,
                    v0.height == height,
                    old(maze)@.width == width,
                    old(maze)@.height == height,
                    maze@.wf(),
                    maze@.width == width,
                    maze@.height == height,
                    maze@.in_bounds(curr_coords),
                    width * height <= usize::MAX,
                    0 < remaining,
                    remaining == width * height - maze@.in_maze_count(),
                    forall|c: Coords| #[trigger] maze@.in_bounds(c) && (c.y < curr_coords.y || (c.y == curr_coords.y
                        && c.x < curr_coords.x)) ==> maze@.cell(c).in_maze,
                decreases height - curr_coords.y, width - curr_coords.x,
            {
                let ghost prev = curr_coords;
                if curr_coords.x < width - 1 {
                    curr_coords.x = curr_coords.x + 1;
                } else {
                    curr_coords.x = 0;
                    curr_coords.y = curr_coords.y + 1;
                    if curr_coords.y > height - 1 {
                        proof {
                            // every cell is in the tree, so none remains
                            let v = maze@;
                            assert forall|y: int, x: int| 0 <= y < v.cells.len() && 0 <= x < width
                                implies is_in_maze(#[trigger] v.cells[y][x]) by {
                                let c = Coords { x: x as usize, y: y as usize };
                                assert(v.in_bounds(c));
                                if c.y == prev.y {
                                    assert(c.x < width - 1 || c == prev);
                                }
                            }
                            lemma_count_grid_full(v.cells, width as int, |k: Cell| is_in_maze(k));
                            assert(height * width == width * height) by (nonlinear_arith);
                            assert(false);
                        }
                        return Err(MazeError::GenerationInvariantViolation);
                    }
                }
                proof {
                    assert forall|c: Coords| #[trigger] maze@.in_bounds(c) && (c.y < curr_coords.y || (c.y == curr_coords.y
                        && c.x < curr_coords.x)) implies maze@.cell(c).in_maze by {
                        if c.y == prev.y && c.x == prev.x {
                            assert(c == prev);
                        }
                    }
                }
            }
            proof {
                if width == 1 && height == 1 {
                    assert(width * height == 1);
                }
            }
            let (walked, _draws) = WilsonGenerator::random_walk(maze, &mut dirs, &curr_coords);
            match walked {
                Ok(()) => {},
                Err(e) => {
                    return Err(e);
                },
            }
            let ghost before = maze@;
            proof {
                lemma_leads_follows(maze@, scratch_view(&dirs), curr_coords);
                reveal(tree_start);
                assert(tree_start(maze@, scratch_view(&dirs), curr_coords));
            }
            let count = match WilsonGenerator::follow_path(maze, &dirs, &curr_coords) {
                Ok(count) => count,
                Err(e) => {
                    return Err(e);
                },
            };
            proof {
                lemma_count_grid_bound(maze@.cells, width as int, |k: Cell| is_in_maze(k));
                assert(height * width == width * height) by (nonlinear_arith);
                assert forall|c: Coords| #[trigger] maze@.in_bounds(c) && (c.y < curr_coords.y || (c.y == curr_coords.y
                    && c.x < curr_coords.x)) implies maze@.cell(c).in_maze by {
                    assert(before.in_bounds(c));
                }
            }
            remaining = remaining - count;
        }
        proof {
            let v = maze@;
            lemma_count_grid_bound(v.cells, width as int, |k: Cell| is_in_maze(k));
            assert(height * width == width * height) by (nonlinear_arith);
            assert forall|c: Coords| #[trigger] v.in_bounds(c) implies v.cell(c).in_maze by {
                assert(is_in_maze(v.cells[c.y as int][c.x as int]));
            }
        }
        Ok(())
    }
}

} // verus!
