//! The maze itself: a flat wall bitmap over an N-dimensional toroidal
//! lattice, with a randomized spanning-tree generator, an A* solver and
//! single-step explorer movement.

use vstd::prelude::*;

use vstd::arithmetic::div_mod::lemma_fundamental_div_mod;

use crate::grid::{
    valid_dims, valid_pos, cell_count, flatten_pos, wall_index, wall_count, step, distance,
    distance_prefix, count_false, lemma_flatten_pos_bound, lemma_flatten_snoc,
    lemma_cell_count_snoc, lemma_cell_count_take, lemma_wall_index_bijection, lemma_step_valid,
    lemma_distance_prefix_bound, lemma_count_false_bounds, lemma_count_false_update,
    lemma_distance_refl, lemma_step_distance_drop,
    lemma_count_false_constant, lemma_flatten_pos_injective, lemma_flatten_unflatten,
    lemma_step_toward, dir_toward, unflatten_pos,
};
use crate::binary_heap::{BinaryHashHeap, BinaryHashHeapItem, PushAction};
use crate::rng::random_below;

use rand::rngs::StdRng;

verus! {

/// Copy a position vector; the copy holds the same coordinates.
fn copy_pos(v: &Vec<usize>) -> (r: Vec<usize>)
    ensures
        r@ == v@,
{
    let r = v.clone();
    proof {
        assert forall|i: int| 0 <= i < v@.len() implies r@[i] == v@[i] by {
            assert(cloned(v@[i], r@[i]));
        }
        assert(r@ =~= v@);
    }
    r
}

/// `c * d` stays within `bound` exactly when `c` is at most `bound / d`.
proof fn lemma_mul_within(c: int, d: int, bound: int)
    requires
        d >= 1,
        c >= 0,
        bound >= 0,
    ensures
        c <= bound / d <==> c * d <= bound,
{
    lemma_fundamental_div_mod(bound, d);
    if c <= bound / d {
        assert(c * d <= (bound / d) * d) by (nonlinear_arith)
            requires
                d >= 1,
                c <= bound / d,
        ;
        assert((bound / d) * d <= bound) by (nonlinear_arith)
            requires
                bound == d * (bound / d) + bound % d,
                bound % d >= 0,
        ;
    }
    if c > bound / d {
        assert(c * d >= (bound / d + 1) * d) by (nonlinear_arith)
            requires
                d >= 1,
                c >= bound / d + 1,
        ;
        assert((bound / d + 1) * d > bound) by (nonlinear_arith)
            requires
                bound == d * (bound / d) + bound % d,
                bound % d < d,
        ;
    }
}

/// Some wall of `frontier` stands at `p` along axis `ax`.
spec fn in_frontier(frontier: Seq<Wall>, p: Seq<usize>, ax: int) -> bool {
    exists|j: int|
        #![trigger frontier[j]]
        0 <= j < frontier.len() && frontier[j].position@ == p && frontier[j].axis == ax
}

/// Appending a wall keeps every wall already in the frontier.
proof fn lemma_in_frontier_push(frontier: Seq<Wall>, w: Wall, p: Seq<usize>, ax: int)
    requires
        in_frontier(frontier, p, ax),
    ensures
        in_frontier(frontier.push(w), p, ax),
{
    let j = choose|j: int|
        #![trigger frontier[j]]
        0 <= j < frontier.len() && frontier[j].position@ == p && frontier[j].axis == ax;
    assert(frontier.push(w)[j] == frontier[j]);
}

/// Swap-removing one element keeps every other wall in the frontier.
proof fn lemma_in_frontier_swap_remove(pre: Seq<Wall>, pick: int, p: Seq<usize>, ax: int)
    requires
        0 <= pick < pre.len(),
        in_frontier(pre, p, ax),
        !(pre[pick].position@ == p && pre[pick].axis == ax),
    ensures
        in_frontier(pre.update(pick, pre[pre.len() - 1]).drop_last(), p, ax),
{
    let post = pre.update(pick, pre[pre.len() - 1]).drop_last();
    let j = choose|j: int|
        #![trigger pre[j]]
        0 <= j < pre.len() && pre[j].position@ == p && pre[j].axis == ax;
    if j < pre.len() - 1 && j != pick {
        assert(post[j] == pre[j]);
    } else {
        assert(j == pre.len() - 1);
        assert(pick < pre.len() - 1);
        assert(post[pick] == pre[pre.len() - 1]);
    }
}

/// A wall in one frontier is in another whose walls include them all.
proof fn lemma_in_frontier_mono(pre: Seq<Wall>, post: Seq<Wall>, p: Seq<usize>, ax: int)
    requires
        in_frontier(pre, p, ax),
        forall|j: int|
            0 <= j < pre.len() ==> in_frontier(post, (#[trigger] pre[j]).position@, pre[j].axis as int),
    ensures
        in_frontier(post, p, ax),
{
    let j = choose|j: int|
        #![trigger pre[j]]
        0 <= j < pre.len() && pre[j].position@ == p && pre[j].axis == ax;
    assert(in_frontier(post, pre[j].position@, pre[j].axis as int));
}

/// On a toroidal lattice, a set of cells that contains an anchor cell and
/// is closed under single steps contains every cell.
proof fn lemma_closure_covers(
    dims: Seq<usize>,
    visited: Seq<bool>,
    anchor: Seq<usize>,
    target: Seq<usize>,
)
    requires
        valid_dims(dims),
        valid_pos(dims, anchor),
        valid_pos(dims, target),
        visited.len() == cell_count(dims),
        visited[flatten_pos(dims, anchor)],
        forall|p: Seq<usize>, ax: int, s: bool|
            #![trigger step(dims, p, ax, s)]
            valid_pos(dims, p) && 0 <= ax < dims.len() && visited[flatten_pos(dims, p)]
                ==> visited[flatten_pos(dims, step(dims, p, ax, s))],
    ensures
        visited[flatten_pos(dims, target)],
    decreases distance(dims, anchor, target),
{
    lemma_distance_prefix_bound(dims, anchor, target, dims.len() as int);
    if anchor == target {
    } else {
        assert(exists|i: int| 0 <= i < dims.len() && anchor[i] != target[i]) by {
            assert(!(anchor =~= target));
        }
        let i = choose|i: int| 0 <= i < dims.len() && anchor[i] != target[i];
        lemma_step_toward(dims, anchor, target, i);
        let next = step(dims, anchor, i, dir_toward(dims, anchor, target, i));
        assert(visited[flatten_pos(dims, next)]);
        lemma_distance_prefix_bound(dims, next, target, dims.len() as int);
        assert(distance(dims, next, target) == distance(dims, anchor, target) - 1);
        lemma_closure_covers(dims, visited, next, target);
    }
}

/// Cells `a` and `b` of the lattice `dims` are adjacent and the wall of
/// `walls` between them is open.
pub open spec fn open_between_in(
    dims: Seq<usize>,
    walls: Seq<bool>,
    a: Seq<usize>,
    b: Seq<usize>,
) -> bool {
    exists|axis: int|
        0 <= axis < dims.len() && ((b == step(dims, a, axis, true) && !walls[wall_index(
            dims,
            a,
            axis,
        )]) || (b == step(dims, a, axis, false) && !walls[wall_index(dims, b, axis)]))
}

/// `path` is a walk from `a` to `b` over the lattice `dims` that only
/// crosses walls open in `walls`.
pub open spec fn connects_in(
    dims: Seq<usize>,
    walls: Seq<bool>,
    a: Seq<usize>,
    b: Seq<usize>,
    path: Seq<Seq<usize>>,
) -> bool {
    &&& path.len() >= 1
    &&& path[0] == a
    &&& path[path.len() - 1] == b
    &&& forall|i: int| 0 <= i < path.len() ==> valid_pos(dims, #[trigger] path[i])
    &&& forall|i: int|
        0 <= i < path.len() - 1 ==> open_between_in(dims, walls, #[trigger] path[i], path[i + 1])
}

/// Opening further walls keeps every existing walk intact.
proof fn lemma_connects_monotone(
    dims: Seq<usize>,
    walls1: Seq<bool>,
    walls2: Seq<bool>,
    a: Seq<usize>,
    b: Seq<usize>,
    path: Seq<Seq<usize>>,
)
    requires
        forall|w: int| 0 <= w < walls1.len() && !walls1[w] ==> !(#[trigger] walls2[w]),
        walls2.len() == walls1.len(),
        valid_dims(dims),
        walls1.len() == wall_count(dims),
        connects_in(dims, walls1, a, b, path),
    ensures
        connects_in(dims, walls2, a, b, path),
{
    assert forall|i: int| 0 <= i < path.len() - 1 implies open_between_in(
        dims,
        walls2,
        #[trigger] path[i],
        path[i + 1],
    ) by {
        let axis = choose|axis: int|
            0 <= axis < dims.len() && ((path[i + 1] == step(dims, path[i], axis, true)
                && !walls1[wall_index(dims, path[i], axis)]) || (path[i + 1] == step(
                dims,
                path[i],
                axis,
                false,
            ) && !walls1[wall_index(dims, path[i + 1], axis)]));
        if path[i + 1] == step(dims, path[i], axis, true) && !walls1[wall_index(
            dims,
            path[i],
            axis,
        )] {
            lemma_wall_index_bijection(dims, path[i], axis);
        } else {
            lemma_wall_index_bijection(dims, path[i + 1], axis);
        }
    }
}

/// A walk extends by one cell across an open wall.
proof fn lemma_connects_extend(
    dims: Seq<usize>,
    walls: Seq<bool>,
    a: Seq<usize>,
    b: Seq<usize>,
    c: Seq<usize>,
    path: Seq<Seq<usize>>,
)
    requires
        connects_in(dims, walls, a, b, path),
        open_between_in(dims, walls, b, c),
        valid_pos(dims, c),
    ensures
        connects_in(dims, walls, a, c, path.push(c)),
{
    let longer = path.push(c);
    assert forall|i: int| 0 <= i < longer.len() - 1 implies open_between_in(
        dims,
        walls,
        #[trigger] longer[i],
        longer[i + 1],
    ) by {
        if i < path.len() - 1 {
            assert(longer[i] == path[i]);
            assert(longer[i + 1] == path[i + 1]);
        } else {
            assert(longer[i] == path[path.len() - 1]);
            assert(longer[i + 1] == c);
        }
    }
    assert forall|i: int| 0 <= i < longer.len() implies valid_pos(dims, #[trigger] longer[i]) by {
        if i < path.len() {
            assert(longer[i] == path[i]);
        } else {
            assert(longer[i] == c);
        }
    }
}

/// A set of cells that contains the head of an open-walled walk and is
/// closed under steps across open walls also contains the walk's tail.
proof fn lemma_no_escape(
    dims: Seq<usize>,
    walls: Seq<bool>,
    visited: Seq<bool>,
    a: Seq<usize>,
    b: Seq<usize>,
    path: Seq<Seq<usize>>,
)
    requires
        valid_dims(dims),
        connects_in(dims, walls, a, b, path),
        visited[flatten_pos(dims, a)],
        forall|p: Seq<usize>, ax: int, sgn: bool|
            #![trigger step(dims, p, ax, sgn)]
            valid_pos(dims, p) && 0 <= ax < dims.len() && visited[flatten_pos(dims, p)]
                && open_between_in(dims, walls, p, step(dims, p, ax, sgn)) ==> visited[flatten_pos(
                dims,
                step(dims, p, ax, sgn),
            )],
    ensures
        visited[flatten_pos(dims, b)],
    decreases path.len(),
{
    if path.len() > 1 {
        let nxt = path[1];
        assert(open_between_in(dims, walls, path[0], path[1]));
        let axis = choose|axis: int|
            0 <= axis < dims.len() && ((nxt == step(dims, a, axis, true) && !walls[wall_index(
                dims,
                a,
                axis,
            )]) || (nxt == step(dims, a, axis, false) && !walls[wall_index(dims, nxt, axis)]));
        let sgn = nxt == step(dims, a, axis, true) && !walls[wall_index(dims, a, axis)];
        assert(nxt == step(dims, a, axis, sgn));
        assert(open_between_in(dims, walls, a, step(dims, a, axis, sgn)));
        assert(visited[flatten_pos(dims, nxt)]);
        let sub = path.subrange(1, path.len() as int);
        assert forall|i: int| 0 <= i < sub.len() implies valid_pos(dims, #[trigger] sub[i]) by {
            assert(sub[i] == path[i + 1]);
        }
        assert forall|i: int| 0 <= i < sub.len() - 1 implies open_between_in(
            dims,
            walls,
            #[trigger] sub[i],
            sub[i + 1],
        ) by {
            assert(sub[i] == path[i + 1]);
            assert(sub[i + 1] == path[i + 2]);
            assert(open_between_in(dims, walls, path[i + 1], path[i + 1 + 1]));
        }
        lemma_no_escape(dims, walls, visited, nxt, b, sub);
    }
}

/// An open-walled walk cannot close the toroidal distance to its last
/// cell faster than one per step: the heuristic never overestimates.
proof fn lemma_path_admissible(dims: Seq<usize>, walls: Seq<bool>, q: Seq<Seq<usize>>)
    requires
        valid_dims(dims),
        q.len() >= 1,
        forall|i: int| 0 <= i < q.len() ==> valid_pos(dims, #[trigger] q[i]),
        forall|i: int|
            0 <= i < q.len() - 1 ==> open_between_in(dims, walls, #[trigger] q[i], q[i + 1]),
    ensures
        distance(dims, q[0], q[q.len() - 1]) <= q.len() - 1,
    decreases q.len(),
{
    let last = q[q.len() - 1];
    if q.len() == 1 {
        lemma_distance_refl(dims, q[0], dims.len() as int);
    } else {
        let nxt = q[1];
        assert(open_between_in(dims, walls, q[0], q[1]));
        let axis = choose|axis: int|
            0 <= axis < dims.len() && ((nxt == step(dims, q[0], axis, true) && !walls[wall_index(
                dims,
                q[0],
                axis,
            )]) || (nxt == step(dims, q[0], axis, false) && !walls[wall_index(dims, nxt, axis)]));
        let sgn = nxt == step(dims, q[0], axis, true) && !walls[wall_index(dims, q[0], axis)];
        assert(nxt == step(dims, q[0], axis, sgn));
        lemma_step_distance_drop(dims, q[0], last, axis, sgn);
        let sub = q.subrange(1, q.len() as int);
        assert forall|i: int| 0 <= i < sub.len() implies valid_pos(dims, #[trigger] sub[i]) by {
            assert(sub[i] == q[i + 1]);
        }
        assert forall|i: int| 0 <= i < sub.len() - 1 implies open_between_in(
            dims,
            walls,
            #[trigger] sub[i],
            sub[i + 1],
        ) by {
            assert(sub[i] == q[i + 1]);
            assert(sub[i + 1] == q[i + 2]);
            assert(open_between_in(dims, walls, q[i + 1], q[i + 1 + 1]));
        }
        lemma_path_admissible(dims, walls, sub);
        assert(sub[0] == nxt && sub[sub.len() - 1] == last);
    }
}

/// Walking an open path that starts inside the visited set and ends
/// outside it, there is a first cell outside; its predecessor is inside,
/// with a settled cost bounded by its position on the path.
proof fn lemma_first_unvisited(
    dims: Seq<usize>,
    walls: Seq<bool>,
    visited: Seq<bool>,
    gfin: Map<int, int>,
    q: Seq<Seq<usize>>,
    base: int,
)
    requires
        valid_dims(dims),
        q.len() >= 1,
        forall|i: int| 0 <= i < q.len() ==> valid_pos(dims, #[trigger] q[i]),
        forall|i: int|
            0 <= i < q.len() - 1 ==> open_between_in(dims, walls, #[trigger] q[i], q[i + 1]),
        visited[flatten_pos(dims, q[0])],
        gfin.contains_key(flatten_pos(dims, q[0])),
        gfin[flatten_pos(dims, q[0])] <= base,
        !visited[flatten_pos(dims, q[q.len() - 1])],
        forall|p: Seq<usize>, ax: int, sgn: bool|
            #![trigger step(dims, p, ax, sgn)]
            valid_pos(dims, p) && 0 <= ax < dims.len() && visited[flatten_pos(dims, p)]
                && open_between_in(dims, walls, p, step(dims, p, ax, sgn)) && visited[flatten_pos(
                dims,
                step(dims, p, ax, sgn),
            )] && gfin.contains_key(flatten_pos(dims, p)) ==> gfin.contains_key(flatten_pos(
                dims,
                step(dims, p, ax, sgn),
            )) && gfin[flatten_pos(dims, step(dims, p, ax, sgn))] <= gfin[flatten_pos(dims, p)]
                + 1,
    ensures
        exists|i: int|
            1 <= i < q.len() && !visited[flatten_pos(dims, #[trigger] q[i])] && visited[
            flatten_pos(dims, q[i - 1])] && gfin.contains_key(flatten_pos(dims, q[i - 1]))
                && gfin[flatten_pos(dims, q[i - 1])] <= base + i - 1 && open_between_in(
                dims,
                walls,
                q[i - 1],
                q[i],
            ),
    decreases q.len(),
{
    assert(q.len() >= 2);
    assert(open_between_in(dims, walls, q[0], q[1]));
    if !visited[flatten_pos(dims, q[1])] {
        assert(1 <= 1 < q.len() && !visited[flatten_pos(dims, q[1])] && visited[flatten_pos(
            dims,
            q[0],
        )] && gfin.contains_key(flatten_pos(dims, q[0])) && gfin[flatten_pos(dims, q[0])] <= base
            + 1 - 1 && open_between_in(dims, walls, q[0], q[1]));
    } else {
        let nxt = q[1];
        let axis = choose|axis: int|
            0 <= axis < dims.len() && ((nxt == step(dims, q[0], axis, true) && !walls[wall_index(
                dims,
                q[0],
                axis,
            )]) || (nxt == step(dims, q[0], axis, false) && !walls[wall_index(dims, nxt, axis)]));
        let sgn = nxt == step(dims, q[0], axis, true) && !walls[wall_index(dims, q[0], axis)];
        assert(nxt == step(dims, q[0], axis, sgn));
        assert(open_between_in(dims, walls, q[0], step(dims, q[0], axis, sgn)));
        assert(gfin.contains_key(flatten_pos(dims, nxt)) && gfin[flatten_pos(dims, nxt)] <= gfin[
            flatten_pos(dims, q[0])] + 1);
        let sub = q.subrange(1, q.len() as int);
        assert forall|i: int| 0 <= i < sub.len() implies valid_pos(dims, #[trigger] sub[i]) by {
            assert(sub[i] == q[i + 1]);
        }
        assert forall|i: int| 0 <= i < sub.len() - 1 implies open_between_in(
            dims,
            walls,
            #[trigger] sub[i],
            sub[i + 1],
        ) by {
            assert(sub[i] == q[i + 1]);
            assert(sub[i + 1] == q[i + 2]);
            assert(open_between_in(dims, walls, q[i + 1], q[i + 1 + 1]));
        }
        lemma_first_unvisited(dims, walls, visited, gfin, sub, base + 1);
        let i_sub = choose|i: int|
            1 <= i < sub.len() && !visited[flatten_pos(dims, #[trigger] sub[i])] && visited[
            flatten_pos(dims, sub[i - 1])] && gfin.contains_key(flatten_pos(dims, sub[i - 1]))
                && gfin[flatten_pos(dims, sub[i - 1])] <= (base + 1) + i - 1 && open_between_in(
                dims,
                walls,
                sub[i - 1],
                sub[i],
            );
        let i = i_sub + 1;
        assert(sub[i_sub] == q[i] && sub[i_sub - 1] == q[i - 1]);
        assert(1 <= i < q.len() && !visited[flatten_pos(dims, q[i])] && visited[flatten_pos(
            dims,
            q[i - 1],
        )] && gfin.contains_key(flatten_pos(dims, q[i - 1])) && gfin[flatten_pos(dims, q[i - 1])]
            <= base + i - 1 && open_between_in(dims, walls, q[i - 1], q[i]));
    }
}

/// Whether two position vectors hold the same coordinates.
fn eq_pos(a: &Vec<usize>, b: &Vec<usize>) -> (r: bool)
    ensures
        r == (a@ == b@),
{
    if a.len() != b.len() {
        return false;
    }
    let n = a.len();
    let mut i: usize = 0;
    while i < n
        invariant
            n == a@.len(),
            n == b@.len(),
            i <= n,
            forall|j: int| 0 <= j < i ==> a@[j] == b@[j],
        decreases n - i,
    {
        if a[i] != b[i] {
            return false;
        }
        i = i + 1;
    }
    proof {
        assert(a@ =~= b@);
    }
    true
}

/// A position vector's deep view is its view.
proof fn lemma_pos_deep_view(v: Vec<usize>)
    ensures
        v.deep_view() == v@,
{
    assert(v.deep_view() =~= v@);
}

/// Returned by [`Maze::solve`] when no open-wall path joins the start
/// cell to the end cell.
#[derive(Debug, PartialEq, Eq)]
pub struct NoPathFound;

/// A search node of the solver: a cell, the cost of the path that reached
/// it, and that cost plus the heuristic estimate to the end.
struct Node {
    position: Vec<usize>,
    index: usize,
    g_score: usize,
    f_score: usize,
}

impl BinaryHashHeapItem for Node {
    closed spec fn spec_key(&self) -> usize {
        self.index
    }

    closed spec fn spec_value(&self) -> usize {
        self.f_score
    }

    fn key(&self) -> (k: usize) {
        self.index
    }

    fn value(&self) -> (v: usize) {
        self.f_score
    }
}

/// A wall of the maze: the boundary between `position` and its neighbour
/// in the positive direction along `axis`.
pub struct Wall {
    pub position: Vec<usize>,
    pub axis: usize,
}

impl Wall {
    /// The wall lies on the lattice described by `dims`.
    pub open spec fn wf(&self, dims: Seq<usize>) -> bool {
        valid_pos(dims, self.position@) && self.axis < dims.len()
    }

    /// The walls touching the cell at `position`: for every axis, the wall
    /// at the cell itself and the wall at its negative neighbour.
    pub fn from_cell(shape: &Vec<usize>, position: &Vec<usize>) -> (r: Vec<Wall>)
        requires
            valid_dims(shape@),
            valid_pos(shape@, position@),
        ensures
            r@.len() == 2 * shape@.len(),
            forall|a: int|
                0 <= a < shape@.len() ==> (#[trigger] r@[2 * a]).position@ == position@
                    && r@[2 * a].axis == a && r@[2 * a + 1].position@ == step(
                    shape@,
                    position@,
                    a,
                    false,
                ) && r@[2 * a + 1].axis == a,
            forall|j: int| 0 <= j < r@.len() ==> (#[trigger] r@[j]).wf(shape@),
    {
        let mut walls: Vec<Wall> = Vec::new();
        let d = shape.len();
        let mut axis: usize = 0;
        while axis < d
            invariant
                valid_dims(shape@),
                valid_pos(shape@, position@),
                d == shape@.len(),
                axis <= d,
                walls@.len() == 2 * axis,
                forall|a: int|
                    0 <= a < axis ==> (#[trigger] walls@[2 * a]).position@ == position@
                        && walls@[2 * a].axis == a && walls@[2 * a + 1].position@ == step(
                        shape@,
                        position@,
                        a,
                        false,
                    ) && walls@[2 * a + 1].axis == a,
                forall|j: int| 0 <= j < walls@.len() ==> (#[trigger] walls@[j]).wf(shape@),
            decreases d - axis,
        {
            let ghost prev = walls@;
            let first = Wall { position: copy_pos(position), axis };
            let ghost first_snapshot = first;
            walls.push(first);
            let mut decremented = copy_pos(position);
            if decremented[axis] != 0 {
                let v = decremented[axis];
                decremented[axis] = v - 1;
            } else {
                decremented[axis] = shape[axis] - 1;
            }
            proof {
                assert(decremented@ =~= step(shape@, position@, axis as int, false));
                lemma_step_valid(shape@, position@, axis as int, false);
            }
            let second = Wall { position: decremented, axis };
            let ghost second_snapshot = second;
            walls.push(second);
            proof {
                assert forall|a: int|
                    0 <= a < axis + 1 implies (#[trigger] walls@[2 * a]).position@ == position@
                        && walls@[2 * a].axis == a && walls@[2 * a + 1].position@ == step(
                        shape@,
                        position@,
                        a,
                        false,
                    ) && walls@[2 * a + 1].axis == a by {
                    if a < axis as int {
                        assert(walls@[2 * a] == prev[2 * a]);
                        assert(walls@[2 * a + 1] == prev[2 * a + 1]);
                    } else {
                        assert(walls@[2 * a] == first_snapshot);
                        assert(walls@[2 * a + 1] == second_snapshot);
                    }
                }
            }
            axis = axis + 1;
        }
        walls
    }

    /// The two cells meeting at this wall: its own position and the
    /// positive neighbour along its axis.
    pub fn get_neighbour_cells(&self, shape: &Vec<usize>) -> (r: (Vec<usize>, Vec<usize>))
        requires
            valid_dims(shape@),
            self.wf(shape@),
        ensures
            r.0@ == self.position@,
            r.1@ == step(shape@, self.position@, self.axis as int, true),
            valid_pos(shape@, r.1@),
    {
        let first = copy_pos(&self.position);
        let mut second = copy_pos(&self.position);
        if second[self.axis] != shape[self.axis] - 1 {
            let v = second[self.axis];
            second[self.axis] = v + 1;
        } else {
            second[self.axis] = 0;
        }
        proof {
            assert(second@ =~= step(shape@, self.position@, self.axis as int, true));
            lemma_step_valid(shape@, self.position@, self.axis as int, true);
        }
        (first, second)
    }
}

/// A maze on an N-dimensional toroidal lattice: a wall bitmap, a start and
/// an end cell, the explorer's position and the two axes shown on screen.
pub struct Maze {
    dimensions: Vec<usize>,
    cells: usize,
    start: Vec<usize>,
    end: Vec<usize>,
    position: Vec<usize>,
    axes: (usize, usize),
    walls: Vec<bool>,
}

impl Maze {
    /// The dimension vector.
    pub closed spec fn spec_dims(&self) -> Seq<usize> {
        self.dimensions@
    }

    /// The start cell.
    pub closed spec fn spec_start(&self) -> Seq<usize> {
        self.start@
    }

    /// The end cell.
    pub closed spec fn spec_end(&self) -> Seq<usize> {
        self.end@
    }

    /// The explorer's current position.
    pub closed spec fn spec_position(&self) -> Seq<usize> {
        self.position@
    }

    /// The two axes currently rendered (vertical, horizontal).
    pub closed spec fn spec_axes(&self) -> (usize, usize) {
        self.axes
    }

    /// The wall bitmap, indexed by [`wall_index`]; true means present.
    pub closed spec fn spec_walls(&self) -> Seq<bool> {
        self.walls@
    }

    /// Whether the wall at `pos` along `axis` is present.
    pub open spec fn spec_wall(&self, pos: Seq<usize>, axis: int) -> bool {
        self.spec_walls()[wall_index(self.spec_dims(), pos, axis)]
    }

    /// The invariant every operation preserves: the dimension vector is
    /// valid, the wall bitmap covers exactly the lattice's walls, and the
    /// three stored cells and the two view axes lie on the lattice.
    pub closed spec fn wf(&self) -> bool {
        &&& valid_dims(self.dimensions@)
        &&& self.cells == cell_count(self.dimensions@)
        &&& self.walls@.len() == wall_count(self.dimensions@)
        &&& valid_pos(self.dimensions@, self.start@)
        &&& valid_pos(self.dimensions@, self.end@)
        &&& valid_pos(self.dimensions@, self.position@)
        &&& self.axes.0 < self.dimensions@.len()
        &&& self.axes.1 < self.dimensions@.len()
    }

    /// What well-formedness guarantees about the observable state: the
    /// dimension vector is valid, the three stored cells lie on the
    /// lattice, and the wall bitmap has exactly one entry per wall.
    pub proof fn lemma_wf_properties(&self)
        requires
            self.wf(),
        ensures
            valid_dims(self.spec_dims()),
            valid_pos(self.spec_dims(), self.spec_start()),
            valid_pos(self.spec_dims(), self.spec_end()),
            valid_pos(self.spec_dims(), self.spec_position()),
            self.spec_axes().0 < self.spec_dims().len(),
            self.spec_axes().1 < self.spec_dims().len(),
            self.spec_walls().len() == wall_count(self.spec_dims()),
    {
    }

    /// Fields other than the walls, the stored cells and the explorer's
    /// position agree.
    pub open spec fn same_lattice(self, other: Maze) -> bool {
        self.spec_dims() == other.spec_dims() && self.spec_axes() == other.spec_axes()
    }

    /// Create a maze with the given dimensions, every wall present, and
    /// start, end and position all at the origin.  Rejects a dimension
    /// vector that is empty or has a zero entry, and one whose wall count
    /// does not fit the machine word.
    pub fn new(dimensions: Vec<usize>) -> (result: Option<Maze>)
        ensures
            match result {
                Some(m) => {
                    &&& m.wf()
                    &&& valid_dims(dimensions@)
                    &&& wall_count(dimensions@) <= usize::MAX
                    &&& m.spec_dims() == dimensions@
                    &&& m.spec_start() == Seq::new(dimensions@.len(), |i: int| 0usize)
                    &&& m.spec_end() == Seq::new(dimensions@.len(), |i: int| 0usize)
                    &&& m.spec_position() == Seq::new(dimensions@.len(), |i: int| 0usize)
                    &&& m.spec_walls() == Seq::new(
                        wall_count(dimensions@) as nat,
                        |i: int| true,
                    )
                    &&& m.spec_axes() == (
                        0usize,
                        if dimensions@.len() >= 2 {
                            1usize
                        } else {
                            0usize
                        },
                    )
                },
                None => !valid_dims(dimensions@) || wall_count(dimensions@) > usize::MAX,
            },
    {
        let d = dimensions.len();
        if d == 0 {
            return None;
        }
        let mut cells: usize = 1;
        let mut i: usize = 0;
        proof {
            assert(dimensions@.take(0) =~= Seq::<usize>::empty());
        }
        while i < d
            invariant
                i <= d,
                d == dimensions@.len(),
                forall|j: int| 0 <= j < i ==> (#[trigger] dimensions@[j]) >= 1,
                cells == cell_count(dimensions@.take(i as int)),
                cells >= 1,
            decreases d - i,
        {
            let dm = dimensions[i];
            if dm == 0 {
                return None;
            }
            proof {
                assert(dimensions@.take(i + 1) =~= dimensions@.take(i as int).push(
                    dimensions@[i as int],
                ));
                lemma_cell_count_snoc(dimensions@.take(i as int), dimensions@[i as int]);
                lemma_mul_within(cells as int, dm as int, usize::MAX as int);
            }
            if cells > usize::MAX / dm {
                // The cell count alone exceeds the machine word, so the
                // wall count cannot fit either (or a later axis is zero
                // and the vector is invalid anyway).
                proof {
                    if valid_dims(dimensions@) {
                        lemma_cell_count_take(dimensions@, i + 1);
                        assert(wall_count(dimensions@) >= cell_count(dimensions@))
                            by (nonlinear_arith)
                            requires
                                dimensions@.len() >= 1,
                                cell_count(dimensions@) >= 0,
                                wall_count(dimensions@) == cell_count(dimensions@)
                                    * dimensions@.len(),
                        ;
                    }
                }
                return None;
            }
            proof {
                assert(cells * dm >= 1) by (nonlinear_arith)
                    requires
                        cells >= 1,
                        dm >= 1,
                ;
            }
            cells = cells * dm;
            i = i + 1;
        }
        proof {
            assert(dimensions@.take(d as int) =~= dimensions@);
            lemma_mul_within(cells as int, d as int, usize::MAX as int);
        }
        if cells > usize::MAX / d {
            return None;
        }
        let wall_total = cells * d;
        let start = vec![0usize; d];
        let end = vec![0usize; d];
        let position = vec![0usize; d];
        let walls = vec![true; wall_total];
        let axes = (0usize, if d >= 2 { 1usize } else { 0usize });
        let m = Maze { dimensions, cells, start, end, position, axes, walls };
        proof {
            assert forall|j: int| 0 <= j < d implies m.start@[j] == 0usize by {
                assert(cloned(0usize, m.start@[j]));
            }
            assert forall|j: int| 0 <= j < d implies m.end@[j] == 0usize by {
                assert(cloned(0usize, m.end@[j]));
            }
            assert forall|j: int| 0 <= j < d implies m.position@[j] == 0usize by {
                assert(cloned(0usize, m.position@[j]));
            }
            assert forall|j: int| 0 <= j < wall_total implies m.walls@[j] == true by {
                assert(cloned(true, m.walls@[j]));
            }
            assert(m.start@ =~= Seq::new(m.dimensions@.len(), |i: int| 0usize));
            assert(m.end@ =~= Seq::new(m.dimensions@.len(), |i: int| 0usize));
            assert(m.position@ =~= Seq::new(m.dimensions@.len(), |i: int| 0usize));
            assert(m.walls@ =~= Seq::new(wall_count(m.dimensions@) as nat, |i: int| true));
        }
        Some(m)
    }

    /// The flat index of the cell at `pos` under the mixed-radix encoding.
    fn flatten_index(&self, pos: &Vec<usize>) -> (r: usize)
        requires
            self.wf(),
            valid_pos(self.spec_dims(), pos@),
        ensures
            r == flatten_pos(self.spec_dims(), pos@),
            r < cell_count(self.spec_dims()),
    {
        let ghost dims = self.dimensions@;
        let d = self.dimensions.len();
        let mut index: usize = 0;
        let mut stride: usize = 1;
        let mut i: usize = 0;
        proof {
            assert(dims.take(0) =~= Seq::<usize>::empty());
            assert(pos@.take(0) =~= Seq::<usize>::empty());
        }
        while i < d
            invariant
                self.wf(),
                dims == self.dimensions@,
                valid_pos(dims, pos@),
                d == dims.len(),
                i <= d,
                index == flatten_pos(dims.take(i as int), pos@.take(i as int)),
                stride == cell_count(dims.take(i as int)),
            decreases d - i,
        {
            proof {
                assert(dims.take(i + 1) =~= dims.take(i as int).push(dims[i as int]));
                assert(pos@.take(i + 1) =~= pos@.take(i as int).push(pos@[i as int]));
                lemma_flatten_snoc(
                    dims.take(i as int),
                    pos@.take(i as int),
                    dims[i as int],
                    pos@[i as int],
                );
                lemma_cell_count_snoc(dims.take(i as int), dims[i as int]);
                lemma_cell_count_take(dims, i + 1);
                assert(valid_pos(dims.take(i + 1), pos@.take(i + 1)));
                lemma_flatten_pos_bound(dims.take(i + 1), pos@.take(i + 1));
            }
            index = index + stride * pos[i];
            stride = stride * self.dimensions[i];
            i = i + 1;
        }
        proof {
            assert(dims.take(d as int) =~= dims);
            assert(pos@.take(d as int) =~= pos@);
            lemma_flatten_pos_bound(dims, pos@);
        }
        index
    }

    /// The flat index of `wall` in the wall bitmap.
    pub fn compute_wall_index(&self, wall: &Wall) -> (r: usize)
        requires
            self.wf(),
            wall.wf(self.spec_dims()),
        ensures
            r == wall_index(self.spec_dims(), wall.position@, wall.axis as int),
            r < self.spec_walls().len(),
    {
        let base = self.flatten_index(&wall.position);
        let total = self.walls.len();
        proof {
            lemma_wall_index_bijection(self.dimensions@, wall.position@, wall.axis as int);
            assert(cell_count(self.dimensions@) * (wall.axis as int) >= 0) by (nonlinear_arith)
                requires
                    cell_count(self.dimensions@) >= 0,
                    wall.axis >= 0,
            ;
            assert(total == self.walls@.len());
        }
        base + self.cells * wall.axis
    }

    /// Whether `wall` is present.
    pub fn get_wall(&self, wall: &Wall) -> (r: bool)
        requires
            self.wf(),
            wall.wf(self.spec_dims()),
        ensures
            r == self.spec_wall(wall.position@, wall.axis as int),
    {
        let index = self.compute_wall_index(wall);
        self.walls[index]
    }

    /// Set or clear `wall`.
    pub fn set_wall(&mut self, wall: &Wall, value: bool)
        requires
            old(self).wf(),
            wall.wf(old(self).spec_dims()),
        ensures
            final(self).wf(),
            final(self).same_lattice(*old(self)),
            final(self).spec_start() == old(self).spec_start(),
            final(self).spec_end() == old(self).spec_end(),
            final(self).spec_position() == old(self).spec_position(),
            final(self).spec_walls() == old(self).spec_walls().update(
                wall_index(old(self).spec_dims(), wall.position@, wall.axis as int),
                value,
            ),
    {
        let index = self.compute_wall_index(wall);
        self.walls[index] = value;
    }

    /// Make every wall present again.
    pub fn reset_walls(&mut self)
        requires
            old(self).wf(),
        ensures
            final(self).wf(),
            final(self).same_lattice(*old(self)),
            final(self).spec_start() == old(self).spec_start(),
            final(self).spec_end() == old(self).spec_end(),
            final(self).spec_position() == old(self).spec_position(),
            final(self).spec_walls() == Seq::new(old(self).spec_walls().len(), |i: int| true),
    {
        let total = self.walls.len();
        let fresh = vec![true; total];
        proof {
            assert forall|j: int| 0 <= j < total implies fresh@[j] == true by {
                assert(cloned(true, fresh@[j]));
            }
            assert(fresh@ =~= Seq::new(old(self).spec_walls().len(), |i: int| true));
        }
        self.walls = fresh;
    }

    /// The dimension vector.
    pub fn get_dimensions(&self) -> (r: &Vec<usize>)
        ensures
            r@ == self.spec_dims(),
    {
        &self.dimensions
    }

    /// The start cell.
    pub fn get_start(&self) -> (r: &Vec<usize>)
        ensures
            r@ == self.spec_start(),
    {
        &self.start
    }

    /// The end cell.
    pub fn get_end(&self) -> (r: &Vec<usize>)
        ensures
            r@ == self.spec_end(),
    {
        &self.end
    }

    /// The explorer's current position.
    pub fn get_position(&self) -> (r: &Vec<usize>)
        ensures
            r@ == self.spec_position(),
    {
        &self.position
    }

    /// The two axes currently rendered (vertical, horizontal).
    pub fn get_axes(&self) -> (r: (usize, usize))
        ensures
            r == self.spec_axes(),
    {
        self.axes
    }

    /// Whether `pos` denotes a cell of this maze.
    pub fn check_position(&self, pos: &Vec<usize>) -> (r: bool)
        requires
            self.wf(),
        ensures
            r == valid_pos(self.spec_dims(), pos@),
    {
        let d = self.dimensions.len();
        if pos.len() != d {
            return false;
        }
        let mut i: usize = 0;
        while i < d
            invariant
                self.wf(),
                d == self.spec_dims().len(),
                pos@.len() == d,
                i <= d,
                forall|j: int| 0 <= j < i ==> (#[trigger] pos@[j]) < self.spec_dims()[j],
            decreases d - i,
        {
            if pos[i] >= self.dimensions[i] {
                return false;
            }
            i = i + 1;
        }
        true
    }

    /// Travel one cell along `axis`, in the positive direction when `sign`
    /// holds and the negative one otherwise, wrapping around the torus.
    pub fn traverse_inplace(&self, position: &mut Vec<usize>, axis: usize, sign: bool)
        requires
            self.wf(),
            valid_pos(self.spec_dims(), old(position)@),
            axis < self.spec_dims().len(),
        ensures
            final(position)@ == step(self.spec_dims(), old(position)@, axis as int, sign),
            valid_pos(self.spec_dims(), final(position)@),
    {
        if sign {
            if position[axis] != self.dimensions[axis] - 1 {
                let v = position[axis];
                position[axis] = v + 1;
            } else {
                position[axis] = 0;
            }
        } else {
            if position[axis] != 0 {
                let v = position[axis];
                position[axis] = v - 1;
            } else {
                position[axis] = self.dimensions[axis] - 1;
            }
        }
        proof {
            assert(position@ =~= step(self.spec_dims(), old(position)@, axis as int, sign));
            lemma_step_valid(self.spec_dims(), old(position)@, axis as int, sign);
        }
    }

    /// Like [`Self::traverse_inplace`], but returning the new position.
    pub fn traverse(&self, position: &Vec<usize>, axis: usize, sign: bool) -> (r: Vec<usize>)
        requires
            self.wf(),
            valid_pos(self.spec_dims(), position@),
            axis < self.spec_dims().len(),
        ensures
            r@ == step(self.spec_dims(), position@, axis as int, sign),
            valid_pos(self.spec_dims(), r@),
    {
        let mut result = copy_pos(position);
        self.traverse_inplace(&mut result, axis, sign);
        result
    }

    /// The walls around the cell at `position`, each together with the
    /// cell on its other side: for every axis the negative neighbour
    /// first, then the positive one.
    pub fn neighbours(&self, position: &Vec<usize>) -> (r: Vec<(Wall, Vec<usize>)>)
        requires
            self.wf(),
            valid_pos(self.spec_dims(), position@),
        ensures
            r@.len() == 2 * self.spec_dims().len(),
            forall|a: int|
                0 <= a < self.spec_dims().len() ==> {
                    &&& (#[trigger] r@[2 * a]).1@ == step(self.spec_dims(), position@, a, false)
                    &&& r@[2 * a].0.axis == a
                    &&& r@[2 * a].0.position@ == r@[2 * a].1@
                    &&& r@[2 * a + 1].1@ == step(self.spec_dims(), position@, a, true)
                    &&& r@[2 * a + 1].0.axis == a
                    &&& r@[2 * a + 1].0.position@ == position@
                },
            forall|j: int|
                0 <= j < r@.len() ==> (#[trigger] r@[j]).0.wf(self.spec_dims()) && valid_pos(
                    self.spec_dims(),
                    r@[j].1@,
                ),
    {
        let mut result: Vec<(Wall, Vec<usize>)> = Vec::new();
        let d = self.dimensions.len();
        let mut axis: usize = 0;
        while axis < d
            invariant
                self.wf(),
                valid_pos(self.spec_dims(), position@),
                d == self.spec_dims().len(),
                axis <= d,
                result@.len() == 2 * axis,
                forall|a: int|
                    0 <= a < axis ==> {
                        &&& (#[trigger] result@[2 * a]).1@ == step(
                            self.spec_dims(),
                            position@,
                            a,
                            false,
                        )
                        &&& result@[2 * a].0.axis == a
                        &&& result@[2 * a].0.position@ == result@[2 * a].1@
                        &&& result@[2 * a + 1].1@ == step(self.spec_dims(), position@, a, true)
                        &&& result@[2 * a + 1].0.axis == a
                        &&& result@[2 * a + 1].0.position@ == position@
                    },
                forall|j: int|
                    0 <= j < result@.len() ==> (#[trigger] result@[j]).0.wf(self.spec_dims())
                        && valid_pos(self.spec_dims(), result@[j].1@),
            decreases d - axis,
        {
            let ghost prev = result@;
            let down = self.traverse(position, axis, false);
            let first = (Wall { position: copy_pos(&down), axis }, down);
            let ghost first_snapshot = first;
            result.push(first);
            let up = self.traverse(position, axis, true);
            let second = (Wall { position: copy_pos(position), axis }, up);
            let ghost second_snapshot = second;
            result.push(second);
            proof {
                assert forall|a: int|
                    0 <= a < axis + 1 implies {
                        &&& (#[trigger] result@[2 * a]).1@ == step(
                            self.spec_dims(),
                            position@,
                            a,
                            false,
                        )
                        &&& result@[2 * a].0.axis == a
                        &&& result@[2 * a].0.position@ == result@[2 * a].1@
                        &&& result@[2 * a + 1].1@ == step(self.spec_dims(), position@, a, true)
                        &&& result@[2 * a + 1].0.axis == a
                        &&& result@[2 * a + 1].0.position@ == position@
                    } by {
                    if a < axis as int {
                        assert(result@[2 * a] == prev[2 * a]);
                        assert(result@[2 * a + 1] == prev[2 * a + 1]);
                    } else {
                        assert(result@[2 * a] == first_snapshot);
                        assert(result@[2 * a + 1] == second_snapshot);
                    }
                }
            }
            axis = axis + 1;
        }
        result
    }

    /// Reset the explorer to the start cell.
    pub fn start(&mut self)
        requires
            old(self).wf(),
        ensures
            final(self).wf(),
            final(self).same_lattice(*old(self)),
            final(self).spec_start() == old(self).spec_start(),
            final(self).spec_end() == old(self).spec_end(),
            final(self).spec_walls() == old(self).spec_walls(),
            final(self).spec_position() == old(self).spec_start(),
    {
        let p = copy_pos(&self.start);
        self.position = p;
    }

    /// Move the start cell; rejected if `pos` is not a cell of this maze.
    pub fn set_start(&mut self, pos: &Vec<usize>) -> (accepted: bool)
        requires
            old(self).wf(),
        ensures
            final(self).wf(),
            final(self).same_lattice(*old(self)),
            final(self).spec_end() == old(self).spec_end(),
            final(self).spec_position() == old(self).spec_position(),
            final(self).spec_walls() == old(self).spec_walls(),
            accepted == valid_pos(old(self).spec_dims(), pos@),
            final(self).spec_start() == (if accepted {
                pos@
            } else {
                old(self).spec_start()
            }),
    {
        if self.check_position(pos) {
            self.start = copy_pos(pos);
            true
        } else {
            false
        }
    }

    /// Move the end cell; rejected if `pos` is not a cell of this maze.
    pub fn set_end(&mut self, pos: &Vec<usize>) -> (accepted: bool)
        requires
            old(self).wf(),
        ensures
            final(self).wf(),
            final(self).same_lattice(*old(self)),
            final(self).spec_start() == old(self).spec_start(),
            final(self).spec_position() == old(self).spec_position(),
            final(self).spec_walls() == old(self).spec_walls(),
            accepted == valid_pos(old(self).spec_dims(), pos@),
            final(self).spec_end() == (if accepted {
                pos@
            } else {
                old(self).spec_end()
            }),
    {
        if self.check_position(pos) {
            self.end = copy_pos(pos);
            true
        } else {
            false
        }
    }

    /// Try to move the explorer one cell along the axis bound to
    /// `view_axis`; the move is rejected if the wall in between is
    /// present.
    pub fn walk(&mut self, view_axis: usize, sign: bool)
        requires
            old(self).wf(),
            view_axis < 2,
        ensures
            final(self).wf(),
            final(self).same_lattice(*old(self)),
            final(self).spec_start() == old(self).spec_start(),
            final(self).spec_end() == old(self).spec_end(),
            final(self).spec_walls() == old(self).spec_walls(),
            ({
                let dims = old(self).spec_dims();
                let axis = (if view_axis == 0 {
                    old(self).spec_axes().0
                } else {
                    old(self).spec_axes().1
                }) as int;
                let cur = old(self).spec_position();
                if sign {
                    if old(self).spec_wall(cur, axis) {
                        final(self).spec_position() == cur
                    } else {
                        final(self).spec_position() == step(dims, cur, axis, true)
                    }
                } else {
                    if old(self).spec_wall(step(dims, cur, axis, false), axis) {
                        final(self).spec_position() == cur
                    } else {
                        final(self).spec_position() == step(dims, cur, axis, false)
                    }
                }
            }),
    {
        let axis = if view_axis == 0 {
            self.axes.0
        } else {
            self.axes.1
        };
        if sign {
            let wall = Wall { position: copy_pos(&self.position), axis };
            if self.get_wall(&wall) {
                return ;
            }
            let mut p = copy_pos(&self.position);
            self.traverse_inplace(&mut p, axis, true);
            self.position = p;
        } else {
            let mut p = copy_pos(&self.position);
            self.traverse_inplace(&mut p, axis, false);
            let wall = Wall { position: copy_pos(&p), axis };
            if !self.get_wall(&wall) {
                self.position = p;
            }
        }
    }

    /// Bind the view slot `view_axis` (vertical or horizontal) to `axis`;
    /// out-of-range arguments leave the binding unchanged.
    pub fn set_view_axis(&mut self, view_axis: usize, axis: usize)
        requires
            old(self).wf(),
        ensures
            final(self).wf(),
            final(self).spec_dims() == old(self).spec_dims(),
            final(self).spec_start() == old(self).spec_start(),
            final(self).spec_end() == old(self).spec_end(),
            final(self).spec_position() == old(self).spec_position(),
            final(self).spec_walls() == old(self).spec_walls(),
            final(self).spec_axes() == (if view_axis == 0 && axis < old(self).spec_dims().len() {
                (axis, old(self).spec_axes().1)
            } else if view_axis == 1 && axis < old(self).spec_dims().len() {
                (old(self).spec_axes().0, axis)
            } else {
                old(self).spec_axes()
            }),
    {
        if view_axis < 2 && axis < self.dimensions.len() {
            if view_axis == 0 {
                self.axes = (axis, self.axes.1);
            } else {
                self.axes = (self.axes.0, axis);
            }
        }
    }

    /// Every wall in `frontier` lies on the lattice and touches at least
    /// one cell already marked in `visited`.
    spec fn frontier_ok(&self, frontier: Seq<Wall>, visited: Seq<bool>) -> bool {
        forall|j: int|
            0 <= j < frontier.len() ==> {
                let w = #[trigger] frontier[j];
                &&& w.wf(self.spec_dims())
                &&& (visited[flatten_pos(self.spec_dims(), w.position@)] || visited[flatten_pos(
                    self.spec_dims(),
                    step(self.spec_dims(), w.position@, w.axis as int, true),
                )])
            }
    }

    /// Every wall already opened joins two cells marked in `visited`.
    spec fn open_implies_visited(&self, visited: Seq<bool>) -> bool {
        forall|p: Seq<usize>, ax: int|
            #![trigger wall_index(self.spec_dims(), p, ax)]
            valid_pos(self.spec_dims(), p) && 0 <= ax < self.spec_dims().len()
                && !self.spec_walls()[wall_index(self.spec_dims(), p, ax)]
                ==> visited[flatten_pos(self.spec_dims(), p)] && visited[flatten_pos(
                self.spec_dims(),
                step(self.spec_dims(), p, ax, true),
            )]
    }

    /// Every still-present wall that touches a visited cell either joins
    /// two visited cells or still stands in the frontier.
    spec fn frontier_complete(&self, frontier: Seq<Wall>, visited: Seq<bool>) -> bool {
        forall|p: Seq<usize>, ax: int|
            #![trigger wall_index(self.spec_dims(), p, ax)]
            valid_pos(self.spec_dims(), p) && 0 <= ax < self.spec_dims().len()
                && self.spec_walls()[wall_index(self.spec_dims(), p, ax)] && (visited[flatten_pos(
                self.spec_dims(),
                p,
            )] || visited[flatten_pos(self.spec_dims(), step(self.spec_dims(), p, ax, true))])
                ==> (visited[flatten_pos(self.spec_dims(), p)] && visited[flatten_pos(
                self.spec_dims(),
                step(self.spec_dims(), p, ax, true),
            )]) || in_frontier(frontier, p, ax)
    }

    /// Every still-present wall of the cell at `cell` stands in `frontier`.
    spec fn walls_of_cell_queued(&self, frontier: Seq<Wall>, cell: Seq<usize>) -> bool {
        &&& forall|ax: int|
            #![trigger in_frontier(frontier, cell, ax)]
            0 <= ax < self.spec_dims().len() && self.spec_wall(cell, ax) ==> in_frontier(
                frontier,
                cell,
                ax,
            )
        &&& forall|ax: int|
            #![trigger step(self.spec_dims(), cell, ax, false)]
            0 <= ax < self.spec_dims().len() && self.spec_wall(
                step(self.spec_dims(), cell, ax, false),
                ax,
            ) ==> in_frontier(frontier, step(self.spec_dims(), cell, ax, false), ax)
    }

    /// Visit `cell` if it has not been seen yet: mark it and add its
    /// still-present walls to the frontier.  Returns whether the cell was
    /// newly visited.
    fn expand(&self, frontier: &mut Vec<Wall>, visited: &mut Vec<bool>, cell: &Vec<usize>) -> (newly:
        bool)
        requires
            self.wf(),
            valid_pos(self.spec_dims(), cell@),
            old(visited)@.len() == cell_count(self.spec_dims()),
            self.frontier_ok(old(frontier)@, old(visited)@),
        ensures
            newly == !old(visited)@[flatten_pos(self.spec_dims(), cell@)],
            final(visited)@ == (if newly {
                old(visited)@.update(flatten_pos(self.spec_dims(), cell@), true)
            } else {
                old(visited)@
            }),
            !newly ==> final(frontier)@ == old(frontier)@,
            self.frontier_ok(final(frontier)@, final(visited)@),
            forall|j: int|
                0 <= j < old(frontier)@.len() ==> in_frontier(
                    final(frontier)@,
                    (#[trigger] old(frontier)@[j]).position@,
                    old(frontier)@[j].axis as int,
                ),
            newly ==> self.walls_of_cell_queued(final(frontier)@, cell@),
    {
        let ci = self.flatten_index(cell);
        if visited[ci] {
            proof {
                assert forall|j: int| 0 <= j < frontier@.len() implies in_frontier(
                    frontier@,
                    (#[trigger] frontier@[j]).position@,
                    frontier@[j].axis as int,
                ) by {
                    assert(0 <= j < frontier@.len() && frontier@[j].position@ == frontier@[
                        j].position@ && frontier@[j].axis == frontier@[j].axis as int);
                }
            }
            return false;
        }
        visited[ci] = true;
        let ghost vis = visited@;
        proof {
            assert forall|j: int| 0 <= j < frontier@.len() implies {
                let w = #[trigger] frontier@[j];
                &&& w.wf(self.spec_dims())
                &&& (vis[flatten_pos(self.spec_dims(), w.position@)] || vis[flatten_pos(
                    self.spec_dims(),
                    step(self.spec_dims(), w.position@, w.axis as int, true),
                )])
            } by {
                assert(frontier@[j].wf(self.spec_dims()));
                lemma_flatten_pos_bound(self.spec_dims(), frontier@[j].position@);
                lemma_step_valid(
                    self.spec_dims(),
                    frontier@[j].position@,
                    frontier@[j].axis as int,
                    true,
                );
                lemma_flatten_pos_bound(
                    self.spec_dims(),
                    step(self.spec_dims(), frontier@[j].position@, frontier@[j].axis as int, true),
                );
            }
        }
        let mut cell_walls = Wall::from_cell(&self.dimensions, cell);
        let ghost all_walls = cell_walls@;
        proof {
            assert(cell_walls@ =~= all_walls.take(cell_walls@.len() as int));
            assert forall|j: int| 0 <= j < frontier@.len() implies in_frontier(
                frontier@,
                (#[trigger] frontier@[j]).position@,
                frontier@[j].axis as int,
            ) by {
                assert(0 <= j < frontier@.len() && frontier@[j].position@ == frontier@[
                    j].position@ && frontier@[j].axis == frontier@[j].axis as int);
            }
        }
        proof {
            assert forall|j: int| 0 <= j < cell_walls@.len() implies {
                let w = #[trigger] cell_walls@[j];
                &&& w.wf(self.spec_dims())
                &&& (w.position@ == cell@ || step(
                    self.spec_dims(),
                    w.position@,
                    w.axis as int,
                    true,
                ) == cell@)
            } by {
                let a = j / 2;
                assert(cell_walls@[2 * a].position@ == cell@);
                if j % 2 == 1 {
                    assert(cell_walls@[2 * a + 1].position@ == step(
                        self.spec_dims(),
                        cell@,
                        a,
                        false,
                    ));
                    lemma_step_valid(self.spec_dims(), cell@, a, false);
                }
            }
        }
        while cell_walls.len() > 0
            invariant
                self.wf(),
                valid_pos(self.spec_dims(), cell@),
                vis.len() == cell_count(self.spec_dims()),
                vis == visited@,
                vis[flatten_pos(self.spec_dims(), cell@)],
                self.frontier_ok(frontier@, vis),
                forall|j: int|
                    0 <= j < cell_walls@.len() ==> {
                        let w = #[trigger] cell_walls@[j];
                        &&& w.wf(self.spec_dims())
                        &&& (w.position@ == cell@ || step(
                            self.spec_dims(),
                            w.position@,
                            w.axis as int,
                            true,
                        ) == cell@)
                    },
                cell_walls@ == all_walls.take(cell_walls@.len() as int),
                cell_walls@.len() <= all_walls.len(),
                all_walls.len() == 2 * self.spec_dims().len(),
                forall|a: int|
                    0 <= a < self.spec_dims().len() ==> (#[trigger] all_walls[2 * a]).position@
                        == cell@ && all_walls[2 * a].axis == a && all_walls[2 * a + 1].position@
                        == step(self.spec_dims(), cell@, a, false) && all_walls[2 * a + 1].axis
                        == a,
                forall|k: int|
                    cell_walls@.len() <= k < all_walls.len() ==> (self.spec_wall(
                        (#[trigger] all_walls[k]).position@,
                        all_walls[k].axis as int,
                    ) ==> in_frontier(frontier@, all_walls[k].position@, all_walls[k].axis as int)),
                forall|j: int|
                    0 <= j < old(frontier)@.len() ==> in_frontier(
                        frontier@,
                        (#[trigger] old(frontier)@[j]).position@,
                        old(frontier)@[j].axis as int,
                    ),
            decreases cell_walls@.len(),
        {
            let ghost pre_cw = cell_walls@;
            let w = cell_walls.pop().unwrap();
            proof {
                assert(cell_walls@ =~= all_walls.take(cell_walls@.len() as int));
                assert(w == all_walls[pre_cw.len() - 1]);
            }
            if self.get_wall(&w) {
                let ghost pre = frontier@;
                let ghost w_snapshot = w;
                frontier.push(w);
                proof {
                    assert forall|j: int| 0 <= j < frontier@.len() implies {
                        let fw = #[trigger] frontier@[j];
                        &&& fw.wf(self.spec_dims())
                        &&& (vis[flatten_pos(self.spec_dims(), fw.position@)] || vis[flatten_pos(
                            self.spec_dims(),
                            step(self.spec_dims(), fw.position@, fw.axis as int, true),
                        )])
                    } by {
                        if j < pre.len() {
                            assert(frontier@[j] == pre[j]);
                        } else {
                            assert(frontier@[j] == w_snapshot);
                        }
                    }
                    assert forall|k: int|
                        cell_walls@.len() <= k < all_walls.len() && self.spec_wall(
                            (#[trigger] all_walls[k]).position@,
                            all_walls[k].axis as int,
                        ) implies in_frontier(
                        frontier@,
                        all_walls[k].position@,
                        all_walls[k].axis as int,
                    ) by {
                        if k == pre_cw.len() - 1 {
                            assert(frontier@[pre.len() as int] == w_snapshot);
                        } else {
                            lemma_in_frontier_push(
                                pre,
                                w_snapshot,
                                all_walls[k].position@,
                                all_walls[k].axis as int,
                            );
                        }
                    }
                    assert forall|j: int| 0 <= j < old(frontier)@.len() implies in_frontier(
                        frontier@,
                        (#[trigger] old(frontier)@[j]).position@,
                        old(frontier)@[j].axis as int,
                    ) by {
                        lemma_in_frontier_push(
                            pre,
                            w_snapshot,
                            old(frontier)@[j].position@,
                            old(frontier)@[j].axis as int,
                        );
                    }
                }
            } else {
                proof {
                    assert forall|k: int|
                        cell_walls@.len() <= k < all_walls.len() && self.spec_wall(
                            (#[trigger] all_walls[k]).position@,
                            all_walls[k].axis as int,
                        ) implies in_frontier(
                        frontier@,
                        all_walls[k].position@,
                        all_walls[k].axis as int,
                    ) by {
                        assert(k != pre_cw.len() - 1);
                    }
                }
            }
        }
        proof {
            assert forall|ax: int|
                #![trigger step(self.spec_dims(), cell@, ax, false)]
                0 <= ax < self.spec_dims().len() implies {
                &&& (self.spec_wall(cell@, ax) ==> in_frontier(frontier@, cell@, ax))
                &&& (self.spec_wall(step(self.spec_dims(), cell@, ax, false), ax) ==> in_frontier(
                    frontier@,
                    step(self.spec_dims(), cell@, ax, false),
                    ax,
                ))
            } by {
                assert(all_walls[2 * ax].position@ == cell@ && all_walls[2 * ax].axis == ax);
                assert(all_walls[2 * ax + 1].position@ == step(self.spec_dims(), cell@, ax, false)
                    && all_walls[2 * ax + 1].axis == ax);
            }
            assert forall|ax: int|
                #![trigger in_frontier(frontier@, cell@, ax)]
                0 <= ax < self.spec_dims().len() && self.spec_wall(cell@, ax) implies in_frontier(
                frontier@,
                cell@,
                ax,
            ) by {
                assert(all_walls[2 * ax].position@ == cell@ && all_walls[2 * ax].axis == ax);
            }
            assert(self.walls_of_cell_queued(frontier@, cell@));
        }
        true
    }

    /// Carve the maze afresh: draw start and end cells uniformly at
    /// random, make every wall present again, then grow a tree from the
    /// start by random frontier expansion, opening exactly those walls
    /// whose removal first reaches a cell.  Each opened wall reaches
    /// exactly one new cell and the growth stops only when every cell is
    /// reached, so exactly `cellCount - 1` walls end up open.
    pub fn generate(&mut self, rng: &mut StdRng)
        requires
            old(self).wf(),
        ensures
            final(self).wf(),
            final(self).same_lattice(*old(self)),
            final(self).spec_position() == old(self).spec_position(),
            count_false(final(self).spec_walls()) == cell_count(final(self).spec_dims()) - 1,
            final(self).fully_connected(),
    {
        let d = self.dimensions.len();
        let mut i: usize = 0;
        while i < d
            invariant
                self.wf(),
                self.spec_dims() == old(self).spec_dims(),
                self.spec_axes() == old(self).spec_axes(),
                self.spec_position() == old(self).spec_position(),
                self.spec_walls() == old(self).spec_walls(),
                self.spec_end() == old(self).spec_end(),
                d == self.spec_dims().len(),
                i <= d,
            decreases d - i,
        {
            let bound = self.dimensions[i];
            let v = random_below(rng, bound);
            self.start[i] = v;
            i = i + 1;
        }
        let mut i: usize = 0;
        while i < d
            invariant
                self.wf(),
                self.spec_dims() == old(self).spec_dims(),
                self.spec_axes() == old(self).spec_axes(),
                self.spec_position() == old(self).spec_position(),
                self.spec_walls() == old(self).spec_walls(),
                d == self.spec_dims().len(),
                i <= d,
            decreases d - i,
        {
            let bound = self.dimensions[i];
            let v = random_below(rng, bound);
            self.end[i] = v;
            i = i + 1;
        }
        self.reset_walls();
        let ghost dims = self.spec_dims();
        let cell_total = self.cells;
        let mut visited: Vec<bool> = vec![false; cell_total];
        proof {
            assert forall|j: int| 0 <= j < cell_total implies visited@[j] == false by {
                assert(cloned(false, visited@[j]));
            }
            lemma_count_false_constant(visited@, false);
        }
        let start_index = self.flatten_index(&self.start);
        visited[start_index] = true;
        proof {
            lemma_count_false_update(
                Seq::new(cell_total as nat, |j: int| false),
                start_index as int,
                true,
            );
            assert(visited@ =~= Seq::new(cell_total as nat, |j: int| false).update(
                start_index as int,
                true,
            ));
            lemma_count_false_constant(Seq::new(cell_total as nat, |j: int| false), false);
        }
        let ghost mut paths: Map<int, Seq<Seq<usize>>> = Map::empty().insert(
            start_index as int,
            seq![self.spec_start()],
        );
        let mut frontier = Wall::from_cell(&self.dimensions, &self.start);
        proof {
            assert forall|j: int| 0 <= j < frontier@.len() implies {
                let w = #[trigger] frontier@[j];
                &&& w.wf(dims)
                &&& (visited@[flatten_pos(dims, w.position@)] || visited@[flatten_pos(
                    dims,
                    step(dims, w.position@, w.axis as int, true),
                )])
            } by {
                let a = j / 2;
                assert(frontier@[2 * a].position@ == self.spec_start());
                if j % 2 == 1 {
                    assert(frontier@[2 * a + 1].position@ == step(
                        dims,
                        self.spec_start(),
                        a,
                        false,
                    ));
                    lemma_step_valid(dims, self.spec_start(), a, false);
                }
                lemma_flatten_pos_bound(dims, self.spec_start());
            }
            assert forall|p: Seq<usize>, ax: int|
                #![trigger wall_index(dims, p, ax)]
                valid_pos(dims, p) && 0 <= ax < dims.len() && !self.spec_walls()[wall_index(
                    dims,
                    p,
                    ax,
                )] implies false by {
                lemma_wall_index_bijection(dims, p, ax);
            }
            assert forall|j: int| 0 <= j < self.spec_walls().len() implies (
            #[trigger] self.spec_walls()[j]) == true by {}
            lemma_count_false_constant(self.spec_walls(), true);
            assert(count_false(visited@) == cell_count(dims) - 1);
            assert(count_false(self.spec_walls()) == 0);
            assert forall|p: Seq<usize>, ax: int|
                #![trigger wall_index(dims, p, ax)]
                valid_pos(dims, p) && 0 <= ax < dims.len() && self.spec_walls()[wall_index(
                    dims,
                    p,
                    ax,
                )] && (visited@[flatten_pos(dims, p)] || visited@[flatten_pos(
                    dims,
                    step(dims, p, ax, true),
                )]) implies (visited@[flatten_pos(dims, p)] && visited@[flatten_pos(
                dims,
                step(dims, p, ax, true),
            )]) || in_frontier(frontier@, p, ax) by {
                lemma_wall_index_bijection(dims, p, ax);
                lemma_flatten_pos_bound(dims, p);
                lemma_step_valid(dims, p, ax, true);
                lemma_flatten_pos_bound(dims, step(dims, p, ax, true));
                if visited@[flatten_pos(dims, p)] {
                    assert(flatten_pos(dims, p) == start_index as int);
                    lemma_flatten_pos_injective(dims, p, self.spec_start());
                    assert(frontier@[2 * ax].position@ == self.spec_start() && frontier@[2
                        * ax].axis == ax);
                } else {
                    assert(flatten_pos(dims, step(dims, p, ax, true)) == start_index as int);
                    lemma_flatten_pos_injective(
                        dims,
                        step(dims, p, ax, true),
                        self.spec_start(),
                    );
                    assert(p == step(dims, self.spec_start(), ax, false));
                    assert(frontier@[2 * ax + 1].position@ == step(
                        dims,
                        self.spec_start(),
                        ax,
                        false,
                    ) && frontier@[2 * ax + 1].axis == ax);
                }
            }
            assert(self.frontier_complete(frontier@, visited@));
            assert forall|c: Seq<usize>|
                #![trigger flatten_pos(dims, c)]
                valid_pos(dims, c) && visited@[flatten_pos(dims, c)] implies paths.contains_key(
                flatten_pos(dims, c),
            ) && self.connects(self.spec_start(), c, paths[flatten_pos(dims, c)]) by {
                lemma_flatten_pos_bound(dims, c);
                assert(flatten_pos(dims, c) == start_index as int);
                lemma_flatten_pos_injective(dims, c, self.spec_start());
                assert(paths[flatten_pos(dims, c)] == seq![self.spec_start()]);
            }
        }
        while frontier.len() > 0
            invariant
                self.wf(),
                dims == self.spec_dims(),
                dims == old(self).spec_dims(),
                self.spec_axes() == old(self).spec_axes(),
                self.spec_position() == old(self).spec_position(),
                cell_total == cell_count(dims),
                visited@.len() == cell_count(dims),
                self.frontier_ok(frontier@, visited@),
                self.open_implies_visited(visited@),
                self.frontier_complete(frontier@, visited@),
                start_index == flatten_pos(dims, self.spec_start()),
                start_index < cell_total,
                visited@[start_index as int],
                forall|c: Seq<usize>|
                    #![trigger flatten_pos(dims, c)]
                    valid_pos(dims, c) && visited@[flatten_pos(dims, c)] ==> paths.contains_key(
                        flatten_pos(dims, c),
                    ) && self.connects(self.spec_start(), c, paths[flatten_pos(dims, c)]),
                count_false(self.spec_walls()) == cell_count(dims) - count_false(visited@) - 1,
                0 <= count_false(visited@) <= visited@.len(),
            decreases count_false(visited@), frontier@.len(),
        {
            let pick = random_below(rng, frontier.len());
            let ghost pre_frontier = frontier@;
            let wall = frontier.swap_remove(pick);
            proof {
                assert forall|j: int| 0 <= j < frontier@.len() implies {
                    let w = #[trigger] frontier@[j];
                    &&& w.wf(dims)
                    &&& (visited@[flatten_pos(dims, w.position@)] || visited@[flatten_pos(
                        dims,
                        step(dims, w.position@, w.axis as int, true),
                    )])
                } by {
                    if j == pick as int {
                        assert(frontier@[j] == pre_frontier[pre_frontier.len() - 1]);
                    } else {
                        assert(frontier@[j] == pre_frontier[j]);
                    }
                }
            }
            let ghost fr1 = frontier@;
            let (c1, c2) = wall.get_neighbour_cells(&self.dimensions);
            let ghost vis0 = visited@;
            let n1 = self.expand(&mut frontier, &mut visited, &c1);
            proof {
                lemma_flatten_pos_bound(dims, c1@);
                lemma_flatten_pos_bound(dims, c2@);
                assert(visited@.len() == cell_count(dims));
            }
            let ghost fr2 = frontier@;
            let n2 = self.expand(&mut frontier, &mut visited, &c2);
            proof {
                lemma_flatten_pos_bound(dims, c1@);
                lemma_flatten_pos_bound(dims, c2@);
                // The wall touched a visited cell when it entered the
                // frontier, so at most one neighbour is newly visited.
                assert(vis0[flatten_pos(dims, c1@)] || vis0[flatten_pos(dims, c2@)]);
                assert(!(n1 && n2));
            }
            if n1 || n2 {
                let ghost wi = wall_index(dims, wall.position@, wall.axis as int);
                proof {
                    lemma_wall_index_bijection(dims, wall.position@, wall.axis as int);
                    // The wall is still present: an open wall joins two
                    // visited cells, and then neither neighbour is new.
                    if !self.spec_walls()[wi] {
                        assert(vis0[flatten_pos(dims, c1@)] && vis0[flatten_pos(dims, c2@)]);
                        assert(false);
                    }
                }
                let ghost pre_walls = self.spec_walls();
                let ghost pre_vis = visited@;
                proof {
                    assert(forall|x: int|
                        0 <= x < vis0.len() && vis0[x] ==> #[trigger] pre_vis[x]);
                    assert(pre_vis[flatten_pos(dims, c1@)] && pre_vis[flatten_pos(dims, c2@)]);
                }
                self.set_wall(&wall, false);
                proof {
                    lemma_count_false_update(pre_walls, wi, false);
                    // Count bookkeeping: exactly one cell was newly
                    // visited, so one more wall is open and one fewer
                    // cell unvisited.
                    if n1 {
                        lemma_count_false_update(vis0, flatten_pos(dims, c1@), true);
                        if n2 {
                        } else {
                            assert(visited@ == vis0.update(flatten_pos(dims, c1@), true));
                        }
                    }
                    if n2 {
                        lemma_count_false_update(
                            vis0.update(flatten_pos(dims, c1@), true),
                            flatten_pos(dims, c2@),
                            true,
                        );
                        lemma_count_false_update(vis0, flatten_pos(dims, c2@), true);
                    }
                    // Open walls still join visited cells.
                    assert forall|p: Seq<usize>, ax: int|
                        #![trigger wall_index(dims, p, ax)]
                        valid_pos(dims, p) && 0 <= ax < dims.len() && !self.spec_walls()[wall_index(
                            dims,
                            p,
                            ax,
                        )] implies visited@[flatten_pos(dims, p)] && visited@[flatten_pos(
                        dims,
                        step(dims, p, ax, true),
                    )] by {
                        lemma_wall_index_bijection(dims, p, ax);
                        if wall_index(dims, p, ax) == wi {
                            crate::grid::lemma_wall_index_injective(
                                dims,
                                p,
                                ax,
                                wall.position@,
                                wall.axis as int,
                            );
                            assert(p == wall.position@ && ax == wall.axis as int);
                            assert(p == c1@ && step(dims, p, ax, true) == c2@);
                            assert(visited@[flatten_pos(dims, c1@)]);
                            assert(visited@[flatten_pos(dims, c2@)]);
                        } else {
                            assert(self.spec_walls()[wall_index(dims, p, ax)] == pre_walls[
                                wall_index(dims, p, ax)]);
                            assert(!pre_walls[wall_index(dims, p, ax)]);
                            assert(vis0[flatten_pos(dims, p)] && vis0[flatten_pos(
                                dims,
                                step(dims, p, ax, true),
                            )]);
                            lemma_flatten_pos_bound(dims, p);
                            lemma_step_valid(dims, p, ax, true);
                            lemma_flatten_pos_bound(dims, step(dims, p, ax, true));
                        }
                    }
                    // Present walls touching a visited cell are still
                    // queued, or join two visited cells.
                    assert forall|p: Seq<usize>, ax: int|
                        #![trigger wall_index(dims, p, ax)]
                        valid_pos(dims, p) && 0 <= ax < dims.len() && self.spec_walls()[wall_index(
                            dims,
                            p,
                            ax,
                        )] && (visited@[flatten_pos(dims, p)] || visited@[flatten_pos(
                            dims,
                            step(dims, p, ax, true),
                        )]) implies (visited@[flatten_pos(dims, p)] && visited@[flatten_pos(
                        dims,
                        step(dims, p, ax, true),
                    )]) || in_frontier(frontier@, p, ax) by {
                        lemma_wall_index_bijection(dims, p, ax);
                        lemma_flatten_pos_bound(dims, p);
                        lemma_step_valid(dims, p, ax, true);
                        lemma_flatten_pos_bound(dims, step(dims, p, ax, true));
                        let fp = flatten_pos(dims, p);
                        let fs = flatten_pos(dims, step(dims, p, ax, true));
                        let fc1 = flatten_pos(dims, c1@);
                        let fc2 = flatten_pos(dims, c2@);
                        if wall_index(dims, p, ax) == wi {
                            assert(!self.spec_walls()[wi]);
                        } else {
                            assert(self.spec_walls()[wall_index(dims, p, ax)] == pre_walls[
                                wall_index(dims, p, ax)]);
                            if visited@[fp] && visited@[fs] {
                            } else if vis0[fp] || vis0[fs] {
                                assert(in_frontier(pre_frontier, p, ax));
                                if pre_frontier[pick as int].position@ == p
                                    && pre_frontier[pick as int].axis == ax {
                                    assert(wall.position@ == p && wall.axis == ax);
                                    assert(visited@[fc1] && visited@[fc2]);
                                    assert(false);
                                }
                                lemma_in_frontier_swap_remove(pre_frontier, pick as int, p, ax);
                                lemma_in_frontier_mono(fr1, fr2, p, ax);
                                lemma_in_frontier_mono(fr2, frontier@, p, ax);
                            } else {
                                // One endpoint was visited just now, so
                                // the wall belongs to that fresh cell and
                                // was queued by its expansion.
                                if visited@[fp] {
                                    if n1 && fp == fc1 {
                                        lemma_flatten_pos_injective(dims, p, c1@);
                                        assert(in_frontier(fr2, c1@, ax));
                                        lemma_in_frontier_mono(fr2, frontier@, c1@, ax);
                                    } else {
                                        assert(n2 && fp == fc2);
                                        lemma_flatten_pos_injective(dims, p, c2@);
                                        assert(in_frontier(frontier@, c2@, ax));
                                    }
                                } else {
                                    if n1 && fs == fc1 {
                                        lemma_flatten_pos_injective(
                                            dims,
                                            step(dims, p, ax, true),
                                            c1@,
                                        );
                                        assert(p == step(dims, c1@, ax, false));
                                        assert(in_frontier(fr2, step(dims, c1@, ax, false), ax));
                                        lemma_in_frontier_mono(fr2, frontier@, p, ax);
                                    } else {
                                        assert(n2 && fs == fc2);
                                        lemma_flatten_pos_injective(
                                            dims,
                                            step(dims, p, ax, true),
                                            c2@,
                                        );
                                        assert(p == step(dims, c2@, ax, false));
                                        assert(in_frontier(
                                            frontier@,
                                            step(dims, c2@, ax, false),
                                            ax,
                                        ));
                                    }
                                }
                            }
                        }
                    }
                    assert(self.frontier_complete(frontier@, visited@));
                    // Record a walk to the newly reached cell: the walk
                    // to the other side of the opened wall, extended by
                    // one step across it.
                    let new_cell = if n1 {
                        c1@
                    } else {
                        c2@
                    };
                    let other_cell = if n1 {
                        c2@
                    } else {
                        c1@
                    };
                    let nf = flatten_pos(dims, new_cell);
                    let of = flatten_pos(dims, other_cell);
                    assert(vis0[of]);
                    let paths_before = paths;
                    assert(paths_before.contains_key(of) && connects_in(
                        dims,
                        pre_walls,
                        self.spec_start(),
                        other_cell,
                        paths_before[of],
                    ));
                    lemma_connects_monotone(
                        dims,
                        pre_walls,
                        self.spec_walls(),
                        self.spec_start(),
                        other_cell,
                        paths_before[of],
                    );
                    let ax = wall.axis as int;
                    if n1 {
                        assert(new_cell == step(dims, other_cell, ax, false)) by {
                            lemma_step_valid(dims, c1@, ax, true);
                        }
                        assert(!self.spec_walls()[wall_index(dims, new_cell, ax)]);
                        assert(open_between_in(dims, self.spec_walls(), other_cell, new_cell));
                    } else {
                        assert(new_cell == step(dims, other_cell, ax, true));
                        assert(!self.spec_walls()[wall_index(dims, other_cell, ax)]);
                        assert(open_between_in(dims, self.spec_walls(), other_cell, new_cell));
                    }
                    lemma_connects_extend(
                        dims,
                        self.spec_walls(),
                        self.spec_start(),
                        other_cell,
                        new_cell,
                        paths_before[of],
                    );
                    paths = paths_before.insert(nf, paths_before[of].push(new_cell));
                    assert forall|c: Seq<usize>|
                        #![trigger flatten_pos(dims, c)]
                        valid_pos(dims, c) && visited@[flatten_pos(dims, c)] implies
                        paths.contains_key(flatten_pos(dims, c)) && self.connects(
                        self.spec_start(),
                        c,
                        paths[flatten_pos(dims, c)],
                    ) by {
                        lemma_flatten_pos_bound(dims, c);
                        if flatten_pos(dims, c) == nf {
                            lemma_flatten_pos_injective(dims, c, new_cell);
                            assert(paths[nf] == paths_before[of].push(new_cell));
                        } else {
                            assert(vis0[flatten_pos(dims, c)]);
                            assert(paths[flatten_pos(dims, c)] == paths_before[flatten_pos(
                                dims,
                                c,
                            )]);
                            lemma_connects_monotone(
                                dims,
                                pre_walls,
                                self.spec_walls(),
                                self.spec_start(),
                                c,
                                paths_before[flatten_pos(dims, c)],
                            );
                        }
                    }
                }
            } else {
                proof {
                    assert(visited@ == vis0);
                    assert forall|p: Seq<usize>, ax: int|
                        #![trigger wall_index(dims, p, ax)]
                        valid_pos(dims, p) && 0 <= ax < dims.len() && self.spec_walls()[wall_index(
                            dims,
                            p,
                            ax,
                        )] && (visited@[flatten_pos(dims, p)] || visited@[flatten_pos(
                            dims,
                            step(dims, p, ax, true),
                        )]) implies (visited@[flatten_pos(dims, p)] && visited@[flatten_pos(
                        dims,
                        step(dims, p, ax, true),
                    )]) || in_frontier(frontier@, p, ax) by {
                        lemma_wall_index_bijection(dims, p, ax);
                        lemma_flatten_pos_bound(dims, p);
                        lemma_step_valid(dims, p, ax, true);
                        lemma_flatten_pos_bound(dims, step(dims, p, ax, true));
                        if !(visited@[flatten_pos(dims, p)] && visited@[flatten_pos(
                            dims,
                            step(dims, p, ax, true),
                        )]) {
                            assert(in_frontier(pre_frontier, p, ax));
                            if pre_frontier[pick as int].position@ == p
                                && pre_frontier[pick as int].axis == ax {
                                // The picked wall joins two visited
                                // cells when nothing was newly visited.
                                assert(wall.position@ == p && wall.axis == ax);
                                assert(vis0[flatten_pos(dims, c1@)] && vis0[flatten_pos(
                                    dims,
                                    c2@,
                                )]);
                                assert(false);
                            }
                            lemma_in_frontier_swap_remove(pre_frontier, pick as int, p, ax);
                        }
                    }
                    assert(self.frontier_complete(frontier@, visited@));
                }
            }
            proof {
                lemma_count_false_bounds(visited@);
            }
        }
        proof {
            lemma_count_false_bounds(visited@);
            // The frontier is empty, so no wall separates a visited cell
            // from an unvisited one: the visited set is closed under
            // single steps and therefore covers the whole torus.
            assert forall|p: Seq<usize>, ax: int, sgn: bool|
                #![trigger step(dims, p, ax, sgn)]
                valid_pos(dims, p) && 0 <= ax < dims.len() && visited@[flatten_pos(
                    dims,
                    p,
                )] implies visited@[flatten_pos(dims, step(dims, p, ax, sgn))] by {
                lemma_flatten_pos_bound(dims, p);
                lemma_step_valid(dims, p, ax, sgn);
                lemma_flatten_pos_bound(dims, step(dims, p, ax, sgn));
                if sgn {
                    lemma_wall_index_bijection(dims, p, ax);
                    assert(wall_index(dims, p, ax) >= 0);
                } else {
                    let q = step(dims, p, ax, false);
                    lemma_wall_index_bijection(dims, q, ax);
                    assert(step(dims, q, ax, true) == p);
                }
            }
            assert forall|j: int| 0 <= j < visited@.len() implies #[trigger] visited@[j] by {
                lemma_flatten_unflatten(dims, j);
                lemma_closure_covers(dims, visited@, self.spec_start(), unflatten_pos(dims, j));
            }
            lemma_count_false_constant(visited@, true);
            assert forall|c: Seq<usize>|
                #![trigger valid_pos(self.spec_dims(), c)]
                valid_pos(self.spec_dims(), c) implies exists|path: Seq<Seq<usize>>|
                self.connects(self.spec_start(), c, path) by {
                lemma_flatten_pos_bound(dims, c);
                assert(visited@[flatten_pos(dims, c)]);
                assert(self.connects(self.spec_start(), c, paths[flatten_pos(dims, c)]));
            }
            assert(self.fully_connected());
        }
    }

    /// Every cell of the maze can be reached from the start cell along
    /// open walls.
    pub open spec fn fully_connected(&self) -> bool {
        forall|c: Seq<usize>|
            #![trigger valid_pos(self.spec_dims(), c)]
            valid_pos(self.spec_dims(), c) ==> exists|path: Seq<Seq<usize>>|
                self.connects(self.spec_start(), c, path)
    }

    /// Cells `a` and `b` are adjacent and the wall between them is open.
    pub open spec fn open_between(&self, a: Seq<usize>, b: Seq<usize>) -> bool {
        open_between_in(self.spec_dims(), self.spec_walls(), a, b)
    }

    /// `path` is a walk from `a` to `b` that only crosses open walls.
    pub open spec fn connects(&self, a: Seq<usize>, b: Seq<usize>, path: Seq<Seq<usize>>) -> bool {
        connects_in(self.spec_dims(), self.spec_walls(), a, b, path)
    }

    /// `path` is a walk from the start cell to the end cell that only
    /// crosses open walls.
    pub open spec fn is_open_path(&self, path: Seq<Seq<usize>>) -> bool {
        self.connects(self.spec_start(), self.spec_end(), path)
    }

    /// Append a cell to a list of cells.
    fn push_cell(list: &mut Vec<Vec<usize>>, p: Vec<usize>)
        ensures
            final(list).deep_view() == old(list).deep_view().push(p@),
            final(list)@.len() == old(list)@.len() + 1,
    {
        let ghost snapshot = p;
        list.push(p);
        proof {
            lemma_pos_deep_view(snapshot);
            assert(list.deep_view() =~= old(list).deep_view().push(snapshot@));
        }
    }

    /// Find a shortest-candidate path from the start cell to the end cell
    /// through open walls, by A* search over the cell graph with the
    /// toroidal taxicab distance as the heuristic.  Returns the ordered
    /// cells of a path (both ends included), or reports that no open-wall
    /// path joins the two cells.
    #[verifier::rlimit(100)]
    pub fn solve(&self) -> (result: Result<Vec<Vec<usize>>, NoPathFound>)
        requires
            self.wf(),
        ensures
            match result {
                Ok(path) => self.is_open_path(path.deep_view()) && (2 * cell_count(
                    self.spec_dims(),
                ) <= usize::MAX ==> forall|other: Seq<Seq<usize>>|
                    self.is_open_path(other) ==> other.len() >= path.deep_view().len()),
                Err(_) => forall|path: Seq<Seq<usize>>| !self.is_open_path(path),
            },
    {
        let ghost dims = self.spec_dims();
        if eq_pos(&self.start, &self.end) {
            let mut path: Vec<Vec<usize>> = Vec::new();
            Self::push_cell(&mut path, copy_pos(&self.start));
            proof {
                assert(path.deep_view().len() == 1);
            }
            return Ok(path);
        }
        let cell_total = self.cells;
        let si = self.flatten_index(&self.start);
        let ei = self.flatten_index(&self.end);
        proof {
            if si == ei {
                lemma_flatten_pos_injective(dims, self.spec_start(), self.spec_end());
            }
        }
        let mut open_heap: BinaryHashHeap<Node> = BinaryHashHeap::new();
        let h0 = self.distance(&self.start, &self.end);
        open_heap.push(
            PushAction::Keep,
            Node { position: copy_pos(&self.start), index: si, g_score: 0, f_score: h0 },
        );
        let mut visited: Vec<bool> = vec![false; cell_total];
        proof {
            assert forall|j: int| 0 <= j < cell_total implies visited@[j] == false by {
                assert(cloned(false, visited@[j]));
            }
        }
        proof {
            lemma_count_false_bounds(visited@);
        }
        let ghost mut depth: Map<int, int> = Map::empty().insert(si as int, 0);
        let ghost small: bool = 2 * cell_count(dims) <= usize::MAX;
        let ghost mut gfin: Map<int, int> = Map::empty();
        proof {
            assert forall|p: Seq<usize>, ax: int, sgn: bool|
                #![trigger step(dims, p, ax, sgn)]
                valid_pos(dims, p) && 0 <= ax < dims.len() && visited@[flatten_pos(
                    dims,
                    p,
                )] implies false by {
                lemma_flatten_pos_bound(dims, p);
            }
            assert forall|p: Seq<usize>| valid_pos(dims, p) && visited@[#[trigger] flatten_pos(
                dims,
                p,
            )] implies false by {
                lemma_flatten_pos_bound(dims, p);
            }
        }
        let mut links: Vec<Option<(Vec<usize>, Vec<usize>)>> = Vec::new();
        let mut k: usize = 0;
        while k < cell_total
            invariant
                k <= cell_total,
                links@.len() == k,
                forall|j: int| 0 <= j < k ==> (#[trigger] links@[j]) is None,
            decreases cell_total - k,
        {
            links.push(None);
            k = k + 1;
        }
        loop
            invariant
                self.wf(),
                dims == self.spec_dims(),
                cell_total == cell_count(dims),
                self.spec_start() != self.spec_end(),
                si == flatten_pos(dims, self.spec_start()),
                ei == flatten_pos(dims, self.spec_end()),
                si != ei,
                si < cell_total,
                ei < cell_total,
                small == (2 * cell_count(dims) <= usize::MAX),
                open_heap.wf(),
                visited@.len() == cell_total,
                links@.len() == cell_total,
                forall|key: usize|
                    #[trigger] open_heap.contents().contains_key(key) ==> {
                        let n = open_heap.contents()[key];
                        &&& valid_pos(dims, n.position@)
                        &&& n.index == key
                        &&& flatten_pos(dims, n.position@) == key
                        &&& key < cell_total
                        &&& !visited@[key as int]
                        &&& (key == si || links@[key as int] is Some)
                        &&& n.g_score + count_false(visited@) <= cell_total
                        &&& depth.contains_key(key as int)
                        &&& depth[key as int] == n.g_score
                        &&& (small ==> n.f_score == n.g_score + distance(
                            dims,
                            n.position@,
                            self.spec_end(),
                        ))
                    },
                forall|ci: int|
                    0 <= ci < links@.len() ==> match #[trigger] links@[ci] {
                        Some(pr) => {
                            &&& valid_pos(dims, pr.0@)
                            &&& valid_pos(dims, pr.1@)
                            &&& flatten_pos(dims, pr.1@) == ci
                            &&& self.open_between(pr.0@, pr.1@)
                            &&& visited@[flatten_pos(dims, pr.0@)]
                            &&& depth.contains_key(ci)
                            &&& depth.contains_key(flatten_pos(dims, pr.0@))
                            &&& 0 <= depth[flatten_pos(dims, pr.0@)]
                            &&& depth[ci] == depth[flatten_pos(dims, pr.0@)] + 1
                        },
                        None => true,
                    },
                forall|ci: int|
                    0 <= ci < visited@.len() && #[trigger] visited@[ci] ==> (ci == si as int
                        || links@[ci] is Some),
                depth.contains_key(si as int),
                depth[si as int] == 0,
                visited@[si as int] || open_heap.contents().contains_key(si),
                !visited@[ei as int],
                !visited@[si as int] ==> forall|k: usize|
                    #[trigger] open_heap.contents().contains_key(k) ==> k == si,
                forall|ci: int|
                    0 <= ci < visited@.len() && #[trigger] visited@[ci] ==> gfin.contains_key(ci)
                        && gfin[ci] >= 0,
                visited@[si as int] ==> gfin.contains_key(si as int) && gfin[si as int] == 0,
                forall|p: Seq<usize>, ax: int, sgn: bool|
                    #![trigger step(dims, p, ax, sgn)]
                    valid_pos(dims, p) && 0 <= ax < dims.len() && visited@[flatten_pos(dims, p)]
                        && open_between_in(dims, self.spec_walls(), p, step(dims, p, ax, sgn))
                        ==> visited@[flatten_pos(dims, step(dims, p, ax, sgn))]
                            || open_heap.contents().contains_key(
                            flatten_pos(dims, step(dims, p, ax, sgn)) as usize,
                        ),
                small ==> forall|p: Seq<usize>, ax: int, sgn: bool|
                    #![trigger step(dims, p, ax, sgn)]
                    valid_pos(dims, p) && 0 <= ax < dims.len() && visited@[flatten_pos(dims, p)]
                        && open_between_in(dims, self.spec_walls(), p, step(dims, p, ax, sgn))
                        ==> (visited@[flatten_pos(dims, step(dims, p, ax, sgn))]
                            && gfin.contains_key(flatten_pos(dims, step(dims, p, ax, sgn)))
                            && gfin[flatten_pos(dims, step(dims, p, ax, sgn))] <= gfin[
                        flatten_pos(dims, p)] + 1) || (open_heap.contents().contains_key(
                            flatten_pos(dims, step(dims, p, ax, sgn)) as usize,
                        ) && open_heap.contents()[flatten_pos(dims, step(dims, p, ax, sgn)) as usize].g_score
                            <= gfin[flatten_pos(dims, p)] + 1),
                small ==> forall|p: Seq<usize>, k: usize|
                    #![trigger flatten_pos(dims, p), open_heap.contents().contains_key(k)]
                    valid_pos(dims, p) && visited@[flatten_pos(dims, p)]
                        && open_heap.contents().contains_key(k) ==> gfin[flatten_pos(dims, p)]
                        + distance(dims, p, self.spec_end()) <= open_heap.contents()[k].f_score,
                0 <= count_false(visited@) <= visited@.len(),
            decreases count_false(visited@),
        {
            let ghost pre_contents = open_heap.contents();
            let node = match open_heap.pop() {
                None => {
                    // The search exhausted every cell it could reach, so
                    // the visited set is closed under open walls, holds
                    // the start and misses the end: no open walk exists.
                    proof {
                        assert(visited@[si as int]);
                        assert forall|path: Seq<Seq<usize>>| !self.is_open_path(path) by {
                            if self.is_open_path(path) {
                                assert forall|p: Seq<usize>, ax: int, sgn: bool|
                                    #![trigger step(dims, p, ax, sgn)]
                                    valid_pos(dims, p) && 0 <= ax < dims.len()
                                        && visited@[flatten_pos(dims, p)] && open_between_in(
                                        dims,
                                        self.spec_walls(),
                                        p,
                                        step(dims, p, ax, sgn),
                                    ) implies visited@[flatten_pos(
                                    dims,
                                    step(dims, p, ax, sgn),
                                )] by {
                                    assert(!open_heap.contents().contains_key(
                                        flatten_pos(dims, step(dims, p, ax, sgn)) as usize,
                                    ));
                                }
                                lemma_no_escape(
                                    dims,
                                    self.spec_walls(),
                                    visited@,
                                    self.spec_start(),
                                    self.spec_end(),
                                    path,
                                );
                                assert(visited@[ei as int]);
                            }
                        }
                    }
                    return Err(NoPathFound);
                },
                Some(n) => n,
            };
            proof {
                assert(pre_contents.contains_key(node.spec_key()));
                assert(pre_contents[node.spec_key()] == node);
                assert(node.spec_key() == node.index);
            }
            if node.index == ei {
                proof {
                    if !visited@[si as int] {
                        assert(pre_contents.contains_key(node.index));
                        assert(false);
                    }
                    if small {
                        // The settled cost of the end cell bounds every
                        // open walk from below: follow any such walk to
                        // its first cell outside the visited set; that
                        // cell is queued with a cost bounded by its place
                        // on the walk, the queue handed out a minimum,
                        // and the heuristic undercounts what remains.
                        lemma_distance_refl(dims, self.spec_end(), dims.len() as int);
                        lemma_flatten_pos_injective(dims, node.position@, self.spec_end());
                        assert(node.f_score == node.g_score);
                        assert(depth[ei as int] == node.g_score);
                        assert forall|other: Seq<Seq<usize>>|
                            self.is_open_path(other) implies other.len() >= depth[ei as int]
                            + 1 by {
                            let m = other.len() - 1;
                            assert(other[0] == self.spec_start() && other[m] == self.spec_end());
                            assert(m >= 1);
                            assert forall|p: Seq<usize>, ax: int, sgn: bool|
                                #![trigger step(dims, p, ax, sgn)]
                                valid_pos(dims, p) && 0 <= ax < dims.len() && visited@[
                                flatten_pos(dims, p)] && open_between_in(
                                    dims,
                                    self.spec_walls(),
                                    p,
                                    step(dims, p, ax, sgn),
                                ) && visited@[flatten_pos(dims, step(dims, p, ax, sgn))]
                                    && gfin.contains_key(flatten_pos(dims, p)) implies
                                gfin.contains_key(flatten_pos(dims, step(dims, p, ax, sgn)))
                                && gfin[flatten_pos(dims, step(dims, p, ax, sgn))] <= gfin[
                                flatten_pos(dims, p)] + 1 by {
                                lemma_flatten_pos_bound(dims, p);
                                lemma_step_valid(dims, p, ax, sgn);
                                lemma_flatten_pos_bound(dims, step(dims, p, ax, sgn));
                            }
                            lemma_first_unvisited(
                                dims,
                                self.spec_walls(),
                                visited@,
                                gfin,
                                other,
                                0,
                            );
                            let i = choose|i: int|
                                1 <= i < other.len() && !visited@[flatten_pos(
                                    dims,
                                    #[trigger] other[i],
                                )] && visited@[flatten_pos(dims, other[i - 1])]
                                    && gfin.contains_key(flatten_pos(dims, other[i - 1])) && gfin[
                                flatten_pos(dims, other[i - 1])] <= 0 + i - 1 && open_between_in(
                                    dims,
                                    self.spec_walls(),
                                    other[i - 1],
                                    other[i],
                                );
                            let pcell = other[i - 1];
                            let ncell = other[i];
                            let axis = choose|axis: int|
                                0 <= axis < dims.len() && ((ncell == step(dims, pcell, axis, true)
                                    && !self.spec_walls()[wall_index(dims, pcell, axis)]) || (
                                ncell == step(dims, pcell, axis, false) && !self.spec_walls()[
                                wall_index(dims, ncell, axis)]));
                            let sgn = ncell == step(dims, pcell, axis, true)
                                && !self.spec_walls()[wall_index(dims, pcell, axis)];
                            assert(ncell == step(dims, pcell, axis, sgn));
                            assert(open_between_in(
                                dims,
                                self.spec_walls(),
                                pcell,
                                step(dims, pcell, axis, sgn),
                            ));
                            lemma_flatten_pos_bound(dims, ncell);
                            let key_i = flatten_pos(dims, ncell) as usize;
                            assert(pre_contents.contains_key(key_i) && pre_contents[
                            key_i].g_score <= gfin[flatten_pos(dims, pcell)] + 1);
                            assert(node.f_score <= pre_contents[key_i].f_score);
                            assert(pre_contents[key_i].f_score == pre_contents[key_i].g_score
                                + distance(dims, pre_contents[key_i].position@, self.spec_end()));
                            lemma_flatten_pos_injective(
                                dims,
                                pre_contents[key_i].position@,
                                ncell,
                            );
                            let suffix = other.subrange(i, other.len() as int);
                            assert forall|t: int| 0 <= t < suffix.len() implies valid_pos(
                                dims,
                                #[trigger] suffix[t],
                            ) by {
                                assert(suffix[t] == other[i + t]);
                            }
                            assert forall|t: int|
                                0 <= t < suffix.len() - 1 implies open_between_in(
                                dims,
                                self.spec_walls(),
                                #[trigger] suffix[t],
                                suffix[t + 1],
                            ) by {
                                assert(suffix[t] == other[i + t]);
                                assert(suffix[t + 1] == other[i + t + 1]);
                                assert(open_between_in(
                                    dims,
                                    self.spec_walls(),
                                    other[i + t],
                                    other[i + t + 1],
                                ));
                            }
                            lemma_path_admissible(dims, self.spec_walls(), suffix);
                            assert(suffix[0] == ncell && suffix[suffix.len() - 1]
                                == self.spec_end());
                            assert(distance(dims, ncell, self.spec_end()) <= m - i);
                            assert(node.g_score <= m);
                        }
                    }
                }
                // Walk the recorded links backwards from the end cell.
                let mut rev: Vec<Vec<usize>> = Vec::new();
                Self::push_cell(&mut rev, copy_pos(&self.end));
                let mut current: Vec<usize> = copy_pos(&self.end);
                let mut current_index: usize = ei;
                proof {
                    lemma_pos_deep_view(self.end);
                    assert(links@[ei as int] is Some);
                    assert(depth.contains_key(ei as int) && depth[ei as int] >= 0);
                }
                loop
                    invariant
                        self.wf(),
                        dims == self.spec_dims(),
                        cell_total == cell_count(dims),
                        self.spec_start() != self.spec_end(),
                        si == flatten_pos(dims, self.spec_start()),
                        ei == flatten_pos(dims, self.spec_end()),
                        small == (2 * cell_count(dims) <= usize::MAX),
                        depth.contains_key(si as int),
                        depth[si as int] == 0,
                        depth.contains_key(ei as int),
                        small ==> forall|other: Seq<Seq<usize>>|
                            self.is_open_path(other) ==> other.len() >= depth[ei as int] + 1,
                        links@.len() == cell_total,
                        visited@.len() == cell_total,
                        forall|ci: int|
                            0 <= ci < links@.len() ==> match #[trigger] links@[ci] {
                                Some(pr) => {
                                    &&& valid_pos(dims, pr.0@)
                                    &&& valid_pos(dims, pr.1@)
                                    &&& flatten_pos(dims, pr.1@) == ci
                                    &&& self.open_between(pr.0@, pr.1@)
                                    &&& visited@[flatten_pos(dims, pr.0@)]
                                    &&& depth.contains_key(ci)
                                    &&& depth.contains_key(flatten_pos(dims, pr.0@))
                                    &&& 0 <= depth[flatten_pos(dims, pr.0@)]
                                    &&& depth[ci] == depth[flatten_pos(dims, pr.0@)] + 1
                                },
                                None => true,
                            },
                        forall|ci: int|
                            0 <= ci < visited@.len() && #[trigger] visited@[ci] ==> (ci
                                == si as int || links@[ci] is Some),
                        valid_pos(dims, current@),
                        current_index == flatten_pos(dims, current@),
                        current_index < cell_total,
                        current@ == self.spec_start() || (links@[current_index as int] is Some
                            && depth.contains_key(current_index as int) && depth[
                        current_index as int] >= 0),
                        depth.contains_key(current_index as int),
                        depth[current_index as int] >= 0,
                        rev@.len() == 1 + depth[ei as int] - depth[current_index as int],
                        rev@.len() >= 1,
                        rev.deep_view().len() == rev@.len(),
                        rev.deep_view()[0] == self.spec_end(),
                        rev.deep_view()[rev@.len() - 1] == current@,
                        forall|i: int|
                            0 <= i < rev@.len() ==> valid_pos(
                                dims,
                                #[trigger] rev.deep_view()[i],
                            ),
                        forall|i: int|
                            0 <= i < rev@.len() - 1 ==> self.open_between(
                                #[trigger] rev.deep_view()[i + 1],
                                rev.deep_view()[i],
                            ),
                    decreases (if current@ == self.spec_start() {
                        0int
                    } else {
                        depth[current_index as int]
                    }),
                {
                    if eq_pos(&current, &self.start) {
                        let mut path: Vec<Vec<usize>> = Vec::new();
                        let total = rev.len();
                        let ghost rev_dv = rev.deep_view();
                        let mut out: usize = 0;
                        while out < total
                            invariant
                                total == rev@.len(),
                                rev_dv == rev.deep_view(),
                                rev_dv.len() == total,
                                out <= total,
                                path@.len() == out,
                                path.deep_view().len() == out,
                                forall|i: int|
                                    0 <= i < out ==> #[trigger] path.deep_view()[i] == rev_dv[total
                                        - 1 - i],
                            decreases total - out,
                        {
                            proof {
                                lemma_pos_deep_view(rev@[total - 1 - out]);
                            }
                            Self::push_cell(&mut path, copy_pos(&rev[total - 1 - out]));
                            out = out + 1;
                        }
                        proof {
                            let pdv = path.deep_view();
                            assert(pdv[0] == rev_dv[total - 1]);
                            assert(pdv[pdv.len() - 1] == rev_dv[0]);
                            if small {
                                assert(current_index == si);
                                assert(pdv.len() == 1 + depth[ei as int]);
                                assert forall|other: Seq<Seq<usize>>|
                                    self.is_open_path(other) implies other.len() >= pdv.len() by {}
                            }
                            assert forall|i: int|
                                0 <= i < pdv.len() - 1 implies self.open_between(
                                #[trigger] pdv[i],
                                pdv[i + 1],
                            ) by {
                                assert(pdv[i] == rev_dv[total - 1 - i]);
                                assert(pdv[i + 1] == rev_dv[total - 2 - i]);
                                assert(self.open_between(
                                    rev_dv[(total - 2 - i) + 1],
                                    rev_dv[total - 2 - i],
                                ));
                            }
                        }
                        return Ok(path);
                    }
                    proof {
                        if current_index == si {
                            lemma_flatten_pos_injective(dims, current@, self.spec_start());
                        }
                    }
                    match &links[current_index] {
                        Some(pair) => {
                            proof {
                                lemma_flatten_pos_injective(dims, pair.1@, current@);
                                lemma_flatten_pos_bound(dims, pair.0@);
                            }
                            let prev = copy_pos(&pair.0);
                            Self::push_cell(&mut rev, copy_pos(&prev));
                            let ghost old_index = current_index;
                            current = prev;
                            current_index = self.flatten_index(&current);
                            proof {
                                assert(visited@[current_index as int]);
                                assert(depth[current_index as int] < depth[old_index as int]);
                                if current_index == si {
                                    lemma_flatten_pos_injective(
                                        dims,
                                        current@,
                                        self.spec_start(),
                                    );
                                }
                            }
                        },
                        None => {
                            // The loop invariant rules this out: every
                            // cell on the chain except the start has a
                            // recorded link.
                            proof {
                                assert(false);
                            }
                            return Err(NoPathFound);
                        },
                    }
                }
            }
            let ghost vis0 = visited@;
            visited[node.index] = true;
            proof {
                lemma_count_false_update(vis0, node.index as int, true);
                lemma_count_false_bounds(visited@);
                assert(count_false(visited@) == count_false(vis0) - 1);
                if node.index != si {
                    assert(links@[node.index as int] is Some);
                }
                assert(depth.contains_key(node.index as int) && depth[node.index as int] >= 0);
                assert forall|ci: int|
                    0 <= ci < links@.len() implies match #[trigger] links@[ci] {
                    Some(pr) => {
                        &&& valid_pos(dims, pr.0@)
                        &&& valid_pos(dims, pr.1@)
                        &&& flatten_pos(dims, pr.1@) == ci
                        &&& self.open_between(pr.0@, pr.1@)
                        &&& visited@[flatten_pos(dims, pr.0@)]
                    },
                    None => true,
                } by {
                    match links@[ci] {
                        Some(pr) => {
                            assert(vis0[flatten_pos(dims, pr.0@)]);
                            lemma_flatten_pos_bound(dims, pr.0@);
                        },
                        None => {},
                    }
                }
            }
            proof {
                // Every open step out of a previously visited cell still
                // leads to a visited or queued cell: the popped key left
                // the queue, but its cell is visited now.
                assert forall|p: Seq<usize>, ax: int, sgn: bool|
                    #![trigger step(dims, p, ax, sgn)]
                    valid_pos(dims, p) && 0 <= ax < dims.len() && flatten_pos(dims, p)
                        != node.index && visited@[flatten_pos(dims, p)] && open_between_in(
                        dims,
                        self.spec_walls(),
                        p,
                        step(dims, p, ax, sgn),
                    ) implies visited@[flatten_pos(dims, step(dims, p, ax, sgn))]
                    || open_heap.contents().contains_key(
                    flatten_pos(dims, step(dims, p, ax, sgn)) as usize,
                ) by {
                    lemma_flatten_pos_bound(dims, p);
                    lemma_step_valid(dims, p, ax, sgn);
                    lemma_flatten_pos_bound(dims, step(dims, p, ax, sgn));
                    assert(vis0[flatten_pos(dims, p)]);
                    if !vis0[flatten_pos(dims, step(dims, p, ax, sgn))] {
                        assert(pre_contents.contains_key(
                            flatten_pos(dims, step(dims, p, ax, sgn)) as usize,
                        ));
                        if flatten_pos(dims, step(dims, p, ax, sgn)) == node.index {
                        } else {
                            assert(open_heap.contents().contains_key(
                                flatten_pos(dims, step(dims, p, ax, sgn)) as usize,
                            ));
                        }
                    }
                }
            }
            proof {
                if node.index != si && !vis0[si as int] {
                    assert(pre_contents.contains_key(node.index));
                    assert(false);
                }
                gfin = gfin.insert(node.index as int, node.g_score as int);
                if small {
                    // Settled costs never beat the estimate of what was
                    // just popped: the heap returned a minimum.
                    assert forall|p: Seq<usize>|
                        valid_pos(dims, p) && visited@[#[trigger] flatten_pos(
                            dims,
                            p,
                        )] implies gfin[flatten_pos(dims, p)] + distance(dims, p, self.spec_end())
                        <= node.g_score + distance(dims, node.position@, self.spec_end()) by {
                        lemma_flatten_pos_bound(dims, p);
                        if flatten_pos(dims, p) == node.index {
                            lemma_flatten_pos_injective(dims, p, node.position@);
                        } else {
                            assert(vis0[flatten_pos(dims, p)]);
                            assert(pre_contents.contains_key(node.index));
                            assert(gfin[flatten_pos(dims, p)] + distance(dims, p, self.spec_end())
                                <= pre_contents[node.index].f_score);
                        }
                    }
                    assert forall|p: Seq<usize>, ax: int, sgn: bool|
                        #![trigger step(dims, p, ax, sgn)]
                        valid_pos(dims, p) && 0 <= ax < dims.len() && flatten_pos(dims, p)
                            != node.index && visited@[flatten_pos(dims, p)] && open_between_in(
                            dims,
                            self.spec_walls(),
                            p,
                            step(dims, p, ax, sgn),
                        ) implies (visited@[flatten_pos(dims, step(dims, p, ax, sgn))]
                        && gfin.contains_key(flatten_pos(dims, step(dims, p, ax, sgn))) && gfin[
                        flatten_pos(dims, step(dims, p, ax, sgn))] <= gfin[flatten_pos(dims, p)]
                        + 1) || (open_heap.contents().contains_key(
                        flatten_pos(dims, step(dims, p, ax, sgn)) as usize,
                    ) && open_heap.contents()[flatten_pos(dims, step(dims, p, ax, sgn)) as usize].g_score
                        <= gfin[flatten_pos(dims, p)] + 1) by {
                        lemma_flatten_pos_bound(dims, p);
                        lemma_step_valid(dims, p, ax, sgn);
                        lemma_flatten_pos_bound(dims, step(dims, p, ax, sgn));
                        let fs = flatten_pos(dims, step(dims, p, ax, sgn));
                        assert(vis0[flatten_pos(dims, p)]);
                        if vis0[fs] {
                        } else if fs == node.index {
                            assert(pre_contents.contains_key(node.index));
                        } else {
                        }
                    }
                    assert forall|p: Seq<usize>, k: usize|
                        #![trigger flatten_pos(dims, p), open_heap.contents().contains_key(k)]
                        valid_pos(dims, p) && visited@[flatten_pos(dims, p)]
                            && open_heap.contents().contains_key(k) implies gfin[flatten_pos(
                        dims,
                        p,
                    )] + distance(dims, p, self.spec_end()) <= open_heap.contents()[k].f_score by {
                        lemma_flatten_pos_bound(dims, p);
                        assert(pre_contents.contains_key(k));
                        if flatten_pos(dims, p) == node.index {
                            lemma_flatten_pos_injective(dims, p, node.position@);
                            assert(node.f_score <= pre_contents[k].f_score);
                        }
                    }
                }
            }
            let ghost vis_marked = visited@;
            let neighs = self.neighbours(&node.position);
            let total_n = neighs.len();
            let mut j: usize = 0;
            while j < total_n
                invariant
                    self.wf(),
                    dims == self.spec_dims(),
                    cell_total == cell_count(dims),
                    self.spec_start() != self.spec_end(),
                    si == flatten_pos(dims, self.spec_start()),
                    ei == flatten_pos(dims, self.spec_end()),
                    si != ei,
                    si < cell_total,
                    ei < cell_total,
                    small == (2 * cell_count(dims) <= usize::MAX),
                    open_heap.wf(),
                    visited@.len() == cell_total,
                    links@.len() == cell_total,
                    visited@ == vis_marked,
                    valid_pos(dims, node.position@),
                    flatten_pos(dims, node.position@) == node.index,
                    node.index < cell_total,
                    visited@[node.index as int],
                    total_n == neighs@.len(),
                    total_n == 2 * dims.len(),
                    j <= total_n,
                    forall|a: int|
                        0 <= a < dims.len() ==> {
                            &&& (#[trigger] neighs@[2 * a]).1@ == step(
                                dims,
                                node.position@,
                                a,
                                false,
                            )
                            &&& neighs@[2 * a].0.axis == a
                            &&& neighs@[2 * a].0.position@ == neighs@[2 * a].1@
                            &&& neighs@[2 * a + 1].1@ == step(dims, node.position@, a, true)
                            &&& neighs@[2 * a + 1].0.axis == a
                            &&& neighs@[2 * a + 1].0.position@ == node.position@
                        },
                    forall|jj: int|
                        0 <= jj < neighs@.len() ==> (#[trigger] neighs@[jj]).0.wf(dims)
                            && valid_pos(dims, neighs@[jj].1@),
                    forall|key: usize|
                        #[trigger] open_heap.contents().contains_key(key) ==> {
                            let n = open_heap.contents()[key];
                            &&& valid_pos(dims, n.position@)
                            &&& n.index == key
                            &&& flatten_pos(dims, n.position@) == key
                            &&& key < cell_total
                            &&& !visited@[key as int]
                            &&& (key == si || links@[key as int] is Some)
                            &&& n.g_score + count_false(visited@) <= cell_total
                            &&& depth.contains_key(key as int)
                            &&& depth[key as int] == n.g_score
                            &&& (small ==> n.f_score == n.g_score + distance(
                                dims,
                                n.position@,
                                self.spec_end(),
                            ))
                        },
                    forall|ci: int|
                        0 <= ci < links@.len() ==> match #[trigger] links@[ci] {
                            Some(pr) => {
                                &&& valid_pos(dims, pr.0@)
                                &&& valid_pos(dims, pr.1@)
                                &&& flatten_pos(dims, pr.1@) == ci
                                &&& self.open_between(pr.0@, pr.1@)
                                &&& visited@[flatten_pos(dims, pr.0@)]
                                &&& depth.contains_key(ci)
                                &&& depth.contains_key(flatten_pos(dims, pr.0@))
                                &&& 0 <= depth[flatten_pos(dims, pr.0@)]
                            &&& depth[ci] == depth[flatten_pos(dims, pr.0@)] + 1
                            },
                            None => true,
                        },
                    forall|ci: int|
                        0 <= ci < visited@.len() && #[trigger] visited@[ci] ==> (ci == si as int
                            || links@[ci] is Some),
                    depth.contains_key(si as int),
                    depth[si as int] == 0,
                    depth.contains_key(node.index as int),
                    depth[node.index as int] >= 0,
                    depth[node.index as int] == node.g_score,
                    node.g_score + count_false(visited@) + 1 <= cell_total,
                    visited@[si as int] || open_heap.contents().contains_key(si),
                    !visited@[ei as int],
                    forall|p: Seq<usize>, ax: int, sgn: bool|
                        #![trigger step(dims, p, ax, sgn)]
                        valid_pos(dims, p) && 0 <= ax < dims.len() && flatten_pos(dims, p)
                            != node.index && visited@[flatten_pos(dims, p)] && open_between_in(
                            dims,
                            self.spec_walls(),
                            p,
                            step(dims, p, ax, sgn),
                        ) ==> visited@[flatten_pos(dims, step(dims, p, ax, sgn))]
                            || open_heap.contents().contains_key(
                            flatten_pos(dims, step(dims, p, ax, sgn)) as usize,
                        ),
                    forall|jj: int|
                        0 <= jj < j ==> (!self.spec_wall(
                            (#[trigger] neighs@[jj]).0.position@,
                            neighs@[jj].0.axis as int,
                        ) ==> visited@[flatten_pos(dims, neighs@[jj].1@)]
                            || open_heap.contents().contains_key(
                            flatten_pos(dims, neighs@[jj].1@) as usize,
                        )),
                    visited@[si as int],
                    forall|ci: int|
                        0 <= ci < visited@.len() && #[trigger] visited@[ci] ==> gfin.contains_key(
                            ci,
                        ) && gfin[ci] >= 0,
                    gfin.contains_key(si as int) && gfin[si as int] == 0,
                    gfin.contains_key(node.index as int),
                    gfin[node.index as int] == node.g_score,
                    small ==> forall|p: Seq<usize>|
                        valid_pos(dims, p) && visited@[#[trigger] flatten_pos(dims, p)]
                            ==> gfin[flatten_pos(dims, p)] + distance(dims, p, self.spec_end())
                            <= node.g_score + distance(dims, node.position@, self.spec_end()),
                    small ==> forall|p: Seq<usize>, ax: int, sgn: bool|
                        #![trigger step(dims, p, ax, sgn)]
                        valid_pos(dims, p) && 0 <= ax < dims.len() && flatten_pos(dims, p)
                            != node.index && visited@[flatten_pos(dims, p)] && open_between_in(
                            dims,
                            self.spec_walls(),
                            p,
                            step(dims, p, ax, sgn),
                        ) ==> (visited@[flatten_pos(dims, step(dims, p, ax, sgn))]
                            && gfin.contains_key(flatten_pos(dims, step(dims, p, ax, sgn)))
                            && gfin[flatten_pos(dims, step(dims, p, ax, sgn))] <= gfin[
                        flatten_pos(dims, p)] + 1) || (open_heap.contents().contains_key(
                            flatten_pos(dims, step(dims, p, ax, sgn)) as usize,
                        ) && open_heap.contents()[flatten_pos(dims, step(dims, p, ax, sgn)) as usize].g_score
                            <= gfin[flatten_pos(dims, p)] + 1),
                    small ==> forall|jj: int|
                        0 <= jj < j ==> (!self.spec_wall(
                            (#[trigger] neighs@[jj]).0.position@,
                            neighs@[jj].0.axis as int,
                        ) ==> (visited@[flatten_pos(dims, neighs@[jj].1@)] && gfin.contains_key(
                            flatten_pos(dims, neighs@[jj].1@),
                        ) && gfin[flatten_pos(dims, neighs@[jj].1@)] <= node.g_score + 1) || (
                        open_heap.contents().contains_key(
                            flatten_pos(dims, neighs@[jj].1@) as usize,
                        ) && open_heap.contents()[flatten_pos(dims, neighs@[jj].1@) as usize].g_score
                            <= node.g_score + 1)),
                    small ==> forall|p: Seq<usize>, k: usize|
                        #![trigger flatten_pos(dims, p), open_heap.contents().contains_key(k)]
                        valid_pos(dims, p) && visited@[flatten_pos(dims, p)]
                            && open_heap.contents().contains_key(k) ==> gfin[flatten_pos(dims, p)]
                            + distance(dims, p, self.spec_end()) <= open_heap.contents()[k].f_score,
                    0 <= count_false(visited@) <= visited@.len(),
                decreases total_n - j,
            {
                let pair = &neighs[j];
                let ni = self.flatten_index(&pair.1);
                if !visited[ni] {
                    if !self.get_wall(&pair.0) {
                        let g2 = node.g_score + 1;
                        let h = self.distance(&pair.1, &self.end);
                        // The estimate saturates rather than overflow; on
                        // any maze that fits in memory it never does.
                        let f2 = if g2 <= usize::MAX - h {
                            g2 + h
                        } else {
                            usize::MAX
                        };
                        proof {
                            let a = j as int / 2;
                            let ghost witness = neighs@[2 * a];
                            assert(j as int == 2 * a || j as int == 2 * a + 1);
                            if j as int == 2 * a + 1 {
                                assert(neighs@[2 * a + 1].1@ == step(
                                    dims,
                                    node.position@,
                                    a,
                                    true,
                                ));
                                assert(!self.spec_wall(node.position@, a));
                            } else {
                                assert(neighs@[2 * a].1@ == step(dims, node.position@, a, false));
                                assert(!self.spec_wall(pair.1@, a));
                            }
                            assert(self.open_between(node.position@, pair.1@));
                            if j as int == 2 * a + 1 {
                                lemma_step_distance_drop(
                                    dims,
                                    node.position@,
                                    self.spec_end(),
                                    a,
                                    true,
                                );
                            } else {
                                lemma_step_distance_drop(
                                    dims,
                                    node.position@,
                                    self.spec_end(),
                                    a,
                                    false,
                                );
                            }
                            assert(distance(dims, node.position@, self.spec_end()) <= distance(
                                dims,
                                pair.1@,
                                self.spec_end(),
                            ) + 1);
                            if small {
                                assert(h == distance(dims, pair.1@, self.spec_end()));
                                assert(h < cell_total);
                                assert(g2 <= cell_total);
                                assert(g2 + h <= usize::MAX);
                            }
                        }
                        let ghost pre_heap_contents = open_heap.contents();
                        let ghost pre_links = links@;
                        let ghost pre_depth = depth;
                        let new_node = Node {
                            position: copy_pos(&pair.1),
                            index: ni,
                            g_score: g2,
                            f_score: f2,
                        };
                        let ghost new_snapshot = new_node;
                        let inserted = open_heap.push(PushAction::DecreaseKey, new_node);
                        if inserted {
                            links[ni] = Some((copy_pos(&node.position), copy_pos(&pair.1)));
                            proof {
                                depth = depth.insert(
                                    ni as int,
                                    depth[node.index as int] + 1,
                                );
                            }
                        }
                        proof {
                            if inserted {
                                assert(open_heap.contents() == pre_heap_contents.insert(
                                    ni,
                                    new_snapshot,
                                ));
                                assert forall|ci: int|
                                    0 <= ci < links@.len() implies match #[trigger] links@[ci] {
                                    Some(pr) => {
                                        &&& valid_pos(dims, pr.0@)
                                        &&& valid_pos(dims, pr.1@)
                                        &&& flatten_pos(dims, pr.1@) == ci
                                        &&& self.open_between(pr.0@, pr.1@)
                                        &&& visited@[flatten_pos(dims, pr.0@)]
                                        &&& depth.contains_key(ci)
                                        &&& depth.contains_key(flatten_pos(dims, pr.0@))
                                        &&& 0 <= depth[flatten_pos(dims, pr.0@)]
                                    &&& depth[ci] == depth[flatten_pos(dims, pr.0@)] + 1
                                    },
                                    None => true,
                                } by {
                                    if ci != ni as int {
                                        match pre_links[ci] {
                                            Some(pr) => {
                                                // The parent cell is
                                                // visited, so it is not
                                                // the fresh key.
                                                assert(visited@[flatten_pos(dims, pr.0@)]);
                                                assert(flatten_pos(dims, pr.0@) != ni as int);
                                            },
                                            None => {},
                                        }
                                    }
                                }
                            } else {
                                assert(open_heap.contents() == pre_heap_contents);
                                assert(links@ == pre_links);
                                assert(depth == pre_depth);
                                assert(pre_heap_contents.contains_key(ni));
                            }
                            if small {
                                assert(f2 == g2 + h);
                                if !inserted {
                                    let stored = pre_heap_contents[ni];
                                    lemma_flatten_pos_injective(dims, stored.position@, pair.1@);
                                    assert(stored.f_score == stored.g_score + h);
                                    assert(stored.g_score <= g2);
                                }
                                assert(open_heap.contents().contains_key(ni));
                                assert(open_heap.contents()[ni].g_score <= node.g_score + 1);
                                assert(open_heap.contents()[ni].f_score <= f2);
                                assert forall|p: Seq<usize>, k: usize|
                                    #![trigger flatten_pos(dims, p), open_heap.contents().contains_key(k)]
                                    valid_pos(dims, p) && visited@[flatten_pos(dims, p)]
                                        && open_heap.contents().contains_key(k) implies gfin[
                                    flatten_pos(dims, p)] + distance(dims, p, self.spec_end())
                                    <= open_heap.contents()[k].f_score by {
                                    lemma_flatten_pos_bound(dims, p);
                                    assert(gfin[flatten_pos(dims, p)] + distance(
                                        dims,
                                        p,
                                        self.spec_end(),
                                    ) <= node.g_score + distance(
                                        dims,
                                        node.position@,
                                        self.spec_end(),
                                    ));
                                    if inserted && k == ni {
                                        assert(open_heap.contents()[k].f_score == f2);
                                    } else {
                                        assert(pre_heap_contents.contains_key(k));
                                        assert(open_heap.contents()[k] == pre_heap_contents[k]);
                                    }
                                }
                                assert forall|p: Seq<usize>, ax: int, sgn: bool|
                                    #![trigger step(dims, p, ax, sgn)]
                                    valid_pos(dims, p) && 0 <= ax < dims.len() && flatten_pos(
                                        dims,
                                        p,
                                    ) != node.index && visited@[flatten_pos(dims, p)]
                                        && open_between_in(
                                        dims,
                                        self.spec_walls(),
                                        p,
                                        step(dims, p, ax, sgn),
                                    ) implies (visited@[flatten_pos(dims, step(dims, p, ax, sgn))]
                                    && gfin.contains_key(flatten_pos(dims, step(dims, p, ax, sgn)))
                                    && gfin[flatten_pos(dims, step(dims, p, ax, sgn))] <= gfin[
                                    flatten_pos(dims, p)] + 1) || (
                                    open_heap.contents().contains_key(
                                        flatten_pos(dims, step(dims, p, ax, sgn)) as usize,
                                    ) && open_heap.contents()[flatten_pos(
                                        dims,
                                        step(dims, p, ax, sgn),
                                    ) as usize].g_score <= gfin[flatten_pos(dims, p)] + 1) by {
                                    lemma_flatten_pos_bound(dims, p);
                                    lemma_step_valid(dims, p, ax, sgn);
                                    lemma_flatten_pos_bound(dims, step(dims, p, ax, sgn));
                                    let fs = flatten_pos(dims, step(dims, p, ax, sgn));
                                    if !visited@[fs] {
                                        assert(pre_heap_contents.contains_key(fs as usize)
                                            && pre_heap_contents[fs as usize].g_score <= gfin[
                                        flatten_pos(dims, p)] + 1);
                                        if inserted && fs as usize == ni {
                                            assert(f2 < pre_heap_contents[ni].f_score);
                                            lemma_flatten_pos_injective(
                                                dims,
                                                pre_heap_contents[ni].position@,
                                                pair.1@,
                                            );
                                            assert(pre_heap_contents[ni].f_score
                                                == pre_heap_contents[ni].g_score + h);
                                            assert(g2 < pre_heap_contents[ni].g_score);
                                        } else {
                                            assert(open_heap.contents()[fs as usize]
                                                == pre_heap_contents[fs as usize]);
                                        }
                                    }
                                }
                            }
                        }
                    }
                } else {
                    proof {
                        if small {
                            let a = j as int / 2;
                            let ghost witness = neighs@[2 * a];
                            assert(j as int == 2 * a || j as int == 2 * a + 1);
                            if j as int == 2 * a + 1 {
                                assert(neighs@[2 * a + 1].1@ == step(dims, node.position@, a, true));
                                lemma_step_distance_drop(
                                    dims,
                                    node.position@,
                                    self.spec_end(),
                                    a,
                                    true,
                                );
                            } else {
                                assert(neighs@[2 * a].1@ == step(dims, node.position@, a, false));
                                lemma_step_distance_drop(
                                    dims,
                                    node.position@,
                                    self.spec_end(),
                                    a,
                                    false,
                                );
                            }
                            lemma_flatten_pos_bound(dims, pair.1@);
                            assert(gfin[flatten_pos(dims, pair.1@)] + distance(
                                dims,
                                pair.1@,
                                self.spec_end(),
                            ) <= node.g_score + distance(dims, node.position@, self.spec_end()));
                            assert(gfin[flatten_pos(dims, pair.1@)] <= node.g_score + 1);
                        }
                    }
                }
                j = j + 1;
            }
            proof {
                lemma_count_false_bounds(visited@);
                // The expansion handled every wall of the popped cell, so
                // the full closure property holds again.
                assert forall|p: Seq<usize>, ax: int, sgn: bool|
                    #![trigger step(dims, p, ax, sgn)]
                    valid_pos(dims, p) && 0 <= ax < dims.len() && visited@[flatten_pos(dims, p)]
                        && open_between_in(
                        dims,
                        self.spec_walls(),
                        p,
                        step(dims, p, ax, sgn),
                    ) implies visited@[flatten_pos(dims, step(dims, p, ax, sgn))]
                    || open_heap.contents().contains_key(
                    flatten_pos(dims, step(dims, p, ax, sgn)) as usize,
                ) by {
                    lemma_flatten_pos_bound(dims, p);
                    lemma_step_valid(dims, p, ax, sgn);
                    lemma_flatten_pos_bound(dims, step(dims, p, ax, sgn));
                    if flatten_pos(dims, p) == node.index {
                        lemma_flatten_pos_injective(dims, p, node.position@);
                        let n = step(dims, p, ax, sgn);
                        let axis = choose|axis: int|
                            0 <= axis < dims.len() && ((n == step(dims, p, axis, true)
                                && !self.spec_walls()[wall_index(dims, p, axis)]) || (n == step(
                                dims,
                                p,
                                axis,
                                false,
                            ) && !self.spec_walls()[wall_index(dims, n, axis)]));
                        let ghost entry_witness = neighs@[2 * axis];
                        if n == step(dims, p, axis, true) && !self.spec_walls()[wall_index(
                            dims,
                            p,
                            axis,
                        )] {
                            assert(neighs@[2 * axis + 1].0.position@ == node.position@
                                && neighs@[2 * axis + 1].0.axis == axis);
                            assert(neighs@[2 * axis + 1].1@ == n);
                            assert(!self.spec_wall(neighs@[2 * axis + 1].0.position@, axis));
                            assert(visited@[flatten_pos(dims, neighs@[2 * axis + 1].1@)]
                                || open_heap.contents().contains_key(
                                flatten_pos(dims, neighs@[2 * axis + 1].1@) as usize,
                            ));
                        } else {
                            assert(n == step(dims, p, axis, false));
                            assert(neighs@[2 * axis].0.position@ == n && neighs@[2 * axis].0.axis
                                == axis);
                            assert(neighs@[2 * axis].1@ == n);
                            assert(!self.spec_wall(neighs@[2 * axis].0.position@, axis));
                            assert(visited@[flatten_pos(dims, neighs@[2 * axis].1@)]
                                || open_heap.contents().contains_key(
                                flatten_pos(dims, neighs@[2 * axis].1@) as usize,
                            ));
                        }
                    }
                }
                if small {
                    assert forall|p: Seq<usize>, ax: int, sgn: bool|
                        #![trigger step(dims, p, ax, sgn)]
                        valid_pos(dims, p) && 0 <= ax < dims.len() && visited@[flatten_pos(
                            dims,
                            p,
                        )] && open_between_in(
                            dims,
                            self.spec_walls(),
                            p,
                            step(dims, p, ax, sgn),
                        ) implies (visited@[flatten_pos(dims, step(dims, p, ax, sgn))]
                        && gfin.contains_key(flatten_pos(dims, step(dims, p, ax, sgn))) && gfin[
                        flatten_pos(dims, step(dims, p, ax, sgn))] <= gfin[flatten_pos(dims, p)]
                        + 1) || (open_heap.contents().contains_key(
                        flatten_pos(dims, step(dims, p, ax, sgn)) as usize,
                    ) && open_heap.contents()[flatten_pos(dims, step(dims, p, ax, sgn)) as usize].g_score
                        <= gfin[flatten_pos(dims, p)] + 1) by {
                        lemma_flatten_pos_bound(dims, p);
                        lemma_step_valid(dims, p, ax, sgn);
                        lemma_flatten_pos_bound(dims, step(dims, p, ax, sgn));
                        if flatten_pos(dims, p) == node.index {
                            lemma_flatten_pos_injective(dims, p, node.position@);
                            let n = step(dims, p, ax, sgn);
                            let axis = choose|axis: int|
                                0 <= axis < dims.len() && ((n == step(dims, p, axis, true)
                                    && !self.spec_walls()[wall_index(dims, p, axis)]) || (n == step(
                                    dims,
                                    p,
                                    axis,
                                    false,
                                ) && !self.spec_walls()[wall_index(dims, n, axis)]));
                            let ghost entry_witness = neighs@[2 * axis];
                            if n == step(dims, p, axis, true) && !self.spec_walls()[wall_index(
                                dims,
                                p,
                                axis,
                            )] {
                                assert(neighs@[2 * axis + 1].1@ == n);
                                assert(!self.spec_wall(neighs@[2 * axis + 1].0.position@, axis));
                            } else {
                                assert(n == step(dims, p, axis, false));
                                assert(neighs@[2 * axis].1@ == n);
                                assert(!self.spec_wall(neighs@[2 * axis].0.position@, axis));
                            }
                        }
                    }
                }
            }
        }
    }

    /// The toroidal taxicab distance between two cells: the sum over all
    /// axes of the minimal wraparound offset.
    fn distance(&self, a: &Vec<usize>, b: &Vec<usize>) -> (r: usize)
        requires
            self.wf(),
            valid_pos(self.spec_dims(), a@),
            valid_pos(self.spec_dims(), b@),
        ensures
            r == distance(self.spec_dims(), a@, b@),
            r < cell_count(self.spec_dims()),
    {
        let ghost dims = self.dimensions@;
        let d = self.dimensions.len();
        let mut total: usize = 0;
        let mut i: usize = 0;
        while i < d
            invariant
                self.wf(),
                dims == self.spec_dims(),
                valid_pos(dims, a@),
                valid_pos(dims, b@),
                d == dims.len(),
                i <= d,
                total == distance_prefix(dims, a@, b@, i as int),
                total <= cell_count(dims.take(i as int)) - 1,
            decreases d - i,
        {
            proof {
                lemma_distance_prefix_bound(dims, a@, b@, i + 1);
                lemma_cell_count_take(dims, i + 1);
            }
            let ai = a[i];
            let bi = b[i];
            let dm = self.dimensions[i];
            let diff = if ai >= bi {
                ai - bi
            } else {
                bi - ai
            };
            let offset = if diff <= dm - diff {
                diff
            } else {
                dm - diff
            };
            total = total + offset;
            i = i + 1;
        }
        proof {
            assert(dims.take(d as int) =~= dims);
        }
        total
    }
}

} // verus!
