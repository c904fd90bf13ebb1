//! Pure addressing arithmetic for an N-dimensional toroidal lattice.
//!
//! A lattice is described by a dimension vector; a cell by one coordinate
//! per axis; a wall by a cell together with an axis (the boundary between
//! that cell and its neighbour in the positive direction along the axis).
//! Cells and walls are flattened to integers by mixed-radix encoding, and
//! the encoding is proved to be a bijection.

use vstd::prelude::*;

use vstd::arithmetic::div_mod::{lemma_fundamental_div_mod, lemma_fundamental_div_mod_converse, lemma_mod_pos_bound};

verus! {

/// A dimension vector: at least one axis, every axis of positive size.
pub open spec fn valid_dims(dims: Seq<usize>) -> bool {
    dims.len() >= 1 && forall|i: int| 0 <= i < dims.len() ==> (#[trigger] dims[i]) >= 1
}

/// A cell position on the lattice: one coordinate per axis, each within
/// its axis size.
pub open spec fn valid_pos(dims: Seq<usize>, pos: Seq<usize>) -> bool {
    pos.len() == dims.len() && forall|i: int|
        0 <= i < dims.len() ==> (#[trigger] pos[i]) < dims[i]
}

/// The number of cells on the lattice: the product of the axis sizes.
pub open spec fn cell_count(dims: Seq<usize>) -> int
    decreases dims.len(),
{
    if dims.len() == 0 {
        1
    } else {
        (dims[0] as int) * cell_count(dims.subrange(1, dims.len() as int))
    }
}

/// Mixed-radix encoding of a position: coordinate 0 is the least
/// significant digit, with each axis size as the radix of its digit.
pub open spec fn flatten_pos(dims: Seq<usize>, pos: Seq<usize>) -> int
    decreases dims.len(),
{
    if dims.len() == 0 {
        0
    } else {
        (pos[0] as int) + (dims[0] as int) * flatten_pos(
            dims.subrange(1, dims.len() as int),
            pos.subrange(1, pos.len() as int),
        )
    }
}

/// Mixed-radix decoding: the inverse of [`flatten_pos`].
pub open spec fn unflatten_pos(dims: Seq<usize>, index: int) -> Seq<usize>
    decreases dims.len(),
{
    if dims.len() == 0 {
        Seq::empty()
    } else {
        seq![(index % (dims[0] as int)) as usize] + unflatten_pos(
            dims.subrange(1, dims.len() as int),
            index / (dims[0] as int),
        )
    }
}

/// The flat index of the wall at `pos` along `axis`: walls are laid out as
/// `dims.len()` consecutive blocks of `cell_count(dims)` cells each.
pub open spec fn wall_index(dims: Seq<usize>, pos: Seq<usize>, axis: int) -> int {
    flatten_pos(dims, pos) + cell_count(dims) * axis
}

/// The number of walls on the lattice: one per cell and axis.
pub open spec fn wall_count(dims: Seq<usize>) -> int {
    cell_count(dims) * dims.len()
}

/// One step from `pos` along `axis`, in the positive direction when `sign`
/// holds and the negative one otherwise, wrapping around the torus.
pub open spec fn step(dims: Seq<usize>, pos: Seq<usize>, axis: int, sign: bool) -> Seq<usize> {
    if sign {
        pos.update(
            axis,
            if pos[axis] == dims[axis] - 1 {
                0usize
            } else {
                (pos[axis] + 1) as usize
            },
        )
    } else {
        pos.update(
            axis,
            if pos[axis] == 0 {
                (dims[axis] - 1) as usize
            } else {
                (pos[axis] - 1) as usize
            },
        )
    }
}

/// The wraparound distance between coordinates `a[i]` and `b[i]` on axis
/// `i`: the smaller of the two ways around the ring.
pub open spec fn axis_distance(dims: Seq<usize>, a: Seq<usize>, b: Seq<usize>, i: int) -> int {
    let diff = if a[i] >= b[i] {
        a[i] - b[i]
    } else {
        b[i] - a[i]
    };
    if diff <= dims[i] - diff {
        diff
    } else {
        dims[i] - diff
    }
}

/// The toroidal taxicab distance over the first `n` axes.
pub open spec fn distance_prefix(dims: Seq<usize>, a: Seq<usize>, b: Seq<usize>, n: int) -> int
    decreases n,
{
    if n <= 0 {
        0
    } else {
        distance_prefix(dims, a, b, n - 1) + axis_distance(dims, a, b, n - 1)
    }
}

/// The toroidal taxicab distance between two positions: the sum over all
/// axes of the minimal wraparound offset.
pub open spec fn distance(dims: Seq<usize>, a: Seq<usize>, b: Seq<usize>) -> int {
    distance_prefix(dims, a, b, dims.len() as int)
}

/// The number of false entries in a boolean sequence.
pub open spec fn count_false(s: Seq<bool>) -> int
    decreases s.len(),
{
    if s.len() == 0 {
        0
    } else {
        count_false(s.drop_last()) + if s.last() {
            0int
        } else {
            1int
        }
    }
}

/// The count of false entries lies between zero and the length.
pub proof fn lemma_count_false_bounds(s: Seq<bool>)
    ensures
        0 <= count_false(s) <= s.len(),
    decreases s.len(),
{
    if s.len() > 0 {
        lemma_count_false_bounds(s.drop_last());
    }
}

/// How updating one entry changes the count of false entries.
pub proof fn lemma_count_false_update(s: Seq<bool>, i: int, v: bool)
    requires
        0 <= i < s.len(),
    ensures
        count_false(s.update(i, v)) == count_false(s) + (if s[i] == v {
            0int
        } else if v {
            -1int
        } else {
            1int
        }),
    decreases s.len(),
{
    if i == s.len() - 1 {
        assert(s.update(i, v).drop_last() =~= s.drop_last());
        assert(s.update(i, v).last() == v);
    } else {
        assert(s.update(i, v).drop_last() =~= s.drop_last().update(i, v));
        assert(s.update(i, v).last() == s.last());
        lemma_count_false_update(s.drop_last(), i, v);
    }
}

/// A sequence whose entries are all equal has a count of zero or its
/// whole length.
pub proof fn lemma_count_false_constant(s: Seq<bool>, v: bool)
    requires
        forall|i: int| 0 <= i < s.len() ==> (#[trigger] s[i]) == v,
    ensures
        count_false(s) == (if v {
            0int
        } else {
            s.len() as int
        }),
    decreases s.len(),
{
    if s.len() > 0 {
        assert forall|i: int| 0 <= i < s.drop_last().len() implies (#[trigger] s.drop_last()[i])
            == v by {
            assert(s[i] == v);
        }
        lemma_count_false_constant(s.drop_last(), v);
        assert(s.last() == v);
    }
}

/// Appending an axis multiplies the cell count by its size.
pub proof fn lemma_cell_count_snoc(dims: Seq<usize>, d: usize)
    ensures
        cell_count(dims.push(d)) == cell_count(dims) * (d as int),
    decreases dims.len(),
{
    if dims.len() == 0 {
        assert(dims.push(d).subrange(1, 1) =~= Seq::<usize>::empty());
        assert(cell_count(dims.push(d)) == (d as int) * cell_count(Seq::<usize>::empty()));
        assert(cell_count(Seq::<usize>::empty()) == 1);
        assert(cell_count(dims) == 1);
    } else {
        let dt = dims.subrange(1, dims.len() as int);
        assert(dims.push(d).subrange(1, dims.len() as int + 1) =~= dt.push(d));
        assert(cell_count(dims.push(d)) == (dims[0] as int) * cell_count(dt.push(d)));
        lemma_cell_count_snoc(dt, d);
        assert((dims[0] as int) * (cell_count(dt) * (d as int)) == ((dims[0] as int) * cell_count(
            dt,
        )) * (d as int)) by (nonlinear_arith);
        assert(cell_count(dims) == (dims[0] as int) * cell_count(dt));
    }
}

/// A lattice whose axes all have positive size has at least one cell.
pub proof fn lemma_cell_count_at_least_one(dims: Seq<usize>)
    requires
        forall|j: int| 0 <= j < dims.len() ==> (#[trigger] dims[j]) >= 1,
    ensures
        cell_count(dims) >= 1,
    decreases dims.len(),
{
    if dims.len() > 0 {
        let dt = dims.subrange(1, dims.len() as int);
        lemma_cell_count_at_least_one(dt);
        assert((dims[0] as int) * cell_count(dt) >= 1) by (nonlinear_arith)
            requires
                dims[0] >= 1,
                cell_count(dt) >= 1,
        ;
    }
}

/// The cell count of a prefix of the axes is positive and no larger than
/// the cell count of the whole lattice.
pub proof fn lemma_cell_count_take(dims: Seq<usize>, i: int)
    requires
        0 <= i <= dims.len(),
        forall|j: int| 0 <= j < dims.len() ==> (#[trigger] dims[j]) >= 1,
    ensures
        1 <= cell_count(dims.take(i)),
        cell_count(dims.take(i)) <= cell_count(dims),
    decreases dims.len() - i,
{
    assert forall|j: int| 0 <= j < dims.take(i).len() implies (#[trigger] dims.take(i)[j]) >= 1 by {}
    lemma_cell_count_at_least_one(dims.take(i));
    if i == dims.len() {
        assert(dims.take(i) =~= dims);
    } else {
        assert(dims.take(i + 1) =~= dims.take(i).push(dims[i]));
        lemma_cell_count_snoc(dims.take(i), dims[i]);
        lemma_cell_count_take(dims, i + 1);
        assert(cell_count(dims.take(i)) <= cell_count(dims.take(i)) * (dims[i] as int))
            by (nonlinear_arith)
            requires
                dims[i] >= 1,
                cell_count(dims.take(i)) >= 1,
        ;
    }
}

/// Appending an axis and a coordinate extends the encoding by one digit.
pub proof fn lemma_flatten_snoc(dims: Seq<usize>, pos: Seq<usize>, d: usize, p: usize)
    requires
        dims.len() == pos.len(),
    ensures
        flatten_pos(dims.push(d), pos.push(p)) == flatten_pos(dims, pos) + cell_count(dims) * (p as int),
    decreases dims.len(),
{
    if dims.len() == 0 {
        assert(dims.push(d).subrange(1, 1) =~= Seq::<usize>::empty());
        assert(pos.push(p).subrange(1, 1) =~= Seq::<usize>::empty());
        assert(flatten_pos(dims.push(d), pos.push(p)) == (p as int) + (d as int) * flatten_pos(
            Seq::<usize>::empty(),
            Seq::<usize>::empty(),
        ));
        assert(flatten_pos(Seq::<usize>::empty(), Seq::<usize>::empty()) == 0);
        assert(flatten_pos(dims, pos) == 0);
        assert(cell_count(dims) == 1);
    } else {
        let dt = dims.subrange(1, dims.len() as int);
        let pt = pos.subrange(1, pos.len() as int);
        assert(dims.push(d).subrange(1, dims.len() as int + 1) =~= dt.push(d));
        assert(pos.push(p).subrange(1, pos.len() as int + 1) =~= pt.push(p));
        assert(flatten_pos(dims.push(d), pos.push(p)) == (pos[0] as int) + (dims[0] as int)
            * flatten_pos(dt.push(d), pt.push(p)));
        lemma_flatten_snoc(dt, pt, d, p);
        let d0 = dims[0] as int;
        let ft = flatten_pos(dt, pt);
        let ct = cell_count(dt);
        assert(d0 * (ft + ct * p) == d0 * ft + (d0 * ct) * p) by (nonlinear_arith);
        assert(flatten_pos(dims, pos) == (pos[0] as int) + d0 * ft);
        assert(cell_count(dims) == d0 * ct);
    }
}

/// The toroidal distance over a prefix of the axes stays below the cell
/// count of that prefix.
pub proof fn lemma_distance_prefix_bound(dims: Seq<usize>, a: Seq<usize>, b: Seq<usize>, n: int)
    requires
        valid_pos(dims, a),
        valid_pos(dims, b),
        0 <= n <= dims.len(),
    ensures
        0 <= distance_prefix(dims, a, b, n),
        distance_prefix(dims, a, b, n) <= cell_count(dims.take(n)) - 1,
    decreases n,
{
    if n == 0 {
        assert(dims.take(0) =~= Seq::<usize>::empty());
    } else {
        lemma_distance_prefix_bound(dims, a, b, n - 1);
        assert(dims.take(n) =~= dims.take(n - 1).push(dims[n - 1]));
        lemma_cell_count_snoc(dims.take(n - 1), dims[n - 1]);
        assert forall|j: int| 0 <= j < dims.len() implies (#[trigger] dims[j]) >= 1 by {
            assert(a[j] < dims[j]);
        }
        lemma_cell_count_take(dims, n - 1);
        let pp = cell_count(dims.take(n - 1));
        let d = dims[n - 1] as int;
        assert(0 <= axis_distance(dims, a, b, n - 1) <= d - 1);
        assert((pp - 1) + (d - 1) <= pp * d - 1) by (nonlinear_arith)
            requires
                pp >= 1,
                d >= 1,
        ;
    }
}

/// A valid position encodes below the cell count.
pub proof fn lemma_flatten_pos_bound(dims: Seq<usize>, pos: Seq<usize>)
    requires
        valid_pos(dims, pos),
    ensures
        0 <= flatten_pos(dims, pos),
        flatten_pos(dims, pos) < cell_count(dims),
    decreases dims.len(),
{
    if dims.len() == 0 {
    } else {
        let dtail = dims.subrange(1, dims.len() as int);
        let ptail = pos.subrange(1, pos.len() as int);
        assert(valid_pos(dtail, ptail));
        lemma_flatten_pos_bound(dtail, ptail);
        let d0 = dims[0] as int;
        let rest = flatten_pos(dtail, ptail);
        let cc = cell_count(dtail);
        assert(0 <= (pos[0] as int) + d0 * rest < d0 * cc) by (nonlinear_arith)
            requires
                0 <= (pos[0] as int) < d0,
                0 <= rest < cc,
        ;
    }
}

/// Decoding a valid position's index reconstructs the position.
pub proof fn lemma_unflatten_flatten(dims: Seq<usize>, pos: Seq<usize>)
    requires
        valid_pos(dims, pos),
    ensures
        unflatten_pos(dims, flatten_pos(dims, pos)) == pos,
    decreases dims.len(),
{
    if dims.len() == 0 {
        assert(unflatten_pos(dims, flatten_pos(dims, pos)) =~= pos);
    } else {
        let dtail = dims.subrange(1, dims.len() as int);
        let ptail = pos.subrange(1, pos.len() as int);
        assert(valid_pos(dtail, ptail));
        lemma_unflatten_flatten(dtail, ptail);
        let d0 = dims[0] as int;
        let rest = flatten_pos(dtail, ptail);
        let index = flatten_pos(dims, pos);
        assert(d0 > 0);
        assert(index == pos[0] + d0 * rest);
        assert(index == rest * d0 + pos[0]);
        lemma_fundamental_div_mod_converse(index, d0, rest, pos[0] as int);
        assert(index % d0 == pos[0] as int && index / d0 == rest);
        assert(unflatten_pos(dims, flatten_pos(dims, pos)) =~= pos);
    }
}

/// Every index below the cell count decodes to a valid position that
/// encodes back to the same index.
pub proof fn lemma_flatten_unflatten(dims: Seq<usize>, index: int)
    requires
        forall|j: int| 0 <= j < dims.len() ==> (#[trigger] dims[j]) >= 1,
        0 <= index < cell_count(dims),
    ensures
        valid_pos(dims, unflatten_pos(dims, index)),
        flatten_pos(dims, unflatten_pos(dims, index)) == index,
    decreases dims.len(),
{
    if dims.len() == 0 {
        assert(unflatten_pos(dims, index) =~= Seq::<usize>::empty());
    } else {
        let dt = dims.subrange(1, dims.len() as int);
        let d0 = dims[0] as int;
        lemma_fundamental_div_mod(index, d0);
        lemma_mod_pos_bound(index, d0);
        let head = index % d0;
        let rest = index / d0;
        assert(0 <= rest) by (nonlinear_arith)
            requires
                index >= 0,
                d0 >= 1,
                index == d0 * rest + head,
                head < d0,
        ;
        assert(rest < cell_count(dt)) by (nonlinear_arith)
            requires
                index < d0 * cell_count(dt),
                index == d0 * rest + head,
                0 <= head,
                d0 >= 1,
        ;
        lemma_flatten_unflatten(dt, rest);
        let whole = unflatten_pos(dims, index);
        assert(whole == seq![head as usize] + unflatten_pos(dt, rest));
        assert(whole.subrange(1, whole.len() as int) =~= unflatten_pos(dt, rest));
        assert(whole[0] == head as usize);
        assert(flatten_pos(dims, whole) == head + d0 * flatten_pos(dt, unflatten_pos(dt, rest)));
    }
}

/// Distinct valid positions get distinct indices.
pub proof fn lemma_flatten_pos_injective(dims: Seq<usize>, p1: Seq<usize>, p2: Seq<usize>)
    requires
        valid_pos(dims, p1),
        valid_pos(dims, p2),
        flatten_pos(dims, p1) == flatten_pos(dims, p2),
    ensures
        p1 == p2,
{
    lemma_unflatten_flatten(dims, p1);
    lemma_unflatten_flatten(dims, p2);
}

/// Wall addressing is a bijection from valid (position, axis) pairs onto
/// `[0, wall_count(dims))`: the index stays below the wall count, and
/// position and axis can both be recovered from it.
pub proof fn lemma_wall_index_bijection(dims: Seq<usize>, pos: Seq<usize>, axis: int)
    requires
        valid_dims(dims),
        valid_pos(dims, pos),
        0 <= axis < dims.len(),
    ensures
        0 <= wall_index(dims, pos, axis),
        wall_index(dims, pos, axis) < wall_count(dims),
        wall_index(dims, pos, axis) % cell_count(dims) == flatten_pos(dims, pos),
        wall_index(dims, pos, axis) / cell_count(dims) == axis,
        unflatten_pos(dims, wall_index(dims, pos, axis) % cell_count(dims)) == pos,
{
    let cc = cell_count(dims);
    let f = flatten_pos(dims, pos);
    lemma_flatten_pos_bound(dims, pos);
    assert(f + cc * axis < cc * dims.len()) by (nonlinear_arith)
        requires
            0 <= f < cc,
            0 <= axis < dims.len(),
    ;
    lemma_fundamental_div_mod_converse(f + cc * axis, cc, axis, f);
    lemma_unflatten_flatten(dims, pos);
}

/// Distinct valid (position, axis) pairs get distinct wall indices.
pub proof fn lemma_wall_index_injective(
    dims: Seq<usize>,
    p1: Seq<usize>,
    a1: int,
    p2: Seq<usize>,
    a2: int,
)
    requires
        valid_dims(dims),
        valid_pos(dims, p1),
        valid_pos(dims, p2),
        0 <= a1 < dims.len(),
        0 <= a2 < dims.len(),
        wall_index(dims, p1, a1) == wall_index(dims, p2, a2),
    ensures
        p1 == p2,
        a1 == a2,
{
    lemma_wall_index_bijection(dims, p1, a1);
    lemma_wall_index_bijection(dims, p2, a2);
    lemma_flatten_pos_injective(dims, p1, p2);
}

/// The direction in which one step from `a` along axis `i` takes the
/// shorter way around the ring toward `b`.
pub open spec fn dir_toward(dims: Seq<usize>, a: Seq<usize>, b: Seq<usize>, i: int) -> bool {
    if a[i] >= b[i] {
        if a[i] - b[i] <= dims[i] - (a[i] - b[i]) {
            false
        } else {
            true
        }
    } else {
        if b[i] - a[i] <= dims[i] - (b[i] - a[i]) {
            true
        } else {
            false
        }
    }
}

/// Positions that agree on every axis but `i` differ in distance only by
/// their terms for axis `i`.
pub proof fn lemma_distance_prefix_same_except(
    dims: Seq<usize>,
    a1: Seq<usize>,
    a2: Seq<usize>,
    b: Seq<usize>,
    i: int,
    n: int,
)
    requires
        a1.len() == a2.len(),
        0 <= n <= a1.len(),
        forall|j: int| 0 <= j < a1.len() && j != i ==> a1[j] == a2[j],
    ensures
        distance_prefix(dims, a2, b, n) == distance_prefix(dims, a1, b, n) + (if 0 <= i < n {
            axis_distance(dims, a2, b, i) - axis_distance(dims, a1, b, i)
        } else {
            0int
        }),
    decreases n,
{
    if n > 0 {
        lemma_distance_prefix_same_except(dims, a1, a2, b, i, n - 1);
    }
}

/// One step in the direction of [`dir_toward`] brings `a` one closer
/// to `b`.
pub proof fn lemma_step_toward(dims: Seq<usize>, a: Seq<usize>, b: Seq<usize>, i: int)
    requires
        valid_dims(dims),
        valid_pos(dims, a),
        valid_pos(dims, b),
        0 <= i < dims.len(),
        a[i] != b[i],
    ensures
        valid_pos(dims, step(dims, a, i, dir_toward(dims, a, b, i))),
        distance(dims, step(dims, a, i, dir_toward(dims, a, b, i)), b) == distance(dims, a, b)
            - 1,
{
    let next = step(dims, a, i, dir_toward(dims, a, b, i));
    lemma_step_valid(dims, a, i, dir_toward(dims, a, b, i));
    assert(axis_distance(dims, next, b, i) == axis_distance(dims, a, b, i) - 1);
    lemma_distance_prefix_same_except(dims, a, next, b, i, dims.len() as int);
}

/// The toroidal distance from a position to itself is zero.
pub proof fn lemma_distance_refl(dims: Seq<usize>, a: Seq<usize>, n: int)
    requires
        valid_pos(dims, a),
        0 <= n <= dims.len(),
    ensures
        distance_prefix(dims, a, a, n) == 0,
    decreases n,
{
    if n > 0 {
        lemma_distance_refl(dims, a, n - 1);
        assert(axis_distance(dims, a, a, n - 1) == 0);
    }
}

/// One step changes the toroidal distance to a fixed target by at most
/// one.
pub proof fn lemma_step_distance_drop(
    dims: Seq<usize>,
    a: Seq<usize>,
    b: Seq<usize>,
    i: int,
    s: bool,
)
    requires
        valid_dims(dims),
        valid_pos(dims, a),
        valid_pos(dims, b),
        0 <= i < dims.len(),
    ensures
        distance(dims, step(dims, a, i, s), b) >= distance(dims, a, b) - 1,
        distance(dims, step(dims, a, i, s), b) <= distance(dims, a, b) + 1,
{
    let next = step(dims, a, i, s);
    lemma_step_valid(dims, a, i, s);
    assert(axis_distance(dims, next, b, i) >= axis_distance(dims, a, b, i) - 1);
    assert(axis_distance(dims, next, b, i) <= axis_distance(dims, a, b, i) + 1);
    lemma_distance_prefix_same_except(dims, a, next, b, i, dims.len() as int);
}

/// A step stays on the lattice and moving back undoes it.
pub proof fn lemma_step_valid(dims: Seq<usize>, pos: Seq<usize>, axis: int, sign: bool)
    requires
        valid_dims(dims),
        valid_pos(dims, pos),
        0 <= axis < dims.len(),
    ensures
        valid_pos(dims, step(dims, pos, axis, sign)),
        step(dims, step(dims, pos, axis, sign), axis, !sign) == pos,
{
    assert(step(dims, step(dims, pos, axis, sign), axis, !sign) =~= pos);
}

} // verus!
