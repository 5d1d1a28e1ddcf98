//! Exactness of the enabler counts. A tile stays accounted for at a cell
//! while it is possible there or its removal there is still queued; every
//! enabler count equals the number of tiles accounted for in the
//! neighbouring cell that support the tile across the shared edge.
use vstd::prelude::*;

use crate::colour::Rgb;
use crate::direction::Direction;
use crate::engine::{CoreCell, CoreState, RemovalUpdate};
use crate::grid2d::{lemma_coord_of, lemma_row_major, Grid2D};
use crate::model::Model;
use crate::vector2::{step_x, step_y, Vector2};

verus! {

/// Index of the neighbour of cell `i` in the direction with index `e` on a
/// `w` × `h` grid, or -1 where there is none.
pub open spec fn nb_index(w: int, h: int, i: int, e: int) -> int {
    let d = Direction::of_index(e);
    let nx = i % w + step_x(d);
    let ny = i / w + step_y(d);
    if 0 <= nx < w && 0 <= ny < h {
        ny * w + nx
    } else {
        -1
    }
}

/// Index of the opposite direction.
pub open spec fn flip_index(e: int) -> int {
    (e + 2) % 4
}

/// Being neighbours is symmetric.
pub proof fn lemma_nb_index(w: int, h: int, i: int, e: int)
    requires
        w > 0,
        h > 0,
        0 <= i < w * h,
        0 <= e < 4,
    ensures
        nb_index(w, h, i, e) >= 0 ==> 0 <= nb_index(w, h, i, e) < w * h && nb_index(
            w,
            h,
            nb_index(w, h, i, e),
            flip_index(e),
        ) == i,
        nb_index(w, h, i, e) != i,
        Direction::of_index(flip_index(e)) == Direction::of_index(e).flip(),
        0 <= flip_index(e) < 4,
        flip_index(flip_index(e)) == e,
{
    lemma_coord_of(w, h, i);
    let d = Direction::of_index(e);
    let nx = i % w + step_x(d);
    let ny = i / w + step_y(d);
    if 0 <= nx < w && 0 <= ny < h {
        let j = ny * w + nx;
        lemma_row_major(w, h, nx, ny);
        vstd::arithmetic::div_mod::lemma_fundamental_div_mod_converse(j, w, ny, nx);
        lemma_row_major(w, h, i % w, i / w);
    }
}

/// The index of a position's neighbour, as the grid computes it.
pub proof fn lemma_nb_coord(w: int, h: int, c: Vector2, e: int)
    requires
        w > 0,
        h > 0,
        0 <= c.x < w,
        0 <= c.y < h,
        0 <= e < 4,
    ensures
        ({
            let d = Direction::of_index(e);
            let nx = c.x + step_x(d);
            let ny = c.y + step_y(d);
            &&& (0 <= nx < w && 0 <= ny < h) <==> nb_index(w, h, c.y * w + c.x, e) >= 0
            &&& (0 <= nx < w && 0 <= ny < h) ==> nb_index(w, h, c.y * w + c.x, e) == ny * w + nx
        }),
        0 <= c.y * w + c.x < w * h,
{
    lemma_row_major(w, h, c.x as int, c.y as int);
    vstd::arithmetic::div_mod::lemma_fundamental_div_mod_converse(
        c.y * w + c.x,
        w,
        c.y as int,
        c.x as int,
    );
}

/// The tiles below `k`.
pub proof fn lemma_below_finite(k: int)
    requires
        0 <= k <= usize::MAX + 1,
    ensures
        Set::new(|u: usize| u < k).finite(),
    decreases k,
{
    if k > 0 {
        lemma_below_finite(k - 1);
        assert(Set::new(|u: usize| u < k) =~= Set::new(|u: usize| u < k - 1).insert((k - 1) as usize));
    } else {
        assert(Set::new(|u: usize| u < k) =~= Set::<usize>::empty());
    }
}

/// The count owed, part-way through propagating the removal of `u0` at cell
/// `i0`, to the count of tile `t` in direction `e` at cell `i`: one while the
/// removal still has to reach it (directions after `d`, or direction `d` for
/// tiles not in `done`).
pub open spec fn pending(
    w: int,
    h: int,
    m: &Model,
    i0: int,
    u0: usize,
    d: int,
    done: Set<usize>,
) -> spec_fn(int, int, int) -> int {
    |i: int, t: int, e: int|
        if nb_index(w, h, i, e) == i0 && m.adj(u0 as int, flip_index(e)).contains(t as usize) && (
        flip_index(e) > d || (flip_index(e) == d && !done.contains(t as usize))) {
            1int
        } else {
            0int
        }
}

/// Nothing owed.
pub open spec fn settled_counts() -> spec_fn(int, int, int) -> int {
    |i: int, t: int, e: int| 0int
}

/// Every set of accounted tiles is finite.
pub proof fn lemma_accounted_finite(s: CoreState, i: int)
    requires
        s.wf(),
        0 <= i < s.grid.data@.len(),
    ensures
        s.accounted(i).finite(),
        s.accounted(i).subset_of(Set::new(|u: usize| u < s.model.tiles())),
{
    assert(s.grid.data@[i].wf(&s.model));
    lemma_below_finite(s.model.tiles());
    assert forall|u: usize| s.accounted(i).contains(u) implies u < s.model.tiles() by {
        if s.queued_at(i).contains(u) {
            let j = choose|j: int|
                0 <= j < s.tile_removals@.len() && (#[trigger] s.tile_removals@[j]).tile_index == u
                    && s.grid.index_of(s.tile_removals@[j].coord) == i;
        }
    }
    vstd::set_lib::lemma_len_subset(s.accounted(i), Set::new(|u: usize| u < s.model.tiles()));
}

/// Direction indices and their directions agree.
pub proof fn lemma_direction_index(e: int)
    requires
        0 <= e < 4,
    ensures
        Direction::of_index(e).index() == e,
        Direction::of_index(e).flip().index() == flip_index(e),
{
}

/// A fresh engine with nothing queued has exact enabler counts.
pub proof fn lemma_fresh_exact(s: CoreState)
    requires
        s.wf(),
        s.fresh(),
        s.tile_removals@.len() == 0,
    ensures
        s.enablers_exact(),
{
    let m: &Model = &*s.model;
    assert forall|i: int, t: int, e: int|
        0 <= i < s.grid.data@.len() && 0 <= t < s.model.tiles() && 0 <= e < 4 && s.nb(i, e) >= 0
            implies #[trigger] s.grid.data@[i].tile_enabler_counts@[t].by_direction@[e]
        == s.supporters_of(i, t, e).len() + (settled_counts())(i, t, e) by {
        let j = s.nb(i, e);
        lemma_nb_index(s.grid.width as int, s.grid.height as int, i, e);
        lemma_direction_index(e);
        let d = Direction::of_index(e);
        assert(s.accounted(j) =~= Set::new(|u: usize| u < m.tiles()));
        assert(m.adj(t, e) == crate::model::compatible_tiles(
            m.samples@,
            m.samples@[t],
            Direction::of_index(e),
            m.tiles(),
        ));
        assert forall|u: usize| #[trigger] s.supporters_of(i, t, e).contains(u) == m.adj(
            t,
            e,
        ).contains(u) by {
            if u < m.tiles() {
                crate::model::lemma_adjacency_symmetric(*m, t, u as int, d);
            }
        }
        assert(s.supporters_of(i, t, e) =~= m.adj(t, e));
    }
}

/// Taking the first removal off the queue leaves every count exact but for
/// one owed by each count that the removed tile supported.
pub proof fn lemma_pop_exact(s: CoreState, s2: CoreState)
    requires
        s.wf(),
        s.enablers_exact(),
        s.tile_removals@.len() > 0,
        s2.grid == s.grid,
        s2.model == s.model,
        s2.tile_removals@ == s.tile_removals@.subrange(1, s.tile_removals@.len() as int),
    ensures
        s2.exact_with(
            pending(
                s.grid.width as int,
                s.grid.height as int,
                &*s.model,
                s.grid.index_of(s.tile_removals@[0].coord),
                s.tile_removals@[0].tile_index,
                0,
                Set::empty(),
            ),
        ),
{
    let q = s.tile_removals@;
    let q2 = s2.tile_removals@;
    let i0 = s.grid.index_of(q[0].coord);
    let u0 = q[0].tile_index;
    let owed = pending(
        s.grid.width as int,
        s.grid.height as int,
        &*s.model,
        i0,
        u0,
        0,
        Set::empty(),
    );
    assert(s.grid.in_bounds(q[0].coord));
    lemma_row_major(s.grid.width as int, s.grid.height as int, q[0].coord.x as int, q[0].coord.y as int);
    assert(q2.len() == q.len() - 1);
    assert forall|j: int| 0 <= j < q2.len() implies #[trigger] q2[j] == q[j + 1] by {}
    assert(s.queued_at(i0).contains(u0)) by {
        assert(s.tile_removals@[0].tile_index == u0);
    }
    assert(s2.queued_at(i0) =~= s.queued_at(i0).remove(u0)) by {
        assert forall|u: usize| s2.queued_at(i0).contains(u) implies s.queued_at(i0).remove(u0).contains(u) by {
            let j = choose|j: int|
                0 <= j < q2.len() && (#[trigger] q2[j]).tile_index == u && s.grid.index_of(q2[j].coord)
                    == i0;
            assert(q[j + 1] == q2[j]);
            assert(s.tile_removals@[j + 1].tile_index == u);
            if u == u0 {
                assert(!(s.tile_removals@[0].tile_index == s.tile_removals@[j + 1].tile_index
                    && s.grid.index_of(s.tile_removals@[0].coord) == s.grid.index_of(
                    s.tile_removals@[j + 1].coord,
                )));
            }
        }
        assert forall|u: usize| s.queued_at(i0).remove(u0).contains(u) implies s2.queued_at(i0).contains(u) by {
            let j = choose|j: int|
                0 <= j < q.len() && (#[trigger] q[j]).tile_index == u && s.grid.index_of(q[j].coord)
                    == i0;
            assert(j != 0);
            assert(q2[j - 1] == q[j]);
            assert(s2.tile_removals@[j - 1].tile_index == u);
        }
    }
    assert(!s.grid.data@[i0].possible_set().contains(u0)) by {
        assert(!s.grid.data@[s.grid.index_of(s.tile_removals@[0].coord)].possible_set().contains(
            s.tile_removals@[0].tile_index,
        ));
    }
    assert(s2.accounted(i0) =~= s.accounted(i0).remove(u0));
    assert forall|k: int| 0 <= k < s.grid.data@.len() && k != i0 implies s2.accounted(k) == s.accounted(
        k,
    ) by {
        assert forall|u: usize| s2.queued_at(k).contains(u) implies s.queued_at(k).contains(u) by {
            let j = choose|j: int|
                0 <= j < q2.len() && (#[trigger] q2[j]).tile_index == u && s.grid.index_of(q2[j].coord)
                    == k;
            assert(q[j + 1] == q2[j]);
            assert(s.tile_removals@[j + 1].tile_index == u);
        }
        assert forall|u: usize| s.queued_at(k).contains(u) implies s2.queued_at(k).contains(u) by {
            let j = choose|j: int|
                0 <= j < q.len() && (#[trigger] q[j]).tile_index == u && s.grid.index_of(q[j].coord)
                    == k;
            assert(j != 0);
            assert(q2[j - 1] == q[j]);
            assert(s2.tile_removals@[j - 1].tile_index == u);
        }
        assert(s2.queued_at(k) =~= s.queued_at(k));
        assert(s2.accounted(k) =~= s.accounted(k));
    }
    assert forall|i: int, t: int, e: int|
        0 <= i < s2.grid.data@.len() && 0 <= t < s2.model.tiles() && 0 <= e < 4 && s2.nb(i, e) >= 0
            implies #[trigger] s2.grid.data@[i].tile_enabler_counts@[t].by_direction@[e]
        == s2.supporters_of(i, t, e).len() + owed(i, t, e) by {
        let j = s.nb(i, e);
        lemma_nb_index(s.grid.width as int, s.grid.height as int, i, e);
        assert(s.grid.data@[i].tile_enabler_counts@[t].by_direction@[e] == s.supporters_of(i, t, e).len()
            + (settled_counts())(i, t, e));
        lemma_accounted_finite(s, j);
        let pred = |u: usize| s.model.adj(u as int, flip_index(e)).contains(t as usize);
        s.accounted(j).lemma_len_filter(pred);
        if j == i0 {
            assert(s2.supporters_of(i, t, e) =~= s.supporters_of(i, t, e).remove(u0));
            vstd::set::axiom_set_remove_len(s.supporters_of(i, t, e), u0);
        } else {
            assert(s2.supporters_of(i, t, e) =~= s.supporters_of(i, t, e));
        }
    }
    assert forall|j: int| 0 <= j < q2.len() implies !s2.grid.data@[s2.grid.index_of(
        s2.tile_removals@[j].coord,
    )].possible_set().contains((#[trigger] s2.tile_removals@[j]).tile_index) by {
        assert(q2[j] == q[j + 1]);
        assert(!s.grid.data@[s.grid.index_of(s.tile_removals@[j + 1].coord)].possible_set().contains(
            s.tile_removals@[j + 1].tile_index,
        ));
    }
    assert forall|j1: int, j2: int|
        #![trigger s2.tile_removals@[j1], s2.tile_removals@[j2]]
        0 <= j1 < j2 < q2.len() implies !(s2.tile_removals@[j1].tile_index
            == s2.tile_removals@[j2].tile_index && s2.grid.index_of(s2.tile_removals@[j1].coord)
            == s2.grid.index_of(s2.tile_removals@[j2].coord)) by {
        assert(q2[j1] == q[j1 + 1]);
        assert(q2[j2] == q[j2 + 1]);
        assert(!(s.tile_removals@[j1 + 1].tile_index == s.tile_removals@[j2 + 1].tile_index
            && s.grid.index_of(s.tile_removals@[j1 + 1].coord) == s.grid.index_of(
            s.tile_removals@[j2 + 1].coord,
        )));
    }
}

/// Taking one owed unit off the count of tile `t1` in direction `e1` at
/// cell `i1`, the removal at cell `i0` having reached it, keeps every count
/// exact.
pub proof fn lemma_decrement_exact(
    s: CoreState,
    s2: CoreState,
    i0: int,
    u0: usize,
    d: int,
    done: Set<usize>,
    i1: int,
    t1: usize,
)
    requires
        s.wf(),
        0 <= i0 < s.grid.data@.len(),
        0 <= d < 4,
        i1 == s.nb(i0, d),
        i1 >= 0,
        s.model.adj(u0 as int, d).contains(t1),
        !done.contains(t1),
        t1 < s.model.tiles(),
        s.exact_with(pending(s.grid.width as int, s.grid.height as int, &*s.model, i0, u0, d, done)),
        s2.model == s.model,
        s2.tile_removals == s.tile_removals,
        s2.grid.width == s.grid.width,
        s2.grid.height == s.grid.height,
        s2.grid.data@.len() == s.grid.data@.len(),
        forall|k: int| 0 <= k < s.grid.data@.len() && k != i1 ==> #[trigger] s2.grid.data@[k] == s.grid.data@[k],
        s2.grid.data@[i1].possible == s.grid.data@[i1].possible,
        s2.grid.data@[i1].tile_enabler_counts@.len() == s.grid.data@[i1].tile_enabler_counts@.len(),
        forall|u: int| 0 <= u < s.model.tiles() && u != t1 ==> #[trigger] s2.grid.data@[i1].tile_enabler_counts@[u] == s.grid.data@[i1].tile_enabler_counts@[u],
        s2.grid.data@[i1].tile_enabler_counts@[t1 as int].by_direction@ == s.grid.data@[i1].tile_enabler_counts@[t1 as int].by_direction@.update(
            flip_index(d),
            (s.grid.data@[i1].tile_enabler_counts@[t1 as int].by_direction@[flip_index(d)] - 1) as usize,
        ),
    ensures
        s2.exact_with(
            pending(s.grid.width as int, s.grid.height as int, &*s.model, i0, u0, d, done.insert(t1)),
        ),
        s.grid.data@[i1].tile_enabler_counts@[t1 as int].by_direction@[flip_index(d)] >= 1,
{
    let w = s.grid.width as int;
    let h = s.grid.height as int;
    let owed = pending(w, h, &*s.model, i0, u0, d, done);
    let owed2 = pending(w, h, &*s.model, i0, u0, d, done.insert(t1));
    lemma_nb_index(w, h, i0, d);
    lemma_nb_index(w, h, i1, flip_index(d));
    assert(s.nb(i1, flip_index(d)) == i0);
    assert(owed(i1, t1 as int, flip_index(d)) == 1);
    assert(s.grid.data@[i1].tile_enabler_counts@[t1 as int].by_direction@[flip_index(d)]
        == s.supporters_of(i1, t1 as int, flip_index(d)).len() + owed(i1, t1 as int, flip_index(d)));
    assert forall|k: int| 0 <= k < s.grid.data@.len() implies s2.accounted(k) == s.accounted(k) by {
        assert(s2.queued_at(k) =~= s.queued_at(k));
        assert(s2.grid.data@[k].possible_set() == s.grid.data@[k].possible_set());
        assert(s2.accounted(k) =~= s.accounted(k));
    }
    assert forall|i: int, t: int, e: int|
        0 <= i < s2.grid.data@.len() && 0 <= t < s2.model.tiles() && 0 <= e < 4 && s2.nb(i, e) >= 0
            implies #[trigger] s2.grid.data@[i].tile_enabler_counts@[t].by_direction@[e]
        == s2.supporters_of(i, t, e).len() + owed2(i, t, e) by {
        lemma_nb_index(w, h, i, e);
        assert(s.grid.data@[i].tile_enabler_counts@[t].by_direction@[e] == s.supporters_of(i, t, e).len()
            + owed(i, t, e));
        assert(s2.supporters_of(i, t, e) =~= s.supporters_of(i, t, e));
        if i == i1 && t == t1 && e == flip_index(d) {
        } else {
            if owed(i, t, e) != owed2(i, t, e) {
                assert(s.nb(i, e) == i0);
                assert(flip_index(e) == d);
                assert(e == flip_index(d));
                assert(t == t1);
                lemma_nb_index(w, h, i0, flip_index(e));
                assert(i == i1);
            }
        }
    }
    assert forall|j: int| 0 <= j < s2.tile_removals@.len() implies !s2.grid.data@[s2.grid.index_of(
        s2.tile_removals@[j].coord,
    )].possible_set().contains((#[trigger] s2.tile_removals@[j]).tile_index) by {
        let k = s.grid.index_of(s.tile_removals@[j].coord);
        assert(s.grid.in_bounds(s.tile_removals@[j].coord));
        lemma_row_major(w, h, s.tile_removals@[j].coord.x as int, s.tile_removals@[j].coord.y as int);
        assert(s2.grid.data@[k].possible_set() == s.grid.data@[k].possible_set());
    }
}

/// Moving a possible tile of cell `i1` into the removal queue keeps every
/// count exact.
pub proof fn lemma_queue_removal_exact(
    s: CoreState,
    s2: CoreState,
    owed: spec_fn(int, int, int) -> int,
    i1: int,
    t1: usize,
    c1: Vector2,
)
    requires
        s.wf(),
        s.grid.in_bounds(c1),
        i1 == s.grid.index_of(c1),
        s.grid.data@[i1].possible_set().contains(t1),
        s.exact_with(owed),
        s2.model == s.model,
        s2.grid.width == s.grid.width,
        s2.grid.height == s.grid.height,
        s2.grid.data@.len() == s.grid.data@.len(),
        forall|k: int| 0 <= k < s.grid.data@.len() && k != i1 ==> #[trigger] s2.grid.data@[k] == s.grid.data@[k],
        s2.grid.data@[i1].possible_set() == s.grid.data@[i1].possible_set().remove(t1),
        s2.grid.data@[i1].tile_enabler_counts == s.grid.data@[i1].tile_enabler_counts,
        s2.tile_removals@ == s.tile_removals@.push(crate::engine::RemovalUpdate { tile_index: t1, coord: c1 }),
    ensures
        s2.exact_with(owed),
{
    let w = s.grid.width as int;
    let h = s.grid.height as int;
    let q = s.tile_removals@;
    let q2 = s2.tile_removals@;
    lemma_row_major(w, h, c1.x as int, c1.y as int);
    assert forall|k: int| 0 <= k < s.grid.data@.len() implies s2.accounted(k) == s.accounted(k) by {
        assert forall|u: usize| s2.queued_at(k).contains(u) implies s.queued_at(k).contains(u) || (k
            == i1 && u == t1) by {
            let j = choose|j: int|
                0 <= j < q2.len() && (#[trigger] q2[j]).tile_index == u && s2.grid.index_of(q2[j].coord)
                    == k;
            if j < q.len() {
                assert(q2[j] == q[j]);
                assert(s.tile_removals@[j].tile_index == u);
            }
        }
        assert forall|u: usize| s.queued_at(k).contains(u) implies s2.queued_at(k).contains(u) by {
            let j = choose|j: int|
                0 <= j < q.len() && (#[trigger] q[j]).tile_index == u && s.grid.index_of(q[j].coord)
                    == k;
            assert(q2[j] == q[j]);
            assert(s2.tile_removals@[j].tile_index == u);
        }
        if k == i1 {
            assert(s2.tile_removals@[q.len() as int].tile_index == t1);
            assert(s2.queued_at(k).contains(t1));
        }
        assert(s2.accounted(k) =~= s.accounted(k));
    }
    assert forall|i: int, t: int, e: int|
        0 <= i < s2.grid.data@.len() && 0 <= t < s2.model.tiles() && 0 <= e < 4 && s2.nb(i, e) >= 0
            implies #[trigger] s2.grid.data@[i].tile_enabler_counts@[t].by_direction@[e]
        == s2.supporters_of(i, t, e).len() + owed(i, t, e) by {
        lemma_nb_index(w, h, i, e);
        assert(s.grid.data@[i].tile_enabler_counts@[t].by_direction@[e] == s.supporters_of(i, t, e).len()
            + owed(i, t, e));
        assert(s2.supporters_of(i, t, e) =~= s.supporters_of(i, t, e));
    }
    assert forall|j: int| 0 <= j < q2.len() implies !s2.grid.data@[s2.grid.index_of(
        s2.tile_removals@[j].coord,
    )].possible_set().contains((#[trigger] s2.tile_removals@[j]).tile_index) by {
        if j < q.len() {
            assert(q2[j] == q[j]);
            let k = s.grid.index_of(s.tile_removals@[j].coord);
            assert(s.grid.in_bounds(s.tile_removals@[j].coord));
            lemma_row_major(w, h, s.tile_removals@[j].coord.x as int, s.tile_removals@[j].coord.y as int);
            assert(!s.grid.data@[k].possible_set().contains(s.tile_removals@[j].tile_index));
        }
    }
    assert forall|j1: int, j2: int|
        #![trigger s2.tile_removals@[j1], s2.tile_removals@[j2]]
        0 <= j1 < j2 < q2.len() implies !(s2.tile_removals@[j1].tile_index
            == s2.tile_removals@[j2].tile_index && s2.grid.index_of(s2.tile_removals@[j1].coord)
            == s2.grid.index_of(s2.tile_removals@[j2].coord)) by {
        assert(q2[j1] == q[j1]);
        if j2 < q.len() {
            assert(q2[j2] == q[j2]);
            assert(!(s.tile_removals@[j1].tile_index == s.tile_removals@[j2].tile_index
                && s.grid.index_of(s.tile_removals@[j1].coord) == s.grid.index_of(
                s.tile_removals@[j2].coord,
            )));
        } else {
            let k = s.grid.index_of(s.tile_removals@[j1].coord);
            assert(s.grid.in_bounds(s.tile_removals@[j1].coord));
            assert(!s.grid.data@[k].possible_set().contains(s.tile_removals@[j1].tile_index));
        }
    }
}

/// Once the removal at cell `i0` has reached every count of direction `d`
/// (all of `adj(u0, d)` done, or no neighbour there), the next direction
/// starts with nothing done.
pub proof fn lemma_next_direction_exact(s: CoreState, i0: int, u0: usize, d: int, done: Set<usize>)
    requires
        s.wf(),
        0 <= i0 < s.grid.data@.len(),
        0 <= d < 4,
        s.nb(i0, d) < 0 || s.model.adj(u0 as int, d).subset_of(done),
        s.exact_with(pending(s.grid.width as int, s.grid.height as int, &*s.model, i0, u0, d, done)),
    ensures
        s.exact_with(
            pending(s.grid.width as int, s.grid.height as int, &*s.model, i0, u0, d + 1, Set::empty()),
        ),
{
    let w = s.grid.width as int;
    let h = s.grid.height as int;
    let owed = pending(w, h, &*s.model, i0, u0, d, done);
    let owed2 = pending(w, h, &*s.model, i0, u0, d + 1, Set::empty());
    assert forall|i: int, t: int, e: int|
        0 <= i < s.grid.data@.len() && 0 <= t < s.model.tiles() && 0 <= e < 4 && s.nb(i, e) >= 0
            implies #[trigger] s.grid.data@[i].tile_enabler_counts@[t].by_direction@[e]
        == s.supporters_of(i, t, e).len() + owed2(i, t, e) by {
        lemma_nb_index(w, h, i, e);
        if owed(i, t, e) != owed2(i, t, e) {
            assert(s.nb(i, e) == i0);
            assert(flip_index(e) == d);
            lemma_nb_index(w, h, i0, d);
        }
    }
}

/// A count still owed the removal is at least one.
pub proof fn lemma_owed_positive(s: CoreState, i0: int, u0: usize, d: int, done: Set<usize>, i1: int, t1: usize)
    requires
        s.wf(),
        0 <= i0 < s.grid.data@.len(),
        0 <= d < 4,
        i1 == s.nb(i0, d),
        i1 >= 0,
        s.model.adj(u0 as int, d).contains(t1),
        !done.contains(t1),
        t1 < s.model.tiles(),
        s.exact_with(pending(s.grid.width as int, s.grid.height as int, &*s.model, i0, u0, d, done)),
    ensures
        s.grid.data@[i1].tile_enabler_counts@[t1 as int].by_direction@[flip_index(d)] >= 1,
{
    let w = s.grid.width as int;
    let h = s.grid.height as int;
    lemma_nb_index(w, h, i0, d);
    lemma_nb_index(w, h, i1, flip_index(d));
    let owed = pending(w, h, &*s.model, i0, u0, d, done);
    assert(owed(i1, t1 as int, flip_index(d)) == 1);
    assert(s.grid.data@[i1].tile_enabler_counts@[t1 as int].by_direction@[flip_index(d)]
        == s.supporters_of(i1, t1 as int, flip_index(d)).len() + owed(i1, t1 as int, flip_index(d)));
}

/// Once every direction is done nothing is owed.
pub proof fn lemma_all_directions_exact(s: CoreState, i0: int, u0: usize)
    requires
        s.exact_with(pending(s.grid.width as int, s.grid.height as int, &*s.model, i0, u0, 4, Set::empty())),
    ensures
        s.enablers_exact(),
{
    let owed = pending(s.grid.width as int, s.grid.height as int, &*s.model, i0, u0, 4, Set::empty());
    assert forall|i: int, t: int, e: int|
        0 <= i < s.grid.data@.len() && 0 <= t < s.model.tiles() && 0 <= e < 4 && s.nb(i, e) >= 0
            implies #[trigger] s.grid.data@[i].tile_enabler_counts@[t].by_direction@[e]
        == s.supporters_of(i, t, e).len() + (settled_counts())(i, t, e) by {
        assert(owed(i, t, e) == 0);
    }
}

/// Collapsing cell `i1` to `chosen` while queueing the removal of each of
/// its other possible tiles keeps every count exact.
pub proof fn lemma_collapse_exact(s: CoreState, s2: CoreState, i1: int, chosen: usize, c1: Vector2)
    requires
        s.wf(),
        s.enablers_exact(),
        s.grid.in_bounds(c1),
        i1 == s.grid.index_of(c1),
        s.grid.data@[i1].possible_set().contains(chosen),
        s2.model == s.model,
        s2.grid.width == s.grid.width,
        s2.grid.height == s.grid.height,
        s2.grid.data@.len() == s.grid.data@.len(),
        forall|k: int| 0 <= k < s.grid.data@.len() && k != i1 ==> #[trigger] s2.grid.data@[k] == s.grid.data@[k],
        s2.grid.data@[i1].possible_set() == set![chosen],
        s2.grid.data@[i1].tile_enabler_counts == s.grid.data@[i1].tile_enabler_counts,
        s2.tile_removals@.len() >= s.tile_removals@.len(),
        s2.tile_removals@.subrange(0, s.tile_removals@.len() as int) == s.tile_removals@,
        forall|j: int|
            s.tile_removals@.len() <= j < s2.tile_removals@.len() ==> (#[trigger] s2.tile_removals@[j]).coord
                == c1 && s.grid.data@[i1].possible_set().contains(s2.tile_removals@[j].tile_index)
                && s2.tile_removals@[j].tile_index != chosen,
        forall|j1: int, j2: int|
            #![trigger s2.tile_removals@[j1], s2.tile_removals@[j2]]
            s.tile_removals@.len() <= j1 < j2 < s2.tile_removals@.len()
                ==> s2.tile_removals@[j1].tile_index < s2.tile_removals@[j2].tile_index,
        forall|u: usize|
            s.grid.data@[i1].possible_set().contains(u) && u != chosen ==> exists|j: int|
                s.tile_removals@.len() <= j < s2.tile_removals@.len()
                    && (#[trigger] s2.tile_removals@[j]).tile_index == u,
    ensures
        s2.enablers_exact(),
{
    let w = s.grid.width as int;
    let h = s.grid.height as int;
    let q = s.tile_removals@;
    let q2 = s2.tile_removals@;
    let n0 = q.len() as int;
    lemma_row_major(w, h, c1.x as int, c1.y as int);
    assert forall|j: int| 0 <= j < n0 implies #[trigger] q2[j] == q[j] by {
        assert(q2.subrange(0, n0)[j] == q2[j]);
    }
    assert forall|k: int| 0 <= k < s.grid.data@.len() implies s2.accounted(k) == s.accounted(k) by {
        assert forall|u: usize| s2.accounted(k).contains(u) implies s.accounted(k).contains(u) by {
            if s2.queued_at(k).contains(u) {
                let j = choose|j: int|
                    0 <= j < q2.len() && (#[trigger] q2[j]).tile_index == u && s2.grid.index_of(
                        q2[j].coord,
                    ) == k;
                if j < n0 {
                    assert(q2[j] == q[j]);
                    assert(s.tile_removals@[j].tile_index == u);
                    assert(s.queued_at(k).contains(u));
                } else {
                    assert(s2.tile_removals@[j].coord == c1);
                    assert(s.grid.data@[i1].possible_set().contains(u));
                }
            } else if k == i1 {
                assert(s2.grid.data@[i1].possible_set().contains(u));
                assert(u == chosen);
            } else {
                assert(s2.grid.data@[k] == s.grid.data@[k]);
            }
        }
        assert forall|u: usize| s.accounted(k).contains(u) implies s2.accounted(k).contains(u) by {
            if s.queued_at(k).contains(u) {
                let j = choose|j: int|
                    0 <= j < q.len() && (#[trigger] q[j]).tile_index == u && s.grid.index_of(q[j].coord)
                        == k;
                assert(q2[j] == q[j]);
                assert(s2.tile_removals@[j].tile_index == u);
                assert(s2.queued_at(k).contains(u));
            } else if k == i1 {
                if u != chosen {
                    let j = choose|j: int|
                        n0 <= j < q2.len() && (#[trigger] s2.tile_removals@[j]).tile_index == u;
                    assert(s2.tile_removals@[j].coord == c1);
                    assert(s2.queued_at(k).contains(u));
                } else {
                    assert(s2.grid.data@[i1].possible_set().contains(u));
                }
            } else {
                assert(s2.grid.data@[k] == s.grid.data@[k]);
            }
        }
        assert(s2.accounted(k) =~= s.accounted(k));
    }
    assert forall|i: int, t: int, e: int|
        0 <= i < s2.grid.data@.len() && 0 <= t < s2.model.tiles() && 0 <= e < 4 && s2.nb(i, e) >= 0
            implies #[trigger] s2.grid.data@[i].tile_enabler_counts@[t].by_direction@[e]
        == s2.supporters_of(i, t, e).len() + (settled_counts())(i, t, e) by {
        lemma_nb_index(w, h, i, e);
        assert(s.grid.data@[i].tile_enabler_counts@[t].by_direction@[e] == s.supporters_of(i, t, e).len()
            + (settled_counts())(i, t, e));
        assert(s2.supporters_of(i, t, e) =~= s.supporters_of(i, t, e));
        if i != i1 {
            assert(s2.grid.data@[i] == s.grid.data@[i]);
        }
    }
    assert forall|j: int| 0 <= j < q2.len() implies !s2.grid.data@[s2.grid.index_of(
        s2.tile_removals@[j].coord,
    )].possible_set().contains((#[trigger] s2.tile_removals@[j]).tile_index) by {
        if j < n0 {
            assert(q2[j] == q[j]);
            let k = s.grid.index_of(s.tile_removals@[j].coord);
            assert(s.grid.in_bounds(s.tile_removals@[j].coord));
            lemma_row_major(w, h, s.tile_removals@[j].coord.x as int, s.tile_removals@[j].coord.y as int);
            assert(!s.grid.data@[k].possible_set().contains(s.tile_removals@[j].tile_index));
            if k != i1 {
                assert(s2.grid.data@[k] == s.grid.data@[k]);
            }
        }
    }
    assert forall|j1: int, j2: int|
        #![trigger s2.tile_removals@[j1], s2.tile_removals@[j2]]
        0 <= j1 < j2 < q2.len() implies !(s2.tile_removals@[j1].tile_index
            == s2.tile_removals@[j2].tile_index && s2.grid.index_of(s2.tile_removals@[j1].coord)
            == s2.grid.index_of(s2.tile_removals@[j2].coord)) by {
        if j2 < n0 {
            assert(q2[j1] == q[j1]);
            assert(q2[j2] == q[j2]);
            assert(!(s.tile_removals@[j1].tile_index == s.tile_removals@[j2].tile_index
                && s.grid.index_of(s.tile_removals@[j1].coord) == s.grid.index_of(
                s.tile_removals@[j2].coord,
            )));
        } else if j1 < n0 {
            assert(q2[j1] == q[j1]);
            let k = s.grid.index_of(s.tile_removals@[j1].coord);
            assert(s.grid.in_bounds(s.tile_removals@[j1].coord));
            assert(!s.grid.data@[k].possible_set().contains(s.tile_removals@[j1].tile_index));
        }
    }
}

/// The removals queued by a collapse: every member but the one at `p`, in
/// order, all at `coord`.
pub proof fn lemma_others_queued(
    q0: Seq<RemovalUpdate>,
    q: Seq<RemovalUpdate>,
    members: Seq<usize>,
    p: int,
    coord: Vector2,
    possible: Set<usize>,
)
    requires
        0 <= p < members.len(),
        forall|a: int, b: int| 0 <= a < b < members.len() ==> members[a] < members[b],
        members.to_set() == possible,
        q.len() == q0.len() + members.len() - 1,
        q.subrange(0, q0.len() as int) == q0,
        forall|j: int|
            0 <= j < members.len() - 1 ==> #[trigger] q[q0.len() + j] == (RemovalUpdate {
                tile_index: members[if j < p {
                    j
                } else {
                    j + 1
                }],
                coord,
            }),
    ensures
        forall|j: int|
            q0.len() <= j < q.len() ==> (#[trigger] q[j]).coord == coord && possible.contains(
                q[j].tile_index,
            ) && q[j].tile_index != members[p],
        forall|j1: int, j2: int|
            #![trigger q[j1], q[j2]]
            q0.len() <= j1 < j2 < q.len() ==> q[j1].tile_index < q[j2].tile_index,
        forall|u: usize|
            possible.contains(u) && u != members[p] ==> exists|j: int|
                q0.len() <= j < q.len() && (#[trigger] q[j]).tile_index == u,
{
    let n0 = q0.len() as int;
    assert forall|j: int| n0 <= j < q.len() implies (#[trigger] q[j]).coord == coord && possible.contains(
        q[j].tile_index,
    ) && q[j].tile_index != members[p] by {
        let jj = j - n0;
        assert(q[n0 + jj] == q[j]);
        let a = if jj < p {
            jj
        } else {
            jj + 1
        };
        assert(members.to_set().contains(members[a]));
        if a < p {
            assert(members[a] < members[p]);
        } else {
            assert(members[p] < members[a]);
        }
    }
    assert forall|j1: int, j2: int|
        #![trigger q[j1], q[j2]]
        n0 <= j1 < j2 < q.len() implies q[j1].tile_index < q[j2].tile_index by {
        assert(q[n0 + (j1 - n0)] == q[j1]);
        assert(q[n0 + (j2 - n0)] == q[j2]);
        let a1 = if j1 - n0 < p {
            j1 - n0
        } else {
            j1 - n0 + 1
        };
        let a2 = if j2 - n0 < p {
            j2 - n0
        } else {
            j2 - n0 + 1
        };
        assert(a1 < a2);
        assert(members[a1] < members[a2]);
    }
    assert forall|u: usize| possible.contains(u) && u != members[p] implies exists|j: int|
        n0 <= j < q.len() && (#[trigger] q[j]).tile_index == u by {
        assert(members.to_set().contains(u));
        let a = choose|a: int| 0 <= a < members.len() && members[a] == u;
        assert(a != p);
        let jj = if a < p {
            a
        } else {
            a - 1
        };
        assert(q[n0 + jj].tile_index == u);
    }
}

/// With nothing left to propagate, exact counts count possible tiles: the
/// count of tile `t` in direction `e` at cell `i` (which has a neighbour
/// there) is the number of tiles possible in that neighbour that allow `t`
/// next to them in the opposite direction.
pub proof fn lemma_enablers_count_possible(s: CoreState, i: int, t: int, e: int)
    requires
        s.wf(),
        s.enablers_exact(),
        s.tile_removals@.len() == 0,
        0 <= i < s.grid.data@.len(),
        0 <= t < s.model.tiles(),
        0 <= e < 4,
        s.nb(i, e) >= 0,
    ensures
        s.grid.data@[i].tile_enabler_counts@[t].by_direction@[e] == s.grid.data@[s.nb(
            i,
            e,
        )].possible_set().filter(
            |u: usize| s.model.adj(u as int, flip_index(e)).contains(t as usize),
        ).len(),
{
    let j = s.nb(i, e);
    assert(s.queued_at(j) =~= Set::<usize>::empty());
    assert(s.accounted(j) =~= s.grid.data@[j].possible_set());
    assert(s.grid.data@[i].tile_enabler_counts@[t].by_direction@[e] == s.supporters_of(i, t, e).len()
        + (settled_counts())(i, t, e));
}

/// Changing one cell's enabler count for one tile and direction keeps every
/// possible tile of an uncollapsed cell supported, provided the changed
/// count stays positive or no longer matters.
pub proof fn lemma_supported_step(s0: CoreState, s1: CoreState, i1: int, t1: usize, e1: int)
    requires
        s0.wf(),
        s0.supported(),
        s1.grid.width == s0.grid.width,
        s1.grid.height == s0.grid.height,
        s1.grid.data@.len() == s0.grid.data@.len(),
        0 <= i1 < s0.grid.data@.len(),
        forall|k: int| 0 <= k < s0.grid.data@.len() && k != i1 ==> #[trigger] s1.grid.data@[k] == s0.grid.data@[k],
        s1.grid.data@[i1].is_collpased == s0.grid.data@[i1].is_collpased,
        s1.grid.data@[i1].possible_set().subset_of(s0.grid.data@[i1].possible_set()),
        s1.grid.data@[i1].tile_enabler_counts@.len() == s0.grid.data@[i1].tile_enabler_counts@.len(),
        forall|u: int, e: int|
            0 <= u < s0.grid.data@[i1].tile_enabler_counts@.len() && 0 <= e < 4 && !(u == t1 && e == e1)
                ==> #[trigger] s1.grid.data@[i1].tile_enabler_counts@[u].by_direction@[e]
                == s0.grid.data@[i1].tile_enabler_counts@[u].by_direction@[e],
        s1.grid.data@[i1].tile_enabler_counts@[t1 as int].by_direction@[e1] > 0
            || s1.grid.data@[i1].is_collpased || !s1.grid.data@[i1].possible_set().contains(t1),
    ensures
        s1.supported(),
{
    assert forall|i: int, t: usize, e: int|
        0 <= i < s1.grid.data@.len() && 0 <= e < 4 && s1.nb(i, e) >= 0
            && !s1.grid.data@[i].is_collpased && s1.grid.data@[i].possible_set().contains(t)
            implies #[trigger] s1.grid.data@[i].tile_enabler_counts@[t as int].by_direction@[e] > 0 by {
        if i != i1 {
            assert(s1.grid.data@[i] == s0.grid.data@[i]);
            assert(s0.grid.data@[i].tile_enabler_counts@[t as int].by_direction@[e] > 0);
        } else {
            assert(s0.grid.data@[i].possible_set().contains(t));
            assert(s0.grid.data@[i].wf(&s0.model));
            if !(t == t1 && e == e1) {
                assert(s0.grid.data@[i].tile_enabler_counts@[t as int].by_direction@[e] > 0);
            }
        }
    }
}

/// Collapsing cell `c` to `tc` and propagating to the end keeps neighbours
/// of collapsed cells consistent with them.
pub proof fn lemma_consistent_step(s0: CoreState, s1: CoreState, c: int, tc: usize)
    requires
        s0.wf(),
        s1.wf(),
        s0.consistent(),
        *s1.model == *s0.model,
        s1.grid.width == s0.grid.width,
        s1.grid.height == s0.grid.height,
        crate::engine::shrinks_from(s1.grid.data@, s0.grid.data@),
        forall|i: int|
            0 <= i < s1.grid.data@.len() && (#[trigger] s1.grid.data@[i]).is_collpased ==> s0.grid.data@[i].is_collpased
                || i == c,
        0 <= c < s0.grid.data@.len(),
        s0.grid.data@[c].possible_set().contains(tc),
        s1.grid.data@[c].possible_set() == set![tc],
        s1.enablers_exact(),
        s1.supported(),
        s1.tile_removals@.len() == 0,
    ensures
        s1.consistent(),
{
    let w = s0.grid.width as int;
    let h = s0.grid.height as int;
    let m = &*s0.model;
    assert forall|i: int, e: int, t: usize, v: usize|
        #![trigger s1.grid.data@[i].possible_set().contains(t), s1.grid.data@[s1.nb(i, e)].possible_set().contains(v)]
        0 <= i < s1.grid.data@.len() && 0 <= e < 4 && s1.nb(i, e) >= 0
            && s1.grid.data@[i].is_collpased && s1.grid.data@[i].possible_set().contains(t)
            && s1.grid.data@[s1.nb(i, e)].possible_set().contains(v) implies s1.model.adj(
        t as int,
        e,
    ).contains(v) by {
        lemma_nb_index(w, h, i, e);
        let j = s1.nb(i, e);
        assert(s0.grid.data@[j].possible_set().contains(v)) by {
            assert(s1.grid.data@[j].possible_set().subset_of(s0.grid.data@[j].possible_set()));
        }
        if i != c {
            assert(s0.grid.data@[i].is_collpased);
            assert(s0.grid.data@[i].possible_set().contains(t)) by {
                assert(s1.grid.data@[i].possible_set().subset_of(s0.grid.data@[i].possible_set()));
            }
            assert(s0.grid.data@[s0.nb(i, e)].possible_set().contains(v));
        } else {
            assert(t == tc);
            if s1.grid.data@[j].is_collpased {
                assert(s0.grid.data@[j].is_collpased);
                assert(s0.nb(j, flip_index(e)) == i);
                assert(s0.grid.data@[s0.nb(j, flip_index(e))].possible_set().contains(tc));
                assert(m.adj(v as int, flip_index(e)).contains(tc));
                lemma_direction_index(e);
                crate::model::lemma_adjacency_symmetric(*m, tc as int, v as int, Direction::of_index(e));
            } else {
                lemma_nb_index(w, h, j, flip_index(e));
                assert(s1.nb(j, flip_index(e)) == i);
                assert(s1.grid.data@[j].tile_enabler_counts@[v as int].by_direction@[flip_index(e)] > 0);
                assert(s1.grid.data@[j].wf(&s1.model));
                lemma_enablers_count_possible(s1, j, v as int, flip_index(e));
                let f = s1.grid.data@[i].possible_set().filter(
                    |u: usize| s1.model.adj(u as int, flip_index(flip_index(e))).contains(v),
                );
                if !s1.model.adj(tc as int, e).contains(v) {
                    assert(f =~= Set::<usize>::empty());
                }
            }
        }
    }
}

/// Tiles leaving possible sets, with no cell changing whether it is
/// collapsed, keep neighbours of collapsed cells consistent.
pub proof fn lemma_consistent_shrink(s0: CoreState, s1: CoreState)
    requires
        s0.wf(),
        s1.wf(),
        s0.consistent(),
        s1.model == s0.model,
        s1.grid.width == s0.grid.width,
        s1.grid.height == s0.grid.height,
        crate::engine::shrinks_from(s1.grid.data@, s0.grid.data@),
        crate::engine::same_flags(s1.grid.data@, s0.grid.data@),
    ensures
        s1.consistent(),
{
    assert forall|i: int, e: int, t: usize, v: usize|
        #![trigger s1.grid.data@[i].possible_set().contains(t), s1.grid.data@[s1.nb(i, e)].possible_set().contains(v)]
        0 <= i < s1.grid.data@.len() && 0 <= e < 4 && s1.nb(i, e) >= 0
            && s1.grid.data@[i].is_collpased && s1.grid.data@[i].possible_set().contains(t)
            && s1.grid.data@[s1.nb(i, e)].possible_set().contains(v) implies s1.model.adj(
        t as int,
        e,
    ).contains(v) by {
        let j = s1.nb(i, e);
        lemma_nb_index(s0.grid.width as int, s0.grid.height as int, i, e);
        assert(s1.grid.data@[i].possible_set().subset_of(s0.grid.data@[i].possible_set()));
        assert(s1.grid.data@[j].possible_set().subset_of(s0.grid.data@[j].possible_set()));
        assert(s0.grid.data@[i].is_collpased);
        assert(s0.grid.data@[i].possible_set().contains(t));
        assert(s0.grid.data@[s0.nb(i, e)].possible_set().contains(v));
    }
}

/// Once every cell is collapsed, consistency means that neighbouring tiles
/// fit: the tile of the neighbour of cell `i` in direction `e` is allowed
/// next to the tile of `i` in that direction.
pub proof fn lemma_solution_fits(s: CoreState, i: int, e: int)
    requires
        s.wf(),
        s.consistent(),
        forall|k: int| 0 <= k < s.grid.data@.len() ==> (#[trigger] s.grid.data@[k]).is_collpased,
        0 <= i < s.grid.data@.len(),
        0 <= e < 4,
        s.nb(i, e) >= 0,
    ensures
        exists|t: usize, v: usize|
            s.grid.data@[i].possible_set() == set![t] && s.grid.data@[s.nb(i, e)].possible_set()
                == set![v] && s.model.adj(t as int, e).contains(v),
{
    let j = s.nb(i, e);
    lemma_nb_index(s.grid.width as int, s.grid.height as int, i, e);
    assert(s.grid.data@[i].is_collpased);
    assert(s.grid.data@[j].is_collpased);
    let t = choose|t: usize| s.grid.data@[i].possible_set() == set![t];
    let v = choose|v: usize| s.grid.data@[j].possible_set() == set![v];
    assert(s.grid.data@[i].possible_set().contains(t));
    assert(s.grid.data@[j].possible_set().contains(v));
}

/// The tile left in a settled cell.
pub open spec fn tile_at(s: CoreState, k: int) -> usize {
    choose|t: usize| s.grid.data@[k].possible_set() == set![t]
}

/// In a solved engine (every cell collapsed, neighbours consistent) whose
/// tiles are all `n` × `n`, tiles overlap as they should: pixel `(a, b)` of
/// the tile at `(x + i, y + j)` is pixel `(a + i, b + j)` of the tile at
/// `(x, y)`.
pub proof fn lemma_solution_overlaps(s: CoreState, n: int, x: int, y: int, i: int, j: int, a: int, b: int)
    requires
        s.wf(),
        s.consistent(),
        forall|k: int| 0 <= k < s.grid.data@.len() ==> (#[trigger] s.grid.data@[k]).is_collpased,
        forall|t: int|
            0 <= t < s.model.tiles() ==> (#[trigger] s.model.samples@[t]).width() == n
                && s.model.samples@[t].height() == n,
        0 <= x,
        0 <= y,
        0 <= i,
        0 <= j,
        x + i < s.grid.width,
        y + j < s.grid.height,
        0 <= a,
        0 <= b,
        a + i < n,
        b + j < n,
    ensures
        s.model.samples@[tile_at(s, (y + j) * s.grid.width + x + i) as int].px(a, b)
            == s.model.samples@[tile_at(s, y * s.grid.width + x) as int].px(a + i, b + j),
    decreases i + j,
{
    let w = s.grid.width as int;
    let h = s.grid.height as int;
    let m = &*s.model;
    if i > 0 || j > 0 {
        let (px, py, e) = if i > 0 {
            (x + i - 1, y + j, 1int)
        } else {
            (x + i, y + j - 1, 2int)
        };
        let c = Vector2 { x: px as i32, y: py as i32 };
        lemma_nb_coord(w, h, c, e);
        let k0 = py * w + px;
        let k1 = (y + j) * w + x + i;
        assert(s.nb(k0, e) == k1);
        lemma_solution_fits(s, k0, e);
        let tl = tile_at(s, k0);
        let tr = tile_at(s, k1);
        let t = choose|t: usize, v: usize|
            s.grid.data@[k0].possible_set() == set![t] && s.grid.data@[k1].possible_set() == set![v]
                && s.model.adj(t as int, e).contains(v);
        let (t0, v0) = t;
        assert(set![t0].contains(tl));
        assert(set![v0].contains(tr));
        assert(s.grid.data@[k0].wf(&s.model));
        assert(tl < m.tiles());
        assert(m.adj(tl as int, e) == crate::model::compatible_tiles(
            m.samples@,
            m.samples@[tl as int],
            Direction::of_index(e),
            m.tiles(),
        ));
        let ls = m.samples@[tl as int];
        let rs = m.samples@[tr as int];
        if i > 0 {
            assert(crate::sample::agrees_at(ls, rs, Direction::Right, a, b));
            lemma_solution_overlaps(s, n, x, y, i - 1, j, a + 1, b);
        } else {
            assert(crate::sample::agrees_at(ls, rs, Direction::Down, a, b));
            lemma_solution_overlaps(s, n, x, y, i, j - 1, a, b + 1);
        }
    }
}

/// Every `n` × `n` window inside the image of a solved engine (see
/// `lemma_solution_overlaps`) is a tile of the model: the colour of cell
/// `(x + i, y + j)`, the top-left pixel of its tile, is pixel `(i, j)` of the
/// tile at `(x, y)`.
pub proof fn lemma_solution_windows(s: CoreState, n: int, x: int, y: int)
    requires
        s.wf(),
        s.consistent(),
        forall|k: int| 0 <= k < s.grid.data@.len() ==> (#[trigger] s.grid.data@[k]).is_collpased,
        forall|t: int|
            0 <= t < s.model.tiles() ==> (#[trigger] s.model.samples@[t]).width() == n
                && s.model.samples@[t].height() == n,
        n >= 1,
        0 <= x,
        0 <= y,
        x + n <= s.grid.width,
        y + n <= s.grid.height,
    ensures
        forall|i: int, j: int|
            0 <= i < n && 0 <= j < n ==> (#[trigger] crate::engine::cell_colour(
                &*s.model,
                s.grid.data@[(y + j) * s.grid.width + x + i],
            ))@ == s.model.samples@[tile_at(s, y * s.grid.width + x) as int].px(i, j),
{
    assert forall|i: int, j: int| 0 <= i < n && 0 <= j < n implies (#[trigger] crate::engine::cell_colour(
        &*s.model,
        s.grid.data@[(y + j) * s.grid.width + x + i],
    ))@ == s.model.samples@[tile_at(s, y * s.grid.width + x) as int].px(i, j) by {
        let k = (y + j) * s.grid.width + x + i;
        lemma_row_major(s.grid.width as int, s.grid.height as int, x + i, y + j);
        assert(s.grid.data@[k].is_collpased);
        assert(s.grid.data@[k].settled());
        let t = tile_at(s, k);
        assert(s.grid.data@[k].possible_set().contains(t));
        assert(s.grid.data@[k].wf(&s.model));
        lemma_solution_overlaps(s, n, x, y, i, j, 0, 0);
    }
}

/// Every tile of `m` is `n` × `n`.
pub open spec fn tiles_of_size(m: &Model, n: int) -> bool {
    forall|t: int| 0 <= t < m.tiles() ==> (#[trigger] m.samples@[t]).width() == n && m.samples@[t].height() == n
}

/// The `n` × `n` window of the row-major `w`-wide image `px` at `(x, y)`
/// shows the pixels of tile `t` of `m`.
pub open spec fn shows_tile(m: &Model, px: Seq<Rgb>, w: int, n: int, x: int, y: int, t: int) -> bool {
    &&& 0 <= t < m.tiles()
    &&& forall|i: int, j: int|
        0 <= i < n && 0 <= j < n ==> px[(y + j) * w + x + i]@ == #[trigger] m.samples@[t].px(i, j)
}

/// The `n` × `n` window of the row-major `w`-wide image `px` at `(x, y)`
/// is the pixels of some tile of `m`.
pub open spec fn window_is_tile(m: &Model, px: Seq<Rgb>, w: int, n: int, x: int, y: int) -> bool {
    exists|t: int| #[trigger] shows_tile(m, px, w, n, x, y, t)
}

/// Every window of the `w` × `h` image `px` that lies inside it, of the size
/// of the tiles of `m`, is the pixels of some tile.
pub open spec fn windows_are_tiles(m: &Model, px: Seq<Rgb>, w: int, h: int) -> bool {
    forall|n: int, x: int, y: int|
        n >= 1 && tiles_of_size(m, n) && 0 <= x && 0 <= y && x + n <= w && y + n <= h
            ==> #[trigger] window_is_tile(m, px, w, n, x, y)
}

/// The image of a solved engine (one colour per cell, see
/// `CoreState::output_pixels`) has every window a tile.
pub proof fn lemma_image_windows(s: CoreState, px: Seq<Rgb>)
    requires
        s.wf(),
        s.consistent(),
        forall|k: int| 0 <= k < s.grid.data@.len() ==> (#[trigger] s.grid.data@[k]).is_collpased,
        px.len() == s.grid.data@.len(),
        forall|k: int| 0 <= k < px.len() ==> #[trigger] px[k] == crate::engine::cell_colour(&*s.model, s.grid.data@[k]),
    ensures
        windows_are_tiles(&*s.model, px, s.grid.width as int, s.grid.height as int),
{
    let w = s.grid.width as int;
    let h = s.grid.height as int;
    assert forall|n: int, x: int, y: int|
        n >= 1 && tiles_of_size(&*s.model, n) && 0 <= x && 0 <= y && x + n <= w && y + n <= h
            implies #[trigger] window_is_tile(&*s.model, px, w, n, x, y) by {
        lemma_solution_windows(s, n, x, y);
        let k = y * w + x;
        lemma_row_major(w, h, x, y);
        assert(s.grid.data@[k].is_collpased);
        assert(s.grid.data@[k].settled());
        let t = tile_at(s, k);
        assert(s.grid.data@[k].possible_set().contains(t));
        assert(s.grid.data@[k].wf(&s.model));
        let m = &*s.model;
        assert forall|i: int, j: int| 0 <= i < n && 0 <= j < n implies px[(y + j) * w + x + i]@
            == #[trigger] m.samples@[t as int].px(i, j) by {
            lemma_row_major(w, h, x + i, y + j);
        }
        assert(shows_tile(m, px, w, n, x, y, t as int));
    }
}

/// The tile that a window shows.
pub proof fn lemma_window_tile(m: &Model, px: Seq<Rgb>, w: int, n: int, x: int, y: int) -> (t: int)
    requires
        window_is_tile(m, px, w, n, x, y),
    ensures
        shows_tile(m, px, w, n, x, y, t),
{
    choose|t: int| #[trigger] shows_tile(m, px, w, n, x, y, t)
}

/// `b` is `a` with entries appended.
pub open spec fn extends<T>(a: Seq<T>, b: Seq<T>) -> bool {
    b.len() >= a.len() && b.subrange(0, a.len() as int) == a
}

pub proof fn lemma_extends_push<T>(a: Seq<T>, b: Seq<T>, x: T)
    requires
        extends(a, b),
    ensures
        extends(a, b.push(x)),
{
    assert(b.push(x).subrange(0, a.len() as int) =~= b.subrange(0, a.len() as int));
}

pub proof fn lemma_extends_trans<T>(a: Seq<T>, b: Seq<T>, c: Seq<T>)
    requires
        extends(a, b),
        extends(b, c),
    ensures
        extends(a, c),
{
    assert(c.subrange(0, a.len() as int) =~= c.subrange(0, b.len() as int).subrange(0, a.len() as int));
}

/// A queue that only grew, over cells of which none became uncollapsed and
/// of which `c` (if any) is now collapsed, still has an entry for every
/// uncollapsed cell.
pub proof fn lemma_covers_kept(s0: CoreState, s1: CoreState, c: int)
    requires
        s0.covers_except(c),
        s1.grid.width == s0.grid.width,
        s1.grid.data@.len() == s0.grid.data@.len(),
        extends(s0.entropy_heap@, s1.entropy_heap@),
        forall|i: int|
            0 <= i < s1.grid.data@.len() && !(#[trigger] s1.grid.data@[i]).is_collpased
                ==> !s0.grid.data@[i].is_collpased && i != c,
    ensures
        s1.covers_except(-1),
{
    assert forall|i: int|
        0 <= i < s1.grid.data@.len() && i != -1 && !(#[trigger] s1.grid.data@[i]).is_collpased implies exists|k: int|
        0 <= k < s1.entropy_heap@.len() && s1.grid.index_of((#[trigger] s1.entropy_heap@[k]).coord) == i by {
        assert(!s0.grid.data@[i].is_collpased);
        let k = choose|k: int|
            0 <= k < s0.entropy_heap@.len() && s0.grid.index_of((#[trigger] s0.entropy_heap@[k]).coord)
                == i;
        assert(s1.entropy_heap@.subrange(0, s0.entropy_heap@.len() as int)[k] == s1.entropy_heap@[k]);
    }
}

/// A fresh engine over a model with a single tile, allowed next to itself
/// in every direction, has every possible tile supported and no cell empty.
pub proof fn lemma_single_tile_ready(s: CoreState)
    requires
        s.wf(),
        s.fresh(),
        s.model.tiles() == 1,
        forall|d: int| 0 <= d < 4 ==> #[trigger] s.model.adj(0, d).contains(0usize),
    ensures
        s.supported(),
        !crate::engine::has_empty(s.grid.data@),
{
    let m = &*s.model;
    assert forall|d: int| 0 <= d < 4 implies #[trigger] m.adj(0, d).len() == 1 by {
        assert(m.adj(0, d) == crate::model::compatible_tiles(
            m.samples@,
            m.samples@[0],
            Direction::of_index(d),
            m.tiles(),
        ));
        assert(m.adj(0, d) =~= set![0usize]);
    }
    assert forall|i: int, t: usize, e: int|
        0 <= i < s.grid.data@.len() && 0 <= e < 4 && s.nb(i, e) >= 0
            && !s.grid.data@[i].is_collpased && s.grid.data@[i].possible_set().contains(t)
            implies #[trigger] s.grid.data@[i].tile_enabler_counts@[t as int].by_direction@[e] > 0 by {
        assert(s.grid.data@[i].possible_set() == Set::new(|u: usize| u < m.tiles()));
        assert(t == 0);
        assert(m.adj(0, e).len() == 1);
    }
    if crate::engine::has_empty(s.grid.data@) {
        let i = choose|i: int|
            0 <= i < s.grid.data@.len() && #[trigger] s.grid.data@[i].possible_set() == Set::<usize>::empty();
        assert(s.grid.data@[i].possible_set() == Set::new(|u: usize| u < m.tiles()));
        assert(s.grid.data@[i].possible_set().contains(0usize));
    }
}

/// A part copied from a rectangle of a supported engine with no empty cell
/// is supported and has no empty cell: its cells have the same states, and
/// a neighbour inside the part is a neighbour inside the whole.
pub proof fn lemma_part_supported(s: CoreState, p: CoreState, ox: int, oy: int, w: int, h: int)
    requires
        s.wf(),
        p.wf(),
        s.supported(),
        !crate::engine::has_empty(s.grid.data@),
        p.grid.width == w,
        p.grid.height == h,
        0 <= ox,
        0 <= oy,
        ox + w <= s.grid.width,
        oy + h <= s.grid.height,
        forall|j: int|
            0 <= j < p.grid.data@.len() ==> (#[trigger] p.grid.data@[j]).same_state(
                &s.grid.data@[(oy + j / w) * s.grid.width + ox + j % w],
            ),
    ensures
        p.supported(),
        !crate::engine::has_empty(p.grid.data@),
{
    let sw = s.grid.width as int;
    let sh = s.grid.height as int;
    assert forall|j: int, t: usize, e: int|
        0 <= j < p.grid.data@.len() && 0 <= e < 4 && p.nb(j, e) >= 0
            && !p.grid.data@[j].is_collpased && p.grid.data@[j].possible_set().contains(t)
            implies #[trigger] p.grid.data@[j].tile_enabler_counts@[t as int].by_direction@[e] > 0 by {
        lemma_coord_of(w, h, j);
        let x = ox + j % w;
        let y = oy + j / w;
        lemma_row_major(sw, sh, x, y);
        let sj = y * sw + x;
        vstd::arithmetic::div_mod::lemma_fundamental_div_mod_converse(sj, sw, y, x);
        assert(p.grid.data@[j].same_state(&s.grid.data@[sj]));
        assert(s.nb(sj, e) >= 0);
        assert(s.grid.data@[sj].tile_enabler_counts@[t as int].by_direction@[e] > 0);
    }
    if crate::engine::has_empty(p.grid.data@) {
        let j = choose|j: int|
            0 <= j < p.grid.data@.len() && #[trigger] p.grid.data@[j].possible_set() == Set::<usize>::empty();
        lemma_coord_of(w, h, j);
        lemma_row_major(sw, sh, ox + j % w, oy + j / w);
        let sj = (oy + j / w) * sw + ox + j % w;
        assert(p.grid.data@[j].same_state(&s.grid.data@[sj]));
        assert(s.grid.data@[sj].possible_set() == Set::<usize>::empty());
    }
}

/// A full copy of an engine with nothing queued keeps exact counts and
/// consistency.
pub proof fn lemma_copy_keeps(s: CoreState, c: CoreState)
    requires
        s.wf(),
        c.wf(),
        c.grid.width == s.grid.width,
        c.grid.height == s.grid.height,
        *c.model == *s.model,
        s.tile_removals@.len() == 0,
        c.tile_removals@.len() == 0,
        forall|j: int|
            0 <= j < c.grid.data@.len() ==> (#[trigger] c.grid.data@[j]).same_state(
                &s.grid.data@[(0 + j / (c.grid.width as int)) * s.grid.width + 0 + j % (c.grid.width as int)],
            ),
    ensures
        s.enablers_exact() ==> c.enablers_exact(),
        s.consistent() ==> c.consistent(),
{
    let w = s.grid.width as int;
    let h = s.grid.height as int;
    assert forall|j: int| 0 <= j < c.grid.data@.len() implies #[trigger] c.grid.data@[j].same_state(
        &s.grid.data@[j],
    ) by {
        lemma_coord_of(w, h, j);
        assert(c.grid.data@[j].same_state(&s.grid.data@[(0 + j / w) * w + 0 + j % w]));
    }
    assert forall|k: int| 0 <= k < c.grid.data@.len() implies c.accounted(k) == s.accounted(k) by {
        assert(c.queued_at(k) =~= Set::<usize>::empty());
        assert(s.queued_at(k) =~= Set::<usize>::empty());
        assert(c.grid.data@[k].same_state(&s.grid.data@[k]));
        assert(c.accounted(k) =~= s.accounted(k));
    }
    if s.enablers_exact() {
        assert forall|i: int, t: int, e: int|
            0 <= i < c.grid.data@.len() && 0 <= t < c.model.tiles() && 0 <= e < 4 && c.nb(i, e) >= 0
                implies #[trigger] c.grid.data@[i].tile_enabler_counts@[t].by_direction@[e]
            == c.supporters_of(i, t, e).len() + (settled_counts())(i, t, e) by {
            lemma_nb_index(w, h, i, e);
            assert(c.grid.data@[i].same_state(&s.grid.data@[i]));
            assert(s.grid.data@[i].tile_enabler_counts@[t].by_direction@[e] == s.supporters_of(i, t, e).len()
                + (settled_counts())(i, t, e));
            assert(c.supporters_of(i, t, e) =~= s.supporters_of(i, t, e));
        }
    }
    if s.consistent() {
        assert forall|i: int, e: int, t: usize, v: usize|
            #![trigger c.grid.data@[i].possible_set().contains(t), c.grid.data@[c.nb(i, e)].possible_set().contains(v)]
            0 <= i < c.grid.data@.len() && 0 <= e < 4 && c.nb(i, e) >= 0
                && c.grid.data@[i].is_collpased && c.grid.data@[i].possible_set().contains(t)
                && c.grid.data@[c.nb(i, e)].possible_set().contains(v) implies c.model.adj(
            t as int,
            e,
        ).contains(v) by {
            lemma_nb_index(w, h, i, e);
            assert(c.grid.data@[i].same_state(&s.grid.data@[i]));
            assert(c.grid.data@[c.nb(i, e)].same_state(&s.grid.data@[s.nb(i, e)]));
            assert(s.grid.data@[s.nb(i, e)].possible_set().contains(v));
        }
    }
}

/// Index in a `sw`-wide grid of cell `j` of the `w`-wide rectangle whose
/// top-left corner is `(ox, oy)`.
pub open spec fn part_to_whole(sw: int, ox: int, oy: int, w: int, j: int) -> int {
    (oy + j / w) * sw + ox + j % w
}

/// A cell of a rectangle inside the grid has its coordinates shifted by the
/// rectangle's corner.
pub proof fn lemma_part_index(sw: int, sh: int, ox: int, oy: int, w: int, h: int, j: int)
    requires
        0 <= w,
        0 <= h,
        0 <= ox,
        0 <= oy,
        ox + w <= sw,
        oy + h <= sh,
        0 <= j < w * h,
    ensures
        w > 0,
        0 <= j % w < w,
        0 <= j / w < h,
        0 <= part_to_whole(sw, ox, oy, w, j) < sw * sh,
        part_to_whole(sw, ox, oy, w, j) % sw == ox + j % w,
        part_to_whole(sw, ox, oy, w, j) / sw == oy + j / w,
{
    lemma_coord_of(w, h, j);
    lemma_row_major(sw, sh, ox + j % w, oy + j / w);
    vstd::arithmetic::div_mod::lemma_fundamental_div_mod_converse(
        part_to_whole(sw, ox, oy, w, j),
        sw,
        oy + j / w,
        ox + j % w,
    );
}

/// A cell of the grid inside a rectangle is a cell of that rectangle.
pub proof fn lemma_whole_to_part(sw: int, sh: int, ox: int, oy: int, w: int, h: int, k: int)
    requires
        0 <= w,
        0 <= h,
        0 <= ox,
        0 <= oy,
        ox + w <= sw,
        oy + h <= sh,
        0 <= k < sw * sh,
        ox <= k % sw < ox + w,
        oy <= k / sw < oy + h,
    ensures
        0 <= (k / sw - oy) * w + (k % sw - ox) < w * h,
        part_to_whole(sw, ox, oy, w, (k / sw - oy) * w + (k % sw - ox)) == k,
{
    let j = (k / sw - oy) * w + (k % sw - ox);
    lemma_coord_of(sw, sh, k);
    lemma_row_major(w, h, k % sw - ox, k / sw - oy);
    vstd::arithmetic::div_mod::lemma_fundamental_div_mod_converse(j, w, k / sw - oy, k % sw - ox);
}

/// Neighbours inside a rectangle are the neighbours in the whole grid.
pub proof fn lemma_part_nb(sw: int, sh: int, ox: int, oy: int, w: int, h: int, j: int, e: int)
    requires
        0 <= w,
        0 <= h,
        0 <= ox,
        0 <= oy,
        ox + w <= sw,
        oy + h <= sh,
        0 <= j < w * h,
        0 <= e < 4,
    ensures
        nb_index(w, h, j, e) >= 0 <==> (ox <= ox + j % w + step_x(Direction::of_index(e)) < ox + w
            && oy <= oy + j / w + step_y(Direction::of_index(e)) < oy + h),
        nb_index(w, h, j, e) >= 0 ==> nb_index(sw, sh, part_to_whole(sw, ox, oy, w, j), e)
            == part_to_whole(sw, ox, oy, w, nb_index(w, h, j, e)),
{
    lemma_part_index(sw, sh, ox, oy, w, h, j);
    let n = nb_index(w, h, j, e);
    if n >= 0 {
        let d = Direction::of_index(e);
        lemma_row_major(w, h, j % w + step_x(d), j / w + step_y(d));
        vstd::arithmetic::div_mod::lemma_fundamental_div_mod_converse(
            n,
            w,
            j / w + step_y(d),
            j % w + step_x(d),
        );
        lemma_row_major(sw, sh, ox + j % w + step_x(d), oy + j / w + step_y(d));
    }
}

/// A rectangle copied from an engine with nothing queued, itself with
/// nothing queued, keeps exact counts and consistency: inside the rectangle
/// a cell's neighbours are those of the whole.
pub proof fn lemma_part_keeps(s: CoreState, p: CoreState, ox: int, oy: int, w: int, h: int)
    requires
        s.wf(),
        p.wf(),
        *p.model == *s.model,
        s.tile_removals@.len() == 0,
        p.tile_removals@.len() == 0,
        p.grid.width == w,
        p.grid.height == h,
        0 <= ox,
        0 <= oy,
        ox + w <= s.grid.width,
        oy + h <= s.grid.height,
        forall|j: int|
            0 <= j < p.grid.data@.len() ==> (#[trigger] p.grid.data@[j]).same_state(
                &s.grid.data@[(oy + j / w) * s.grid.width + ox + j % w],
            ),
    ensures
        s.enablers_exact() ==> p.enablers_exact(),
        s.consistent() ==> p.consistent(),
{
    let sw = s.grid.width as int;
    let sh = s.grid.height as int;
    assert forall|k: int| 0 <= k < p.grid.data@.len() implies p.accounted(k) == p.grid.data@[k].possible_set() by {
        assert(p.queued_at(k) =~= Set::<usize>::empty());
        assert(p.accounted(k) =~= p.grid.data@[k].possible_set());
    }
    assert forall|k: int| 0 <= k < s.grid.data@.len() implies s.accounted(k) == s.grid.data@[k].possible_set() by {
        assert(s.queued_at(k) =~= Set::<usize>::empty());
        assert(s.accounted(k) =~= s.grid.data@[k].possible_set());
    }
    if s.enablers_exact() {
        assert forall|i: int, t: int, e: int|
            0 <= i < p.grid.data@.len() && 0 <= t < p.model.tiles() && 0 <= e < 4 && p.nb(i, e) >= 0
                implies #[trigger] p.grid.data@[i].tile_enabler_counts@[t].by_direction@[e]
            == p.supporters_of(i, t, e).len() + (settled_counts())(i, t, e) by {
            lemma_part_nb(sw, sh, ox, oy, w, h, i, e);
            lemma_part_index(sw, sh, ox, oy, w, h, i);
            let j = p.nb(i, e);
            lemma_nb_index(w, h, i, e);
            lemma_part_index(sw, sh, ox, oy, w, h, j);
            let k = part_to_whole(sw, ox, oy, w, i);
            assert(p.grid.data@[i].same_state(&s.grid.data@[k]));
            assert(p.grid.data@[j].same_state(&s.grid.data@[part_to_whole(sw, ox, oy, w, j)]));
            assert(s.grid.data@[k].tile_enabler_counts@[t].by_direction@[e] == s.supporters_of(k, t, e).len()
                + (settled_counts())(k, t, e));
            assert(p.supporters_of(i, t, e) =~= s.supporters_of(k, t, e));
        }
    }
    if s.consistent() {
        assert forall|i: int, e: int, t: usize, v: usize|
            #![trigger p.grid.data@[i].possible_set().contains(t), p.grid.data@[p.nb(i, e)].possible_set().contains(v)]
            0 <= i < p.grid.data@.len() && 0 <= e < 4 && p.nb(i, e) >= 0
                && p.grid.data@[i].is_collpased && p.grid.data@[i].possible_set().contains(t)
                && p.grid.data@[p.nb(i, e)].possible_set().contains(v) implies p.model.adj(
            t as int,
            e,
        ).contains(v) by {
            lemma_part_nb(sw, sh, ox, oy, w, h, i, e);
            lemma_part_index(sw, sh, ox, oy, w, h, i);
            let j = p.nb(i, e);
            lemma_nb_index(w, h, i, e);
            lemma_part_index(sw, sh, ox, oy, w, h, j);
            let k = part_to_whole(sw, ox, oy, w, i);
            assert(p.grid.data@[i].same_state(&s.grid.data@[k]));
            assert(p.grid.data@[j].same_state(&s.grid.data@[part_to_whole(sw, ox, oy, w, j)]));
            assert(s.grid.data@[s.nb(k, e)].possible_set().contains(v));
        }
    }
}

/// Corner and size of part `q` of a `w` × `h` grid split at half its width
/// and half its height: top-left, top-right, bottom-left, bottom-right.
pub open spec fn part_ox(q: int, w: int) -> int {
    if q % 2 == 1 {
        w / 2
    } else {
        0
    }
}

pub open spec fn part_oy(q: int, h: int) -> int {
    if q >= 2 {
        h / 2
    } else {
        0
    }
}

pub open spec fn part_w(q: int, w: int) -> int {
    if q % 2 == 1 {
        w - w / 2
    } else {
        w / 2
    }
}

pub open spec fn part_h(q: int, h: int) -> int {
    if q >= 2 {
        h - h / 2
    } else {
        h / 2
    }
}

/// The part that holds position `(x, y)`.
pub open spec fn part_at(x: int, y: int, w: int, h: int) -> int {
    (if y >= h / 2 {
        2int
    } else {
        0int
    }) + (if x >= w / 2 {
        1int
    } else {
        0int
    })
}

/// The image of a split run is consistent. Inside a part, neighbours are
/// consistent because the part's solved engine is; across the border of two
/// parts, one of the two cells lies on the middle column or row, which the
/// collapsed cross holds, and both cells only lost tiles since the split.
pub proof fn lemma_split_consistent(s: CoreState, gs: Seq<Grid2D<CoreCell>>, c: CoreState)
    requires
        s.wf(),
        s.consistent(),
        forall|k: int|
            0 <= k < s.grid.data@.len() && (k % s.grid.width as int == s.grid.width / 2 || k
                / s.grid.width as int == s.grid.height / 2) ==> (#[trigger] s.grid.data@[k]).is_collpased,
        gs.len() == 4,
        forall|q: int|
            0 <= q < 4 ==> (#[trigger] gs[q]).width == part_w(q, s.grid.width as int) && gs[q].height
                == part_h(q, s.grid.height as int) && gs[q].wf(),
        forall|q: int|
            0 <= q < 4 ==> exists|sq: CoreState|
                sq.grid == #[trigger] gs[q] && *sq.model == *s.model && sq.wf() && sq.consistent(),
        forall|q: int, i: int|
            0 <= q < 4 && 0 <= i < gs[q].data@.len() ==> (#[trigger] gs[q].data@[i]).possible_set().subset_of(
                s.grid.data@[part_to_whole(
                    s.grid.width as int,
                    part_ox(q, s.grid.width as int),
                    part_oy(q, s.grid.height as int),
                    part_w(q, s.grid.width as int),
                    i,
                )].possible_set(),
            ),
        c.wf(),
        *c.model == *s.model,
        c.grid.width == s.grid.width,
        c.grid.height == s.grid.height,
        forall|k: int|
            0 <= k < c.grid.data@.len() ==> (#[trigger] c.grid.data@[k]).same_state(
                &crate::engine::quadrant_cell(gs, c.grid.width as int, c.grid.height as int, k),
            ) && c.grid.data@[k].is_collpased,
    ensures
        c.consistent(),
{
    let sw = s.grid.width as int;
    let sh = s.grid.height as int;
    let m = &*s.model;
    assert forall|k: int| 0 <= k < c.grid.data@.len() implies #[trigger] c.grid.data@[k].possible_set().subset_of(
        s.grid.data@[k].possible_set(),
    ) by {
        lemma_coord_of(sw, sh, k);
        let q = part_at(k % sw, k / sw, sw, sh);
        let ox = part_ox(q, sw);
        let oy = part_oy(q, sh);
        let w = part_w(q, sw);
        let h = part_h(q, sh);
        lemma_whole_to_part(sw, sh, ox, oy, w, h, k);
        let j = (k / sw - oy) * w + (k % sw - ox);
        assert(gs[q].data@[j].possible_set().subset_of(s.grid.data@[part_to_whole(sw, ox, oy, w, j)].possible_set()));
    }
    assert forall|i: int, e: int, t: usize, v: usize|
        #![trigger c.grid.data@[i].possible_set().contains(t), c.grid.data@[c.nb(i, e)].possible_set().contains(v)]
        0 <= i < c.grid.data@.len() && 0 <= e < 4 && c.nb(i, e) >= 0
            && c.grid.data@[i].is_collpased && c.grid.data@[i].possible_set().contains(t)
            && c.grid.data@[c.nb(i, e)].possible_set().contains(v) implies c.model.adj(t as int, e).contains(
        v,
    ) by {
        let k2 = c.nb(i, e);
        lemma_nb_index(sw, sh, i, e);
        lemma_coord_of(sw, sh, i);
        lemma_coord_of(sw, sh, k2);
        let d = Direction::of_index(e);
        let x = i % sw;
        let y = i / sw;
        lemma_row_major(sw, sh, x + step_x(d), y + step_y(d));
        vstd::arithmetic::div_mod::lemma_fundamental_div_mod_converse(k2, sw, y + step_y(d), x + step_x(d));
        let x2 = k2 % sw;
        let y2 = k2 / sw;
        let q = part_at(x, y, sw, sh);
        let q2 = part_at(x2, y2, sw, sh);
        assert(c.grid.data@[k2].possible_set().subset_of(s.grid.data@[k2].possible_set()));
        assert(c.grid.data@[i].possible_set().subset_of(s.grid.data@[i].possible_set()));
        if q == q2 {
            let ox = part_ox(q, sw);
            let oy = part_oy(q, sh);
            let w = part_w(q, sw);
            let h = part_h(q, sh);
            lemma_whole_to_part(sw, sh, ox, oy, w, h, i);
            lemma_whole_to_part(sw, sh, ox, oy, w, h, k2);
            let j = (y - oy) * w + (x - ox);
            let j2 = (y2 - oy) * w + (x2 - ox);
            lemma_part_index(sw, sh, ox, oy, w, h, j);
            lemma_part_nb(sw, sh, ox, oy, w, h, j, e);
            let ln = nb_index(w, h, j, e);
            lemma_nb_index(w, h, j, e);
            lemma_part_index(sw, sh, ox, oy, w, h, ln);
            lemma_part_index(sw, sh, ox, oy, w, h, j2);
            vstd::arithmetic::div_mod::lemma_fundamental_div_mod(ln, w);
            vstd::arithmetic::div_mod::lemma_fundamental_div_mod(j2, w);
            assert(ln == j2);
            let sq = choose|sq: CoreState|
                sq.grid == #[trigger] gs[q] && *sq.model == *s.model && sq.wf() && sq.consistent();
            assert(c.grid.data@[i].same_state(&gs[q].data@[j]));
            assert(c.grid.data@[k2].same_state(&gs[q].data@[j2]));
            assert(sq.nb(j, e) == j2);
            assert(sq.grid.data@[j].possible_set().contains(t));
            assert(sq.grid.data@[sq.nb(j, e)].possible_set().contains(v));
        } else {
            assert(s.grid.data@[i].possible_set().contains(t));
            assert(s.grid.data@[k2].possible_set().contains(v));
            if x == sw / 2 || y == sh / 2 {
                assert(s.grid.data@[i].is_collpased);
                assert(s.grid.data@[s.nb(i, e)].possible_set().contains(v));
            } else {
                assert(x2 == sw / 2 || y2 == sh / 2);
                assert(s.grid.data@[k2].is_collpased);
                assert(s.nb(k2, flip_index(e)) == i);
                assert(s.grid.data@[s.nb(k2, flip_index(e))].possible_set().contains(t));
                assert(m.adj(v as int, flip_index(e)).contains(t));
                assert(s.grid.data@[i].wf(&s.model));
                assert(s.grid.data@[k2].wf(&s.model));
                lemma_direction_index(e);
                crate::model::lemma_adjacency_symmetric(*m, t as int, v as int, d);
            }
        }
    }
}

/// The cell that holds position `k` of a split grid is a cell of one of
/// the four parts, at its place in that part.
pub proof fn lemma_quadrant_cell(gs: Seq<Grid2D<CoreCell>>, w: int, h: int, k: int) -> (qi: (int, int))
    requires
        gs.len() == 4,
        forall|q: int|
            0 <= q < 4 ==> (#[trigger] gs[q]).width == part_w(q, w) && gs[q].height == part_h(q, h)
                && gs[q].wf(),
        0 <= w,
        0 <= h,
        0 <= k < w * h,
    ensures
        0 <= qi.0 < 4,
        0 <= qi.1 < gs[qi.0].data@.len(),
        crate::engine::quadrant_cell(gs, w, h, k) == gs[qi.0].data@[qi.1],
{
    lemma_coord_of(w, h, k);
    let q = part_at(k % w, k / w, w, h);
    let ox = part_ox(q, w);
    let oy = part_oy(q, h);
    let pw = part_w(q, w);
    let ph = part_h(q, h);
    lemma_whole_to_part(w, h, ox, oy, pw, ph, k);
    let i = (k / w - oy) * pw + (k % w - ox);
    assert(gs[q].data@.len() == pw * ph);
    (q, i)
}

impl CoreState {
    /// The neighbour of cell `i` in direction `e`, or -1.
    pub open spec fn nb(&self, i: int, e: int) -> int {
        nb_index(self.grid.width as int, self.grid.height as int, i, e)
    }

    /// The tiles whose removal at cell `i` is queued.
    pub open spec fn queued_at(&self, i: int) -> Set<usize> {
        Set::new(
            |u: usize|
                exists|j: int|
                    0 <= j < self.tile_removals@.len() && (#[trigger] self.tile_removals@[j]).tile_index
                        == u && self.grid.index_of(self.tile_removals@[j].coord) == i,
        )
    }

    /// The tiles accounted for at cell `i`.
    pub open spec fn accounted(&self, i: int) -> Set<usize> {
        self.grid.data@[i].possible_set().union(self.queued_at(i))
    }

    /// The tiles accounted for in the neighbour of cell `i` in direction `e`
    /// that allow tile `t` next to them in the opposite direction.
    pub open spec fn supporters_of(&self, i: int, t: int, e: int) -> Set<usize> {
        self.accounted(self.nb(i, e)).filter(
            |u: usize| self.model.adj(u as int, flip_index(e)).contains(t as usize),
        )
    }

    /// A queued removal names a tile no longer possible at its cell, and no
    /// removal is queued twice.
    pub open spec fn queue_sound(&self) -> bool {
        &&& forall|j: int|
            0 <= j < self.tile_removals@.len() ==> !self.grid.data@[self.grid.index_of(
                self.tile_removals@[j].coord,
            )].possible_set().contains((#[trigger] self.tile_removals@[j]).tile_index)
        &&& forall|j1: int, j2: int|
            #![trigger self.tile_removals@[j1], self.tile_removals@[j2]]
            0 <= j1 < j2 < self.tile_removals@.len() ==> !(self.tile_removals@[j1].tile_index
                == self.tile_removals@[j2].tile_index && self.grid.index_of(
                self.tile_removals@[j1].coord,
            ) == self.grid.index_of(self.tile_removals@[j2].coord))
    }

    /// Every enabler count, for every tile and every direction in which the
    /// cell has a neighbour, is the number of its supporters plus what
    /// `owed` says is still to be taken off.
    pub open spec fn exact_with(&self, owed: spec_fn(int, int, int) -> int) -> bool {
        &&& self.queue_sound()
        &&& forall|i: int, t: int, e: int|
            0 <= i < self.grid.data@.len() && 0 <= t < self.model.tiles() && 0 <= e < 4 && self.nb(
                i,
                e,
            ) >= 0 ==> #[trigger] self.grid.data@[i].tile_enabler_counts@[t].by_direction@[e]
                == self.supporters_of(i, t, e).len() + owed(i, t, e)
    }

    /// Every enabler count is exact.
    pub open spec fn enablers_exact(&self) -> bool {
        self.exact_with(settled_counts())
    }

    /// Every tile possible in an uncollapsed cell has an enabler in each
    /// direction in which the cell has a neighbour.
    pub open spec fn supported(&self) -> bool {
        forall|i: int, t: usize, e: int|
            0 <= i < self.grid.data@.len() && 0 <= e < 4 && self.nb(i, e) >= 0
                && !self.grid.data@[i].is_collpased && self.grid.data@[i].possible_set().contains(t)
                ==> #[trigger] self.grid.data@[i].tile_enabler_counts@[t as int].by_direction@[e] > 0
    }

    /// Every tile possible next to a collapsed cell may sit there: for a
    /// collapsed cell `i` with tile `t` and a tile `v` possible in its
    /// neighbour in direction `e`, `v` is allowed next to `t` in direction `e`.
    pub open spec fn consistent(&self) -> bool {
        forall|i: int, e: int, t: usize, v: usize|
            #![trigger self.grid.data@[i].possible_set().contains(t), self.grid.data@[self.nb(i, e)].possible_set().contains(v)]
            0 <= i < self.grid.data@.len() && 0 <= e < 4 && self.nb(i, e) >= 0
                && self.grid.data@[i].is_collpased && self.grid.data@[i].possible_set().contains(t)
                && self.grid.data@[self.nb(i, e)].possible_set().contains(v) ==> self.model.adj(
                t as int,
                e,
            ).contains(v)
    }

    /// `supported`, for the cells before `idx` and the tiles before `t` of
    /// cell `idx`.
    pub open spec fn supported_before(&self, idx: int, t: int) -> bool {
        forall|i: int, u: usize, e: int|
            0 <= i < self.grid.data@.len() && 0 <= e < 4 && self.nb(i, e) >= 0
                && !self.grid.data@[i].is_collpased && self.grid.data@[i].possible_set().contains(u)
                && (i < idx || (i == idx && u < t))
                ==> #[trigger] self.grid.data@[i].tile_enabler_counts@[u as int].by_direction@[e] > 0
    }

    /// Every uncollapsed cell but `c` has an entry in the entropy queue.
    pub open spec fn covers_except(&self, c: int) -> bool {
        forall|i: int|
            0 <= i < self.grid.data@.len() && i != c && !(#[trigger] self.grid.data@[i]).is_collpased
                ==> exists|k: int|
                0 <= k < self.entropy_heap@.len() && self.grid.index_of(
                    (#[trigger] self.entropy_heap@[k]).coord,
                ) == i
    }

    /// Every uncollapsed cell has an entry in the entropy queue.
    pub open spec fn covers(&self) -> bool {
        self.covers_except(-1)
    }

    /// Every cell whose possible tiles differ from those in `before` has an
    /// entry in the entropy queue carrying its current entropy.
    pub open spec fn requeued_since(&self, before: Seq<CoreCell>) -> bool {
        forall|i: int|
            0 <= i < self.grid.data@.len() && (#[trigger] self.grid.data@[i]).possible_set()
                != before[i].possible_set() ==> exists|k: int|
                0 <= k < self.entropy_heap@.len() && self.grid.index_of(
                    (#[trigger] self.entropy_heap@[k]).coord,
                ) == i && self.entropy_heap@[k].entropy == self.grid.data@[i].cached_entropy()
    }
}

} // verus!
