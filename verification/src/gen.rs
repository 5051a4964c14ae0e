use vstd::prelude::*;
use crate::board::{
    Board, BoardGenSettings, Territory, count_owned, dice_sum_of, lemma_count_owned_congruent,
    lemma_count_owned_none, lemma_count_owned_update, lemma_dice_sum_le_cap,
    lemma_dice_sum_uniform, lemma_dice_sum_update,
};
use crate::grid::CellGrid;
use crate::hex::{Hex, is_neighbor, spec_dir, lemma_neighbor_symmetric};
use crate::rng::{rand_below, shuffle_ids};

verus! {

/// The grid and the per-territory cell lists describe one partition: a cell
/// is listed under a territory exactly when the grid maps it there, listed
/// cells are valid lattice points inside the playable disk, and no cell is
/// listed twice.
pub open spec fn partition_wf(grid: CellGrid, tiles: Seq<Vec<Hex>>) -> bool {
    &&& forall|i: int, j: int|
        0 <= i < tiles.len() && 0 <= j < tiles[i]@.len() ==> ((#[trigger] tiles[i]@[j]).wf()
            && tiles[i]@[j].in_range(10_000) && tiles[i]@[j].spec_dist0() < grid.spec_bound()
            && grid.at(tiles[i]@[j].q as int, tiles[i]@[j].r as int) == Some(i as usize))
    &&& forall|i: int, j1: int, j2: int|
        0 <= i < tiles.len() && 0 <= j1 < j2 < tiles[i]@.len() ==> !((#[trigger] tiles[i]@[j1]).q
            == (#[trigger] tiles[i]@[j2]).q && tiles[i]@[j1].r == tiles[i]@[j2].r)
    &&& forall|q: int, r: int|
        (#[trigger] grid.at(q, r)) is Some ==> ((grid.at(q, r)->Some_0 as int) < tiles.len()
            && exists|j: int|
            0 <= j < tiles[grid.at(q, r)->Some_0 as int]@.len() && (#[trigger] tiles[grid.at(
                q,
                r,
            )->Some_0 as int]@[j]).q == q && tiles[grid.at(q, r)->Some_0 as int]@[j].r == r)
}

/// Claiming a fresh cell for an existing territory keeps the partition
/// valid.
proof fn lemma_partition_claim(
    g0: CellGrid,
    g1: CellGrid,
    t0: Seq<Vec<Hex>>,
    t1: Seq<Vec<Hex>>,
    i: int,
    c: Hex,
)
    requires
        partition_wf(g0, t0),
        0 <= i < t0.len(),
        c.wf(),
        c.in_range(10_000),
        c.spec_dist0() < g0.spec_bound(),
        g0.at(c.q as int, c.r as int) is None,
        g1.spec_bound() == g0.spec_bound(),
        g1.at(c.q as int, c.r as int) == Some(i as usize),
        forall|q: int, r: int|
            !(q == c.q as int && r == c.r as int) ==> #[trigger] g1.at(q, r) == g0.at(q, r),
        t1.len() == t0.len(),
        forall|k: int| 0 <= k < t0.len() && k != i ==> #[trigger] t1[k] == t0[k],
        t1[i]@ == t0[i]@.push(c),
        t0.len() < usize::MAX,
    ensures
        partition_wf(g1, t1),
{
    assert forall|k: int| 0 <= k < t1.len() implies (#[trigger] (k as usize)) as int == k by {}
    assert forall|k: int, j: int| 0 <= k < t1.len() && 0 <= j < t1[k]@.len() implies ((
    #[trigger] t1[k]@[j]).wf() && t1[k]@[j].in_range(10_000) && t1[k]@[j].spec_dist0()
        < g1.spec_bound() && g1.at(t1[k]@[j].q as int, t1[k]@[j].r as int) == Some(
        k as usize,
    )) by {
        if k == i && j == t0[i]@.len() {
            assert(t1[k]@[j] == c);
        } else {
            assert(t1[k]@[j] == t0[k]@[j]);
            assert(g0.at(t0[k]@[j].q as int, t0[k]@[j].r as int) == Some(k as usize));
            assert(!(t0[k]@[j].q == c.q && t0[k]@[j].r == c.r));
        }
    }
    assert forall|k: int, j1: int, j2: int|
        0 <= k < t1.len() && 0 <= j1 < j2 < t1[k]@.len() implies !((#[trigger] t1[k]@[j1]).q == (
    #[trigger] t1[k]@[j2]).q && t1[k]@[j1].r == t1[k]@[j2].r) by {
        if k == i && j2 == t0[i]@.len() {
            assert(t1[k]@[j1] == t0[k]@[j1]);
            assert(t1[k]@[j2] == c);
            assert(g0.at(t0[k]@[j1].q as int, t0[k]@[j1].r as int) == Some(k as usize));
        } else if k == i {
            assert(t1[k]@[j1] == t0[k]@[j1] && t1[k]@[j2] == t0[k]@[j2]);
        } else {
            assert(t1[k]@[j1] == t0[k]@[j1] && t1[k]@[j2] == t0[k]@[j2]);
        }
    }
    assert forall|q: int, r: int| (#[trigger] g1.at(q, r)) is Some implies ((g1.at(
        q,
        r,
    )->Some_0 as int) < t1.len() && exists|j: int|
        0 <= j < t1[g1.at(q, r)->Some_0 as int]@.len() && (#[trigger] t1[g1.at(
            q,
            r,
        )->Some_0 as int]@[j]).q == q && t1[g1.at(q, r)->Some_0 as int]@[j].r == r) by {
        if q == c.q as int && r == c.r as int {
            let j = t0[i]@.len() as int;
            assert(t1[i]@[j].q == q && t1[i]@[j].r == r);
        } else {
            assert(g1.at(q, r) == g0.at(q, r));
            let k = g0.at(q, r)->Some_0 as int;
            let j = choose|j: int|
                0 <= j < t0[k]@.len() && (#[trigger] t0[k]@[j]).q == q && t0[k]@[j].r == r;
            if k == i {
                assert(t1[k]@[j] == t0[k]@[j]);
            } else {
                assert(t1[k] == t0[k]);
            }
            assert(t1[k]@[j].q == q && t1[k]@[j].r == r);
        }
    }
}

/// Seeding a new territory with a fresh cell keeps the partition valid.
proof fn lemma_partition_seed(
    g0: CellGrid,
    g1: CellGrid,
    t0: Seq<Vec<Hex>>,
    t1: Seq<Vec<Hex>>,
    c: Hex,
)
    requires
        partition_wf(g0, t0),
        c.wf(),
        c.in_range(10_000),
        c.spec_dist0() < g0.spec_bound(),
        g0.at(c.q as int, c.r as int) is None,
        g1.spec_bound() == g0.spec_bound(),
        g1.at(c.q as int, c.r as int) == Some(t0.len() as usize),
        forall|q: int, r: int|
            !(q == c.q as int && r == c.r as int) ==> #[trigger] g1.at(q, r) == g0.at(q, r),
        t1.len() == t0.len() + 1,
        forall|k: int| 0 <= k < t0.len() ==> #[trigger] t1[k] == t0[k],
        t1[t0.len() as int]@.len() == 1,
        t1[t0.len() as int]@[0] == c,
        t0.len() < usize::MAX,
    ensures
        partition_wf(g1, t1),
{
    let i = t0.len() as int;
    assert forall|k: int, j: int| 0 <= k < t1.len() && 0 <= j < t1[k]@.len() implies ((
    #[trigger] t1[k]@[j]).wf() && t1[k]@[j].in_range(10_000) && t1[k]@[j].spec_dist0()
        < g1.spec_bound() && g1.at(t1[k]@[j].q as int, t1[k]@[j].r as int) == Some(
        k as usize,
    )) by {
        if k == i {
            assert(t1[k]@[j] == c);
        } else {
            assert(t1[k]@[j] == t0[k]@[j]);
            assert(g0.at(t0[k]@[j].q as int, t0[k]@[j].r as int) == Some(k as usize));
            assert(!(t0[k]@[j].q == c.q && t0[k]@[j].r == c.r));
        }
    }
    assert forall|k: int, j1: int, j2: int|
        0 <= k < t1.len() && 0 <= j1 < j2 < t1[k]@.len() implies !((#[trigger] t1[k]@[j1]).q == (
    #[trigger] t1[k]@[j2]).q && t1[k]@[j1].r == t1[k]@[j2].r) by {
        assert(k != i);
        assert(t1[k]@[j1] == t0[k]@[j1] && t1[k]@[j2] == t0[k]@[j2]);
    }
    assert forall|q: int, r: int| (#[trigger] g1.at(q, r)) is Some implies ((g1.at(
        q,
        r,
    )->Some_0 as int) < t1.len() && exists|j: int|
        0 <= j < t1[g1.at(q, r)->Some_0 as int]@.len() && (#[trigger] t1[g1.at(
            q,
            r,
        )->Some_0 as int]@[j]).q == q && t1[g1.at(q, r)->Some_0 as int]@[j].r == r) by {
        if q == c.q as int && r == c.r as int {
            assert(t1[i]@[0].q == q && t1[i]@[0].r == r);
        } else {
            assert(g1.at(q, r) == g0.at(q, r));
            let k = g0.at(q, r)->Some_0 as int;
            let j = choose|j: int|
                0 <= j < t0[k]@.len() && (#[trigger] t0[k]@[j]).q == q && t0[k]@[j].r == r;
            assert(t1[k] == t0[k]);
            assert(t1[k]@[j].q == q && t1[k]@[j].r == r);
        }
    }
}

/// Releasing the last-listed cell of a territory keeps the partition valid.
proof fn lemma_partition_unclaim(
    g0: CellGrid,
    g1: CellGrid,
    t0: Seq<Vec<Hex>>,
    t1: Seq<Vec<Hex>>,
    i: int,
    c: Hex,
)
    requires
        partition_wf(g0, t0),
        0 <= i < t0.len(),
        t0[i]@.len() > 0,
        c == t0[i]@.last(),
        g1.spec_bound() == g0.spec_bound(),
        g1.at(c.q as int, c.r as int) is None,
        forall|q: int, r: int|
            !(q == c.q as int && r == c.r as int) ==> #[trigger] g1.at(q, r) == g0.at(q, r),
        t1.len() == t0.len(),
        forall|k: int| 0 <= k < t0.len() && k != i ==> #[trigger] t1[k] == t0[k],
        t1[i]@ == t0[i]@.drop_last(),
        t0.len() < usize::MAX,
    ensures
        partition_wf(g1, t1),
{
    assert forall|k: int| 0 <= k < t1.len() implies (#[trigger] (k as usize)) as int == k by {}
    assert forall|k: int, j: int| 0 <= k < t1.len() && 0 <= j < t1[k]@.len() implies ((
    #[trigger] t1[k]@[j]).wf() && t1[k]@[j].in_range(10_000) && t1[k]@[j].spec_dist0()
        < g1.spec_bound() && g1.at(t1[k]@[j].q as int, t1[k]@[j].r as int) == Some(
        k as usize,
    )) by {
        assert(t1[k]@[j] == t0[k]@[j]);
        assert(g0.at(t0[k]@[j].q as int, t0[k]@[j].r as int) == Some(k as usize));
        if k == i {
            assert(!(t0[k]@[j].q == c.q && t0[k]@[j].r == c.r)) by {
                assert(t0[i]@[t0[i]@.len() - 1] == c);
            }
        } else {
            if t0[k]@[j].q == c.q && t0[k]@[j].r == c.r {
                assert(g0.at(c.q as int, c.r as int) == Some(k as usize));
                assert(g0.at(c.q as int, c.r as int) == Some(i as usize));
                assert(false);
            }
        }
    }
    assert forall|k: int, j1: int, j2: int|
        0 <= k < t1.len() && 0 <= j1 < j2 < t1[k]@.len() implies !((#[trigger] t1[k]@[j1]).q == (
    #[trigger] t1[k]@[j2]).q && t1[k]@[j1].r == t1[k]@[j2].r) by {
        assert(t1[k]@[j1] == t0[k]@[j1] && t1[k]@[j2] == t0[k]@[j2]);
    }
    assert forall|q: int, r: int| (#[trigger] g1.at(q, r)) is Some implies ((g1.at(
        q,
        r,
    )->Some_0 as int) < t1.len() && exists|j: int|
        0 <= j < t1[g1.at(q, r)->Some_0 as int]@.len() && (#[trigger] t1[g1.at(
            q,
            r,
        )->Some_0 as int]@[j]).q == q && t1[g1.at(q, r)->Some_0 as int]@[j].r == r) by {
        assert(!(q == c.q as int && r == c.r as int));
        assert(g1.at(q, r) == g0.at(q, r));
        let k = g0.at(q, r)->Some_0 as int;
        let j = choose|j: int|
            0 <= j < t0[k]@.len() && (#[trigger] t0[k]@[j]).q == q && t0[k]@[j].r == r;
        if k == i {
            assert(j != t0[i]@.len() - 1) by {
                if j == t0[i]@.len() - 1 {
                    assert(t0[k]@[j] == c);
                }
            }
            assert(t1[k]@[j] == t0[k]@[j]);
        } else {
            assert(t1[k] == t0[k]);
        }
        assert(t1[k]@[j].q == q && t1[k]@[j].r == r);
    }
}

/// Dropping a territory whose cell list is empty keeps the partition valid.
proof fn lemma_partition_drop_empty(g: CellGrid, t0: Seq<Vec<Hex>>, t1: Seq<Vec<Hex>>)
    requires
        partition_wf(g, t0),
        t0.len() > 0,
        t0.last()@.len() == 0,
        t1 == t0.drop_last(),
        t0.len() < usize::MAX,
    ensures
        partition_wf(g, t1),
{
    assert forall|q: int, r: int| (#[trigger] g.at(q, r)) is Some implies ((g.at(
        q,
        r,
    )->Some_0 as int) < t1.len() && exists|j: int|
        0 <= j < t1[g.at(q, r)->Some_0 as int]@.len() && (#[trigger] t1[g.at(
            q,
            r,
        )->Some_0 as int]@[j]).q == q && t1[g.at(q, r)->Some_0 as int]@[j].r == r) by {
        let k = g.at(q, r)->Some_0 as int;
        let j = choose|j: int|
            0 <= j < t0[k]@.len() && (#[trigger] t0[k]@[j]).q == q && t0[k]@[j].r == r;
        assert(k != t0.len() - 1);
        assert(t1[k] == t0[k]);
        assert(t1[k]@[j].q == q && t1[k]@[j].r == r);
    }
}

/// Appends a cell to territory `i`'s list.
fn push_cell(tiles: &mut Vec<Vec<Hex>>, i: usize, c: Hex)
    requires
        i < old(tiles)@.len(),
    ensures
        final(tiles)@.len() == old(tiles)@.len(),
        final(tiles)@[i as int]@ == old(tiles)@[i as int]@.push(c),
        forall|k: int|
            0 <= k < old(tiles)@.len() && k != i ==> #[trigger] final(tiles)@[k] == old(
                tiles,
            )@[k],
{
    let v = &mut tiles[i];
    v.push(c);
}

/// Removes and returns the last-listed cell of territory `i`.
fn pop_cell(tiles: &mut Vec<Vec<Hex>>, i: usize) -> (c: Hex)
    requires
        i < old(tiles)@.len(),
        old(tiles)@[i as int]@.len() > 0,
    ensures
        c == old(tiles)@[i as int]@.last(),
        final(tiles)@.len() == old(tiles)@.len(),
        final(tiles)@[i as int]@ == old(tiles)@[i as int]@.drop_last(),
        forall|k: int|
            0 <= k < old(tiles)@.len() && k != i ==> #[trigger] final(tiles)@[k] == old(
                tiles,
            )@[k],
{
    let v = &mut tiles[i];
    let c = v.pop().unwrap();
    c
}


/// Territory `x` lies one lattice step from cell `c`, read off the grid,
/// looking only at offsets below `n`.
pub open spec fn cell_touches_upto(grid: CellGrid, c: Hex, n: int, x: usize) -> bool {
    exists|d: int|
        0 <= d < n && grid.at(
            c.q + #[trigger] spec_dir(d).q,
            c.r + spec_dir(d).r,
        ) == Some(x)
}

/// Territory `x` lies one lattice step from cell `c`, read off the grid.
pub open spec fn cell_touches(grid: CellGrid, c: Hex, x: usize) -> bool {
    cell_touches_upto(grid, c, 6, x)
}

/// Territory `x` lies one lattice step from one of the first `n` cells.
pub open spec fn touches_prefix(grid: CellGrid, cells: Seq<Hex>, n: int, x: usize) -> bool {
    exists|j: int| 0 <= j < n && cell_touches(grid, #[trigger] cells[j], x)
}

/// Some listed cell of territory `i` is one lattice step from some listed
/// cell of territory `k`.
pub open spec fn territories_touch(tiles: Seq<Vec<Hex>>, i: int, k: int) -> bool {
    exists|j1: int, j2: int|
        0 <= j1 < tiles[i]@.len() && 0 <= j2 < tiles[k]@.len() && is_neighbor(
            #[trigger] tiles[i]@[j1],
            #[trigger] tiles[k]@[j2],
        )
}

/// Under a valid partition, reading neighbours off the grid and listing
/// adjacent cells agree.
proof fn lemma_touch_bridge(grid: CellGrid, tiles: Seq<Vec<Hex>>, i: int, x: usize)
    requires
        partition_wf(grid, tiles),
        0 <= i < tiles.len(),
        tiles.len() < usize::MAX,
    ensures
        touches_prefix(grid, tiles[i]@, tiles[i]@.len() as int, x) <==> ((x as int) < tiles.len()
            && territories_touch(tiles, i, x as int)),
{
    let cells = tiles[i]@;
    if touches_prefix(grid, cells, cells.len() as int, x) {
        let j = choose|j: int| 0 <= j < cells.len() && cell_touches(grid, #[trigger] cells[j], x);
        let d = choose|d: int|
            0 <= d < 6 && grid.at(
                cells[j].q + #[trigger] spec_dir(d).q,
                cells[j].r + spec_dir(d).r,
            ) == Some(x);
        let nq = cells[j].q + spec_dir(d).q;
        let nr = cells[j].r + spec_dir(d).r;
        assert(grid.at(nq, nr) is Some);
        let k = grid.at(nq, nr)->Some_0;
        assert(k == x);
        let j2 = choose|j2: int|
            0 <= j2 < tiles[k as int]@.len() && (#[trigger] tiles[k as int]@[j2]).q == nq
                && tiles[k as int]@[j2].r == nr;
        assert(tiles[x as int]@[j2].wf());
        assert(cells[j].wf());
        assert(spec_dir(d).q + spec_dir(d).r + spec_dir(d).s == 0);
        assert(tiles[x as int]@[j2].s == cells[j].s + spec_dir(d).s);
        assert(is_neighbor(tiles[i]@[j], tiles[x as int]@[j2]));
    }
    if (x as int) < tiles.len() && territories_touch(tiles, i, x as int) {
        let (j1, j2) = choose|j1: int, j2: int|
            0 <= j1 < tiles[i]@.len() && 0 <= j2 < tiles[x as int]@.len() && is_neighbor(
                #[trigger] tiles[i]@[j1],
                #[trigger] tiles[x as int]@[j2],
            );
        let a = tiles[i]@[j1];
        let b = tiles[x as int]@[j2];
        let d = choose|d: int|
            0 <= d < 6 && b.q == a.q + #[trigger] spec_dir(d).q && b.r == a.r + spec_dir(d).r
                && b.s == a.s + spec_dir(d).s;
        assert(grid.at(b.q as int, b.r as int) == Some(x));
        assert(grid.at(a.q + spec_dir(d).q, a.r + spec_dir(d).r) == Some(x));
        assert(cell_touches(grid, cells[j1], x));
    }
}

/// The touch relation between territories is symmetric.
proof fn lemma_touch_symmetric(tiles: Seq<Vec<Hex>>, i: int, k: int)
    requires
        territories_touch(tiles, i, k),
    ensures
        territories_touch(tiles, k, i),
{
    let (j1, j2) = choose|j1: int, j2: int|
        0 <= j1 < tiles[i]@.len() && 0 <= j2 < tiles[k]@.len() && is_neighbor(
            #[trigger] tiles[i]@[j1],
            #[trigger] tiles[k]@[j2],
        );
    lemma_neighbor_symmetric(tiles[i]@[j1], tiles[k]@[j2]);
}

/// Whether `v` holds `x`.
fn contains_usize(v: &Vec<usize>, x: usize) -> (b: bool)
    ensures
        b == v@.contains(x),
{
    let n = v.len();
    let mut k: usize = 0;
    while k < n
        invariant
            k <= n,
            n == v@.len(),
            forall|a: int| 0 <= a < k ==> v@[a] != x,
        decreases n - k,
    {
        if v[k] == x {
            return true;
        }
        k = k + 1;
    }
    false
}

/// The unclaimed in-disk neighbours of the cells of territories
/// `lo .. hi`, with repetition as found.
fn frontier_options(grid: &CellGrid, tiles: &Vec<Vec<Hex>>, lo: usize, hi: usize) -> (opts: Vec<
    Hex,
>)
    requires
        grid.wf(),
        partition_wf(*grid, tiles@),
        lo <= hi <= tiles@.len(),
    ensures
        forall|e: int|
            0 <= e < opts@.len() ==> ((#[trigger] opts@[e]).wf() && opts@[e].in_range(10_000)
                && opts@[e].spec_dist0() < grid.spec_bound() && grid.at(
                opts@[e].q as int,
                opts@[e].r as int,
            ) is None && exists|i: int, j: int|
                lo <= i < hi && 0 <= j < tiles@[i]@.len() && is_neighbor(
                    #[trigger] tiles@[i]@[j],
                    opts@[e],
                )),
{
    let mut opts: Vec<Hex> = Vec::new();
    let dirs = Hex::orthogonal();
    let b = grid.bound();
    proof {
        grid.lemma_bound_range();
    }
    let mut i = lo;
    while i < hi
        invariant
            grid.wf(),
            partition_wf(*grid, tiles@),
            lo <= i <= hi <= tiles@.len(),
            1 <= grid.spec_bound() <= 10_000,
            b == grid.spec_bound(),
            dirs@.len() == 6,
            forall|d: int| 0 <= d < 6 ==> dirs@[d] == spec_dir(d),
            forall|e: int|
                0 <= e < opts@.len() ==> ((#[trigger] opts@[e]).wf() && opts@[e].in_range(10_000)
                    && opts@[e].spec_dist0() < grid.spec_bound() && grid.at(
                    opts@[e].q as int,
                    opts@[e].r as int,
                ) is None && exists|i2: int, j: int|
                    lo <= i2 < hi && 0 <= j < tiles@[i2]@.len() && is_neighbor(
                        #[trigger] tiles@[i2]@[j],
                        opts@[e],
                    )),
        decreases hi - i,
    {
        let m = tiles[i].len();
        let mut j: usize = 0;
        while j < m
            invariant
                grid.wf(),
                partition_wf(*grid, tiles@),
                lo <= i < hi <= tiles@.len(),
                j <= m,
                m == tiles@[i as int]@.len(),
                1 <= grid.spec_bound() <= 10_000,
                b == grid.spec_bound(),
                dirs@.len() == 6,
                forall|d: int| 0 <= d < 6 ==> dirs@[d] == spec_dir(d),
                forall|e: int|
                    0 <= e < opts@.len() ==> ((#[trigger] opts@[e]).wf() && opts@[e].in_range(
                        10_000,
                    ) && opts@[e].spec_dist0() < grid.spec_bound() && grid.at(
                        opts@[e].q as int,
                        opts@[e].r as int,
                    ) is None && exists|i2: int, j2: int|
                        lo <= i2 < hi && 0 <= j2 < tiles@[i2]@.len() && is_neighbor(
                            #[trigger] tiles@[i2]@[j2],
                            opts@[e],
                        )),
            decreases m - j,
        {
            let cell = tiles[i][j];
            let mut d: usize = 0;
            while d < 6
                invariant
                    grid.wf(),
                    partition_wf(*grid, tiles@),
                    lo <= i < hi <= tiles@.len(),
                    j < m,
                    m == tiles@[i as int]@.len(),
                    d <= 6,
                    cell == tiles@[i as int]@[j as int],
                    1 <= grid.spec_bound() <= 10_000,
                    b == grid.spec_bound(),
                    dirs@.len() == 6,
                    forall|dd: int| 0 <= dd < 6 ==> dirs@[dd] == spec_dir(dd),
                    forall|e: int|
                        0 <= e < opts@.len() ==> ((#[trigger] opts@[e]).wf() && opts@[e].in_range(
                            10_000,
                        ) && opts@[e].spec_dist0() < grid.spec_bound() && grid.at(
                            opts@[e].q as int,
                            opts@[e].r as int,
                        ) is None && exists|i2: int, j2: int|
                            lo <= i2 < hi && 0 <= j2 < tiles@[i2]@.len() && is_neighbor(
                                #[trigger] tiles@[i2]@[j2],
                                opts@[e],
                            )),
                decreases 6 - d,
            {
                proof {
                    assert(cell.wf() && cell.in_range(10_000));
                    assert(spec_dir(d as int).wf() && spec_dir(d as int).in_range(1));
                }
                let nb = cell.plus(&dirs[d]);
                if grid.get(&nb).is_none() {
                    let dist = nb.dist_from_origin();
                    if dist < b as i32 {
                        proof {
                            assert(nb.q == cell.q + spec_dir(d as int).q && nb.r == cell.r
                                + spec_dir(d as int).r && nb.s == cell.s + spec_dir(d as int).s);
                            assert(is_neighbor(tiles@[i as int]@[j as int], nb));
                        }
                        opts.push(nb);
                    }
                }
                d = d + 1;
            }
            j = j + 1;
        }
        i = i + 1;
    }
    opts
}

/// The territories other than `i` that the grid shows one step away from a
/// cell of `i`, each listed once.
fn connections_for(grid: &CellGrid, tiles: &Vec<Vec<Hex>>, i: usize) -> (conn: Vec<usize>)
    requires
        grid.wf(),
        partition_wf(*grid, tiles@),
        i < tiles@.len(),
    ensures
        conn@.no_duplicates(),
        forall|x: usize|
            #[trigger] conn@.contains(x) <==> ((x as int) != i && touches_prefix(
                *grid,
                tiles@[i as int]@,
                tiles@[i as int]@.len() as int,
                x,
            )),
{
    let mut conn: Vec<usize> = Vec::new();
    let dirs = Hex::orthogonal();
    let ghost cells = tiles@[i as int]@;
    let m = tiles[i].len();
    let mut j: usize = 0;
    while j < m
        invariant
            grid.wf(),
            partition_wf(*grid, tiles@),
            i < tiles@.len(),
            j <= m,
            m == cells.len(),
            cells == tiles@[i as int]@,
            dirs@.len() == 6,
            forall|dd: int| 0 <= dd < 6 ==> dirs@[dd] == spec_dir(dd),
            conn@.no_duplicates(),
            forall|x: usize|
                #[trigger] conn@.contains(x) <==> ((x as int) != i && touches_prefix(
                    *grid,
                    cells,
                    j as int,
                    x,
                )),
        decreases m - j,
    {
        let cell = tiles[i][j];
        let mut d: usize = 0;
        while d < 6
            invariant
                grid.wf(),
                partition_wf(*grid, tiles@),
                i < tiles@.len(),
                j < m,
                m == cells.len(),
                cells == tiles@[i as int]@,
                cell == cells[j as int],
                d <= 6,
                dirs@.len() == 6,
                forall|dd: int| 0 <= dd < 6 ==> dirs@[dd] == spec_dir(dd),
                conn@.no_duplicates(),
                forall|x: usize|
                    #[trigger] conn@.contains(x) <==> ((x as int) != i && (touches_prefix(
                        *grid,
                        cells,
                        j as int,
                        x,
                    ) || cell_touches_upto(*grid, cell, d as int, x))),
            decreases 6 - d,
        {
            proof {
                assert(cell.wf() && cell.in_range(10_000));
                assert(spec_dir(d as int).wf() && spec_dir(d as int).in_range(1));
            }
            let nb = cell.plus(&dirs[d]);
            let found = grid.get(&nb);
            let ghost pre_c = conn@;
            match found {
                Some(k) => {
                    if k != i && !contains_usize(&conn, k) {
                        conn.push(k);
                    }
                },
                None => {},
            }
            proof {
                assert(nb.q == cell.q + spec_dir(d as int).q && nb.r == cell.r + spec_dir(
                    d as int,
                ).r);
                assert forall|x: usize| #[trigger] conn@.contains(x) implies ((x as int) != i && (
                touches_prefix(*grid, cells, j as int, x) || cell_touches_upto(
                    *grid,
                    cell,
                    d + 1,
                    x,
                ))) by {
                    if pre_c.contains(x) {
                        if cell_touches_upto(*grid, cell, d as int, x) {
                            let dd = choose|dd: int|
                                0 <= dd < d && grid.at(
                                    cell.q + #[trigger] spec_dir(dd).q,
                                    cell.r + spec_dir(dd).r,
                                ) == Some(x);
                            assert(cell_touches_upto(*grid, cell, d + 1, x));
                        }
                    } else {
                        let a = choose|a: int| 0 <= a < conn@.len() && conn@[a] == x;
                        assert(a == conn@.len() - 1);
                        assert(x == found->Some_0);
                        assert(grid.at(cell.q + spec_dir(d as int).q, cell.r + spec_dir(d as int).r)
                            == Some(x));
                        assert(cell_touches_upto(*grid, cell, d + 1, x));
                    }
                }
                assert forall|x: usize|
                    ((x as int) != i && (touches_prefix(*grid, cells, j as int, x)
                        || cell_touches_upto(*grid, cell, d + 1, x))) implies #[trigger] conn@.contains(
                    x,
                ) by {
                    if touches_prefix(*grid, cells, j as int, x) || cell_touches_upto(
                        *grid,
                        cell,
                        d as int,
                        x,
                    ) {
                        assert(pre_c.contains(x));
                        let a = choose|a: int| 0 <= a < pre_c.len() && pre_c[a] == x;
                        assert(conn@[a] == x);
                    } else {
                        let dd = choose|dd: int|
                            0 <= dd < d + 1 && grid.at(
                                cell.q + #[trigger] spec_dir(dd).q,
                                cell.r + spec_dir(dd).r,
                            ) == Some(x);
                        assert(dd == d);
                        assert(found == Some(x));
                        if pre_c.contains(x) {
                            let a = choose|a: int| 0 <= a < pre_c.len() && pre_c[a] == x;
                            assert(conn@[a] == x);
                        } else {
                            assert(conn@[conn@.len() - 1] == x);
                        }
                    }
                }
            }
            d = d + 1;
        }
        proof {
            assert forall|x: usize|
                (touches_prefix(*grid, cells, j as int, x) || cell_touches_upto(
                    *grid,
                    cell,
                    6,
                    x,
                )) implies touches_prefix(*grid, cells, j + 1, x) by {
                if touches_prefix(*grid, cells, j as int, x) {
                    let jj = choose|jj: int|
                        0 <= jj < j && cell_touches(*grid, #[trigger] cells[jj], x);
                    assert(cell_touches(*grid, cells[jj], x));
                } else {
                    assert(cell_touches(*grid, cells[j as int], x));
                }
            }
            assert forall|x: usize|
                touches_prefix(*grid, cells, j + 1, x) implies (touches_prefix(
                    *grid,
                    cells,
                    j as int,
                    x,
                ) || cell_touches_upto(*grid, cell, 6, x)) by {
                let jj = choose|jj: int|
                    0 <= jj < j + 1 && cell_touches(*grid, #[trigger] cells[jj], x);
                if jj < j {
                    assert(cell_touches(*grid, cells[jj], x));
                } else {
                    assert(cell_touches(*grid, cells[j as int], x));
                }
            }
        }
        j = j + 1;
    }
    conn
}

/// Replaces the connection list of territory `k`.
fn set_conn(ts: &mut Vec<Territory>, k: usize, conn: Vec<usize>)
    requires
        k < old(ts)@.len(),
    ensures
        final(ts)@.len() == old(ts)@.len(),
        final(ts)@[k as int].owner == old(ts)@[k as int].owner,
        final(ts)@[k as int].dice == old(ts)@[k as int].dice,
        final(ts)@[k as int].connections == conn,
        forall|a: int| 0 <= a < old(ts)@.len() && a != k ==> #[trigger] final(ts)@[a] == old(ts)@[a],
{
    let t = &mut ts[k];
    t.connections = conn;
}

/// Hands territory `k` to player `o`.
fn set_owner(ts: &mut Vec<Territory>, k: usize, o: usize)
    requires
        k < old(ts)@.len(),
    ensures
        final(ts)@.len() == old(ts)@.len(),
        final(ts)@[k as int].owner == o,
        final(ts)@[k as int].dice == old(ts)@[k as int].dice,
        final(ts)@[k as int].connections == old(ts)@[k as int].connections,
        forall|a: int| 0 <= a < old(ts)@.len() && a != k ==> #[trigger] final(ts)@[a] == old(ts)@[a],
{
    let t = &mut ts[k];
    t.owner = o;
}

/// Sets the force count of territory `k`.
fn set_dice(ts: &mut Vec<Territory>, k: usize, d: u32)
    requires
        k < old(ts)@.len(),
    ensures
        final(ts)@.len() == old(ts)@.len(),
        final(ts)@[k as int].owner == old(ts)@[k as int].owner,
        final(ts)@[k as int].dice == d,
        final(ts)@[k as int].connections == old(ts)@[k as int].connections,
        forall|a: int| 0 <= a < old(ts)@.len() && a != k ==> #[trigger] final(ts)@[a] == old(ts)@[a],
{
    let t = &mut ts[k];
    t.dice = d;
}

/// Appends an index to list `p` of a list of lists.
fn push_idx(lists: &mut Vec<Vec<usize>>, p: usize, x: usize)
    requires
        p < old(lists)@.len(),
    ensures
        final(lists)@.len() == old(lists)@.len(),
        final(lists)@[p as int]@ == old(lists)@[p as int]@.push(x),
        forall|a: int|
            0 <= a < old(lists)@.len() && a != p ==> #[trigger] final(lists)@[a] == old(lists)@[a],
{
    let v = &mut lists[p];
    v.push(x);
}



/// Territory `i` touches some territory of smaller index.
pub open spec fn connects_below(tiles: Seq<Vec<Hex>>, i: int) -> bool {
    exists|j: int| 0 <= j < i && #[trigger] territories_touch(tiles, i, j)
}

/// Every territory below `n` (after the first) touches an earlier one;
/// with symmetry this makes the whole graph of the first `n` territories
/// connected.
pub open spec fn chain_upto(tiles: Seq<Vec<Hex>>, n: int) -> bool {
    forall|i: int| 1 <= i < n ==> #[trigger] connects_below(tiles, i)
}

/// Touching territories keep touching when cell lists only grow.
proof fn lemma_touch_monotone(t0: Seq<Vec<Hex>>, t1: Seq<Vec<Hex>>, i: int, j: int)
    requires
        territories_touch(t0, i, j),
        0 <= i < t0.len(),
        0 <= j < t0.len(),
        i < t1.len(),
        j < t1.len(),
        t1[i]@.len() >= t0[i]@.len(),
        forall|a: int| 0 <= a < t0[i]@.len() ==> #[trigger] t1[i]@[a] == t0[i]@[a],
        t1[j]@.len() >= t0[j]@.len(),
        forall|a: int| 0 <= a < t0[j]@.len() ==> #[trigger] t1[j]@[a] == t0[j]@[a],
    ensures
        territories_touch(t1, i, j),
{
    let (j1, j2) = choose|j1: int, j2: int|
        0 <= j1 < t0[i]@.len() && 0 <= j2 < t0[j]@.len() && is_neighbor(
            #[trigger] t0[i]@[j1],
            #[trigger] t0[j]@[j2],
        );
    assert(t1[i]@[j1] == t0[i]@[j1] && t1[j]@[j2] == t0[j]@[j2]);
    assert(is_neighbor(t1[i]@[j1], t1[j]@[j2]));
}

/// The connection chain below `n` survives any growth of the cell lists.
proof fn lemma_chain_preserved(t0: Seq<Vec<Hex>>, t1: Seq<Vec<Hex>>, n: int)
    requires
        chain_upto(t0, n),
        n <= t0.len(),
        n <= t1.len(),
        forall|k: int|
            0 <= k < n ==> (#[trigger] t1[k]@.len()) >= t0[k]@.len() && forall|a: int|
                0 <= a < t0[k]@.len() ==> t1[k]@[a] == t0[k]@[a],
    ensures
        chain_upto(t1, n),
{
    assert forall|i: int| 1 <= i < n implies #[trigger] connects_below(t1, i) by {
        assert(connects_below(t0, i));
        let j = choose|j: int| 0 <= j < i && #[trigger] territories_touch(t0, i, j);
        assert(t1[i]@.len() >= t0[i]@.len());
        assert(t1[j]@.len() >= t0[j]@.len());
        lemma_touch_monotone(t0, t1, i, j);
        assert(territories_touch(t1, i, j));
    }
}

impl Board {
    /// Builds a fresh board for the given settings: territories are grown by
    /// randomized flood fill on the hex disk of radius `board_size`, the
    /// adjacency graph is read off the cell partition, territories are dealt
    /// round-robin to the players in random order, starting forces are spent
    /// one die at a time on random territories below the cap, and the turn
    /// order is a random permutation of the player ids.  A territory whose
    /// growth dead-ends is discarded and retried — except the very first,
    /// which is kept as far as it grew, so at least one territory always
    /// comes out.  Returns the board and the cell partition (one list of
    /// member cells per territory).
    #[verifier::rlimit(60)]
    pub fn generate(settings: &BoardGenSettings) -> (res: (Board, Vec<Vec<Hex>>))
        requires
            settings.player_count >= 1,
            1 <= settings.board_size <= 1000,
        ensures
            res.0.wf(),
            res.0.spec_players() == settings.player_count,
            res.0.spec_turn() == 0,
            res.0.spec_order().len() == settings.player_count,
            res.0.spec_territories().len() == res.1@.len(),
            1 <= res.1@.len() <= 25,
            forall|k: int|
                0 <= k < res.0.spec_territories().len() ==> 1 <= (
                #[trigger] res.0.spec_territories()[k]).dice <= 8,
            forall|k: int|
                0 <= k < res.0.spec_territories().len() ==> (
                #[trigger] res.0.spec_territories()[k]).owner < settings.player_count,
            forall|i: int| 0 <= i < res.1@.len() ==> (#[trigger] res.1@[i]@.len()) >= 1,
            forall|i: int, j: int|
                0 <= i < res.1@.len() && 0 <= j < res.1@[i]@.len() ==> ((
                #[trigger] res.1@[i]@[j]).wf() && res.1@[i]@[j].spec_dist0()
                    < settings.board_size),
            forall|i1: int, j1: int, i2: int, j2: int|
                0 <= i1 < res.1@.len() && 0 <= j1 < res.1@[i1]@.len() && 0 <= i2 < res.1@.len()
                    && 0 <= j2 < res.1@[i2]@.len() && !(i1 == i2 && j1 == j2) ==> !((
                #[trigger] res.1@[i1]@[j1]).q == (#[trigger] res.1@[i2]@[j2]).q
                    && res.1@[i1]@[j1].r == res.1@[i2]@[j2].r),
            forall|i: int|
                0 <= i < res.0.spec_territories().len() ==> (
                #[trigger] res.0.spec_territories()[i]).connections@.no_duplicates(),
            forall|i: int, x: usize|
                0 <= i < res.0.spec_territories().len() ==> ((
                #[trigger] res.0.spec_territories()[i].connections@.contains(x)) <==> ((x as int)
                    != i && (x as int) < res.1@.len() && territories_touch(res.1@, i, x as int))),
            forall|i: int, x: usize|
                0 <= i < res.0.spec_territories().len()
                    && (#[trigger] res.0.spec_territories()[i].connections@.contains(x))
                    ==> res.0.spec_territories()[x as int].connections@.contains(i as usize),
            forall|i: int| 1 <= i < res.1@.len() ==> #[trigger] connects_below(res.1@, i),
            forall|pa: int, pb: int|
                0 <= pa < settings.player_count && 0 <= pb < settings.player_count
                    ==> #[trigger] count_owned(res.0.spec_territories(), pa)
                    <= #[trigger] count_owned(res.0.spec_territories(), pb) + 1,
            forall|p: int|
                0 <= p < settings.player_count ==> #[trigger] dice_sum_of(
                    res.0.spec_territories(),
                    p,
                ) == ({
                    let cnt = count_owned(res.0.spec_territories(), p) as int;
                    let pool = (2 * res.0.spec_territories().len()) as int / (
                    settings.player_count as int);
                    cnt + (if pool <= 7 * cnt {
                        pool
                    } else {
                        7 * cnt
                    })
                }),
    {
        let players = settings.player_count;
        let bound = settings.board_size;
        let mut grid = CellGrid::new(bound);
        let mut territory_tiles: Vec<Vec<Hex>> = Vec::new();
        let mut territories: Vec<Territory> = Vec::new();

        // region growth: up to 25 attempts, each claiming a seed and growing it
        let mut attempt: usize = 0;
        let mut done = false;
        while attempt < 25 && !done
            invariant
                grid.wf(),
                grid.spec_bound() == bound,
                1 <= bound <= 1000,
                partition_wf(grid, territory_tiles@),
                territories@.len() == territory_tiles@.len(),
                territory_tiles@.len() <= attempt,
                attempt <= 25,
                forall|k: int|
                    0 <= k < territories@.len() ==> ((#[trigger] territories@[k]).owner == players
                        && territories@[k].dice == 1 && territories@[k].connections@.len() == 0),
                forall|i: int|
                    0 <= i < territory_tiles@.len() ==> (#[trigger] territory_tiles@[i]@.len())
                        >= 1,
                chain_upto(territory_tiles@, territory_tiles@.len() as int),
                done ==> attempt >= 1,
                attempt >= 1 ==> territory_tiles@.len() >= 1,
            decreases 25 - attempt,
        {
            let i = territory_tiles.len();
            let mut options: Vec<Hex> = Vec::new();
            if i == 0 {
                options.push(Hex::new(0, 0, 0));
                proof {
                    let c = options@[0];
                    assert(c.spec_dist0() == 0);
                    if grid.at(0, 0) is Some {
                        assert((grid.at(0, 0)->Some_0 as int) < 0);
                    }
                }
            } else {
                options = frontier_options(&grid, &territory_tiles, 0, i);
            }
            if options.len() == 0 {
                done = true;
            } else {
                let seed = options[rand_below(options.len())];
                proof {
                    if i == 0 {
                        assert(seed == options@[0]);
                        assert(seed.wf() && seed.in_range(10_000) && seed.spec_dist0() == 0);
                        if grid.at(seed.q as int, seed.r as int) is Some {
                            assert((grid.at(seed.q as int, seed.r as int)->Some_0 as int) < 0);
                        }
                    }
                }
                let ghost g0 = grid;
                let ghost t_pre = territory_tiles@;
                territories.push(Territory::new(players, 1, Vec::new()));
                let mut tlist: Vec<Hex> = Vec::new();
                tlist.push(seed);
                territory_tiles.push(tlist);
                grid.set_cell(&seed, i);
                proof {
                    lemma_partition_seed(g0, grid, t_pre, territory_tiles@, seed);
                    lemma_chain_preserved(t_pre, territory_tiles@, i as int);
                    if i > 0 {
                        let (i2, j) = choose|i2: int, j: int|
                            0 <= i2 < i && 0 <= j < t_pre[i2]@.len() && is_neighbor(
                                #[trigger] t_pre[i2]@[j],
                                seed,
                            );
                        assert(territory_tiles@[i2]@[j] == t_pre[i2]@[j]);
                        assert(territory_tiles@[i as int]@[0] == seed);
                        lemma_neighbor_symmetric(t_pre[i2]@[j], seed);
                        assert(territories_touch(territory_tiles@, i as int, i2));
                        assert(connects_below(territory_tiles@, i as int));
                    }
                }

                // grow the new territory one random frontier cell at a time
                let mut step: usize = 0;
                let mut grew = true;
                while step < 10 && grew
                    invariant
                        grid.wf(),
                        grid.spec_bound() == bound,
                        1 <= bound <= 1000,
                        partition_wf(grid, territory_tiles@),
                        territories@.len() == territory_tiles@.len(),
                        territory_tiles@.len() == i + 1,
                        i <= attempt < 25,
                        step <= 10,
                        forall|k: int|
                            0 <= k < territories@.len() ==> ((#[trigger] territories@[k]).owner
                                == players && territories@[k].dice == 1
                                && territories@[k].connections@.len() == 0),
                        forall|i2: int|
                            0 <= i2 < territory_tiles@.len() ==> (
                            #[trigger] territory_tiles@[i2]@.len()) >= 1,
                        chain_upto(territory_tiles@, territory_tiles@.len() as int),
                    decreases 10 - step, (if grew { 1int } else { 0int }),
                {
                    let opts = frontier_options(&grid, &territory_tiles, i, i + 1);
                    if opts.len() == 0 {
                        grew = false;
                    } else {
                        let c = opts[rand_below(opts.len())];
                        let ghost g1 = grid;
                        let ghost t_pre2 = territory_tiles@;
                        push_cell(&mut territory_tiles, i, c);
                        grid.set_cell(&c, i);
                        proof {
                            lemma_partition_claim(g1, grid, t_pre2, territory_tiles@, i as int, c);
                            lemma_chain_preserved(t_pre2, territory_tiles@, (i + 1) as int);
                        }
                        step = step + 1;
                    }
                }
                if !grew && i > 0 {
                    // dead end: unwind the whole territory and try again
                    while territory_tiles[i].len() > 0
                        invariant
                            grid.wf(),
                            grid.spec_bound() == bound,
                            1 <= bound <= 1000,
                            partition_wf(grid, territory_tiles@),
                            territories@.len() == territory_tiles@.len(),
                            territory_tiles@.len() == i + 1,
                            i <= attempt < 25,
                            forall|k: int|
                                0 <= k < territories@.len() ==> ((#[trigger] territories@[k]).owner
                                    == players && territories@[k].dice == 1
                                    && territories@[k].connections@.len() == 0),
                            forall|i2: int|
                                0 <= i2 < i ==> (#[trigger] territory_tiles@[i2]@.len()) >= 1,
                            chain_upto(territory_tiles@, i as int),
                        decreases territory_tiles@[i as int]@.len(),
                    {
                        let ghost g1 = grid;
                        let ghost t_pre2 = territory_tiles@;
                        let c = pop_cell(&mut territory_tiles, i);
                        proof {
                            assert(t_pre2[i as int]@[t_pre2[i as int]@.len() - 1] == c);
                            assert(c.wf() && c.in_range(10_000) && c.spec_dist0()
                                < grid.spec_bound());
                        }
                        grid.clear_cell(&c);
                        proof {
                            lemma_partition_unclaim(g1, grid, t_pre2, territory_tiles@, i as int, c);
                            lemma_chain_preserved(t_pre2, territory_tiles@, i as int);
                        }
                    }
                    let ghost t_pre3 = territory_tiles@;
                    let _ = territory_tiles.pop();
                    let _ = territories.pop();
                    proof {
                        assert(territory_tiles@ =~= t_pre3.drop_last());
                        lemma_partition_drop_empty(grid, t_pre3, territory_tiles@);
                        lemma_chain_preserved(t_pre3, territory_tiles@, i as int);
                    }
                } else {
                    // smooth the boundary: claim every free neighbour at once
                    let opts = frontier_options(&grid, &territory_tiles, i, i + 1);
                    let mut e: usize = 0;
                    while e < opts.len()
                        invariant
                            grid.wf(),
                            grid.spec_bound() == bound,
                            1 <= bound <= 1000,
                            partition_wf(grid, territory_tiles@),
                            territories@.len() == territory_tiles@.len(),
                            territory_tiles@.len() == i + 1,
                            i <= attempt < 25,
                            e <= opts@.len(),
                            forall|e2: int|
                                0 <= e2 < opts@.len() ==> ((#[trigger] opts@[e2]).wf()
                                    && opts@[e2].in_range(10_000) && opts@[e2].spec_dist0()
                                    < grid.spec_bound()),
                            forall|k: int|
                                0 <= k < territories@.len() ==> ((#[trigger] territories@[k]).owner
                                    == players && territories@[k].dice == 1
                                    && territories@[k].connections@.len() == 0),
                            forall|i2: int|
                                0 <= i2 < territory_tiles@.len() ==> (
                                #[trigger] territory_tiles@[i2]@.len()) >= 1,
                            chain_upto(territory_tiles@, territory_tiles@.len() as int),
                        decreases opts@.len() - e,
                    {
                        let c = opts[e];
                        if grid.get(&c).is_none() {
                            let ghost g1 = grid;
                            let ghost t_pre2 = territory_tiles@;
                            push_cell(&mut territory_tiles, i, c);
                            grid.set_cell(&c, i);
                            proof {
                                lemma_partition_claim(
                                    g1,
                                    grid,
                                    t_pre2,
                                    territory_tiles@,
                                    i as int,
                                    c,
                                );
                                lemma_chain_preserved(t_pre2, territory_tiles@, (i + 1) as int);
                            }
                        }
                        e = e + 1;
                    }
                }
            }
            attempt = attempt + 1;
        }

        let n = territories.len();

        // read the adjacency graph off the finished partition
        let mut i2: usize = 0;
        while i2 < n
            invariant
                grid.wf(),
                grid.spec_bound() == bound,
                partition_wf(grid, territory_tiles@),
                n == territories@.len(),
                n == territory_tiles@.len(),
                n <= 25,
                i2 <= n,
                forall|i3: int|
                    0 <= i3 < territory_tiles@.len() ==> (#[trigger] territory_tiles@[i3]@.len())
                        >= 1,
                forall|k: int|
                    0 <= k < n ==> ((#[trigger] territories@[k]).owner == players
                        && territories@[k].dice == 1),
                forall|k: int|
                    i2 <= k < n ==> (#[trigger] territories@[k]).connections@.len() == 0,
                forall|k: int|
                    0 <= k < i2 ==> (#[trigger] territories@[k]).connections@.no_duplicates(),
                forall|k: int, x: usize|
                    0 <= k < i2 ==> ((#[trigger] territories@[k].connections@.contains(x)) <==> ((
                    x as int) != k && (x as int) < n && territories_touch(
                        territory_tiles@,
                        k,
                        x as int,
                    ))),
            decreases n - i2,
        {
            let conn = connections_for(&grid, &territory_tiles, i2);
            proof {
                assert forall|x: usize| #[trigger] conn@.contains(x) <==> ((x as int) != i2 && (
                x as int) < n && territories_touch(territory_tiles@, i2 as int, x as int)) by {
                    lemma_touch_bridge(grid, territory_tiles@, i2 as int, x);
                }
            }
            set_conn(&mut territories, i2, conn);
            i2 = i2 + 1;
        }

        // deal the territories round-robin to the players, at random
        let mut left: Vec<usize> = Vec::new();
        let mut t: usize = 0;
        while t < n
            invariant
                left@.len() == t,
                t <= n,
                forall|a: int| 0 <= a < t ==> #[trigger] left@[a] == a as usize,
            decreases n - t,
        {
            left.push(t);
            t = t + 1;
        }
        proof {
            assert(left@.no_duplicates());
        }
        let mut player_lists: Vec<Vec<usize>> = Vec::new();
        let mut p: usize = 0;
        while p < players
            invariant
                player_lists@.len() == p,
                p <= players,
                forall|a: int| 0 <= a < p ==> (#[trigger] player_lists@[a]@.len()) == 0,
            decreases players - p,
        {
            player_lists.push(Vec::new());
            p = p + 1;
        }
        let ghost tiles_fixed = territory_tiles@;
        let ghost conn_fixed = territories@;
        let ghost mut base: nat = 0;
        proof {
            assert forall|t2: int| 0 <= t2 < n implies #[trigger] left@.contains(t2 as usize) by {
                assert(left@[t2] == t2 as usize);
            }
            assert forall|p4: int| 0 <= p4 < players implies count_owned(territories@, p4)
                == 0 by {
                lemma_count_owned_none(territories@, p4);
            }
        }
        let mut who: usize = 0;
        while left.len() > 0
            invariant
                who < players,
                players >= 1,
                n == territories@.len(),
                n == tiles_fixed.len(),
                n <= 25,
                conn_fixed.len() == n,
                forall|a: int| 0 <= a < left@.len() ==> (#[trigger] left@[a]) < n,
                left@.no_duplicates(),
                forall|t2: int|
                    0 <= t2 < n ==> (left@.contains(t2 as usize) || (
                    #[trigger] territories@[t2]).owner < players),
                forall|a: int|
                    0 <= a < left@.len() ==> territories@[#[trigger] left@[a] as int].owner
                        == players,
                forall|p4: int|
                    0 <= p4 < players ==> #[trigger] count_owned(territories@, p4) == base + (
                    if p4 < who {
                        1nat
                    } else {
                        0nat
                    }),
                forall|k: int|
                    0 <= k < n ==> (#[trigger] territories@[k]).dice == 1
                        && territories@[k].connections == conn_fixed[k].connections,
                player_lists@.len() == players,
                forall|p2: int, a: int|
                    0 <= p2 < players && 0 <= a < player_lists@[p2]@.len() ==> ((
                    #[trigger] player_lists@[p2]@[a]) < n
                        && territories@[player_lists@[p2]@[a] as int].owner == p2
                        && !left@.contains(player_lists@[p2]@[a])),
                forall|t2: int, p4: int|
                    0 <= t2 < n && 0 <= p4 < players && territories@[t2].owner == p4
                        ==> #[trigger] player_lists@[p4]@.contains(t2 as usize),
            decreases left@.len(),
        {
            let ix = rand_below(left.len());
            let ghost left0 = left@;
            let tx = left.remove(ix);
            proof {
                assert(left@ == left0.remove(ix as int));
                assert forall|a: int, b: int| 0 <= a < b < left@.len() implies left@[a]
                    != left@[b] by {
                    let a0: int = if a < ix { a } else { a + 1 };
                    let b0: int = if b < ix { b } else { b + 1 };
                    assert(left@[a] == left0[a0] && left@[b] == left0[b0]);
                }
                assert forall|x: usize| !left0.contains(x) implies !left@.contains(x) by {
                    if left@.contains(x) {
                        let a = choose|a: int| 0 <= a < left@.len() && left@[a] == x;
                        let a0: int = if a < ix { a } else { a + 1 };
                        assert(left0[a0] == x);
                    }
                }
                assert(!left@.contains(tx)) by {
                    if left@.contains(tx) {
                        let a = choose|a: int| 0 <= a < left@.len() && left@[a] == tx;
                        let a0: int = if a < ix { a } else { a + 1 };
                        assert(left0[a0] == left0[ix as int]);
                    }
                }
                assert forall|x: usize| left0.contains(x) && x != tx implies left@.contains(x) by {
                    let a0 = choose|a0: int| 0 <= a0 < left0.len() && left0[a0] == x;
                    if a0 < ix {
                        assert(left@[a0] == x);
                    } else {
                        assert(a0 > ix);
                        assert(left@[a0 - 1] == x);
                    }
                }
            }
            let ghost ts_pre = territories@;
            let ghost lists_pre = player_lists@;
            set_owner(&mut territories, tx, who);
            push_idx(&mut player_lists, who, tx);
            proof {
                let t_new = Territory {
                    owner: who,
                    dice: ts_pre[tx as int].dice,
                    connections: ts_pre[tx as int].connections,
                };
                assert(territories@ =~= ts_pre.update(tx as int, t_new));
                assert(ts_pre[left0[ix as int] as int].owner == players);
                assert forall|p4: int| 0 <= p4 < players implies #[trigger] count_owned(
                    territories@,
                    p4,
                ) == count_owned(ts_pre, p4) + (if p4 == who {
                    1int
                } else {
                    0int
                }) by {
                    lemma_count_owned_update(ts_pre, tx as int, t_new, p4);
                }
                assert forall|a: int|
                    0 <= a < left@.len() implies territories@[#[trigger] left@[a] as int].owner
                    == players by {
                    let a0: int = if a < ix {
                        a
                    } else {
                        a + 1
                    };
                    assert(left@[a] == left0[a0]);
                    assert(left0[a0] != left0[ix as int]);
                    assert(territories@[left@[a] as int] == ts_pre[left@[a] as int]);
                }
                assert forall|t2: int, p4: int|
                    0 <= t2 < n && 0 <= p4 < players && territories@[t2].owner
                        == p4 implies #[trigger] player_lists@[p4]@.contains(t2 as usize) by {
                    if t2 == tx {
                        assert(player_lists@[who as int]@[player_lists@[who as int]@.len() - 1]
                            == tx);
                    } else {
                        assert(territories@[t2] == ts_pre[t2]);
                        assert(lists_pre[p4]@.contains(t2 as usize));
                        let a0 = choose|a0: int|
                            0 <= a0 < lists_pre[p4]@.len() && lists_pre[p4]@[a0] == t2 as usize;
                        assert(player_lists@[p4]@[a0] == t2 as usize);
                    }
                }
                assert forall|t2: int|
                    0 <= t2 < n implies (left@.contains(t2 as usize) || (
                #[trigger] territories@[t2]).owner < players) by {
                    if t2 != tx {
                        assert(territories@[t2] == ts_pre[t2]);
                        if left0.contains(t2 as usize) || (t2 as usize) == tx {
                        }
                    }
                }
                assert forall|p2: int, a: int|
                    0 <= p2 < players && 0 <= a < player_lists@[p2]@.len() implies ((
                #[trigger] player_lists@[p2]@[a]) < n
                    && territories@[player_lists@[p2]@[a] as int].owner == p2 && !left@.contains(
                    player_lists@[p2]@[a],
                )) by {
                    if p2 == who && a == player_lists@[p2]@.len() - 1 {
                        assert(player_lists@[p2]@[a] == tx);
                    } else {
                        let x = player_lists@[p2]@[a];
                        assert(x != tx);
                        assert(territories@[x as int] == ts_pre[x as int]);
                    }
                }
            }
            who = who + 1;
            if who == players {
                who = 0;
                proof {
                    base = base + 1;
                }
            }
        }
        proof {
            assert forall|t2: int| 0 <= t2 < n implies (#[trigger] territories@[t2]).owner
                < players by {
                if left@.contains(t2 as usize) {
                    let a = choose|a: int| 0 <= a < left@.len() && left@[a] == t2 as usize;
                }
            }
        }

        // deal the starting forces: two extra dice per territory on average,
        // split evenly, spent one at a time on random sub-cap territories
        let total_dice: usize = 2 * n;
        let per_player: usize = total_dice / players;
        let ghost ts_owned = territories@;
        proof {
            // round-robin keeps the per-player counts within one of another
            assert forall|pa: int, pb: int|
                0 <= pa < players && 0 <= pb < players implies #[trigger] count_owned(
                ts_owned,
                pa,
            ) <= #[trigger] count_owned(ts_owned, pb) + 1 by {}
        }
        let mut p2: usize = 0;
        while p2 < players
            invariant
                p2 <= players,
                players >= 1,
                n == territories@.len(),
                n == ts_owned.len(),
                n <= 25,
                forall|k: int|
                    0 <= k < n ==> ((#[trigger] territories@[k]).owner == ts_owned[k].owner
                        && territories@[k].connections == ts_owned[k].connections),
                forall|k: int| 0 <= k < n ==> (#[trigger] territories@[k]).owner < players,
                forall|k: int| 0 <= k < n ==> 1 <= (#[trigger] territories@[k]).dice <= 8,
                forall|k: int|
                    0 <= k < n && (#[trigger] territories@[k]).owner >= p2
                        ==> territories@[k].dice == 1,
                forall|p4: int|
                    0 <= p4 < players ==> #[trigger] count_owned(territories@, p4) == count_owned(
                        ts_owned,
                        p4,
                    ),
                forall|p4: int|
                    0 <= p4 < p2 ==> #[trigger] dice_sum_of(territories@, p4) == count_owned(
                        territories@,
                        p4,
                    ) + (if per_player as int <= 7 * (count_owned(territories@, p4) as int) {
                        per_player as int
                    } else {
                        7 * (count_owned(territories@, p4) as int)
                    }),
                player_lists@.len() == players,
                forall|p3: int, a: int|
                    0 <= p3 < players && 0 <= a < player_lists@[p3]@.len() ==> ((
                    #[trigger] player_lists@[p3]@[a]) < n
                        && territories@[player_lists@[p3]@[a] as int].owner == p3),
                forall|t2: int, p4: int|
                    0 <= t2 < n && 0 <= p4 < players && territories@[t2].owner == p4
                        ==> #[trigger] player_lists@[p4]@.contains(t2 as usize),
            decreases players - p2,
        {
            let mut cands: Vec<usize> = Vec::new();
            let m2 = player_lists[p2].len();
            let mut a: usize = 0;
            while a < m2
                invariant
                    a <= m2,
                    p2 < players,
                    player_lists@.len() == players,
                    m2 == player_lists@[p2 as int]@.len(),
                    cands@.len() == a,
                    forall|b: int|
                        0 <= b < a ==> #[trigger] cands@[b] == player_lists@[p2 as int]@[b],
                decreases m2 - a,
            {
                cands.push(player_lists[p2][a]);
                a = a + 1;
            }
            proof {
                assert(cands@ =~= player_lists@[p2 as int]@);
            }
            let ghost ts_phase = territories@;
            proof {
                assert forall|k: int|
                    0 <= k < n && (#[trigger] ts_phase[k]).owner >= p2 implies ts_phase[k].dice
                    == 1 by {}
            }
            let mut dice_left: usize = per_player;
            while dice_left > 0 && cands.len() > 0
                invariant
                    p2 < players,
                    players >= 1,
                    n == territories@.len(),
                    n == ts_owned.len(),
                    forall|k: int|
                        0 <= k < n ==> ((#[trigger] territories@[k]).owner == ts_owned[k].owner
                            && territories@[k].connections == ts_owned[k].connections),
                    forall|k: int| 0 <= k < n ==> (#[trigger] territories@[k]).owner < players,
                    forall|k: int| 0 <= k < n ==> 1 <= (#[trigger] territories@[k]).dice <= 8,
                    n == ts_phase.len(),
                    forall|k: int|
                        0 <= k < n && (#[trigger] territories@[k]).owner != p2 ==> territories@[k]
                            == ts_phase[k],
                    forall|k: int|
                        0 <= k < n && (#[trigger] ts_phase[k]).owner == p2 ==> ts_phase[k].dice
                            == 1,
                    forall|p4: int|
                        0 <= p4 < players ==> #[trigger] count_owned(territories@, p4)
                            == count_owned(ts_owned, p4),
                    forall|p4: int|
                        0 <= p4 < p2 ==> #[trigger] dice_sum_of(territories@, p4) == count_owned(
                            territories@,
                            p4,
                        ) + (if per_player as int <= 7 * (count_owned(territories@, p4) as int) {
                            per_player as int
                        } else {
                            7 * (count_owned(territories@, p4) as int)
                        }),
                    dice_left <= per_player,
                    dice_sum_of(territories@, p2 as int) == dice_sum_of(ts_phase, p2 as int)
                        + per_player - dice_left,
                    player_lists@.len() == players,
                    forall|p3: int, a2: int|
                        0 <= p3 < players && 0 <= a2 < player_lists@[p3]@.len() ==> ((
                        #[trigger] player_lists@[p3]@[a2]) < n
                            && territories@[player_lists@[p3]@[a2] as int].owner == p3),
                    forall|t2: int, p4: int|
                        0 <= t2 < n && 0 <= p4 < players && territories@[t2].owner == p4
                            ==> #[trigger] player_lists@[p4]@.contains(t2 as usize),
                    forall|b: int|
                        0 <= b < cands@.len() ==> (#[trigger] cands@[b]) < n
                            && territories@[cands@[b] as int].owner == p2,
                    forall|t2: int|
                        0 <= t2 < n && (#[trigger] territories@[t2]).owner == p2
                            && territories@[t2].dice < 8 ==> cands@.contains(t2 as usize),
                decreases dice_left + cands@.len(),
            {
                let ix = rand_below(cands.len());
                let tt = cands[ix];
                if territories[tt].dice < 8 {
                    let d = territories[tt].dice;
                    let ghost ts_pre = territories@;
                    set_dice(&mut territories, tt, d + 1);
                    dice_left = dice_left - 1;
                    proof {
                        let t_new = Territory {
                            owner: ts_pre[tt as int].owner,
                            dice: (d + 1) as u32,
                            connections: ts_pre[tt as int].connections,
                        };
                        assert(territories@ =~= ts_pre.update(tt as int, t_new));
                        assert forall|k: int| 0 <= k < n implies ((
                        #[trigger] territories@[k]).owner == ts_owned[k].owner
                            && territories@[k].connections == ts_owned[k].connections && 1
                            <= territories@[k].dice <= 8 && territories@[k].owner < players) by {
                            if k != tt {
                                assert(territories@[k] == ts_pre[k]);
                            }
                        }
                        assert forall|k: int|
                            0 <= k < n && (#[trigger] territories@[k]).owner
                                != p2 implies territories@[k] == ts_phase[k] by {
                            if k != tt {
                                assert(territories@[k] == ts_pre[k]);
                            }
                        }
                        assert forall|p4: int| 0 <= p4 < players implies #[trigger] count_owned(
                            territories@,
                            p4,
                        ) == count_owned(ts_owned, p4) by {
                            lemma_count_owned_update(ts_pre, tt as int, t_new, p4);
                        }
                        lemma_dice_sum_update(ts_pre, tt as int, t_new, p2 as int);
                        assert forall|p4: int| 0 <= p4 < p2 implies #[trigger] dice_sum_of(
                            territories@,
                            p4,
                        ) == count_owned(territories@, p4) + (if per_player as int <= 7
                            * count_owned(territories@, p4) {
                            per_player as int
                        } else {
                            7 * (count_owned(territories@, p4) as int)
                        }) by {
                            lemma_dice_sum_update(ts_pre, tt as int, t_new, p4);
                            lemma_count_owned_update(ts_pre, tt as int, t_new, p4);
                        }
                        assert forall|t2: int|
                            0 <= t2 < n && (#[trigger] territories@[t2]).owner == p2
                                && territories@[t2].dice < 8 implies cands@.contains(
                            t2 as usize,
                        ) by {
                            if t2 != tt {
                                assert(territories@[t2] == ts_pre[t2]);
                            } else {
                                assert(cands@[ix as int] == tt);
                            }
                        }
                    }
                } else {
                    let ghost pre_c = cands@;
                    cands.swap_remove(ix);
                    proof {
                        assert forall|t2: int|
                            0 <= t2 < n && (#[trigger] territories@[t2]).owner == p2
                                && territories@[t2].dice < 8 implies cands@.contains(
                            t2 as usize,
                        ) by {
                            assert(pre_c.contains(t2 as usize));
                            let j = choose|j: int| 0 <= j < pre_c.len() && pre_c[j] == t2 as usize;
                            assert(t2 != tt);
                            if j < pre_c.len() - 1 {
                                if j == ix {
                                    assert(cands@[j] == pre_c[pre_c.len() - 1]);
                                    assert(pre_c[j] == t2 as usize);
                                    assert(false);
                                } else {
                                    assert(cands@[j] == pre_c[j]);
                                }
                            } else {
                                if ix < pre_c.len() - 1 {
                                    assert(cands@[ix as int] == pre_c[pre_c.len() - 1]);
                                } else {
                                    assert(pre_c[j] == pre_c[ix as int]);
                                    assert(false);
                                }
                            }
                        }
                    }
                }
            }
            proof {
                lemma_count_owned_congruent(ts_phase, territories@, p2 as int);
                let cnt = count_owned(territories@, p2 as int) as int;
                lemma_dice_sum_uniform(ts_phase, p2 as int, 1);
                if dice_left == 0 {
                    lemma_dice_sum_le_cap(territories@, p2 as int);
                } else {
                    assert(cands@.len() == 0);
                    assert forall|k: int|
                        0 <= k < n && (#[trigger] territories@[k]).owner
                            == p2 as int implies territories@[k].dice == 8 by {
                        if territories@[k].dice < 8 {
                            assert(cands@.contains(k as usize));
                        }
                    }
                    lemma_dice_sum_uniform(territories@, p2 as int, 8);
                }
                assert(dice_sum_of(territories@, p2 as int) == cnt + (if per_player as int <= 7
                    * cnt {
                    per_player as int
                } else {
                    7 * cnt
                }));
            }
            p2 = p2 + 1;
        }

        // randomize the turn order
        let mut order: Vec<usize> = Vec::new();
        let mut p3: usize = 0;
        while p3 < players
            invariant
                order@.len() == p3,
                p3 <= players,
                forall|a: int| 0 <= a < p3 ==> #[trigger] order@[a] == a as usize,
            decreases players - p3,
        {
            order.push(p3);
            p3 = p3 + 1;
        }
        let ghost ord0 = order@;
        proof {
            assert(ord0.no_duplicates());
        }
        shuffle_ids(&mut order);
        proof {
            broadcast use vstd::seq_lib::group_to_multiset_ensures;

            let ord1 = order@;
            assert forall|j: int| 0 <= j < ord1.len() implies (#[trigger] ord1[j]) < players by {
                assert(ord1.contains(ord1[j]));
                assert(ord1.to_multiset().count(ord1[j]) > 0);
                assert(ord0.to_multiset().count(ord1[j]) > 0);
                assert(ord0.contains(ord1[j]));
                let a = choose|a: int| 0 <= a < ord0.len() && ord0[a] == ord1[j];
            }
            ord0.lemma_multiset_has_no_duplicates();
            order@.lemma_multiset_has_no_duplicates_conv();
        }

        // assemble; validity of every part has been established above
        let ghost ts_final = territories@;
        let board = Board::assemble(players, 0, order, territories);
        proof {
            assert forall|pa: int, pb: int|
                0 <= pa < players && 0 <= pb < players implies #[trigger] count_owned(
                ts_final,
                pa,
            ) <= #[trigger] count_owned(ts_final, pb) + 1 by {}
            assert(per_player as int == (2 * ts_final.len()) as int / (players as int));
            assert forall|i: int, x: usize|
                0 <= i < ts_final.len() && (#[trigger] ts_final[i].connections@.contains(
                    x,
                )) implies ts_final[x as int].connections@.contains(i as usize) by {
                assert(ts_final[i].connections == conn_fixed[i].connections);
                assert(territories_touch(tiles_fixed, i, x as int));
                lemma_touch_symmetric(tiles_fixed, i, x as int);
                assert(ts_final[x as int].connections == conn_fixed[x as int].connections);
                assert((i as usize) as int == i);
            }
            assert forall|k: int, j: int|
                0 <= k < ts_final.len() && 0 <= j < ts_final[k].connections@.len() implies (
            #[trigger] ts_final[k].connections@[j]) < ts_final.len()
                && ts_final[k].connections@[j] != k by {
                let x = ts_final[k].connections@[j];
                assert(ts_final[k].connections@.contains(x));
            }
            assert forall|i1: int, j1: int, i2: int, j2: int|
                0 <= i1 < tiles_fixed.len() && 0 <= j1 < tiles_fixed[i1]@.len() && 0 <= i2
                    < tiles_fixed.len() && 0 <= j2 < tiles_fixed[i2]@.len() && !(i1 == i2 && j1
                    == j2) implies !((#[trigger] tiles_fixed[i1]@[j1]).q == (
            #[trigger] tiles_fixed[i2]@[j2]).q && tiles_fixed[i1]@[j1].r
                == tiles_fixed[i2]@[j2].r) by {
                if i1 != i2 && tiles_fixed[i1]@[j1].q == tiles_fixed[i2]@[j2].q
                    && tiles_fixed[i1]@[j1].r == tiles_fixed[i2]@[j2].r {
                    assert(grid.at(tiles_fixed[i1]@[j1].q as int, tiles_fixed[i1]@[j1].r as int)
                        == Some(i1 as usize));
                    assert(grid.at(tiles_fixed[i2]@[j2].q as int, tiles_fixed[i2]@[j2].r as int)
                        == Some(i2 as usize));
                    assert(false);
                }
            }
        }
        (board, territory_tiles)
    }
}

} // verus!
