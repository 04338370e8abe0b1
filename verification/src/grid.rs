use vstd::prelude::*;

verus! {

/// Row-major position of cell `(x, z)` in a grid whose rows hold `nx` cells.
pub open spec fn cell_index(x: int, z: int, nx: int) -> int {
    z * nx + x
}

/// Flat index of cell `(x, z)`: rows are stored one after another.
pub fn idx(x: usize, z: usize, nx: usize) -> (i: usize)
    requires
        cell_index(x as int, z as int, nx as int) <= usize::MAX,
    ensures
        i == cell_index(x as int, z as int, nx as int),
{
    proof {
        vstd::arithmetic::mul::lemma_mul_nonnegative(z as int, nx as int);
    }
    z * nx + x
}

/// A cell inside an `nx` by `nz` grid lies inside the flat storage of `nx * nz` cells.
pub proof fn lemma_idx_in_bounds(x: int, z: int, nx: int, nz: int)
    requires
        0 <= x < nx,
        0 <= z < nz,
    ensures
        0 <= cell_index(x, z, nx) < nx * nz,
        nx * nz == nz * nx,
{
    assert(nx * nz == nz * nx) by (nonlinear_arith);
    assert(0 <= z * nx) by (nonlinear_arith)
        requires
            0 <= z,
            0 < nx,
    ;
    assert(z * nx + x < nx * nz) by (nonlinear_arith)
        requires
            0 <= x < nx,
            0 <= z < nz,
    ;
}

/// Distinct cells of a row width `nx` have distinct flat indices.
pub proof fn lemma_idx_injective(x1: int, z1: int, x2: int, z2: int, nx: int)
    requires
        0 <= x1 < nx,
        0 <= x2 < nx,
        0 <= z1,
        0 <= z2,
        cell_index(x1, z1, nx) == cell_index(x2, z2, nx),
    ensures
        x1 == x2,
        z1 == z2,
{
    assert(z1 == z2) by (nonlinear_arith)
        requires
            0 <= x1 < nx,
            0 <= x2 < nx,
            0 <= z1,
            0 <= z2,
            z1 * nx + x1 == z2 * nx + x2,
    {
        if z1 < z2 {
            assert(z1 * nx + nx <= z2 * nx);
        } else if z2 < z1 {
            assert(z2 * nx + nx <= z1 * nx);
        }
    }
}

/// A receiver position on the grid.
#[derive(Clone, Copy, Debug)]
pub struct Probe {
    pub x: usize,
    pub z: usize,
}

/// Whether the source cell `(x, z)` has all four neighbours inside an `nx`
/// by `nz` grid, as the five-point stencil needs.
pub open spec fn interior(x: int, z: int, nx: int, nz: int) -> bool {
    0 < x && x + 1 < nx && 0 < z && z + 1 < nz
}

/// Whether a source at `(source_x, source_z)` lies in the finite-difference interior.
pub fn source_in_interior(source_x: usize, source_z: usize, nx: usize, nz: usize) -> (ok: bool)
    ensures
        ok == interior(source_x as int, source_z as int, nx as int, nz as int),
{
    source_x > 0 && source_x < nx && source_x + 1 < nx && source_z > 0 && source_z < nz
        && source_z + 1 < nz
}

/// Whether every probe lies on the `nx` by `nz` grid.
pub fn probes_in_grid(probes: &Vec<Probe>, nx: usize, nz: usize) -> (ok: bool)
    ensures
        ok == forall|k: int| 0 <= k < probes.len() ==> #[trigger] probes@[k].x < nx && probes@[k].z < nz,
{
    let mut k: usize = 0;
    while k < probes.len()
        invariant
            k <= probes.len(),
            forall|j: int| 0 <= j < k ==> #[trigger] probes@[j].x < nx && probes@[j].z < nz,
        decreases probes.len() - k,
    {
        if !(probes[k].x < nx && probes[k].z < nz) {
            return false;
        }
        k = k + 1;
    }
    true
}

/// The five-point stencil of an interior cell reads its four neighbours at
/// flat offsets -1, +1, -nx and +nx, all inside the grid.
pub proof fn lemma_stencil_neighbors(x: int, z: int, nx: int, nz: int)
    requires
        interior(x, z, nx, nz),
    ensures
        cell_index(x - 1, z, nx) == cell_index(x, z, nx) - 1,
        cell_index(x + 1, z, nx) == cell_index(x, z, nx) + 1,
        cell_index(x, z - 1, nx) == cell_index(x, z, nx) - nx,
        cell_index(x, z + 1, nx) == cell_index(x, z, nx) + nx,
        0 <= cell_index(x, z - 1, nx),
        cell_index(x, z + 1, nx) < nx * nz,
{
    assert((z - 1) * nx == z * nx - nx) by (nonlinear_arith);
    assert((z + 1) * nx == z * nx + nx) by (nonlinear_arith);
    lemma_idx_in_bounds(x, z - 1, nx, nz);
    lemma_idx_in_bounds(x, z + 1, nx, nz);
}

/// The number of cells between cell `(x, z)` and the nearest grid edge.
pub open spec fn edge_distance(x: int, z: int, nx: int, nz: int) -> int {
    let dx = if x <= nx - 1 - x {
        x
    } else {
        nx - 1 - x
    };
    let dz = if z <= nz - 1 - z {
        z
    } else {
        nz - 1 - z
    };
    if dx <= dz {
        dx
    } else {
        dz
    }
}

/// The distance from cell `(x, z)` to the nearest edge of an `nx` by `nz`
/// grid, which sets the strength of the absorbing sponge there.
pub fn boundary_distance(x: usize, z: usize, nx: usize, nz: usize) -> (d: usize)
    requires
        x < nx,
        z < nz,
    ensures
        d == edge_distance(x as int, z as int, nx as int, nz as int),
{
    let dx = if x <= nx - 1 - x {
        x
    } else {
        nx - 1 - x
    };
    let dz = if z <= nz - 1 - z {
        z
    } else {
        nz - 1 - z
    };
    if dx <= dz {
        dx
    } else {
        dz
    }
}

/// The sponge is the same seen from either side: mirroring a cell across the
/// vertical or the horizontal centre line of the grid keeps its distance to the edge.
pub proof fn lemma_edge_distance_mirror(x: int, z: int, nx: int, nz: int)
    requires
        0 <= x < nx,
        0 <= z < nz,
    ensures
        edge_distance(nx - 1 - x, z, nx, nz) == edge_distance(x, z, nx, nz),
        edge_distance(x, nz - 1 - z, nx, nz) == edge_distance(x, z, nx, nz),
{
}

} // verus!
