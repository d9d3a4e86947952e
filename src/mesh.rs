use vstd::prelude::*;

verus! {

/// Corner `t` (0 to 5) of the two triangles of quad `q` in a torus grid with `slices`
/// quads per ring; vertex `(i, j)` of the grid has index `i * (slices + 1) + j`.
pub open spec fn torus_corner(slices: int, q: int, t: int) -> int {
    let a = (q / slices) * (slices + 1) + q % slices;
    let b = a + slices + 1;
    if t == 0 {
        a
    } else if t == 1 {
        b
    } else if t == 2 {
        a + 1
    } else if t == 3 {
        b
    } else if t == 4 {
        b + 1
    } else {
        a + 1
    }
}

/// The index buffer of a torus with `slices` quads per ring and `loops` rings: two
/// triangles per quad, six indices, quads in ring order.
pub fn torus_indices(slices: usize, loops: usize) -> (r: Vec<u32>)
    requires
        (slices + 1) * (loops + 1) <= 0x1_0000_0000,
        slices * loops * 6 <= usize::MAX,
    ensures
        r@.len() == slices * loops * 6,
        forall|k: int| 0 <= k < r@.len() ==> #[trigger] r@[k] as int == torus_corner(slices as int, k / 6, k % 6),
{
    let mut r: Vec<u32> = Vec::new();
    if slices == 0 || loops == 0 {
        assert(slices * loops * 6 == 0) by (nonlinear_arith)
            requires slices == 0 || loops == 0;
        return r;
    }
    assert(slices * loops <= slices * loops * 6) by (nonlinear_arith);
    let n: usize = slices * loops;
    let mut q: usize = 0;
    while q < n
        invariant
            0 < slices,
            0 < loops,
            n == slices * loops,
            n * 6 <= usize::MAX,
            (slices + 1) * (loops + 1) <= 0x1_0000_0000,
            q <= n,
            r@.len() == 6 * q,
            forall|k: int| 0 <= k < r@.len() ==> #[trigger] r@[k] as int == torus_corner(slices as int, k / 6, k % 6),
        decreases n - q,
    {
        let i: usize = q / slices;
        let j: usize = q % slices;
        assert(i < loops) by (nonlinear_arith)
            requires i == q / slices, q < slices * loops, 0 < slices;
        assert((i + 1) * (slices + 1) + j + 1 <= (slices + 1) * (loops + 1) - 1) by (nonlinear_arith)
            requires i + 1 <= loops, j < slices;
        assert(i * (slices + 1) + slices + 1 == (i + 1) * (slices + 1)) by (nonlinear_arith);
        let a: u64 = i as u64 * (slices as u64 + 1) + j as u64;
        let b: u64 = a + slices as u64 + 1;
        let ghost len0 = r@.len();
        r.push(a as u32);
        r.push(b as u32);
        r.push((a + 1) as u32);
        r.push(b as u32);
        r.push((b + 1) as u32);
        r.push((a + 1) as u32);
        proof {
            assert forall|k: int| 0 <= k < r@.len() implies #[trigger] r@[k] as int == torus_corner(slices as int, k / 6, k % 6) by {
                if k >= len0 {
                    assert(k / 6 == q as int);
                    assert(k % 6 == k - 6 * q);
                }
            }
        }
        q = q + 1;
    }
    assert(6 * n == slices * loops * 6) by (nonlinear_arith)
        requires n == slices * loops;
    r
}

} // verus!
