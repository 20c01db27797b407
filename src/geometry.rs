use vstd::prelude::*;

verus! {

/// Terrain heights over a rectangle of columns starting at (0, 0), row by row;
/// columns outside it stand at `default`.
pub struct Ground {
    pub width: usize,
    pub heights: Vec<i32>,
    pub default: i32,
}

impl Ground {
    pub open spec fn level_spec(&self, x: int, z: int) -> int {
        if 0 <= x < self.width && 0 <= z && z * self.width + x < self.heights@.len() {
            self.heights@[z * self.width + x] as int
        } else {
            self.default as int
        }
    }

    /// Terrain surface elevation of the column (x, z).
    pub fn level(&self, x: i32, z: i32) -> (r: i32)
        ensures
            r == self.level_spec(x as int, z as int),
    {
        if x < 0 || z < 0 || x as usize >= self.width {
            return self.default;
        }
        let zz: u128 = z as u128;
        let w: u128 = self.width as u128;
        proof {
            assert(zz * w <= 0x1_0000_0000 * 0x1_0000_0000_0000_0000) by (nonlinear_arith)
                requires zz < 0x1_0000_0000, w < 0x1_0000_0000_0000_0000;
        }
        let idx: u128 = zz * w + x as u128;
        if idx < self.heights.len() as u128 {
            self.heights[idx as usize]
        } else {
            self.default
        }
    }

    /// Lowest terrain elevation over the columns of `s`, which is not empty.
    pub open spec fn min_spec(&self, s: Seq<(i32, i32)>) -> int
        decreases s.len(),
    {
        if s.len() <= 1 {
            self.level_spec(s[0].0 as int, s[0].1 as int)
        } else {
            let m = self.min_spec(s.drop_last());
            let l = self.level_spec(s.last().0 as int, s.last().1 as int);
            if l < m { l } else { m }
        }
    }

    /// Lowest terrain elevation over the columns of `points`; `None` for no columns.
    pub fn min_level(&self, points: &Vec<(i32, i32)>) -> (r: Option<i32>)
        ensures
            points@.len() == 0 <==> r is None,
            r matches Some(m) ==> m == self.min_spec(points@),
            r matches Some(m) ==> (forall|i: int| 0 <= i < points@.len()
                ==> m <= self.level_spec(#[trigger] points@[i].0 as int, points@[i].1 as int)),
            r matches Some(m) ==> (exists|i: int| 0 <= i < points@.len()
                && m == self.level_spec(#[trigger] points@[i].0 as int, points@[i].1 as int)),
    {
        let mut best: Option<i32> = None;
        let mut i: usize = 0;
        while i < points.len()
            invariant
                i <= points@.len(),
                (i == 0) <==> best is None,
                best matches Some(m) ==> m == self.min_spec(points@.subrange(0, i as int)),
                best matches Some(m) ==> (forall|j: int| 0 <= j < i
                    ==> m <= self.level_spec(#[trigger] points@[j].0 as int, points@[j].1 as int)),
                best matches Some(m) ==> (exists|j: int| 0 <= j < i
                    && m == self.level_spec(#[trigger] points@[j].0 as int, points@[j].1 as int)),
            decreases points@.len() - i,
        {
            let l: i32 = self.level(points[i].0, points[i].1);
            assert(points@.subrange(0, i + 1).drop_last() =~= points@.subrange(0, i as int));
            best = match best {
                Some(m) => if l < m { Some(l) } else { Some(m) },
                None => Some(l),
            };
            i = i + 1;
        }
        assert(points@.subrange(0, i as int) =~= points@);
        best
    }
}

pub open spec fn wide(p: (i64, i64)) -> (int, int) {
    (p.0 as int, p.1 as int)
}

pub open spec fn abs(v: int) -> int {
    if v < 0 { -v } else { v }
}

/// Offset after `i` of `n` equal steps along a run of length `d`, rounded half away from zero.
pub open spec fn step_offset(d: int, i: int, n: int) -> int {
    if d >= 0 {
        (2 * i * d + n) / (2 * n)
    } else {
        -((2 * i * (-d) + n) / (2 * n))
    }
}

/// Number of steps of the line from (x0, z0) to (x1, z1).
pub open spec fn line_steps(x0: int, z0: int, x1: int, z1: int) -> int {
    if abs(x1 - x0) >= abs(z1 - z0) { abs(x1 - x0) } else { abs(z1 - z0) }
}

/// The `i`-th column of the line from (x0, z0) to (x1, z1).
pub open spec fn line_point(x0: int, z0: int, x1: int, z1: int, i: int) -> (int, int) {
    let n = line_steps(x0, z0, x1, z1);
    if n == 0 {
        (x0, z0)
    } else {
        (x0 + step_offset(x1 - x0, i, n), z0 + step_offset(z1 - z0, i, n))
    }
}

fn offset(d: i64, i: i64, n: i64) -> (r: i64)
    requires
        0 <= i <= n,
        0 < n,
        abs(d as int) <= n <= 0x1_0000_0000,
    ensures
        r == step_offset(d as int, i as int, n as int),
        abs(r as int) <= n,
{
    let m: i128 = if d >= 0 { d as i128 } else { -(d as i128) };
    proof {
        assert(2 * i * m <= 0x2_0000_0000_0000_0000) by (nonlinear_arith)
            requires 0 <= i <= n, 0 <= m <= n, n <= 0x1_0000_0000;
        assert(2 * i * m >= 0) by (nonlinear_arith)
            requires 0 <= i, 0 <= m;
        assert((2 * i * m + n) / (2 * n) <= n) by (nonlinear_arith)
            requires 0 <= i <= n, 0 <= m <= n, 0 < n;
    }
    let q: i128 = (2 * (i as i128) * m + n as i128) / (2 * n as i128);
    if d >= 0 {
        q as i64
    } else {
        (0 - q) as i64
    }
}

/// Every column that the straight segment from (x0, z0) to (x1, z1) passes through,
/// both ends included.
pub fn raster_line(x0: i32, z0: i32, x1: i32, z1: i32) -> (r: Vec<(i64, i64)>)
    ensures
        r@.len() == line_steps(x0 as int, z0 as int, x1 as int, z1 as int) + 1,
        forall|i: int| 0 <= i < r@.len() ==> wide(#[trigger] r@[i]) == line_point(
            x0 as int, z0 as int, x1 as int, z1 as int, i),
        forall|i: int| 0 <= i < r@.len() ==> -0x2_0000_0000 <= (#[trigger] r@[i]).0 <= 0x2_0000_0000
            && -0x2_0000_0000 <= r@[i].1 <= 0x2_0000_0000,
{
    let dx: i64 = x1 as i64 - x0 as i64;
    let dz: i64 = z1 as i64 - z0 as i64;
    let ax: i64 = if dx < 0 { -dx } else { dx };
    let az: i64 = if dz < 0 { -dz } else { dz };
    let n: i64 = if ax >= az { ax } else { az };
    let mut r: Vec<(i64, i64)> = Vec::new();
    if n == 0 {
        r.push((x0 as i64, z0 as i64));
        return r;
    }
    let mut i: i64 = 0;
    while i <= n
        invariant
            0 <= i <= n + 1,
            n == line_steps(x0 as int, z0 as int, x1 as int, z1 as int),
            0 < n <= 0x1_0000_0000,
            dx == x1 - x0,
            dz == z1 - z0,
            abs(dx as int) <= n,
            abs(dz as int) <= n,
            r@.len() == i,
            forall|j: int| 0 <= j < i ==> wide(#[trigger] r@[j]) == line_point(
                x0 as int, z0 as int, x1 as int, z1 as int, j),
            forall|j: int| 0 <= j < i ==> -0x2_0000_0000 <= (#[trigger] r@[j]).0 <= 0x2_0000_0000
                && -0x2_0000_0000 <= r@[j].1 <= 0x2_0000_0000,
        decreases n + 1 - i,
    {
        let ox: i64 = offset(dx, i, n);
        let oz: i64 = offset(dz, i, n);
        r.push((x0 as i64 + ox, z0 as i64 + oz));
        i = i + 1;
    }
    r
}

} // verus!
