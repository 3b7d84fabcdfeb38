use vstd::prelude::*;

verus! {

/// Why a distance matrix could not be built from the values given.
#[derive(Debug, PartialEq, Eq, Structural)]
pub enum InstanceError {
    /// A row of the full matrix is longer than the number of cities, or there are more
    /// rows than cities.
    RowTooLong,
    /// The upper triangle holds fewer entries than the values given.
    TooManyValues,
}

/// The number of entries of the strict upper triangle of an `n` by `n` matrix that lie
/// in rows `0..i`.
pub open spec fn rows_before(n: nat, i: nat) -> nat
    decreases i,
{
    if i == 0 {
        0
    } else {
        rows_before(n, (i - 1) as nat) + if i - 1 < n { (n - i) as nat } else { 0 }
    }
}

/// The position of the entry `(i, j)`, `i < j`, when the strict upper triangle is read
/// row by row.
pub open spec fn upper_position(n: nat, i: nat, j: nat) -> nat {
    rows_before(n, i) + (j - i - 1) as nat
}

/// The entry `(i, j)` of the matrix whose strict upper triangle is read row by row from
/// `values` (zero past their end), mirrored below the diagonal, with a zero diagonal.
pub open spec fn upper_row_entry(n: nat, values: Seq<i32>, i: nat, j: nat) -> int {
    let lo = if i < j { i } else { j };
    let hi = if i < j { j } else { i };
    if lo == hi {
        0
    } else if upper_position(n, lo, hi) < values.len() {
        values[upper_position(n, lo, hi) as int] as int
    } else {
        0
    }
}

/// An immutable matrix of integer distances between `num_cities` cities.
#[derive(Debug)]
pub struct Instance {
    pub num_cities: usize,
    pub distances: Vec<Vec<i32>>,
}

impl Instance {
    /// The distance from city `i` to city `j`.
    pub open spec fn dist(self, i: int, j: int) -> int {
        self.distances@[i]@[j] as int
    }

    /// The matrix is square of side `num_cities`, non-negative, symmetric, zero on
    /// the diagonal, and small enough that the length of any closed tour fits an `i32`.
    pub open spec fn wf(self) -> bool {
        let n = self.num_cities as int;
        &&& n > 0
        &&& self.distances@.len() == n
        &&& forall|i: int| 0 <= i < n ==> #[trigger] self.distances@[i]@.len() == n
        &&& forall|i: int, j: int|
            0 <= i < n && 0 <= j < n ==> 0 <= #[trigger] self.dist(i, j) && n * self.dist(i, j)
                <= i32::MAX
        &&& forall|i: int, j: int|
            0 <= i < n && 0 <= j < n ==> #[trigger] self.dist(i, j) == self.dist(j, i)
        &&& forall|i: int| 0 <= i < n ==> #[trigger] self.dist(i, i) == 0
    }

    /// The matrix whose rows start with the given rows, padded with zeros to
    /// `num_cities` columns, and padded with rows of zeros to `num_cities` rows.
    pub fn from_full_matrix(num_cities: usize, rows: &Vec<Vec<i32>>) -> (r: Result<Instance, InstanceError>)
        ensures
            (rows@.len() <= num_cities && forall|i: int| 0 <= i < rows@.len() ==> #[trigger] rows@[i]@.len() <= num_cities)
                <==> r is Ok,
            r matches Ok(inst) ==> {
                &&& inst.num_cities == num_cities
                &&& inst.distances@.len() == num_cities
                &&& forall|i: int| 0 <= i < num_cities ==> #[trigger] inst.distances@[i]@.len() == num_cities
                &&& forall|i: int, j: int| 0 <= i < num_cities && 0 <= j < num_cities ==> #[trigger] inst.dist(i, j)
                    == if i < rows@.len() && j < rows@[i]@.len() { rows@[i]@[j] as int } else { 0 }
            },
    {
        let n = num_cities;
        if rows.len() > n {
            return Err(InstanceError::RowTooLong);
        }
        let mut distances: Vec<Vec<i32>> = Vec::with_capacity(n);
        let mut i: usize = 0;
        while i < n
            invariant
                n == num_cities,
                rows@.len() <= n,
                i <= n,
                distances@.len() == i,
                forall|a: int| 0 <= a < rows@.len() && a < i ==> #[trigger] rows@[a]@.len() <= n,
                forall|a: int| 0 <= a < i ==> #[trigger] distances@[a]@.len() == n,
                forall|a: int, b: int| 0 <= a < i && 0 <= b < n ==> #[trigger] distances@[a]@[b]
                    == if a < rows@.len() && b < rows@[a]@.len() { rows@[a]@[b] } else { 0 },
            decreases n - i,
        {
            let mut row: Vec<i32> = Vec::with_capacity(n);
            if i < rows.len() && rows[i].len() > n {
                return Err(InstanceError::RowTooLong);
            }
            let mut j: usize = 0;
            while j < n
                invariant
                    n == num_cities,
                    rows@.len() <= n,
                    i < n,
                    i < rows@.len() ==> rows@[i as int]@.len() <= n,
                    j <= n,
                    row@.len() == j,
                    forall|b: int| 0 <= b < j ==> #[trigger] row@[b]
                        == if i < rows@.len() && b < rows@[i as int]@.len() { rows@[i as int]@[b] } else { 0 },
                decreases n - j,
            {
                let v = if i < rows.len() && j < rows[i].len() { rows[i][j] } else { 0 };
                row.push(v);
                j = j + 1;
            }
            distances.push(row);
            i = i + 1;
        }
        Ok(Instance { num_cities: n, distances })
    }

    /// The symmetric matrix whose strict upper triangle is read row by row from `values`,
    /// zero where they run out, with a zero diagonal. More values than the triangle holds
    /// are refused.
    pub fn from_upper_row(num_cities: usize, values: &Vec<i32>) -> (r: Result<Instance, InstanceError>)
        ensures
            (values@.len() <= rows_before(num_cities as nat, num_cities as nat)) <==> r is Ok,
            r matches Ok(inst) ==> {
                &&& inst.num_cities == num_cities
                &&& inst.distances@.len() == num_cities
                &&& forall|i: int| 0 <= i < num_cities ==> #[trigger] inst.distances@[i]@.len() == num_cities
                &&& forall|i: int, j: int| 0 <= i < num_cities && 0 <= j < num_cities ==> #[trigger] inst.dist(i, j)
                    == upper_row_entry(num_cities as nat, values@, i as nat, j as nat)
            },
    {
        let n = num_cities;
        let len = values.len();
        // starts[i] is rows_before(n, i), or `len` if that is larger.
        let mut starts: Vec<usize> = Vec::with_capacity(n);
        let mut t: usize = 0;
        let mut i: usize = 0;
        while i < n
            invariant
                n == num_cities,
                len == values@.len(),
                i <= n,
                starts@.len() == i,
                t as int == if rows_before(n as nat, i as nat) < len { rows_before(n as nat, i as nat) as int } else { len as int },
                forall|a: int| 0 <= a < i ==> #[trigger] starts@[a] as int == if rows_before(n as nat, a as nat) < len {
                    rows_before(n as nat, a as nat) as int
                } else {
                    len as int
                },
            decreases n - i,
        {
            starts.push(t);
            let step = n - 1 - i;
            t = if step < len - t { t + step } else { len };
            i = i + 1;
        }
        if t < len {
            return Err(InstanceError::TooManyValues);
        }
        let mut distances: Vec<Vec<i32>> = Vec::with_capacity(n);
        let mut i: usize = 0;
        while i < n
            invariant
                n == num_cities,
                len == values@.len(),
                i <= n,
                starts@.len() == n,
                forall|a: int| 0 <= a < n ==> #[trigger] starts@[a] as int == if rows_before(n as nat, a as nat) < len {
                    rows_before(n as nat, a as nat) as int
                } else {
                    len as int
                },
                distances@.len() == i,
                forall|a: int| 0 <= a < i ==> #[trigger] distances@[a]@.len() == n,
                forall|a: int, b: int| 0 <= a < i && 0 <= b < n ==> #[trigger] distances@[a]@[b] as int
                    == upper_row_entry(n as nat, values@, a as nat, b as nat),
            decreases n - i,
        {
            let mut row: Vec<i32> = Vec::with_capacity(n);
            let mut j: usize = 0;
            while j < n
                invariant
                    n == num_cities,
                    len == values@.len(),
                    i < n,
                    starts@.len() == n,
                    forall|a: int| 0 <= a < n ==> #[trigger] starts@[a] as int == if rows_before(n as nat, a as nat) < len {
                        rows_before(n as nat, a as nat) as int
                    } else {
                        len as int
                    },
                    j <= n,
                    row@.len() == j,
                    forall|b: int| 0 <= b < j ==> #[trigger] row@[b] as int == upper_row_entry(n as nat, values@, i as nat, b as nat),
                decreases n - j,
            {
                let (lo, hi) = if i < j { (i, j) } else { (j, i) };
                let start = starts[lo];
                let v = if lo == hi {
                    0
                } else if start < len && hi - lo - 1 < len - start {
                    values[start + (hi - lo - 1)]
                } else {
                    0
                };
                row.push(v);
                j = j + 1;
            }
            distances.push(row);
            i = i + 1;
        }
        Ok(Instance { num_cities: n, distances })
    }

    /// Whether the instance is well-formed: a non-empty square matrix, non-negative,
    /// symmetric, zero on the diagonal, with every entry times the number of cities at
    /// most `i32::MAX`.
    pub fn is_valid(&self) -> (r: bool)
        ensures
            r == self.wf(),
    {
        let n = self.num_cities;
        if n == 0 || self.distances.len() != n {
            return false;
        }
        let mut i: usize = 0;
        while i < n
            invariant
                n == self.num_cities,
                n > 0,
                self.distances@.len() == n,
                i <= n,
                forall|a: int| 0 <= a < i ==> #[trigger] self.distances@[a]@.len() == n,
            decreases n - i,
        {
            if self.distances[i].len() != n {
                return false;
            }
            i = i + 1;
        }
        let limit: usize = i32::MAX as usize;
        let mut i: usize = 0;
        while i < n
            invariant
                n == self.num_cities,
                n > 0,
                limit == i32::MAX,
                self.distances@.len() == n,
                forall|a: int| 0 <= a < n ==> #[trigger] self.distances@[a]@.len() == n,
                i <= n,
                forall|a: int, b: int|
                    0 <= a < i && 0 <= b < n ==> 0 <= #[trigger] self.dist(a, b) && n * self.dist(
                        a,
                        b,
                    ) <= i32::MAX,
                forall|a: int, b: int|
                    0 <= a < i && 0 <= b < n ==> #[trigger] self.dist(a, b) == self.dist(b, a),
                forall|a: int| 0 <= a < i ==> #[trigger] self.dist(a, a) == 0,
            decreases n - i,
        {
            let mut j: usize = 0;
            while j < n
                invariant
                    n == self.num_cities,
                    n > 0,
                    limit == i32::MAX,
                    self.distances@.len() == n,
                    forall|a: int| 0 <= a < n ==> #[trigger] self.distances@[a]@.len() == n,
                    i < n,
                    j <= n,
                    forall|a: int, b: int|
                        0 <= a < i && 0 <= b < n ==> 0 <= #[trigger] self.dist(a, b) && n * self.dist(
                            a,
                            b,
                        ) <= i32::MAX,
                    forall|a: int, b: int|
                        0 <= a < i && 0 <= b < n ==> #[trigger] self.dist(a, b) == self.dist(b, a),
                    forall|a: int| 0 <= a < i ==> #[trigger] self.dist(a, a) == 0,
                    forall|b: int|
                        0 <= b < j ==> 0 <= #[trigger] self.dist(i as int, b) && n * self.dist(
                            i as int,
                            b,
                        ) <= i32::MAX,
                    forall|b: int| 0 <= b < j ==> #[trigger] self.dist(i as int, b) == self.dist(b, i as int),
                    j > i ==> self.dist(i as int, i as int) == 0,
                decreases n - j,
            {
                let d = self.distances[i][j];
                let e = self.distances[j][i];
                proof {
                    assert(self.dist(i as int, j as int) == d && self.dist(j as int, i as int) == e);
                }
                if d < 0 || d != e || (i == j && d != 0) {
                    return false;
                }
                if d > 0 && n > limit / (d as usize) {
                    proof {
                        let q = limit as int / d as int;
                        assert(n * (d as int) > limit) by (nonlinear_arith)
                            requires
                                n > q,
                                q == limit as int / d as int,
                                d > 0,
                        ;
                        assert(!(n * self.dist(i as int, j as int) <= i32::MAX));
                    }
                    return false;
                }
                proof {
                    if d > 0 {
                        let q = limit as int / d as int;
                        assert(n * (d as int) <= limit) by (nonlinear_arith)
                            requires
                                n <= q,
                                q == limit as int / d as int,
                                d > 0,
                        ;
                    }
                }
                j = j + 1;
            }
            i = i + 1;
        }
        true
    }
}

} // verus!
