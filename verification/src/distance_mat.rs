use vstd::prelude::*;

verus! {

/// Largest cost a single matrix entry may hold.  Together with
/// `MAX_TOUR_LEN` it keeps every closed-walk cost representable in `u64`
/// and every fitness value representable in `i64`.
pub const MAX_EDGE_COST: u64 = 0x7fff_ffff;

/// Largest number of stops in one walk that `compute_cost` accepts.
pub const MAX_TOUR_LEN: usize = 0x4000_0000;

/// A square table of pairwise distances between locations.  The table is
/// assumed symmetric with a zero diagonal; both are the caller's
/// responsibility and neither is needed for the cost computation itself.
#[derive(Debug, Clone)]
pub struct DistanceMat {
    distances: Vec<Vec<u64>>,
}

impl View for DistanceMat {
    type V = Seq<Seq<u64>>;

    closed spec fn view(&self) -> Seq<Seq<u64>> {
        self.distances@.map_values(|row: Vec<u64>| row@)
    }
}

/// Every row has the same length as the table itself.
pub open spec fn is_square(m: Seq<Seq<u64>>) -> bool {
    forall|i: int| 0 <= i < m.len() ==> (#[trigger] m[i]).len() == m.len()
}

/// No entry exceeds `MAX_EDGE_COST`.
pub open spec fn entries_bounded(m: Seq<Seq<u64>>) -> bool {
    forall|i: int, j: int|
        0 <= i < m.len() && 0 <= j < m[i].len() ==> #[trigger] m[i][j] <= MAX_EDGE_COST
}

/// A well-formed distance table: square, with bounded entries.
pub open spec fn matrix_wf(m: Seq<Seq<u64>>) -> bool {
    is_square(m) && entries_bounded(m)
}

/// Every stop of the walk is a valid location index for a table of `n` rows.
pub open spec fn route_in_matrix(r: Seq<usize>, n: int) -> bool {
    forall|i: int| 0 <= i < r.len() ==> (#[trigger] r[i]) < n
}

/// Cost of the open path along `r`: the sum of the edges between
/// consecutive stops, without the closing edge.
pub open spec fn path_cost(m: Seq<Seq<u64>>, r: Seq<usize>) -> int
    decreases r.len(),
{
    if r.len() <= 1 {
        0
    } else {
        path_cost(m, r.drop_last()) + m[r[r.len() - 2] as int][r[r.len() - 1] as int]
    }
}

/// Cost of the closed walk along `r`: the open path plus the edge from the
/// last stop back to the first.
pub open spec fn closed_walk_cost(m: Seq<Seq<u64>>, r: Seq<usize>) -> int {
    if r.len() == 0 {
        0
    } else {
        m[r[r.len() - 1] as int][r[0] as int] + path_cost(m, r)
    }
}

/// The cost of an open path is non-negative and at most one maximal edge
/// per step.
pub proof fn lemma_path_cost_bounds(m: Seq<Seq<u64>>, r: Seq<usize>)
    requires
        matrix_wf(m),
        route_in_matrix(r, m.len() as int),
        r.len() >= 1,
    ensures
        0 <= path_cost(m, r) <= (r.len() - 1) * (MAX_EDGE_COST as int),
    decreases r.len(),
{
    if r.len() > 1 {
        assert(route_in_matrix(r.drop_last(), m.len() as int));
        lemma_path_cost_bounds(m, r.drop_last());
    }
}

impl DistanceMat {
    /// Wrap an existing distance table.  Squareness, symmetry and the zero
    /// diagonal are not validated here, matching the documented contract
    /// that the caller supplies a well-formed table.
    pub fn new(distances: Vec<Vec<u64>>) -> (result: DistanceMat)
        ensures
            result@ == distances@.map_values(|row: Vec<u64>| row@),
    {
        DistanceMat { distances }
    }

    /// The raw distance table.
    pub fn distances(&self) -> (result: &Vec<Vec<u64>>)
        ensures
            result@.map_values(|row: Vec<u64>| row@) == self@,
    {
        &self.distances
    }

    /// The number of locations, i.e. one dimension of the square table.
    pub fn n_units(&self) -> (n: usize)
        ensures
            n == self@.len(),
    {
        self.distances.len()
    }

    /// Cost of visiting the stops of `solution` in order and returning from
    /// the last back to the first.  Stops may repeat; a single stop costs
    /// the diagonal entry.
    pub fn compute_cost(&self, solution: &crate::route::Route) -> (cost: u64)
        requires
            matrix_wf(self@),
            route_in_matrix(solution@, self@.len() as int),
            1 <= solution@.len() <= MAX_TOUR_LEN,
        ensures
            cost as int == closed_walk_cost(self@, solution@),
    {
        let indexes = &solution.indexes;
        let len = indexes.len();
        let first: usize = indexes[0];
        let last: usize = indexes[len - 1];
        proof {
            assert(self@.len() == self.distances@.len());
            assert(self@[last as int] == self.distances@[last as int]@);
        }
        let mut cost: u64 = self.distances[last][first];
        let mut i: usize = 1;
        proof {
            assert(path_cost(self@, solution@.take(1)) == 0);
        }
        while i < len
            invariant
                1 <= i <= len,
                len == solution@.len(),
                len <= MAX_TOUR_LEN,
                matrix_wf(self@),
                route_in_matrix(solution@, self@.len() as int),
                self@ == self.distances@.map_values(|row: Vec<u64>| row@),
                indexes == &solution.indexes,
                cost as int == self@[solution@[len - 1] as int][solution@[0] as int] + path_cost(
                    self@,
                    solution@.take(i as int),
                ),
            decreases len - i,
        {
            let prev: usize = indexes[i - 1];
            let here: usize = indexes[i];
            proof {
                assert(self@.len() == self.distances@.len());
                assert(self@[prev as int] == self.distances@[prev as int]@);
                assert(self@[prev as int].len() == self@.len());
                assert(self@[prev as int][here as int] <= MAX_EDGE_COST);
                assert(self@[solution@[len - 1] as int].len() == self@.len());
                assert(self@[solution@[len - 1] as int][solution@[0] as int] <= MAX_EDGE_COST);
                let taken = solution@.take(i as int);
                assert(route_in_matrix(taken, self@.len() as int));
                lemma_path_cost_bounds(self@, taken);
                assert(taken.len() - 1 <= MAX_TOUR_LEN - 1);
                vstd::arithmetic::mul::lemma_mul_inequality(
                    taken.len() - 1,
                    MAX_TOUR_LEN - 1,
                    MAX_EDGE_COST as int,
                );
                let next = solution@.take(i + 1);
                assert(next.drop_last() =~= taken);
                assert(next[next.len() - 2] == solution@[i - 1]);
                assert(next[next.len() - 1] == solution@[i as int]);
            }
            cost = cost + self.distances[prev][here];
            i = i + 1;
        }
        proof {
            assert(solution@.take(len as int) =~= solution@);
        }
        cost
    }
}

} // verus!
