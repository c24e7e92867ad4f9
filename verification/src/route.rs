use vstd::prelude::*;
use crate::distance_mat::{DistanceMat, closed_walk_cost, matrix_wf, route_in_matrix, MAX_TOUR_LEN};

verus! {

/// Probability scale for `mutate`: a probability is given in millionths,
/// so `PROB_SCALE` stands for probability one.
pub const PROB_SCALE: u32 = 1_000_000;

/// An individual of the genetic algorithm: an ordered sequence of location
/// indices, normally a permutation of `0..n`.
#[derive(Debug, Clone, Eq, Hash)]
pub struct Route {
    /// The order in which the locations are visited.
    pub indexes: Vec<usize>,
}

impl View for Route {
    type V = Seq<usize>;

    open spec fn view(&self) -> Seq<usize> {
        self.indexes@
    }
}

impl PartialEq for Route {
    fn eq(&self, other: &Route) -> (r: bool) {
        let r = self.indexes == other.indexes;
        proof {
            if r {
                assert(self.indexes@ =~= other.indexes@);
            }
        }
        r
    }
}

impl vstd::std_specs::cmp::PartialEqSpecImpl for Route {
    open spec fn obeys_eq_spec() -> bool {
        true
    }

    open spec fn eq_spec(&self, other: &Route) -> bool {
        self@ == other@
    }
}

/// `s` visits every location of `0..n` exactly once.
pub open spec fn is_perm_of(s: Seq<usize>, n: int) -> bool {
    &&& s.len() == n
    &&& s.no_duplicates()
    &&& forall|i: int| 0 <= i < s.len() ==> (#[trigger] s[i]) < n
    &&& forall|v: usize| 0 <= v < n ==> s.contains(v)
}

/// Fitness of a route against a distance table: the negated round-trip
/// cost, so that a larger fitness means a shorter tour.
pub open spec fn fitness_spec(m: Seq<Seq<u64>>, r: Seq<usize>) -> int {
    -closed_walk_cost(m, r)
}

impl Route {
    /// Wrap a visiting order as a route.
    pub fn new(indexes: Vec<usize>) -> (result: Route)
        ensures
            result@ == indexes@,
    {
        Route { indexes }
    }

    /// An independent copy of the route with the same visiting order.
    pub fn duplicate(&self) -> (r: Route)
        ensures
            r@ == self@,
    {
        let indexes = self.indexes.clone();
        proof {
            assert(indexes@ =~= self.indexes@);
        }
        Route { indexes }
    }

    /// With probability `1 - prob / PROB_SCALE` the route is returned
    /// unchanged.  Otherwise one element is relocated: a random target
    /// position is drawn, a random donor position distinct from the target
    /// and from the position just before it is drawn, and the donor element
    /// is re-inserted immediately before the target.  The result is never
    /// more than a single relocation away from the input, so it keeps the
    /// visited locations and changes at most three edges of the tour.
    /// `prob == 0` never changes the route; `prob >= PROB_SCALE` always
    /// does, provided no location repeats.
    pub fn mutate(self, prob: u32) -> (result: Route)
        requires
            self@.len() >= 2 || prob == 0,
        ensures
            crate::utils::is_relocation_of(self@, result@),
            result@.to_multiset() == self@.to_multiset(),
            result@.len() == self@.len(),
            forall|n: int| is_perm_of(self@, n) ==> is_perm_of(result@, n),
            prob == 0 ==> result@ == self@,
            prob >= PROB_SCALE && self@.no_duplicates() ==> result@ != self@,
    {
        proof {
            self@.to_multiset_ensures();
        }
        let ghost orig = self@;
        let coin = crate::utils::get_random_elem_from_range(0, PROB_SCALE as usize);
        let result = if coin >= prob as usize {
            // With probability (1 - prob / PROB_SCALE): no mutation.
            self
        } else {
            // Mutation is applied.  First draw the position to put another
            // element in front of.
            let len = self.indexes.len();
            let put_before_idx: usize = crate::utils::get_random_elem_from_range(0, len - 1);
            // The donor is drawn from the remaining positions, excluding
            // the target and the position just before it, both of which
            // would leave the route unchanged.
            let base = crate::utils::range_vec(len - 1);
            let list1 = crate::utils::remove_elem(base, put_before_idx);
            proof {
                base@.remove_ensures(put_before_idx as int);
            }
            let candidates = if list1.len() > 0 {
                let second_idx: usize = if put_before_idx >= 1 {
                    put_before_idx - 1
                } else {
                    0
                };
                proof {
                    list1@.remove_ensures(second_idx as int);
                }
                crate::utils::remove_elem(list1, second_idx)
            } else {
                list1
            };
            proof {
                assert forall|i: int|
                    0 <= i < candidates@.len() implies (#[trigger] candidates@[i]) < len - 1
                        && candidates@[i] != put_before_idx && candidates@[i] + 1
                        != put_before_idx by {}
            }
            let chosen = crate::utils::choose_elem(&candidates);
            let move_idx: usize;
            match chosen {
                Some(m) => {
                    proof {
                        assert(candidates@.contains(m));
                        let i = choose|i: int| 0 <= i < candidates@.len() && candidates@[i] == m;
                        assert(candidates@[i] < len - 1);
                        assert(candidates@[i] != put_before_idx);
                        assert(candidates@[i] + 1 != put_before_idx);
                    }
                    move_idx = m;
                },
                None => {
                    // No candidate is left (routes of two or three stops):
                    // fall back to the position after the target.
                    move_idx = (put_before_idx + 1) % len;
                    proof {
                        vstd::arithmetic::div_mod::lemma_small_mod(
                            (put_before_idx + 1) as nat,
                            len as nat,
                        );
                        assert(move_idx == put_before_idx + 1);
                    }
                },
            }
            let new_indexes = crate::utils::change_order(
                &self.indexes,
                put_before_idx,
                move_idx,
            );
            proof {
                let p = put_before_idx as int;
                let m = move_idx as int;
                assert(new_indexes@ == orig.remove(m).insert(
                    crate::utils::move_target(p, m),
                    orig[m],
                ));
                assert(crate::utils::is_relocation_of(orig, new_indexes@));
            }
            Route { indexes: new_indexes }
        };
        proof {
            assert forall|n: int| is_perm_of(orig, n) implies is_perm_of(result@, n) by {
                crate::utils::lemma_perm_from_multiset(orig, result@, n);
            }
        }
        result
    }

    /// Combine this route with another by ordered crossover: a random
    /// interior range is drawn, this route donates the segment inside the
    /// range, and `other` donates the relative order of everything else.
    /// When both parents visit every location of `0..n` exactly once, so
    /// does the child.
    pub fn crossover(&self, other: &Route) -> (child: Route)
        requires
            self@.len() == other@.len(),
            self@.len() >= 2,
        ensures
            exists|start: int, len: int|
                0 <= start && 1 <= len && start + len <= self@.len() && (self@.len() >= 3
                    ==> start + len + 2 <= self@.len()) && (self@.len() == 2 ==> start == 0 && len
                    == 1) && child@ == crate::utils::ox_child(self@, other@, start, len),
            is_perm_of(self@, self@.len() as int) && is_perm_of(other@, self@.len() as int)
                ==> is_perm_of(child@, self@.len() as int),
    {
        let subsequence = crate::subsequence::Subsequence::random_subsequence(self.indexes.len());
        let child = crate::utils::ordered_crossover(self, other, subsequence);
        proof {
            let start = subsequence.start_index as int;
            let len = subsequence.length as int;
            assert(0 <= start && 1 <= len && start + len <= self@.len() && (self@.len() >= 3
                ==> start + len + 2 <= self@.len()) && (self@.len() == 2 ==> start == 0 && len
                == 1) && child@ == crate::utils::ox_child(self@, other@, start, len));
            if is_perm_of(self@, self@.len() as int) && is_perm_of(other@, self@.len() as int) {
                crate::utils::lemma_ox_child_perm(self@, other@, start, len, self@.len() as int);
            }
        }
        child
    }

    /// How well this route solves the problem: the negated round-trip cost
    /// over `distance_mat`, so that fitter routes compare larger.
    pub fn fitness(&self, distance_mat: &DistanceMat) -> (f: i64)
        requires
            matrix_wf(distance_mat@),
            route_in_matrix(self@, distance_mat@.len() as int),
            1 <= self@.len() <= MAX_TOUR_LEN,
        ensures
            f as int == fitness_spec(distance_mat@, self@),
    {
        let cost = distance_mat.compute_cost(self);
        proof {
            crate::distance_mat::lemma_path_cost_bounds(distance_mat@, self@);
            vstd::arithmetic::mul::lemma_mul_inequality(
                self@.len() - 1,
                MAX_TOUR_LEN - 1,
                crate::distance_mat::MAX_EDGE_COST as int,
            );
        }
        -(cost as i64)
    }
}

} // verus!
