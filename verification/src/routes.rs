use vstd::prelude::*;
use crate::distance_mat::{matrix_wf, route_in_matrix, DistanceMat, MAX_TOUR_LEN};
use crate::route::{is_perm_of, Route};
use crate::utils::range_vec;

verus! {

/// Budget of draws for the rejection sampling of `Routes::random`; in
/// practice it is never exhausted.
pub const RANDOM_SAMPLING_BUDGET: u64 = 0xffff_ffff_ffff_ffff;

/// The fixed mutation probability that `evolve_population` applies each
/// generation: one half, in millionths.
pub const EVOLVE_MUTATE_PROB: u32 = crate::route::PROB_SCALE / 2;

/// A population of routes, unique by visiting order: structurally equal
/// routes collapse to one member.
#[derive(Debug, Clone)]
pub struct Routes {
    routes: Vec<Route>,
}

impl View for Routes {
    type V = Seq<Seq<usize>>;

    closed spec fn view(&self) -> Seq<Seq<usize>> {
        self.routes@.map_values(|r: Route| r@)
    }
}

/// Every member of `s` is a permutation of `0..n`.
pub open spec fn all_members_perm(s: Seq<Seq<usize>>, n: int) -> bool {
    forall|i: int| 0 <= i < s.len() ==> is_perm_of(#[trigger] s[i], n)
}

/// Every member of `s` can be priced against the distance table `m`.
pub open spec fn members_compatible(m: Seq<Seq<u64>>, s: Seq<Seq<usize>>) -> bool {
    forall|i: int|
        0 <= i < s.len() ==> route_in_matrix(#[trigger] s[i], m.len() as int) && 1 <= s[i].len()
            <= MAX_TOUR_LEN
}

/// `s` with later repetitions of a value removed: each value keeps its
/// first occurrence only.
pub open spec fn dedup_first(s: Seq<Seq<usize>>) -> Seq<Seq<usize>>
    decreases s.len(),
{
    if s.len() == 0 {
        s
    } else {
        let prefix = dedup_first(s.drop_last());
        if prefix.contains(s.last()) {
            prefix
        } else {
            prefix.push(s.last())
        }
    }
}

/// Deduplication yields a duplicate-free sequence over exactly the values
/// of the source.
pub proof fn lemma_dedup_first_props(s: Seq<Seq<usize>>)
    ensures
        dedup_first(s).no_duplicates(),
        forall|x: Seq<usize>| dedup_first(s).contains(x) <==> s.contains(x),
        dedup_first(s).len() <= s.len(),
    decreases s.len(),
{
    if s.len() > 0 {
        let rest = s.drop_last();
        lemma_dedup_first_props(rest);
        let prefix = dedup_first(rest);
        assert forall|x: Seq<usize>| dedup_first(s).contains(x) implies s.contains(x) by {
            if prefix.contains(x) || (!prefix.contains(s.last()) && x == s.last()) {
                if rest.contains(x) {
                    let i = choose|i: int| 0 <= i < rest.len() && rest[i] == x;
                    assert(s[i] == x);
                } else {
                    assert(s[s.len() - 1] == x);
                }
            }
        }
        assert forall|x: Seq<usize>| s.contains(x) implies dedup_first(s).contains(x) by {
            let i = choose|i: int| 0 <= i < s.len() && s[i] == x;
            if i < s.len() - 1 {
                assert(rest[i] == x);
                assert(rest.contains(x));
                assert(prefix.contains(x));
                if !prefix.contains(s.last()) {
                    let j = choose|j: int| 0 <= j < prefix.len() && prefix[j] == x;
                    assert(prefix.push(s.last())[j] == x);
                }
            } else {
                if prefix.contains(s.last()) {
                } else {
                    assert(prefix.push(s.last())[prefix.len() as int] == x);
                }
            }
        }
        if !prefix.contains(s.last()) {
            assert forall|i: int, j: int|
                0 <= i < dedup_first(s).len() && 0 <= j < dedup_first(s).len() && i
                    != j implies dedup_first(s)[i] != dedup_first(s)[j] by {
                if i < prefix.len() && j < prefix.len() {
                } else if i < prefix.len() {
                    assert(dedup_first(s)[j] == s.last());
                    assert(prefix.contains(prefix[i]));
                } else if j < prefix.len() {
                    assert(dedup_first(s)[i] == s.last());
                    assert(prefix.contains(prefix[j]));
                }
            }
        }
    }
}

/// Deduplication leaves a sequence without duplicates unchanged.
pub proof fn lemma_dedup_first_identity(s: Seq<Seq<usize>>)
    requires
        s.no_duplicates(),
    ensures
        dedup_first(s) =~= s,
    decreases s.len(),
{
    if s.len() > 0 {
        let rest = s.drop_last();
        assert(rest.no_duplicates());
        lemma_dedup_first_identity(rest);
        assert(!rest.contains(s.last())) by {
            if rest.contains(s.last()) {
                let j = choose|j: int| 0 <= j < rest.len() && rest[j] == s.last();
                assert(s[j] == s[s.len() - 1]);
            }
        }
        assert(dedup_first(s) =~= rest.push(s.last()));
    }
}

/// Is the route's visiting order already among the collected routes?
fn contains_route(routes: &Vec<Route>, route: &Route) -> (r: bool)
    ensures
        r == routes@.map_values(|x: Route| x@).contains(route@),
{
    let mut i: usize = 0;
    while i < routes.len()
        invariant
            0 <= i <= routes@.len(),
            forall|j: int| 0 <= j < i ==> (#[trigger] routes@[j])@ != route@,
        decreases routes@.len() - i,
    {
        if routes[i].eq(route) {
            proof {
                assert(routes@.map_values(|x: Route| x@)[i as int] == route@);
            }
            return true;
        }
        i = i + 1;
    }
    proof {
        assert forall|j: int| #![trigger routes@[j]] 0 <= j < routes@.len() implies routes@
            .map_values(|x: Route| x@)[j] != route@ by {
            assert(routes@[j]@ != route@);
        }
    }
    false
}

impl Routes {
    /// The population is well formed: no two members share a visiting
    /// order.
    pub open spec fn wf(&self) -> bool {
        self@.no_duplicates()
    }

    /// The members of the population, in their stored order.
    pub fn members(&self) -> (r: &Vec<Route>)
        ensures
            r@.map_values(|x: Route| x@) == self@,
    {
        &self.routes
    }

    /// Collect routes into a population, collapsing structurally equal
    /// routes onto their first occurrence.
    pub fn from_vec(routes: Vec<Route>) -> (r: Routes)
        ensures
            r.wf(),
            r@ == dedup_first(routes@.map_values(|x: Route| x@)),
            forall|x: Seq<usize>|
                r@.contains(x) <==> routes@.map_values(|y: Route| y@).contains(x),
            r@.len() <= routes@.len(),
    {
        let views = Ghost(routes@.map_values(|x: Route| x@));
        let mut collected: Vec<Route> = Vec::new();
        let mut i: usize = 0;
        proof {
            assert(views@.take(0) =~= Seq::<Seq<usize>>::empty());
            assert(collected@.map_values(|x: Route| x@) =~= dedup_first(views@.take(0)));
        }
        while i < routes.len()
            invariant
                0 <= i <= routes@.len(),
                views@ == routes@.map_values(|x: Route| x@),
                collected@.map_values(|x: Route| x@) == dedup_first(views@.take(i as int)),
            decreases routes@.len() - i,
        {
            let candidate = routes[i].duplicate();
            proof {
                assert(views@.take(i + 1).drop_last() =~= views@.take(i as int));
                assert(views@.take(i + 1).last() == views@[i as int]);
            }
            if !contains_route(&collected, &candidate) {
                collected.push(candidate);
                proof {
                    assert(collected@.map_values(|x: Route| x@) =~= dedup_first(
                        views@.take(i as int),
                    ).push(views@[i as int]));
                }
            }
            i = i + 1;
        }
        proof {
            assert(views@.take(routes@.len() as int) =~= views@);
            lemma_dedup_first_props(views@);
        }
        Routes { routes: collected }
    }

    /// A population of up to `n_routes` distinct random routes over
    /// `route_length` locations, drawn by rejection sampling: duplicates
    /// are discarded and drawing continues until enough distinct routes
    /// have been found or the sampling budget runs out.
    pub fn random(n_routes: usize, route_length: usize) -> (r: Routes)
        ensures
            r.wf(),
            all_members_perm(r@, route_length as int),
            r@.len() <= n_routes,
            n_routes >= 1 ==> r@.len() >= 1,
    {
        let all_objects = range_vec(route_length);
        proof {
            assert forall|v: usize| 0 <= v < route_length implies all_objects@.contains(v) by {
                assert(all_objects@[v as int] == v);
            }
            assert(is_perm_of(all_objects@, route_length as int));
        }
        let mut routes: Vec<Route> = Vec::new();
        let mut attempts: u64 = 0;
        while routes.len() < n_routes && attempts < RANDOM_SAMPLING_BUDGET
            invariant
                routes@.len() <= n_routes,
                is_perm_of(all_objects@, route_length as int),
                routes@.map_values(|x: Route| x@).no_duplicates(),
                all_members_perm(routes@.map_values(|x: Route| x@), route_length as int),
                attempts <= RANDOM_SAMPLING_BUDGET,
                attempts >= 1 ==> routes@.len() >= 1,
            decreases RANDOM_SAMPLING_BUDGET - attempts,
        {
            attempts = attempts + 1;
            let perm = crate::utils::random_permutation(&all_objects);
            proof {
                crate::utils::lemma_perm_from_multiset(
                    all_objects@,
                    perm@,
                    route_length as int,
                );
            }
            let route = Route { indexes: perm };
            let ghost pre = routes@.map_values(|x: Route| x@);
            if !contains_route(&routes, &route) {
                let ghost view = route@;
                routes.push(route);
                proof {
                    let mapped = routes@.map_values(|x: Route| x@);
                    assert(mapped =~= pre.push(view));
                    assert forall|a: int, b: int|
                        0 <= a < mapped.len() && 0 <= b < mapped.len() && a != b implies mapped[a]
                        != mapped[b] by {
                        if a == mapped.len() - 1 {
                            assert(pre.contains(pre[b]));
                        } else if b == mapped.len() - 1 {
                            assert(pre.contains(pre[a]));
                        }
                    }
                }
            }
        }
        Routes { routes }
    }
}

/// The fitness of each member of `s`, as the key used for ranking.
pub open spec fn fitness_keys(m: Seq<Seq<u64>>, s: Seq<Seq<usize>>) -> Seq<i64> {
    Seq::new(s.len(), |i: int| crate::route::fitness_spec(m, s[i]) as i64)
}

/// `rv` is the selection that `get_n_fittest` makes from `s` under the
/// bound `n` against the table `m`: the members of `s` listed in the
/// order of the stable descending argsort of their fitness keys, cut
/// after `min(n, |s|)` entries.  Exactly one sequence satisfies this for
/// given arguments.
pub open spec fn is_n_fittest_selection(
    m: Seq<Seq<u64>>,
    s: Seq<Seq<usize>>,
    n: int,
    rv: Seq<Seq<usize>>,
) -> bool {
    &&& rv.len() == vstd::math::min(n, s.len() as int)
    &&& exists|ix: Seq<usize>|
        crate::utils::is_stable_desc_argsort(fitness_keys(m, s), ix) && rv =~= Seq::new(
            rv.len(),
            |k: int| s[ix[k] as int],
        )
}

/// The fitness of the fittest member of `s`: the maximum of
/// `fitness_spec` over the members.
pub open spec fn best_fit(m: Seq<Seq<u64>>, s: Seq<Seq<usize>>) -> int
    recommends
        s.len() >= 1,
    decreases s.len(),
{
    if s.len() <= 1 {
        crate::route::fitness_spec(m, s[0])
    } else {
        let rest = best_fit(m, s.drop_last());
        if crate::route::fitness_spec(m, s.last()) > rest {
            crate::route::fitness_spec(m, s.last())
        } else {
            rest
        }
    }
}

/// No member is fitter than the fittest.
pub proof fn lemma_best_fit_ge(m: Seq<Seq<u64>>, s: Seq<Seq<usize>>, i: int)
    requires
        0 <= i < s.len(),
    ensures
        crate::route::fitness_spec(m, s[i]) <= best_fit(m, s),
    decreases s.len(),
{
    if s.len() > 1 && i < s.len() - 1 {
        assert(s.drop_last()[i] == s[i]);
        lemma_best_fit_ge(m, s.drop_last(), i);
    }
}

/// Some member attains the fitness of the fittest.
pub proof fn lemma_best_fit_attained(m: Seq<Seq<u64>>, s: Seq<Seq<usize>>)
    requires
        s.len() >= 1,
    ensures
        exists|i: int| 0 <= i < s.len() && crate::route::fitness_spec(m, #[trigger] s[i])
            == best_fit(m, s),
    decreases s.len(),
{
    if s.len() == 1 {
        assert(crate::route::fitness_spec(m, s[0]) == best_fit(m, s));
    } else {
        lemma_best_fit_attained(m, s.drop_last());
        if crate::route::fitness_spec(m, s.last()) > best_fit(m, s.drop_last()) {
            assert(crate::route::fitness_spec(m, s[s.len() - 1]) == best_fit(m, s));
        } else {
            let i = choose|i: int|
                0 <= i < s.drop_last().len() && crate::route::fitness_spec(
                    m,
                    #[trigger] s.drop_last()[i],
                ) == best_fit(m, s.drop_last());
            assert(s.drop_last()[i] == s[i]);
            assert(crate::route::fitness_spec(m, s[i]) == best_fit(m, s));
        }
    }
}

impl Routes {
    /// The fitness of every member against `distance_mat`, each paired
    /// with a copy of its route.
    pub fn fitnesses(&self, distance_mat: &DistanceMat) -> (r: Vec<(i64, Route)>)
        requires
            matrix_wf(distance_mat@),
            members_compatible(distance_mat@, self@),
        ensures
            r@.len() == self@.len(),
            forall|i: int|
                0 <= i < r@.len() ==> (#[trigger] r@[i]).1@ == self@[i] && r@[i].0 as int
                    == crate::route::fitness_spec(distance_mat@, self@[i]),
    {
        let mut r: Vec<(i64, Route)> = Vec::new();
        let mut i: usize = 0;
        while i < self.routes.len()
            invariant
                0 <= i <= self.routes@.len(),
                self@ == self.routes@.map_values(|x: Route| x@),
                matrix_wf(distance_mat@),
                members_compatible(distance_mat@, self@),
                r@.len() == i,
                forall|j: int|
                    0 <= j < i ==> (#[trigger] r@[j]).1@ == self@[j] && r@[j].0 as int
                        == crate::route::fitness_spec(distance_mat@, self@[j]),
            decreases self.routes@.len() - i,
        {
            proof {
                assert(self.routes@[i as int]@ == self@[i as int]);
            }
            let f = self.routes[i].fitness(distance_mat);
            r.push((f, self.routes[i].duplicate()));
            i = i + 1;
        }
        r
    }

    /// Up to `n` members with the highest fitness, fittest first; members
    /// of equal fitness keep their stored relative order.  Fewer than `n`
    /// are returned only when the population is smaller than `n`.
    pub fn get_n_fittest(&self, n: usize, distance_mat: &DistanceMat) -> (r: Vec<Route>)
        requires
            matrix_wf(distance_mat@),
            members_compatible(distance_mat@, self@),
        ensures
            ({
                let rv = r@.map_values(|x: Route| x@);
                let m = distance_mat@;
                &&& r@.len() == vstd::math::min(n as int, self@.len() as int)
                &&& forall|k: int| 0 <= k < rv.len() ==> self@.contains(#[trigger] rv[k])
                &&& forall|k1: int, k2: int|
                    0 <= k1 < k2 < rv.len() ==> crate::route::fitness_spec(m, rv[k1])
                        >= crate::route::fitness_spec(m, rv[k2])
                &&& forall|j: int, k: int|
                    0 <= j < self@.len() && 0 <= k < rv.len() && !rv.contains(#[trigger] self@[j])
                        ==> crate::route::fitness_spec(m, self@[j])
                        <= crate::route::fitness_spec(m, #[trigger] rv[k])
                &&& rv.len() >= 1 ==> forall|j: int|
                    0 <= j < self@.len() ==> crate::route::fitness_spec(m, #[trigger] self@[j])
                        <= crate::route::fitness_spec(m, rv[0])
                &&& self@.no_duplicates() ==> rv.no_duplicates()
                &&& is_n_fittest_selection(m, self@, n as int, rv)
            }),
    {
        let ghost m = distance_mat@;
        let ghost keys_spec = fitness_keys(m, self@);
        let mut keys: Vec<i64> = Vec::new();
        let mut i: usize = 0;
        while i < self.routes.len()
            invariant
                0 <= i <= self.routes@.len(),
                self@ == self.routes@.map_values(|x: Route| x@),
                matrix_wf(m),
                m == distance_mat@,
                members_compatible(m, self@),
                keys@.len() == i,
                forall|j: int|
                    0 <= j < i ==> (#[trigger] keys@[j]) as int == crate::route::fitness_spec(
                        m,
                        self@[j],
                    ),
            decreases self.routes@.len() - i,
        {
            proof {
                assert(self.routes@[i as int]@ == self@[i as int]);
            }
            let f = self.routes[i].fitness(distance_mat);
            keys.push(f);
            i = i + 1;
        }
        proof {
            assert(keys@ =~= keys_spec);
        }
        let ix = crate::utils::argsort(&keys);
        let count = if n <= self.routes.len() {
            n
        } else {
            self.routes.len()
        };
        let mut out: Vec<Route> = Vec::new();
        let mut k: usize = 0;
        while k < count
            invariant
                0 <= k <= count,
                count <= self.routes@.len(),
                self@ == self.routes@.map_values(|x: Route| x@),
                crate::utils::is_stable_desc_argsort(keys_spec, ix@),
                keys_spec == fitness_keys(m, self@),
                keys_spec.len() == self@.len(),
                out@.len() == k,
                forall|q: int|
                    0 <= q < k ==> (#[trigger] out@[q])@ == self@[ix@[q] as int],
            decreases count - k,
        {
            let member_idx = ix[k];
            proof {
                assert(ix@[k as int] < keys_spec.len());
                assert(self.routes@[member_idx as int]@ == self@[member_idx as int]);
            }
            out.push(self.routes[member_idx].duplicate());
            k = k + 1;
        }
        proof {
            let rv = out@.map_values(|x: Route| x@);
            assert(rv.len() == count);
            assert forall|q: int| 0 <= q < rv.len() implies rv[q] == self@[ix@[q] as int] by {
                assert(out@[q]@ == self@[ix@[q] as int]);
            }
            assert forall|q: int| 0 <= q < rv.len() implies self@.contains(#[trigger] rv[q]) by {
                assert(self@[ix@[q] as int] == rv[q]);
            }
            assert forall|k1: int, k2: int|
                0 <= k1 < k2 < rv.len() implies crate::route::fitness_spec(m, rv[k1])
                >= crate::route::fitness_spec(m, rv[k2]) by {
                assert(crate::utils::idx_before(keys_spec, ix@[k1] as int, ix@[k2] as int));
            }
            assert forall|j: int, k2: int|
                0 <= j < self@.len() && 0 <= k2 < rv.len() && !rv.contains(
                #[trigger] self@[j],
            ) implies crate::route::fitness_spec(m, self@[j]) <= crate::route::fitness_spec(
                m,
                #[trigger] rv[k2],
            ) by {
                assert(ix@.contains(j as usize));
                let q = choose|q: int| 0 <= q < ix@.len() && ix@[q] == j as usize;
                if q < rv.len() {
                    assert(rv[q] == self@[j]);
                    assert(false);
                } else {
                    assert(crate::utils::idx_before(keys_spec, ix@[k2] as int, ix@[q] as int));
                }
            }
            if rv.len() >= 1 {
                assert forall|j: int| 0 <= j < self@.len() implies crate::route::fitness_spec(
                    m,
                    #[trigger] self@[j],
                ) <= crate::route::fitness_spec(m, rv[0]) by {
                    assert(ix@.contains(j as usize));
                    let q = choose|q: int| 0 <= q < ix@.len() && ix@[q] == j as usize;
                    if q == 0 {
                        assert(rv[0] == self@[j]);
                    } else {
                        assert(crate::utils::idx_before(keys_spec, ix@[0] as int, ix@[q] as int));
                    }
                }
            }
            if self@.no_duplicates() {
                assert forall|q1: int, q2: int|
                    0 <= q1 < rv.len() && 0 <= q2 < rv.len() && q1 != q2 implies rv[q1]
                    != rv[q2] by {
                    assert(ix@[q1] != ix@[q2]);
                    assert(rv[q1] == self@[ix@[q1] as int]);
                    assert(rv[q2] == self@[ix@[q2] as int]);
                }
            }
            assert(rv =~= Seq::new(rv.len(), |k2: int| self@[ix@[k2] as int]));
            assert(crate::utils::is_stable_desc_argsort(fitness_keys(m, self@), ix@) && rv
                =~= Seq::new(rv.len(), |k2: int| self@[ix@[k2] as int]));
            assert(is_n_fittest_selection(m, self@, n as int, rv));
        }
        out
    }

    /// The `n` fittest members, wrapped as a new population; structural
    /// duplicates cannot arise from a well-formed population, but the
    /// wrapping deduplicates in any case.
    pub fn get_fittest_population(&self, n: usize, distance_mat: &DistanceMat) -> (r: Routes)
        requires
            matrix_wf(distance_mat@),
            members_compatible(distance_mat@, self@),
        ensures
            r.wf(),
            forall|x: Seq<usize>| r@.contains(x) ==> self@.contains(x),
            r@.len() <= n,
            self@.no_duplicates() ==> r@.len() == vstd::math::min(n as int, self@.len() as int),
            exists|fv: Seq<Seq<usize>>|
                is_n_fittest_selection(distance_mat@, self@, n as int, fv) && r@ == dedup_first(
                    fv,
                ),
            members_compatible(distance_mat@, r@),
            forall|n0: int| all_members_perm(self@, n0) ==> all_members_perm(r@, n0),
            n >= 1 && self@.len() >= 1 ==> r@.len() >= 1 && best_fit(distance_mat@, r@)
                >= best_fit(distance_mat@, self@),
    {
        let ghost m = distance_mat@;
        let fittest = self.get_n_fittest(n, distance_mat);
        let ghost fv = fittest@.map_values(|x: Route| x@);
        let r = Routes::from_vec(fittest);
        proof {
            if self@.no_duplicates() {
                lemma_dedup_first_identity(fv);
            }
            assert(is_n_fittest_selection(distance_mat@, self@, n as int, fv) && r@
                == dedup_first(fv));
            assert forall|x: Seq<usize>| r@.contains(x) implies self@.contains(x) by {
                assert(fv.contains(x));
                let k = choose|k: int| 0 <= k < fv.len() && fv[k] == x;
                assert(self@.contains(fv[k]));
            }
            assert forall|i: int|
                0 <= i < r@.len() implies route_in_matrix(#[trigger] r@[i], m.len() as int) && 1
                <= r@[i].len() <= MAX_TOUR_LEN by {
                assert(r@.contains(r@[i]));
                assert(self@.contains(r@[i]));
                let j = choose|j: int| 0 <= j < self@.len() && self@[j] == r@[i];
                assert(route_in_matrix(self@[j], m.len() as int));
            }
            assert forall|n0: int|
                all_members_perm(self@, n0) implies all_members_perm(r@, n0) by {
                assert forall|i: int|
                    0 <= i < r@.len() implies is_perm_of(#[trigger] r@[i], n0) by {
                    assert(r@.contains(r@[i]));
                    assert(self@.contains(r@[i]));
                    let j = choose|j: int| 0 <= j < self@.len() && self@[j] == r@[i];
                    assert(is_perm_of(self@[j], n0));
                }
            }
            if n >= 1 && self@.len() >= 1 {
                assert(fv.len() >= 1);
                assert(r@.contains(fv[0]));
                let i0 = choose|i: int| 0 <= i < r@.len() && r@[i] == fv[0];
                lemma_best_fit_ge(m, r@, i0);
                lemma_best_fit_attained(m, self@);
                let ib = choose|i: int|
                    0 <= i < self@.len() && crate::route::fitness_spec(m, #[trigger] self@[i])
                        == best_fit(m, self@);
                assert(crate::route::fitness_spec(m, self@[ib]) <= crate::route::fitness_spec(
                    m,
                    fv[0],
                ));
            }
        }
        r
    }
}

/// Members that each visit every location of a bounded square table
/// exactly once can all be priced against it.
pub proof fn lemma_perm_members_compatible(m: Seq<Seq<u64>>, s: Seq<Seq<usize>>)
    requires
        1 <= m.len() <= MAX_TOUR_LEN,
        all_members_perm(s, m.len() as int),
    ensures
        members_compatible(m, s),
{
    assert forall|i: int|
        0 <= i < s.len() implies route_in_matrix(#[trigger] s[i], m.len() as int) && 1 <= s[i].len()
        <= MAX_TOUR_LEN by {
        assert(is_perm_of(s[i], m.len() as int));
    }
}

/// `c` is a child that one evolution step can produce from the ordered
/// parent pair `(a, b)`: the ordered crossover of `a` and `b` over some
/// interior range that `Subsequence::random_subsequence` can draw,
/// followed by at most one element relocation (the mutation).
pub open spec fn is_offspring_of(a: Seq<usize>, b: Seq<usize>, c: Seq<usize>) -> bool {
    exists|start: int, len: int|
        0 <= start && 1 <= len && start + len <= a.len() && (a.len() >= 3 ==> start + len + 2
            <= a.len()) && (a.len() == 2 ==> start == 0 && len == 1)
            && crate::utils::is_relocation_of(
            #[trigger] crate::utils::ox_child(a, b, start, len),
            c,
        )
}

/// Some member of `acc` is an offspring of the ordered parent pair
/// `(a, b)`.
spec fn pair_covered_by(a: Seq<usize>, b: Seq<usize>, acc: Seq<Seq<usize>>) -> bool {
    exists|c: Seq<usize>| acc.contains(c) && is_offspring_of(a, b, c)
}

/// Every ordered pair of distinct members of `s` below the cursor
/// `(upto_i, upto_j)` — rows before `upto_i` whole, row `upto_i` up to
/// column `upto_j` — has an offspring among `acc`.
spec fn pairs_covered(s: Seq<Seq<usize>>, upto_i: int, upto_j: int, acc: Seq<Seq<usize>>) -> bool {
    forall|i2: int, j2: int|
        #![trigger s[i2], s[j2]]
        0 <= i2 < s.len() && 0 <= j2 < s.len() && i2 != j2 && (i2 < upto_i || (i2 == upto_i && j2
            < upto_j)) ==> pair_covered_by(s[i2], s[j2], acc)
}

impl Routes {
    /// One generational step: every ordered pair of distinct members is
    /// crossed over — in both directions, since the crossover is not
    /// symmetric — and each child is mutated with probability
    /// `mutate_prob` (in millionths).  The parents are retained beside
    /// the offspring, and the union is deduplicated.
    pub fn evolve(&self, mutate_prob: u32) -> (r: Routes)
        requires
            self.wf(),
            self@.len() >= 2 ==> self@[0].len() >= 3 && all_members_perm(
                self@,
                self@[0].len() as int,
            ),
        ensures
            r.wf(),
            forall|i: int| 0 <= i < self@.len() ==> r@.contains(#[trigger] self@[i]),
            forall|n0: int| all_members_perm(self@, n0) ==> all_members_perm(r@, n0),
            self@.len() >= 1 ==> r@.len() >= 1,
            self@.len() < 2 ==> r@.len() <= self@.len(),
            r@.len() <= self@.len() * (self@.len() - 1) + self@.len(),
            forall|i: int, j: int|
                #![trigger self@[i], self@[j]]
                0 <= i < self@.len() && 0 <= j < self@.len() && i != j ==> exists|c: Seq<usize>|
                    r@.contains(c) && is_offspring_of(self@[i], self@[j], c),
    {
        let ghost big = self@.len() >= 2;
        let ghost length = if big {
            self@[0].len() as int
        } else {
            0
        };
        let n_members = self.routes.len();
        let mut offspring: Vec<Route> = Vec::new();
        let mut i: usize = 0;
        while i < n_members
            invariant
                0 <= i <= n_members,
                n_members == self@.len(),
                self@ == self.routes@.map_values(|x: Route| x@),
                big == (self@.len() >= 2),
                big ==> length == self@[0].len() && length >= 3 && all_members_perm(
                    self@,
                    length,
                ),
                big ==> all_members_perm(
                    offspring@.map_values(|x: Route| x@),
                    length,
                ),
                !big ==> offspring@.len() == 0,
                offspring@.len() == i * (n_members - 1),
                pairs_covered(self@, i as int, 0, offspring@.map_values(|x: Route| x@)),
            decreases n_members - i,
        {
            let mut j: usize = 0;
            while j < n_members
                invariant
                    0 <= j <= n_members,
                    0 <= i < n_members,
                    n_members == self@.len(),
                    self@ == self.routes@.map_values(|x: Route| x@),
                    big == (self@.len() >= 2),
                    big ==> length == self@[0].len() && length >= 3 && all_members_perm(
                        self@,
                        length,
                    ),
                    big ==> all_members_perm(
                        offspring@.map_values(|x: Route| x@),
                        length,
                    ),
                    !big ==> offspring@.len() == 0,
                    offspring@.len() == i * (n_members - 1) + j - (if j > i {
                        1int
                    } else {
                        0int
                    }),
                    pairs_covered(self@, i as int, j as int, offspring@.map_values(|x: Route| x@)),
                decreases n_members - j,
            {
                // The crossover of a member with itself is skipped.
                if i != j {
                    proof {
                        assert(self.routes@[i as int]@ == self@[i as int]);
                        assert(self.routes@[j as int]@ == self@[j as int]);
                        assert(is_perm_of(self@[i as int], length));
                        assert(is_perm_of(self@[j as int], length));
                    }
                    let child = self.routes[i].crossover(&self.routes[j]);
                    proof {
                        assert(is_perm_of(child@, length));
                    }
                    let ghost before_mutation = child@;
                    let child = child.mutate(mutate_prob);
                    let ghost pre = offspring@.map_values(|x: Route| x@);
                    let ghost child_view = child@;
                    offspring.push(child);
                    proof {
                        crate::utils::lemma_perm_from_multiset(
                            before_mutation,
                            child_view,
                            length,
                        );
                        let mapped = offspring@.map_values(|x: Route| x@);
                        assert(mapped =~= pre.push(child_view));
                        // The pair just handled has the fresh child among
                        // the offspring; every earlier pair keeps its own.
                        assert(mapped[pre.len() as int] == child_view);
                        assert(mapped.contains(child_view));
                        let a = self@[i as int];
                        let b = self@[j as int];
                        let (start, len) = choose|start: int, len: int|
                            0 <= start && 1 <= len && start + len <= a.len() && (a.len() >= 3
                                ==> start + len + 2 <= a.len()) && (a.len() == 2 ==> start == 0
                                && len == 1) && before_mutation == crate::utils::ox_child(
                                a,
                                b,
                                start,
                                len,
                            );
                        assert(crate::utils::is_relocation_of(
                            crate::utils::ox_child(a, b, start, len),
                            child_view,
                        ));
                        assert(is_offspring_of(a, b, child_view));
                        assert(pair_covered_by(a, b, mapped));
                        assert forall|i2: int, j2: int|
                            #![trigger self@[i2], self@[j2]]
                            0 <= i2 < self@.len() && 0 <= j2 < self@.len() && i2 != j2 && (i2
                                < i || (i2 == i && j2 < j + 1)) implies pair_covered_by(
                            self@[i2],
                            self@[j2],
                            mapped,
                        ) by {
                            if i2 == i as int && j2 == j as int {
                                assert(pair_covered_by(a, b, mapped));
                            } else {
                                let c = choose|c: Seq<usize>|
                                    pre.contains(c) && is_offspring_of(self@[i2], self@[j2], c);
                                crate::utils::lemma_push_preserves_contains(pre, child_view, c);
                                assert(mapped.contains(c) && is_offspring_of(
                                    self@[i2],
                                    self@[j2],
                                    c,
                                ));
                            }
                        }
                        assert(pairs_covered(self@, i as int, j + 1, mapped));
                    }
                }
                j = j + 1;
            }
            proof {
                vstd::arithmetic::mul::lemma_mul_is_distributive_add_other_way(
                    n_members - 1,
                    i as int,
                    1,
                );
                let views = offspring@.map_values(|x: Route| x@);
                let next_i = i as int + 1;
                assert(pairs_covered(self@, i as int, n_members as int, views));
                assert forall|i2: int, j2: int|
                    #![trigger self@[i2], self@[j2]]
                    0 <= i2 < self@.len() && 0 <= j2 < self@.len() && i2 != j2 && (i2 < next_i || (
                    i2 == next_i && j2 < 0)) implies pair_covered_by(
                    self@[i2],
                    self@[j2],
                    views,
                ) by {
                    assert(i2 < i || (i2 == i as int && j2 < n_members));
                }
                assert(pairs_covered(self@, next_i, 0, views));
            }
            i = i + 1;
        }
        let ghost children = offspring@.map_values(|x: Route| x@);
        // The parents are retained beside the offspring.
        let mut k: usize = 0;
        while k < n_members
            invariant
                0 <= k <= n_members,
                n_members == self@.len(),
                self@ == self.routes@.map_values(|x: Route| x@),
                offspring@.map_values(|x: Route| x@) =~= children + self@.take(k as int),
            decreases n_members - k,
        {
            let ghost pre = offspring@.map_values(|x: Route| x@);
            proof {
                assert(self.routes@[k as int]@ == self@[k as int]);
            }
            offspring.push(self.routes[k].duplicate());
            proof {
                let mapped = offspring@.map_values(|x: Route| x@);
                assert(mapped =~= pre.push(self@[k as int]));
                assert(self@.take(k + 1) =~= self@.take(k as int).push(self@[k as int]));
            }
            k = k + 1;
        }
        let ghost all_views = offspring@.map_values(|x: Route| x@);
        proof {
            assert(self@.take(n_members as int) =~= self@);
            assert(all_views =~= children + self@);
        }
        let r = Routes::from_vec(offspring);
        proof {
            assert forall|i2: int| 0 <= i2 < self@.len() implies r@.contains(
                #[trigger] self@[i2],
            ) by {
                assert(all_views[children.len() + i2] == self@[i2]);
                assert(all_views.contains(self@[i2]));
            }
            if self@.len() >= 1 {
                assert(r@.contains(self@[0]));
                assert(r@.len() >= 1);
            }
            assert forall|n0: int|
                all_members_perm(self@, n0) implies all_members_perm(r@, n0) by {
                assert forall|i2: int|
                    0 <= i2 < r@.len() implies is_perm_of(#[trigger] r@[i2], n0) by {
                    assert(r@.contains(r@[i2]));
                    assert(all_views.contains(r@[i2]));
                    let q = choose|q: int| 0 <= q < all_views.len() && all_views[q] == r@[i2];
                    if q < children.len() {
                        assert(big);
                        assert(is_perm_of(children[q], length));
                        assert(is_perm_of(self@[0], n0));
                        assert(n0 == length);
                    } else {
                        assert(all_views[q] == self@[q - children.len()]);
                        assert(is_perm_of(self@[q - children.len()], n0));
                    }
                }
            }
            assert forall|i2: int, j2: int|
                #![trigger self@[i2], self@[j2]]
                0 <= i2 < self@.len() && 0 <= j2 < self@.len() && i2 != j2 implies exists|
                c: Seq<usize>,
            | r@.contains(c) && is_offspring_of(self@[i2], self@[j2], c) by {
                assert(pair_covered_by(self@[i2], self@[j2], children));
                let c = choose|c: Seq<usize>|
                    children.contains(c) && is_offspring_of(self@[i2], self@[j2], c);
                crate::utils::lemma_contains_concat(children, self@, c);
                assert(all_views.contains(c));
                assert(r@.contains(c));
            }
        }
        r
    }
}

/// What is known of the routes a worker hands back: each is a
/// permutation of the table's locations, there are at most
/// `size_generation` of them, and — when selection keeps at least one
/// member and the start population was not empty — some route among
/// them is at least as fit as the best route the worker started from.
pub open spec fn worker_result_ok(
    init: Seq<Seq<usize>>,
    m: Seq<Seq<u64>>,
    size_generation: int,
    out: Seq<Seq<usize>>,
) -> bool {
    &&& all_members_perm(out, m.len() as int)
    &&& out.len() <= size_generation
    &&& (size_generation >= 1 && init.len() >= 1 ==> out.len() >= 1 && exists|k: int|
        0 <= k < out.len() && crate::route::fitness_spec(m, #[trigger] out[k]) >= best_fit(
            m,
            init,
        ))
}

/// One worker's share of a parallel evolution: fold `n_generations`
/// steps of evolve-and-truncate over an owned population, then hand back
/// its fittest members.
fn evolve_worker(
    population: Routes,
    n_generations: usize,
    size_generation: usize,
    distance_mat: &DistanceMat,
) -> (out: Vec<Route>)
    requires
        matrix_wf(distance_mat@),
        1 <= distance_mat@.len() <= MAX_TOUR_LEN,
        population.wf(),
        all_members_perm(population@, distance_mat@.len() as int),
        population@.len() >= 2 ==> distance_mat@.len() >= 3,
    ensures
        worker_result_ok(
            population@,
            distance_mat@,
            size_generation as int,
            out@.map_values(|x: Route| x@),
        ),
{
    let ghost m = distance_mat@;
    let ghost n = distance_mat@.len() as int;
    let ghost init = population@;
    let mut pop = population;
    let mut g: usize = 0;
    while g < n_generations
        invariant
            0 <= g <= n_generations,
            matrix_wf(m),
            m == distance_mat@,
            n == m.len(),
            1 <= n <= MAX_TOUR_LEN,
            pop.wf(),
            all_members_perm(pop@, n),
            pop@.len() >= 2 ==> n >= 3,
            size_generation >= 1 && init.len() >= 1 ==> pop@.len() >= 1 && best_fit(m, pop@)
                >= best_fit(m, init),
        decreases n_generations - g,
    {
        proof {
            if pop@.len() >= 2 {
                assert(is_perm_of(pop@[0], n));
            }
        }
        let evolved = pop.evolve(EVOLVE_MUTATE_PROB);
        proof {
            lemma_perm_members_compatible(m, evolved@);
        }
        let next = evolved.get_fittest_population(size_generation, distance_mat);
        proof {
            if size_generation >= 1 && init.len() >= 1 {
                lemma_best_fit_attained(m, pop@);
                let ib = choose|i: int|
                    0 <= i < pop@.len() && crate::route::fitness_spec(m, #[trigger] pop@[i])
                        == best_fit(m, pop@);
                assert(evolved@.contains(pop@[ib]));
                let k = choose|k: int| 0 <= k < evolved@.len() && evolved@[k] == pop@[ib];
                lemma_best_fit_ge(m, evolved@, k);
                assert(best_fit(m, evolved@) >= best_fit(m, pop@));
            }
            if next@.len() >= 2 && n < 3 {
                assert(pop@.len() < 2);
                assert(evolved@.len() <= pop@.len());
                assert(next@.len() <= evolved@.len()) by {
                    assert(forall|x: Seq<usize>| next@.contains(x) ==> evolved@.contains(x));
                    if next@.len() >= 2 {
                        assert(next@[0] != next@[1]);
                        assert(next@.contains(next@[0]));
                        assert(next@.contains(next@[1]));
                        assert(evolved@.len() >= 2) by {
                            let a = choose|a: int|
                                0 <= a < evolved@.len() && evolved@[a] == next@[0];
                            let b = choose|b: int|
                                0 <= b < evolved@.len() && evolved@[b] == next@[1];
                            assert(a != b);
                        }
                    }
                }
                assert(false);
            }
        }
        pop = next;
        g = g + 1;
    }
    proof {
        lemma_perm_members_compatible(m, pop@);
    }
    let out = pop.get_n_fittest(size_generation, distance_mat);
    proof {
        let rv = out@.map_values(|x: Route| x@);
        assert forall|k: int| 0 <= k < rv.len() implies is_perm_of(#[trigger] rv[k], n) by {
            assert(pop@.contains(rv[k]));
            let q = choose|q: int| 0 <= q < pop@.len() && pop@[q] == rv[k];
            assert(is_perm_of(pop@[q], n));
        }
        if size_generation >= 1 && init.len() >= 1 {
            assert(rv.len() >= 1);
            lemma_best_fit_attained(m, pop@);
            let ib = choose|i: int|
                0 <= i < pop@.len() && crate::route::fitness_spec(m, #[trigger] pop@[i])
                    == best_fit(m, pop@);
            assert(crate::route::fitness_spec(m, pop@[ib]) <= crate::route::fitness_spec(
                m,
                rv[0],
            ));
            assert(crate::route::fitness_spec(m, rv[0]) >= best_fit(m, init));
        }
    }
    out
}

/// Relies on `crossbeam_utils::thread::scope`, `Scope::spawn` and
/// `ScopedJoinHandle::join`: the scope joins every spawned thread before
/// it returns, and `join` hands back exactly the value the closure
/// returned — here the result of a call of the verified `evolve_worker`
/// for `worker_generations` generations, so that function's contract
/// holds of each entry.  Each worker owns a clone of the initial
/// population, which holds the same routes, so the worker's
/// precondition carries over from the one checked here.  A worker's
/// panic propagates to the caller.
#[verifier::external_body]
fn run_evolution_workers(
    initial_population: &Routes,
    worker_generations: usize,
    size_generation: usize,
    distance_mat: &DistanceMat,
    n_jobs: usize,
) -> (results: Vec<Vec<Route>>)
    requires
        n_jobs >= 1,
        matrix_wf(distance_mat@),
        1 <= distance_mat@.len() <= MAX_TOUR_LEN,
        initial_population.wf(),
        all_members_perm(initial_population@, distance_mat@.len() as int),
        initial_population@.len() >= 2 ==> distance_mat@.len() >= 3,
    ensures
        results@.len() == n_jobs,
        forall|w: int|
            0 <= w < results@.len() ==> worker_result_ok(
                initial_population@,
                distance_mat@,
                size_generation as int,
                (#[trigger] results@[w])@.map_values(|x: Route| x@),
            ),
{
    crossbeam_utils::thread::scope(|s| {
        let mut handles = Vec::new();
        for _ in 0..n_jobs {
            let worker_population = initial_population.clone();
            handles.push(s.spawn(move |_| {
                evolve_worker(
                    worker_population,
                    worker_generations,
                    size_generation,
                    distance_mat,
                )
            }));
        }
        handles.into_iter().map(|handle| handle.join().unwrap()).collect()
    }).unwrap()
}

/// Evolve `initial_population` for `n_generations`, keeping the
/// `size_generation` fittest members after each step.  With `n_jobs == 0`
/// the fold runs on the calling thread.  With `n_jobs > 0` the initial
/// population is cloned once per worker; each worker independently folds
/// its own share of generations and selects its fittest members, and the
/// joined results are merged into one deduplicated population without a
/// further truncation.  Either way, when at least one member is kept per
/// step, the best fitness of the result is no worse than the best
/// fitness of the initial population.
pub fn evolve_population(
    initial_population: Routes,
    n_generations: usize,
    size_generation: usize,
    distance_matrix: &DistanceMat,
    n_jobs: usize,
) -> (r: Routes)
    requires
        matrix_wf(distance_matrix@),
        1 <= distance_matrix@.len() <= MAX_TOUR_LEN,
        initial_population.wf(),
        all_members_perm(initial_population@, distance_matrix@.len() as int),
        initial_population@.len() >= 2 ==> distance_matrix@.len() >= 3,
        n_jobs >= 1 ==> n_generations < usize::MAX,
    ensures
        r.wf(),
        all_members_perm(r@, distance_matrix@.len() as int),
        size_generation >= 1 && initial_population@.len() >= 1 ==> r@.len() >= 1 && best_fit(
            distance_matrix@,
            r@,
        ) >= best_fit(distance_matrix@, initial_population@),
        n_jobs == 0 && n_generations >= 1 ==> r@.len() <= size_generation,
        n_jobs >= 1 ==> r@.len() <= n_jobs * size_generation,
        n_jobs == 0 && n_generations == 0 ==> r@ == initial_population@,
{
    let ghost m = distance_matrix@;
    let ghost n = distance_matrix@.len() as int;
    let ghost init = initial_population@;
    if n_jobs == 0 {
        // Single-threaded fold.
        let mut pop = initial_population;
        let mut g: usize = 0;
        while g < n_generations
            invariant
                0 <= g <= n_generations,
                matrix_wf(m),
                m == distance_matrix@,
                n == m.len(),
                1 <= n <= MAX_TOUR_LEN,
                pop.wf(),
                all_members_perm(pop@, n),
                pop@.len() >= 2 ==> n >= 3,
                size_generation >= 1 && init.len() >= 1 ==> pop@.len() >= 1 && best_fit(m, pop@)
                    >= best_fit(m, init),
                g == 0 ==> pop@ == init,
                g >= 1 ==> pop@.len() <= size_generation,
            decreases n_generations - g,
        {
            proof {
                if pop@.len() >= 2 {
                    assert(is_perm_of(pop@[0], n));
                }
            }
            let evolved = pop.evolve(EVOLVE_MUTATE_PROB);
            proof {
                lemma_perm_members_compatible(m, evolved@);
            }
            let next = evolved.get_fittest_population(size_generation, distance_matrix);
            proof {
                if size_generation >= 1 && init.len() >= 1 {
                    lemma_best_fit_attained(m, pop@);
                    let ib = choose|i: int|
                        0 <= i < pop@.len() && crate::route::fitness_spec(m, #[trigger] pop@[i])
                            == best_fit(m, pop@);
                    assert(evolved@.contains(pop@[ib]));
                    let k = choose|k: int| 0 <= k < evolved@.len() && evolved@[k] == pop@[ib];
                    lemma_best_fit_ge(m, evolved@, k);
                }
                if next@.len() >= 2 && n < 3 {
                    assert(pop@.len() < 2);
                    assert(evolved@.len() <= pop@.len());
                    if next@.len() >= 2 {
                        assert(next@[0] != next@[1]);
                        assert(next@.contains(next@[0]));
                        assert(next@.contains(next@[1]));
                        let a = choose|a: int| 0 <= a < evolved@.len() && evolved@[a] == next@[0];
                        let b = choose|b: int| 0 <= b < evolved@.len() && evolved@[b] == next@[1];
                        assert(a != b);
                    }
                    assert(false);
                }
            }
            pop = next;
            g = g + 1;
        }
        pop
    } else {
        // Fork-join: one owned population per worker, merged after the
        // join barrier.  Each worker folds its share of the generations.
        proof {
            vstd::arithmetic::div_mod::lemma_div_nonincreasing(
                n_generations as int,
                n_jobs as int,
            );
        }
        let worker_generations = n_generations / n_jobs + 1;
        let results = run_evolution_workers(
            &initial_population,
            worker_generations,
            size_generation,
            distance_matrix,
            n_jobs,
        );
        let ghost first_views = results@[0]@.map_values(|x: Route| x@);
        let mut all: Vec<Route> = Vec::new();
        let mut w: usize = 0;
        while w < results.len()
            invariant
                0 <= w <= results@.len(),
                results@.len() == n_jobs,
                m == distance_matrix@,
                n == m.len(),
                first_views == results@[0]@.map_values(|x: Route| x@),
                forall|w2: int|
                    0 <= w2 < results@.len() ==> worker_result_ok(
                        init,
                        m,
                        size_generation as int,
                        (#[trigger] results@[w2])@.map_values(|x: Route| x@),
                    ),
                all_members_perm(all@.map_values(|x: Route| x@), n),
                w == 0 ==> all@.len() == 0,
                all@.len() <= w * size_generation,
                w >= 1 ==> all@.len() >= first_views.len() && forall|q: int|
                    0 <= q < first_views.len() ==> (#[trigger] all@[q])@ == first_views[q],
            decreases results@.len() - w,
        {
            let worker_routes = &results[w];
            let mut q: usize = 0;
            while q < worker_routes.len()
                invariant
                    0 <= q <= worker_routes@.len(),
                    worker_routes == &results@[w as int],
                    0 <= w < results@.len(),
                    m == distance_matrix@,
                    n == m.len(),
                    first_views == results@[0]@.map_values(|x: Route| x@),
                    worker_result_ok(
                        init,
                        m,
                        size_generation as int,
                        worker_routes@.map_values(|x: Route| x@),
                    ),
                    all_members_perm(all@.map_values(|x: Route| x@), n),
                    all@.len() <= w * size_generation + q,
                    q <= size_generation,
                    w >= 1 ==> all@.len() >= first_views.len() && forall|q2: int|
                        0 <= q2 < first_views.len() ==> (#[trigger] all@[q2])@ == first_views[q2],
                    w == 0 ==> all@.len() == q,
                    w == 0 ==> forall|q2: int|
                        0 <= q2 < q ==> (#[trigger] all@[q2])@ == first_views[q2],
                decreases worker_routes@.len() - q,
            {
                let ghost pre = all@.map_values(|x: Route| x@);
                proof {
                    assert(worker_routes@[q as int]@ == worker_routes@.map_values(
                        |x: Route| x@,
                    )[q as int]);
                }
                all.push(worker_routes[q].duplicate());
                proof {
                    let mapped = all@.map_values(|x: Route| x@);
                    assert(mapped =~= pre.push(worker_routes@[q as int]@));
                    assert(is_perm_of(worker_routes@.map_values(|x: Route| x@)[q as int], n));
                }
                q = q + 1;
            }
            proof {
                vstd::arithmetic::mul::lemma_mul_is_distributive_add_other_way(
                    size_generation as int,
                    w as int,
                    1,
                );
            }
            w = w + 1;
        }
        let ghost all_views = all@.map_values(|x: Route| x@);
        let merged = Routes::from_vec(all);
        proof {
            assert forall|i: int| 0 <= i < merged@.len() implies is_perm_of(
                #[trigger] merged@[i],
                n,
            ) by {
                assert(merged@.contains(merged@[i]));
                assert(all_views.contains(merged@[i]));
                let q = choose|q: int| 0 <= q < all_views.len() && all_views[q] == merged@[i];
                assert(is_perm_of(all_views[q], n));
            }
            if size_generation >= 1 && init.len() >= 1 {
                assert(worker_result_ok(init, m, size_generation as int, first_views));
                let k0 = choose|k: int|
                    0 <= k < first_views.len() && crate::route::fitness_spec(
                        m,
                        #[trigger] first_views[k],
                    ) >= best_fit(m, init);
                assert(all_views[k0] == first_views[k0]);
                assert(all_views.contains(first_views[k0]));
                assert(merged@.contains(first_views[k0]));
                let i0 = choose|i: int| 0 <= i < merged@.len() && merged@[i] == first_views[k0];
                lemma_best_fit_ge(m, merged@, i0);
            }
        }
        merged
    }
}

impl From<Vec<Route>> for Routes {
    /// Collect routes into a population, collapsing structural duplicates.
    fn from(routes: Vec<Route>) -> (r: Routes)
        ensures
            r.wf(),
            r@ == dedup_first(routes@.map_values(|x: Route| x@)),
    {
        Routes::from_vec(routes)
    }
}

impl vstd::std_specs::convert::FromSpecImpl<Vec<Route>> for Routes {
    open spec fn obeys_from_spec() -> bool {
        false
    }

    closed spec fn from_spec(v: Vec<Route>) -> Routes {
        Routes { routes: v }
    }
}

} // verus!
