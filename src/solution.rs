use vstd::prelude::*;
use crate::instance::Instance;
use crate::local_search::{
    descent_2opt, is_2opt_optimal, lemma_swap_move_is_tour, local_search_2opt, swap_move, swap_positions,
};
use vstd::set_lib::{lemma_int_range, lemma_subset_equality, set_int_range};

verus! {

/// The length of the open path `p`: the sum of the distances between consecutive cities.
pub open spec fn path_sum(inst: Instance, p: Seq<usize>) -> int
    decreases p.len(),
{
    if p.len() < 2 {
        0
    } else {
        path_sum(inst, p.drop_last()) + inst.dist(p[p.len() - 2] as int, p.last() as int)
    }
}

/// The length of the closed tour `p`: the open path plus the edge from the last city
/// back to the first.
pub open spec fn tour_cost(inst: Instance, p: Seq<usize>) -> int {
    if p.len() == 0 {
        0
    } else {
        path_sum(inst, p) + inst.dist(p.last() as int, p[0] as int)
    }
}

/// Every entry of `p` names one of the `n` cities.
pub open spec fn valid_cities(p: Seq<usize>, n: nat) -> bool {
    forall|k: int| 0 <= k < p.len() ==> #[trigger] p[k] < n
}

/// `p` visits each of the cities `0..n` exactly once.
pub open spec fn is_tour(p: Seq<usize>, n: nat) -> bool {
    &&& p.len() == n
    &&& valid_cities(p, n)
    &&& p.no_duplicates()
}

/// On a well-formed instance, `n * path_sum(p) <= (len - 1) * i32::MAX` for any path
/// over its cities, and the sum is non-negative.
pub proof fn lemma_path_sum_bound(inst: Instance, p: Seq<usize>)
    requires
        inst.wf(),
        valid_cities(p, inst.num_cities as nat),
        p.len() >= 1,
    ensures
        0 <= path_sum(inst, p),
        (inst.num_cities as int) * path_sum(inst, p) <= (p.len() - 1) * (i32::MAX as int),
    decreases p.len(),
{
    if p.len() >= 2 {
        let q = p.drop_last();
        lemma_path_sum_bound(inst, q);
        let n = inst.num_cities as int;
        let a = path_sum(inst, q);
        let e = inst.dist(p[p.len() - 2] as int, p.last() as int);
        let l = p.len() as int;
        assert(0 <= e && n * e <= i32::MAX);
        assert(n * (a + e) <= (l - 1) * (i32::MAX as int)) by (nonlinear_arith)
            requires
                n * a <= (l - 2) * (i32::MAX as int),
                n * e <= i32::MAX,
        ;
    }
}

/// The length of a closed tour over at most `num_cities` cities fits an `i32`.
pub proof fn lemma_tour_cost_bound(inst: Instance, p: Seq<usize>)
    requires
        inst.wf(),
        valid_cities(p, inst.num_cities as nat),
        p.len() <= inst.num_cities,
    ensures
        0 <= tour_cost(inst, p) <= i32::MAX,
{
    if p.len() > 0 {
        lemma_path_sum_bound(inst, p);
        let n = inst.num_cities as int;
        let s = path_sum(inst, p);
        let e = inst.dist(p.last() as int, p[0] as int);
        let l = p.len() as int;
        assert(0 <= e && n * e <= i32::MAX);
        assert(s + e <= i32::MAX) by (nonlinear_arith)
            requires
                n * s <= (l - 1) * (i32::MAX as int),
                n * e <= i32::MAX,
                l <= n,
                n > 0,
                s >= 0,
                e >= 0,
        ;
    }
}

/// Path-relinking from `start` towards `target`, after the positions `0..i` have been
/// visited: the current tour, and the shortest tour met so far. At a position where the
/// two differ, the city that `target` has there is swapped into place and 2-opt descent
/// is applied; the result replaces the shortest tour if it is strictly shorter.
pub open spec fn relink_walk(inst: Instance, start: Seq<usize>, target: Seq<usize>, i: nat) -> (Seq<usize>, Seq<usize>)
    decreases i,
{
    if i == 0 {
        (start, start)
    } else {
        let prev = relink_walk(inst, start, target, (i - 1) as nat);
        let cur = prev.0;
        let best = prev.1;
        let k = i - 1;
        if k < cur.len() && k < target.len() && cur[k] != target[k] {
            let pos = choose|pos: int| 0 <= pos < cur.len() && cur[pos] == target[k];
            let next = descent_2opt(inst, swap_move(cur, k, pos));
            if tour_cost(inst, next) < tour_cost(inst, best) {
                (next, next)
            } else {
                (next, best)
            }
        } else {
            prev
        }
    }
}

/// Evaluation is consistent: two evaluated tours with the same path have the same cached
/// length, so evaluating a tour a second time changes nothing.
pub proof fn lemma_eval_consistent(inst: Instance, a: Solution, b: Solution)
    requires
        a.path@ == b.path@,
        a.evaluated(inst),
        b.evaluated(inst),
    ensures
        a.total_distance == b.total_distance,
{
}

/// A tour over `n` cities holds each of them.
pub proof fn lemma_tour_contains(p: Seq<usize>, n: nat, c: usize)
    requires
        is_tour(p, n),
        c < n,
    ensures
        p.contains(c),
{
    let q = p.map_values(|x: usize| x as int);
    assert(q.no_duplicates()) by {
        assert forall|a: int, b: int| 0 <= a < q.len() && 0 <= b < q.len() && a != b implies q[a]
            != q[b] by {
            assert(p[a] != p[b]);
        }
    }
    q.unique_seq_to_set();
    lemma_int_range(0, n as int);
    assert(q.to_set().subset_of(set_int_range(0, n as int))) by {
        assert forall|x: int| q.to_set().contains(x) implies set_int_range(0, n as int).contains(
            x,
        ) by {
            let k = choose|k: int| 0 <= k < q.len() && q[k] == x;
            assert(p[k] < n);
        }
    }
    lemma_subset_equality(q.to_set(), set_int_range(0, n as int));
    assert(set_int_range(0, n as int).contains(c as int));
    assert(q.to_set().contains(c as int));
    let k = choose|k: int| 0 <= k < q.len() && q[k] == c as int;
    assert(p[k] == c);
}

/// The position of `x` in `v`.
pub fn index_of(v: &Vec<usize>, x: usize) -> (r: usize)
    requires
        v@.contains(x),
    ensures
        r < v@.len(),
        v@[r as int] == x,
        forall|k: int| 0 <= k < r ==> v@[k] != x,
{
    let mut k: usize = 0;
    while k < v.len()
        invariant
            v@.contains(x),
            k <= v@.len(),
            forall|a: int| 0 <= a < k ==> v@[a] != x,
        decreases v@.len() - k,
    {
        if v[k] == x {
            return k;
        }
        k = k + 1;
    }
    k
}

/// A tour: the order in which the cities are visited, and its cached length.
#[derive(Clone, Debug)]
pub struct Solution {
    pub path: Vec<usize>,
    pub total_distance: i32,
}

impl Solution {
    /// The cached length agrees with the path.
    pub open spec fn evaluated(self, inst: Instance) -> bool {
        self.total_distance as int == tour_cost(inst, self.path@)
    }

    /// An empty tour, ready to receive the cities of an instance of `num_cities` cities.
    pub fn new(num_cities: usize) -> (r: Self)
        ensures
            r.path@.len() == 0,
            r.total_distance == 0,
    {
        Solution { path: Vec::with_capacity(num_cities), total_distance: 0 }
    }

    /// Recomputes the cached length from the path.
    pub fn eval(&mut self, instance: &Instance)
        requires
            instance.wf(),
            old(self).path@.len() == instance.num_cities,
            valid_cities(old(self).path@, instance.num_cities as nat),
        ensures
            final(self).path@ == old(self).path@,
            final(self).total_distance as int == tour_cost(*instance, final(self).path@),
    {
        let ghost p = self.path@;
        let n = self.path.len();
        let mut total: i32 = 0;
        let mut i: usize = 0;
        while i + 1 < n
            invariant
                instance.wf(),
                self.path@ == p,
                n == p.len(),
                n == instance.num_cities,
                valid_cities(p, instance.num_cities as nat),
                0 <= i < n,
                total as int == path_sum(*instance, p.take(i + 1)),
            decreases n - i,
        {
            let from = self.path[i];
            let to = self.path[i + 1];
            proof {
                let q = p.take(i + 2);
                assert(q.drop_last() =~= p.take(i + 1));
                lemma_path_sum_bound(*instance, q);
                let m = instance.num_cities as int;
                let s = path_sum(*instance, q);
                assert(s <= i32::MAX) by (nonlinear_arith)
                    requires
                        m * s <= (q.len() - 1) * (i32::MAX as int),
                        q.len() <= m,
                        m > 0,
                ;
            }
            total = total + instance.distances[from][to];
            i = i + 1;
        }
        proof {
            assert(p.take(n as int) =~= p);
            lemma_tour_cost_bound(*instance, p);
        }
        let last = self.path[n - 1];
        let first = self.path[0];
        total = total + instance.distances[last][first];
        self.total_distance = total;
    }

    /// Whether the path visits each city of `instance` exactly once and the cached
    /// length agrees with it.
    pub fn is_evaluated_tour(&self, instance: &Instance) -> (r: bool)
        requires
            instance.wf(),
        ensures
            r == (is_tour(self.path@, instance.num_cities as nat) && self.evaluated(*instance)),
    {
        let n = instance.num_cities;
        if self.path.len() != n {
            return false;
        }
        let mut seen: Vec<bool> = Vec::with_capacity(n);
        let mut c: usize = 0;
        while c < n
            invariant
                c <= n,
                seen@.len() == c,
                forall|a: int| 0 <= a < c ==> !#[trigger] seen@[a],
            decreases n - c,
        {
            seen.push(false);
            c = c + 1;
        }
        let ghost p = self.path@;
        let mut k: usize = 0;
        while k < n
            invariant
                p == self.path@,
                p.len() == n,
                seen@.len() == n,
                k <= n,
                forall|a: int| 0 <= a < k ==> #[trigger] p[a] < n,
                forall|a: int, b: int| 0 <= a < k && 0 <= b < k && a != b ==> p[a] != p[b],
                forall|c: int| 0 <= c < n ==> (#[trigger] seen@[c] <==> exists|a: int| 0 <= a < k && p[a] == c),
            decreases n - k,
        {
            let city = self.path[k];
            if city >= n {
                proof {
                    assert(!valid_cities(p, n as nat));
                }
                return false;
            }
            if seen[city] {
                proof {
                    let a = choose|a: int| 0 <= a < k && p[a] == city;
                    assert(p[a] == p[k as int]);
                    assert(!p.no_duplicates());
                }
                return false;
            }
            seen.set(city, true);
            proof {
                assert forall|c: int| 0 <= c < n implies (#[trigger] seen@[c] <==> exists|a: int| 0 <= a < k + 1 && p[a] == c) by {
                    if c == city {
                        assert(p[k as int] == c);
                    }
                }
            }
            k = k + 1;
        }
        let mut copy = self.copy();
        copy.eval(instance);
        copy.total_distance == self.total_distance
    }

    /// A copy of this tour, path and cached length.
    pub fn copy(&self) -> (r: Self)
        ensures
            r.path@ == self.path@,
            r.total_distance == self.total_distance,
    {
        let path = self.path.clone();
        proof {
            assert(path@ =~= self.path@);
        }
        Solution { path, total_distance: self.total_distance }
    }

    /// Walks this tour towards `target`: position by position, where the two differ, the
    /// city that `target` has there is swapped into place and the result is improved by
    /// 2-opt descent. The shortest tour met on the way (this one included) is kept.
    pub fn path_relinking(&mut self, target: &Solution, instance: &Instance)
        requires
            instance.wf(),
            is_tour(old(self).path@, instance.num_cities as nat),
            is_tour(target.path@, instance.num_cities as nat),
            old(self).evaluated(*instance),
        ensures
            final(self).path@ == relink_walk(
                *instance,
                old(self).path@,
                target.path@,
                instance.num_cities as nat,
            ).1,
            is_tour(final(self).path@, instance.num_cities as nat),
            final(self).evaluated(*instance),
            final(self).total_distance <= old(self).total_distance,
            final(self).path@ == old(self).path@ || is_2opt_optimal(*instance, final(self).path@),
            old(self).path@ == target.path@ ==> final(self).path@ == old(self).path@,
    {
        let ghost start = self.path@;
        let ghost n = instance.num_cities as nat;
        let mut best_distance = self.total_distance;
        let mut best_path = self.path.clone();
        proof {
            assert(best_path@ =~= start);
        }
        let len = self.path.len();
        let mut i: usize = 0;
        while i < len
            invariant
                instance.wf(),
                n == instance.num_cities,
                len == n,
                is_tour(self.path@, n),
                is_tour(target.path@, n),
                is_tour(best_path@, n),
                best_distance as int == tour_cost(*instance, best_path@),
                best_distance <= old(self).total_distance,
                best_path@ == start || is_2opt_optimal(*instance, best_path@),
                start == target.path@ ==> self.path@ == start && best_path@ == start,
                (self.path@, best_path@) == relink_walk(*instance, start, target.path@, i as nat),
                i <= len,
            decreases len - i,
        {
            if self.path[i] != target.path[i] {
                let city = target.path[i];
                proof {
                    lemma_tour_contains(self.path@, n, city);
                }
                let k = index_of(&self.path, city);
                let ghost before = self.path@;
                proof {
                    let pos = choose|pos: int| 0 <= pos < before.len() && before[pos] == target.path@[i as int];
                    assert(before[pos] == before[k as int]);
                    assert(pos == k);
                }
                swap_positions(&mut self.path, i, k);
                proof {
                    lemma_swap_move_is_tour(before, n, i as int, k as int);
                }
                self.eval(instance);
                local_search_2opt(self, instance);
                if self.total_distance < best_distance {
                    best_distance = self.total_distance;
                    best_path = self.path.clone();
                    proof {
                        assert(best_path@ =~= self.path@);
                    }
                }
            }
            proof {
                assert(relink_walk(*instance, start, target.path@, (i + 1) as nat).0 == self.path@);
            }
            i = i + 1;
        }
        self.path = best_path;
        self.total_distance = best_distance;
    }
}

} // verus!
