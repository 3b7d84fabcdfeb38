use vstd::prelude::*;
use crate::instance::Instance;
use crate::local_search::{descent_2opt, is_2opt_optimal, local_search_2opt};
use crate::solution::{Solution, index_of, is_tour, relink_walk, valid_cities};

verus! {

/// Relies on rand::random: a value drawn from the thread-local generator. Nothing is
/// known of the value.
pub assume_specification<T>[ rand::random::<T> ]() -> (r: T)
    where
        rand::distributions::Standard: rand::distributions::Distribution<T>,
;

/// Relies on slice::sort_by_key: a stable sort of the pairs by their second field, which
/// keeps the pairs and orders them by that field.
#[verifier::external_body]
fn sort_by_distance(v: &mut Vec<(usize, i32)>)
    ensures
        final(v)@.len() == old(v)@.len(),
        final(v)@.to_multiset() == old(v)@.to_multiset(),
        forall|a: int, b: int| 0 <= a < b < final(v)@.len() ==> final(v)@[a].1 <= final(v)@[b].1,
{
    v.sort_by_key(|&(_, d)| d);
}

/// The size of the restricted candidate list among `m` cities: a third of them, rounded up.
pub open spec fn rcl_size(m: nat) -> nat {
    (m + 2) / 3
}

/// How many of `cities` lie nearer to `from` than `x` (or, when `inclusive`, no
/// farther than `x`).
pub open spec fn count_near(inst: Instance, from: usize, cities: Seq<usize>, x: int, inclusive: bool) -> nat
    decreases cities.len(),
{
    if cities.len() == 0 {
        0
    } else {
        let d = inst.dist(from as int, cities.last() as int);
        count_near(inst, from, cities.drop_last(), x, inclusive) + if d < x || (inclusive && d == x) {
            1nat
        } else {
            0nat
        }
    }
}

/// How many of the pairs have a second field below `x` (or, when `inclusive`, at most `x`).
pub open spec fn count_pairs(s: Seq<(usize, i32)>, x: int, inclusive: bool) -> nat
    decreases s.len(),
{
    if s.len() == 0 {
        0
    } else {
        let d = s.last().1 as int;
        count_pairs(s.drop_last(), x, inclusive) + if d < x || (inclusive && d == x) {
            1nat
        } else {
            0nat
        }
    }
}

proof fn lemma_count_pairs_of_cities(inst: Instance, from: usize, cities: Seq<usize>, s: Seq<(usize, i32)>, x: int, inclusive: bool)
    requires
        s.len() == cities.len(),
        forall|a: int| 0 <= a < s.len() ==> (#[trigger] s[a]).0 == cities[a] && s[a].1 as int == inst.dist(from as int, cities[a] as int),
    ensures
        count_pairs(s, x, inclusive) == count_near(inst, from, cities, x, inclusive),
    decreases s.len(),
{
    if s.len() > 0 {
        lemma_count_pairs_of_cities(inst, from, cities.drop_last(), s.drop_last(), x, inclusive);
        assert(s.last() == s[s.len() - 1]);
    }
}

proof fn lemma_count_pairs_remove(s: Seq<(usize, i32)>, i: int, x: int, inclusive: bool)
    requires
        0 <= i < s.len(),
    ensures
        count_pairs(s, x, inclusive) == count_pairs(s.remove(i), x, inclusive) + if s[i].1 < x || (
        inclusive && s[i].1 == x) {
            1nat
        } else {
            0nat
        },
    decreases s.len(),
{
    if i == s.len() - 1 {
        assert(s.remove(i) =~= s.drop_last());
    } else {
        lemma_count_pairs_remove(s.drop_last(), i, x, inclusive);
        assert(s.remove(i).drop_last() =~= s.drop_last().remove(i));
        assert(s.remove(i).last() == s.last());
    }
}

proof fn lemma_count_pairs_permutation(s: Seq<(usize, i32)>, u: Seq<(usize, i32)>, x: int, inclusive: bool)
    requires
        s.to_multiset() == u.to_multiset(),
    ensures
        count_pairs(s, x, inclusive) == count_pairs(u, x, inclusive),
    decreases u.len(),
{
    s.to_multiset_ensures();
    u.to_multiset_ensures();
    if u.len() > 0 {
        let e = u.last();
        let v = u.drop_last();
        assert(u =~= v.push(e));
        v.to_multiset_ensures();
        assert(u.to_multiset() =~= v.to_multiset().insert(e));
        assert(u.to_multiset().count(e) > 0);
        assert(s.contains(e));
        let i = choose|i: int| 0 <= i < s.len() && s[i] == e;
        let t = s.remove(i);
        assert(t.to_multiset() =~= s.to_multiset().remove(e));
        assert(t.to_multiset() =~= v.to_multiset());
        lemma_count_pairs_permutation(t, v, x, inclusive);
        lemma_count_pairs_remove(s, i, x, inclusive);
    }
}

proof fn lemma_count_pairs_at_most_len(s: Seq<(usize, i32)>, x: int, inclusive: bool)
    ensures
        count_pairs(s, x, inclusive) <= s.len(),
    decreases s.len(),
{
    if s.len() > 0 {
        lemma_count_pairs_at_most_len(s.drop_last(), x, inclusive);
    }
}

proof fn lemma_count_pairs_all(s: Seq<(usize, i32)>, x: int)
    requires
        forall|a: int| 0 <= a < s.len() ==> (#[trigger] s[a]).1 <= x,
    ensures
        count_pairs(s, x, true) == s.len(),
    decreases s.len(),
{
    if s.len() > 0 {
        lemma_count_pairs_all(s.drop_last(), x);
        assert(s.last() == s[s.len() - 1]);
    }
}

/// In a sequence sorted by the second field, the entry at position `q` has at most `q`
/// entries strictly below it and at least `q + 1` entries at or below it.
proof fn lemma_sorted_rank(s: Seq<(usize, i32)>, q: int)
    requires
        0 <= q < s.len(),
        forall|a: int, b: int| 0 <= a < b < s.len() ==> s[a].1 <= s[b].1,
    ensures
        count_pairs(s, s[q].1 as int, false) <= q,
        count_pairs(s, s[q].1 as int, true) >= q + 1,
    decreases s.len(),
{
    let x = s[q].1 as int;
    let t = s.drop_last();
    assert(s.last() == s[s.len() - 1]);
    if q == s.len() - 1 {
        lemma_count_pairs_at_most_len(t, x, false);
        lemma_count_pairs_all(t, x);
    } else {
        lemma_sorted_rank(t, q);
        assert(t[q] == s[q]);
    }
}

proof fn lemma_count_near_remove(inst: Instance, from: usize, s: Seq<usize>, i: int, x: int, inclusive: bool)
    requires
        0 <= i < s.len(),
    ensures
        count_near(inst, from, s, x, inclusive) == count_near(inst, from, s.remove(i), x, inclusive) + if inst.dist(from as int, s[i] as int) < x || (
        inclusive && inst.dist(from as int, s[i] as int) == x) {
            1nat
        } else {
            0nat
        },
    decreases s.len(),
{
    if i == s.len() - 1 {
        assert(s.remove(i) =~= s.drop_last());
    } else {
        lemma_count_near_remove(inst, from, s.drop_last(), i, x, inclusive);
        assert(s.remove(i).drop_last() =~= s.drop_last().remove(i));
        assert(s.remove(i).last() == s.last());
    }
}

/// The count depends on which cities are given, not on their order.
proof fn lemma_count_near_permutation(inst: Instance, from: usize, s: Seq<usize>, u: Seq<usize>, x: int, inclusive: bool)
    requires
        s.to_multiset() == u.to_multiset(),
    ensures
        count_near(inst, from, s, x, inclusive) == count_near(inst, from, u, x, inclusive),
    decreases u.len(),
{
    s.to_multiset_ensures();
    u.to_multiset_ensures();
    if u.len() > 0 {
        let e = u.last();
        let v = u.drop_last();
        assert(u =~= v.push(e));
        v.to_multiset_ensures();
        assert(u.to_multiset() =~= v.to_multiset().insert(e));
        assert(u.to_multiset().count(e) > 0);
        assert(s.contains(e));
        let i = choose|i: int| 0 <= i < s.len() && s[i] == e;
        let t = s.remove(i);
        assert(t.to_multiset() =~= s.to_multiset().remove(e));
        assert(t.to_multiset() =~= v.to_multiset());
        lemma_count_near_permutation(inst, from, t, v, x, inclusive);
        lemma_count_near_remove(inst, from, s, i, x, inclusive);
    }
}

/// Each city after the first was, when it was placed, among the nearest third (rounded
/// up) of the cities not yet placed, nearest to the city placed before it: fewer than
/// that many of the later cities are strictly nearer to it.
pub open spec fn greedy_randomized(inst: Instance, p: Seq<usize>) -> bool {
    forall|t: int|
        1 <= t < p.len() ==> count_near(
            inst,
            p[t - 1],
            p.subrange(t, p.len() as int),
            inst.dist(p[t - 1] as int, #[trigger] p[t] as int),
            false,
        ) < rcl_size((p.len() - t) as nat)
}

/// The next city of a randomized greedy construction. The cities of `remaining` are
/// ranked by their distance from `last`, and the city of rank `draw % k` is returned,
/// where `k` is a third of `remaining`, rounded up: fewer than `draw % k + 1` cities of
/// `remaining` are nearer to `last`, and more than `draw % k` are no farther.
pub fn restricted_choice(instance: &Instance, last: usize, remaining: &Vec<usize>, draw: usize) -> (r: usize)
    requires
        instance.wf(),
        last < instance.num_cities,
        remaining@.len() > 0,
        valid_cities(remaining@, instance.num_cities as nat),
    ensures
        remaining@.contains(r),
        ({
            let x = instance.dist(last as int, r as int);
            let q = (draw as int) % (rcl_size(remaining@.len()) as int);
            &&& count_near(*instance, last, remaining@, x, false) <= q
            &&& q < count_near(*instance, last, remaining@, x, true)
        }),
{
    let n = instance.num_cities;
    let mut candidates: Vec<(usize, i32)> = Vec::with_capacity(remaining.len());
    let mut k: usize = 0;
    while k < remaining.len()
        invariant
            instance.wf(),
            n == instance.num_cities,
            last < n,
            valid_cities(remaining@, n as nat),
            k <= remaining@.len(),
            candidates@.len() == k,
            forall|a: int| 0 <= a < k ==> (#[trigger] candidates@[a]).0 == remaining@[a]
                && candidates@[a].1 as int == instance.dist(last as int, remaining@[a] as int),
        decreases remaining@.len() - k,
    {
        let city = remaining[k];
        candidates.push((city, instance.distances[last][city]));
        k = k + 1;
    }
    let ghost unsorted = candidates@;
    sort_by_distance(&mut candidates);
    let size = candidates.len() / 3 + if candidates.len() % 3 == 0 { 0 } else { 1 };
    let q = draw % size;
    let picked = candidates[q];
    proof {
        unsorted.to_multiset_ensures();
        candidates@.to_multiset_ensures();
        assert(candidates@.contains(picked));
        assert(candidates@.to_multiset().count(picked) > 0);
        assert(unsorted.to_multiset().count(picked) > 0);
        assert(unsorted.contains(picked));
        let a = choose|a: int| 0 <= a < unsorted.len() && unsorted[a] == picked;
        assert(remaining@[a] == picked.0);
        let x = picked.1 as int;
        assert(x == instance.dist(last as int, picked.0 as int));
        lemma_sorted_rank(candidates@, q as int);
        lemma_count_pairs_permutation(candidates@, unsorted, x, false);
        lemma_count_pairs_permutation(candidates@, unsorted, x, true);
        lemma_count_pairs_of_cities(*instance, last, remaining@, unsorted, x, false);
        lemma_count_pairs_of_cities(*instance, last, remaining@, unsorted, x, true);
    }
    picked.0
}

/// Builds a tour at random: the first city is drawn uniformly, then each next city is
/// drawn uniformly among the nearest third (rounded up) of the cities not yet visited,
/// nearest to the city placed last (see `restricted_choice`). The cached length is left
/// at zero.
pub fn constructive_phase(instance: &Instance) -> (r: Solution)
    requires
        instance.wf(),
    ensures
        is_tour(r.path@, instance.num_cities as nat),
        greedy_randomized(*instance, r.path@),
        r.total_distance == 0,
{
    let n = instance.num_cities;
    let mut solution = Solution::new(n);
    let mut remaining: Vec<usize> = Vec::with_capacity(n);
    let mut c: usize = 0;
    while c < n
        invariant
            c <= n,
            remaining@.len() == c,
            forall|k: int| 0 <= k < c ==> #[trigger] remaining@[k] == k,
        decreases n - c,
    {
        remaining.push(c);
        c = c + 1;
    }
    let draw: usize = rand::random::<usize>();
    let start_city = remaining.remove(draw % remaining.len());
    solution.path.push(start_city);
    while remaining.len() > 0
        invariant
            instance.wf(),
            n == instance.num_cities,
            solution.total_distance == 0,
            solution.path@.len() >= 1,
            solution.path@.len() + remaining@.len() == n,
            valid_cities(solution.path@, n as nat),
            valid_cities(remaining@, n as nat),
            solution.path@.no_duplicates(),
            remaining@.no_duplicates(),
            forall|a: int, b: int|
                0 <= a < solution.path@.len() && 0 <= b < remaining@.len() ==> solution.path@[a]
                    != remaining@[b],
            forall|t: int|
                1 <= t < solution.path@.len() ==> count_near(
                    *instance,
                    solution.path@[t - 1],
                    (solution.path@ + remaining@).subrange(t, n as int),
                    instance.dist(solution.path@[t - 1] as int, #[trigger] solution.path@[t] as int),
                    false,
                ) < rcl_size((n - t) as nat),
        decreases remaining@.len(),
    {
        let last_city = solution.path[solution.path.len() - 1];
        let draw: usize = rand::random::<usize>();
        let next_city = restricted_choice(instance, last_city, &remaining, draw);
        let q = index_of(&remaining, next_city);
        let ghost before = remaining@;
        let ghost old_path = solution.path@;
        remaining.remove(q);
        proof {
            assert forall|a: int, b: int|
                0 <= a < remaining@.len() && 0 <= b < remaining@.len() && a != b implies remaining@[a]
                != remaining@[b] by {
                let fa = if a < q { a } else { a + 1 };
                let fb = if b < q { b } else { b + 1 };
                assert(remaining@[a] == before[fa] && remaining@[b] == before[fb]);
            }
            assert forall|a: int| 0 <= a < remaining@.len() implies remaining@[a] != next_city by {
                let fa = if a < q { a } else { a + 1 };
                assert(remaining@[a] == before[fa]);
            }
        }
        solution.path.push(next_city);
        proof {
            let p = solution.path@;
            let full = p + remaining@;
            let old_full = old_path + before;
            let m = old_path.len() as int;
            before.to_multiset_ensures();
            assert(before =~= before.take(q as int) + before.skip(q as int));
            assert(remaining@ =~= before.take(q as int) + before.skip(q as int + 1));
            assert(before.skip(q as int) =~= seq![next_city] + before.skip(q as int + 1));
            assert forall|t: int| 1 <= t <= m implies (#[trigger] full.subrange(t, n as int)).to_multiset()
                =~= old_full.subrange(t, n as int).to_multiset() by {
                let head = old_path.subrange(t, m);
                let a = before.take(q as int);
                let b = before.skip(q as int + 1);
                let c = seq![next_city];
                assert(full.subrange(t, n as int) =~= head + (c + (a + b)));
                assert(old_full.subrange(t, n as int) =~= head + (a + (c + b)));
                vstd::seq_lib::lemma_multiset_commutative(head, c + (a + b));
                vstd::seq_lib::lemma_multiset_commutative(head, a + (c + b));
                vstd::seq_lib::lemma_multiset_commutative(c, a + b);
                vstd::seq_lib::lemma_multiset_commutative(a, c + b);
                vstd::seq_lib::lemma_multiset_commutative(c, b);
                vstd::seq_lib::lemma_multiset_commutative(a, b);
            }
            assert forall|t: int| 1 <= t < p.len() implies count_near(
                *instance,
                p[t - 1],
                full.subrange(t, n as int),
                instance.dist(p[t - 1] as int, #[trigger] p[t] as int),
                false,
            ) < rcl_size((n - t) as nat) by {
                let x = instance.dist(p[t - 1] as int, p[t] as int);
                if t < m {
                    assert(p[t - 1] == old_path[t - 1] && p[t] == old_path[t]);
                    lemma_count_near_permutation(*instance, p[t - 1], full.subrange(t, n as int), old_full.subrange(t, n as int), x, false);
                } else {
                    assert(t == m);
                    assert(p[t - 1] == last_city && p[t] == next_city);
                    assert(old_full.subrange(t, n as int) =~= before);
                    lemma_count_near_permutation(*instance, last_city, full.subrange(t, n as int), before, x, false);
                    let k = rcl_size(before.len()) as int;
                    assert(k > 0);
                    assert((draw as int) % k < k);
                }
            }
        }
    }
    proof {
        assert(solution.path@ + remaining@ =~= solution.path@);
        assert forall|t: int| 1 <= t < solution.path@.len() implies count_near(
            *instance,
            solution.path@[t - 1],
            solution.path@.subrange(t, solution.path@.len() as int),
            instance.dist(solution.path@[t - 1] as int, #[trigger] solution.path@[t] as int),
            false,
        ) < rcl_size((solution.path@.len() - t) as nat) by {
            assert(solution.path@.len() == n);
        }
    }
    solution
}

/// The number of positions below `k` at which `a` and `b` hold different cities.
pub open spec fn mismatches(a: Seq<usize>, b: Seq<usize>, k: int) -> nat
    decreases k,
{
    if k <= 0 {
        0
    } else {
        mismatches(a, b, k - 1) + if a[k - 1] != b[k - 1] {
            1nat
        } else {
            0nat
        }
    }
}

/// The position-wise distance between two paths, over the positions that both have.
pub open spec fn hamming(a: Seq<usize>, b: Seq<usize>) -> nat {
    mismatches(a, b, if a.len() <= b.len() { a.len() as int } else { b.len() as int })
}

/// Any two members of the pool differ in at least `min_difference` positions.
pub open spec fn pool_diverse(pool: Seq<Solution>, min_difference: nat) -> bool {
    forall|a: int, b: int|
        0 <= a < pool.len() && 0 <= b < pool.len() && a != b ==> hamming(
            #[trigger] pool[a].path@,
            #[trigger] pool[b].path@,
        ) >= min_difference
}

/// `candidate` differs in at least `min_difference` positions from every member.
pub open spec fn diverse_from_all(pool: Seq<Solution>, candidate: Solution, min_difference: nat) -> bool {
    forall|a: int| 0 <= a < pool.len() ==> hamming(#[trigger] pool[a].path@, candidate.path@) >= min_difference
}

/// `w` is the last member of largest cached length.
pub open spec fn is_worst_index(pool: Seq<Solution>, w: int) -> bool {
    &&& 0 <= w < pool.len()
    &&& forall|a: int| 0 <= a < pool.len() ==> #[trigger] pool[a].total_distance <= pool[w].total_distance
    &&& forall|a: int| w < a < pool.len() ==> #[trigger] pool[a].total_distance < pool[w].total_distance
}

proof fn lemma_mismatches_symmetric(a: Seq<usize>, b: Seq<usize>, k: int)
    ensures
        mismatches(a, b, k) == mismatches(b, a, k),
    decreases k,
{
    if k > 0 {
        lemma_mismatches_symmetric(a, b, k - 1);
    }
}

/// The position-wise distance does not depend on the order of its arguments.
pub proof fn lemma_hamming_symmetric(a: Seq<usize>, b: Seq<usize>)
    ensures
        hamming(a, b) == hamming(b, a),
{
    let k = if a.len() <= b.len() { a.len() as int } else { b.len() as int };
    lemma_mismatches_symmetric(a, b, k);
}

/// The number of positions at which the two paths hold different cities, over the
/// positions that both have.
pub fn symmetric_difference(sol1: &Solution, sol2: &Solution) -> (r: usize)
    ensures
        r == hamming(sol1.path@, sol2.path@),
{
    let len = if sol1.path.len() <= sol2.path.len() { sol1.path.len() } else { sol2.path.len() };
    let mut count: usize = 0;
    let mut k: usize = 0;
    while k < len
        invariant
            len <= sol1.path@.len(),
            len <= sol2.path@.len(),
            len == sol1.path@.len() || len == sol2.path@.len(),
            k <= len,
            count == mismatches(sol1.path@, sol2.path@, k as int),
            count <= k,
        decreases len - k,
    {
        if sol1.path[k] != sol2.path[k] {
            count = count + 1;
        }
        k = k + 1;
    }
    count
}

/// The index of the last member of largest cached length.
fn worst_index(pool: &Vec<Solution>) -> (w: usize)
    requires
        pool@.len() > 0,
    ensures
        is_worst_index(pool@, w as int),
{
    let mut w: usize = 0;
    let mut k: usize = 1;
    while k < pool.len()
        invariant
            1 <= k <= pool@.len(),
            w < k,
            forall|a: int| 0 <= a < k ==> #[trigger] pool@[a].total_distance <= pool@[w as int].total_distance,
            forall|a: int| w < a < k ==> #[trigger] pool@[a].total_distance < pool@[w as int].total_distance,
        decreases pool@.len() - k,
    {
        if pool[k].total_distance >= pool[w].total_distance {
            w = k;
        }
        k = k + 1;
    }
    w
}

/// Offers `solution` to the elite pool. An empty pool takes it. Otherwise it is taken
/// only if it differs in at least `min_difference` positions from every member: it is
/// appended while the pool holds fewer than `max_elite_size` members, and else replaces
/// the last member of largest cached length if it is strictly shorter than that member.
/// A pool whose members are pairwise diverse stays so.
pub fn update_elite_set(
    elite_set: &mut Vec<Solution>,
    solution: Solution,
    max_elite_size: usize,
    min_difference: usize,
)
    ensures
        old(elite_set)@.len() == 0 ==> final(elite_set)@ == seq![solution],
        old(elite_set)@.len() > 0 && !diverse_from_all(old(elite_set)@, solution, min_difference as nat)
            ==> final(elite_set)@ == old(elite_set)@,
        old(elite_set)@.len() > 0 && diverse_from_all(old(elite_set)@, solution, min_difference as nat)
            && old(elite_set)@.len() < max_elite_size ==> final(elite_set)@ == old(elite_set)@.push(solution),
        forall|w: int|
            old(elite_set)@.len() > 0 && diverse_from_all(old(elite_set)@, solution, min_difference as nat)
                && old(elite_set)@.len() >= max_elite_size && #[trigger] is_worst_index(old(elite_set)@, w)
                ==> final(elite_set)@ == if solution.total_distance < old(elite_set)@[w].total_distance {
                old(elite_set)@.update(w, solution)
            } else {
                old(elite_set)@
            },
        pool_diverse(old(elite_set)@, min_difference as nat) ==> pool_diverse(final(elite_set)@, min_difference as nat),
{
    let ghost pool = elite_set@;
    let ghost m = min_difference as nat;
    if elite_set.len() == 0 {
        elite_set.push(solution);
        proof {
            assert(elite_set@ =~= seq![solution]);
        }
        return;
    }
    let mut is_different = true;
    let mut k: usize = 0;
    while k < elite_set.len()
        invariant
            elite_set@ == pool,
            m == min_difference as nat,
            k <= pool.len(),
            is_different ==> forall|a: int| 0 <= a < k ==> hamming(#[trigger] pool[a].path@, solution.path@) >= m,
            !is_different ==> exists|a: int| 0 <= a < k && hamming(#[trigger] pool[a].path@, solution.path@) < m,
        decreases pool.len() - k,
    {
        let d = symmetric_difference(&elite_set[k], &solution);
        proof {
            assert(hamming(pool[k as int].path@, solution.path@) == d);
        }
        if d < min_difference {
            is_different = false;
        }
        proof {
            if is_different {
                assert forall|a: int| 0 <= a < k + 1 implies hamming(#[trigger] pool[a].path@, solution.path@) >= m by {
                    if a == k {
                        assert(d >= min_difference);
                    }
                }
            } else if d < min_difference {
                assert(hamming(pool[k as int].path@, solution.path@) < m);
            }
        }
        k = k + 1;
    }
    if is_different {
        proof {
            assert forall|a: int| 0 <= a < pool.len() implies hamming(solution.path@, #[trigger] pool[a].path@) >= m by {
                lemma_hamming_symmetric(solution.path@, pool[a].path@);
            }
        }
        if elite_set.len() < max_elite_size {
            elite_set.push(solution);
            proof {
                assert forall|a: int, b: int|
                    pool_diverse(pool, m) && 0 <= a < elite_set@.len() && 0 <= b < elite_set@.len() && a != b
                        implies hamming(#[trigger] elite_set@[a].path@, #[trigger] elite_set@[b].path@) >= m by {
                    if a < pool.len() && b < pool.len() {
                        assert(elite_set@[a] == pool[a] && elite_set@[b] == pool[b]);
                    }
                }
            }
        } else {
            let w = worst_index(elite_set);
            if solution.total_distance < elite_set[w].total_distance {
                elite_set.set(w, solution);
                proof {
                    assert forall|a: int, b: int|
                        pool_diverse(pool, m) && 0 <= a < elite_set@.len() && 0 <= b < elite_set@.len() && a != b
                            implies hamming(#[trigger] elite_set@[a].path@, #[trigger] elite_set@[b].path@) >= m by {
                        if a != w && b != w {
                            assert(elite_set@[a] == pool[a] && elite_set@[b] == pool[b]);
                        }
                    }
                }
            }
            proof {
                assert forall|v: int| #[trigger] is_worst_index(pool, v) implies v == w by {
                    if v < w {
                        assert(pool[w as int].total_distance < pool[v].total_distance);
                    } else if v > w {
                        assert(pool[v].total_distance < pool[w as int].total_distance);
                    }
                }
            }
        }
    }
}

/// The diversity threshold of the elite pool: a tenth of the number of cities, rounded
/// to the nearest integer, halves upwards.
pub fn min_difference(num_cities: usize) -> (r: usize)
    ensures
        r == (num_cities + 5) / 10,
{
    num_cities / 10 + if num_cities % 10 >= 5 { 1 } else { 0 }
}

/// One GRASP trial: a randomized greedy construction, improved by 2-opt descent and
/// evaluated.
pub fn grasp_trial(instance: &Instance) -> (r: Solution)
    requires
        instance.wf(),
    ensures
        exists|c: Seq<usize>|
            is_tour(c, instance.num_cities as nat) && greedy_randomized(*instance, c) && r.path@
                == #[trigger] descent_2opt(*instance, c),
        is_tour(r.path@, instance.num_cities as nat),
        r.evaluated(*instance),
        is_2opt_optimal(*instance, r.path@),
{
    let mut solution = constructive_phase(instance);
    let ghost built = solution.path@;
    local_search_2opt(&mut solution, instance);
    solution.eval(instance);
    proof {
        assert(solution.path@ == descent_2opt(*instance, built));
    }
    solution
}

/// Relinks a copy of `source` towards `target` and improves the result by 2-opt descent.
pub fn relink_pair(source: &Solution, target: &Solution, instance: &Instance) -> (r: Solution)
    requires
        instance.wf(),
        is_tour(source.path@, instance.num_cities as nat),
        is_tour(target.path@, instance.num_cities as nat),
        source.evaluated(*instance),
    ensures
        r.path@ == descent_2opt(
            *instance,
            relink_walk(*instance, source.path@, target.path@, instance.num_cities as nat).1,
        ),
        is_tour(r.path@, instance.num_cities as nat),
        r.evaluated(*instance),
        is_2opt_optimal(*instance, r.path@),
        r.total_distance <= source.total_distance,
{
    let mut s = source.copy();
    s.path_relinking(target, instance);
    local_search_2opt(&mut s, instance);
    s
}

/// Why a search has no tour to return.
#[derive(Debug, PartialEq, Eq, Structural)]
pub enum SearchError {
    /// No trial completed.
    NoSolution,
}

/// The state that the workers of a multi-start search share: the best tour published
/// so far, and whether the time budget has been seen to run out.
pub struct SharedBest {
    pub best: Option<Solution>,
    pub stopped: bool,
}

impl SharedBest {
    /// No tour yet, and not stopped.
    pub fn new() -> (r: Self)
        ensures
            r.best is None,
            !r.stopped,
    {
        SharedBest { best: None, stopped: false }
    }

    /// Whether `candidate` would become the new best: it is the first one, or strictly
    /// shorter than the best so far.
    pub open spec fn improves(self, candidate: Solution) -> bool {
        match self.best {
            None => true,
            Some(b) => candidate.total_distance < b.total_distance,
        }
    }

    /// Publishes a copy of `candidate` if it improves on the best so far; says whether it did.
    pub fn try_publish(&mut self, candidate: &Solution) -> (r: bool)
        ensures
            r == old(self).improves(*candidate),
            final(self).stopped == old(self).stopped,
            r ==> (final(self).best matches Some(b) && b.path@ == candidate.path@
                && b.total_distance == candidate.total_distance),
            !r ==> final(self).best == old(self).best,
    {
        let better = match &self.best {
            None => true,
            Some(b) => candidate.total_distance < b.total_distance,
        };
        if better {
            self.best = Some(candidate.copy());
        }
        better
    }

    /// The length of the best tour so far.
    pub fn best_cost(&self) -> (r: Option<i32>)
        ensures
            r == match self.best {
                None => None::<i32>,
                Some(b) => Some(b.total_distance),
            },
    {
        match &self.best {
            None => None,
            Some(b) => Some(b.total_distance),
        }
    }

    /// Called by a worker before each trial, with whether the time budget has run out.
    /// Once it has, the search is stopped for every worker; a trial still runs while no
    /// tour has been published, so that at least one trial completes.
    pub fn keep_running(&mut self, time_expired: bool) -> (r: bool)
        ensures
            final(self).stopped == (old(self).stopped || time_expired),
            final(self).best == old(self).best,
            r == (final(self).best is None || !final(self).stopped),
    {
        if time_expired {
            self.stopped = true;
        }
        self.best.is_none() || !self.stopped
    }

    /// The best tour found, or `NoSolution` when no trial completed.
    pub fn into_best(self) -> (r: Result<Solution, SearchError>)
        ensures
            self.best matches Some(b) ==> r == Ok::<Solution, SearchError>(b),
            self.best is None ==> r == Err::<Solution, SearchError>(SearchError::NoSolution),
    {
        match self.best {
            Some(b) => Ok(b),
            None => Err(SearchError::NoSolution),
        }
    }
}

} // verus!
