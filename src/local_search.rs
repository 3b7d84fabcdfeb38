use vstd::prelude::*;
use crate::instance::Instance;
use crate::solution::{Solution, is_tour, path_sum, tour_cost, valid_cities};

verus! {

/// The distance between the cities at positions `a` and `b` of `p`.
pub open spec fn edge(inst: Instance, p: Seq<usize>, a: int, b: int) -> int {
    inst.dist(p[a] as int, p[b] as int)
}

/// `p` with the segment of positions `i..j` reversed.
pub open spec fn two_opt_move(p: Seq<usize>, i: int, j: int) -> Seq<usize> {
    Seq::new(p.len(), |k: int| if i <= k < j { p[i + j - 1 - k] } else { p[k] })
}

/// Reversing `i..j` replaces the edges `(i-1, i)` and `(j-1, j)` by the edges
/// `(i-1, j-1)` and `(i, j)`, and that is strictly shorter.
pub open spec fn improving_2opt(inst: Instance, p: Seq<usize>, i: int, j: int) -> bool {
    &&& 1 <= i
    &&& i + 2 <= j < p.len()
    &&& edge(inst, p, i - 1, j - 1) + edge(inst, p, i, j) < edge(inst, p, i - 1, i) + edge(
        inst,
        p,
        j - 1,
        j,
    )
}

/// No 2-opt move shortens `p`.
pub open spec fn is_2opt_optimal(inst: Instance, p: Seq<usize>) -> bool {
    forall|i: int, j: int| !#[trigger] improving_2opt(inst, p, i, j)
}

/// `p` with the cities at positions `i` and `j` exchanged.
pub open spec fn swap_move(p: Seq<usize>, i: int, j: int) -> Seq<usize> {
    p.update(i, p[j]).update(j, p[i])
}

/// The four edges at positions `i` and `j` of `p`.
pub open spec fn swap_edges(inst: Instance, p: Seq<usize>, i: int, j: int) -> int {
    edge(inst, p, i - 1, i) + edge(inst, p, i, i + 1) + edge(inst, p, j - 1, j) + edge(
        inst,
        p,
        j,
        j + 1,
    )
}

/// Exchanging the non-adjacent cities at `i` and `j` (neither of them the first or the
/// last) makes the four edges around them strictly shorter.
pub open spec fn improving_swap(inst: Instance, p: Seq<usize>, i: int, j: int) -> bool {
    &&& 1 <= i
    &&& i + 2 <= j
    &&& j + 1 < p.len()
    &&& swap_edges(inst, swap_move(p, i, j), i, j) < swap_edges(inst, p, i, j)
}

/// No swap move shortens `p`.
pub open spec fn is_swap_optimal(inst: Instance, p: Seq<usize>) -> bool {
    forall|i: int, j: int| !#[trigger] improving_swap(inst, p, i, j)
}

/// The pair `(a, b)` comes before `(i, j)` in the order in which the sweeps scan them.
pub open spec fn scanned_before(a: int, b: int, i: int, j: int) -> bool {
    a < i || (a == i && b < j)
}

/// The sequence in reverse order.
pub open spec fn reversed(s: Seq<usize>) -> Seq<usize> {
    Seq::new(s.len(), |k: int| s[s.len() - 1 - k])
}

/// `(i, j)` is the first improving 2-opt move of `p` in scanning order.
pub open spec fn first_2opt(inst: Instance, p: Seq<usize>, i: int, j: int) -> bool {
    &&& improving_2opt(inst, p, i, j)
    &&& forall|a: int, b: int| scanned_before(a, b, i, j) ==> !#[trigger] improving_2opt(inst, p, a, b)
}

/// `(i, j)` is the first improving swap move of `p` in scanning order.
pub open spec fn first_swap(inst: Instance, p: Seq<usize>, i: int, j: int) -> bool {
    &&& improving_swap(inst, p, i, j)
    &&& forall|a: int, b: int| scanned_before(a, b, i, j) ==> !#[trigger] improving_swap(inst, p, a, b)
}

/// The tour that first-improvement 2-opt descent reaches from the tour `p`: while some
/// move improves, the first one in scanning order is applied.
pub open spec fn descent_2opt(inst: Instance, p: Seq<usize>) -> Seq<usize>
    decreases tour_cost(inst, p),
    when inst.wf() && is_tour(p, inst.num_cities as nat)
    via descent_2opt_decreases
{
    if exists|i: int, j: int| first_2opt(inst, p, i, j) {
        let (i, j) = choose|i: int, j: int| first_2opt(inst, p, i, j);
        descent_2opt(inst, two_opt_move(p, i, j))
    } else {
        p
    }
}

#[via_fn]
proof fn descent_2opt_decreases(inst: Instance, p: Seq<usize>) {
    if exists|i: int, j: int| first_2opt(inst, p, i, j) {
        let (i, j) = choose|i: int, j: int| first_2opt(inst, p, i, j);
        lemma_2opt_move_improves(inst, p, i, j);
        lemma_two_opt_move_is_tour(p, inst.num_cities as nat, i, j);
        lemma_tour_cost_nonneg(inst, two_opt_move(p, i, j));
    }
}

/// The tour that first-improvement swap descent reaches from the tour `p`: while some
/// move improves, the first one in scanning order is applied.
pub open spec fn descent_swap(inst: Instance, p: Seq<usize>) -> Seq<usize>
    decreases tour_cost(inst, p),
    when inst.wf() && is_tour(p, inst.num_cities as nat)
    via descent_swap_decreases
{
    if exists|i: int, j: int| first_swap(inst, p, i, j) {
        let (i, j) = choose|i: int, j: int| first_swap(inst, p, i, j);
        descent_swap(inst, swap_move(p, i, j))
    } else {
        p
    }
}

#[via_fn]
proof fn descent_swap_decreases(inst: Instance, p: Seq<usize>) {
    if exists|i: int, j: int| first_swap(inst, p, i, j) {
        let (i, j) = choose|i: int, j: int| first_swap(inst, p, i, j);
        lemma_swap_move_cost(inst, p, i, j);
        lemma_swap_move_is_tour(p, inst.num_cities as nat, i, j);
        lemma_tour_cost_nonneg(inst, swap_move(p, i, j));
    }
}

proof fn lemma_first_2opt_unique(inst: Instance, p: Seq<usize>, i: int, j: int, a: int, b: int)
    requires
        first_2opt(inst, p, i, j),
        first_2opt(inst, p, a, b),
    ensures
        i == a && j == b,
{
    if scanned_before(a, b, i, j) {
        assert(!improving_2opt(inst, p, a, b));
    } else if scanned_before(i, j, a, b) {
        assert(!improving_2opt(inst, p, i, j));
    }
}

proof fn lemma_first_swap_unique(inst: Instance, p: Seq<usize>, i: int, j: int, a: int, b: int)
    requires
        first_swap(inst, p, i, j),
        first_swap(inst, p, a, b),
    ensures
        i == a && j == b,
{
    if scanned_before(a, b, i, j) {
        assert(!improving_swap(inst, p, a, b));
    } else if scanned_before(i, j, a, b) {
        assert(!improving_swap(inst, p, i, j));
    }
}

proof fn lemma_path_sum_concat(inst: Instance, a: Seq<usize>, b: Seq<usize>)
    requires
        a.len() >= 1,
        b.len() >= 1,
    ensures
        path_sum(inst, a + b) == path_sum(inst, a) + inst.dist(a.last() as int, b[0] as int)
            + path_sum(inst, b),
    decreases b.len(),
{
    if b.len() == 1 {
        assert((a + b).drop_last() =~= a);
    } else {
        assert((a + b).drop_last() =~= a + b.drop_last());
        lemma_path_sum_concat(inst, a, b.drop_last());
    }
}

proof fn lemma_path_sum_reversed(inst: Instance, s: Seq<usize>)
    requires
        inst.wf(),
        valid_cities(s, inst.num_cities as nat),
    ensures
        path_sum(inst, reversed(s)) == path_sum(inst, s),
    decreases s.len(),
{
    if s.len() >= 2 {
        let q = s.drop_last();
        lemma_path_sum_reversed(inst, q);
        let head = seq![s.last()];
        assert(reversed(s) =~= head + reversed(q));
        lemma_path_sum_concat(inst, head, reversed(q));
        assert(path_sum(inst, head) == 0);
        assert(reversed(q)[0] == s[s.len() - 2]);
        assert(inst.dist(s.last() as int, s[s.len() - 2] as int) == inst.dist(
            s[s.len() - 2] as int,
            s.last() as int,
        ));
    }
}

/// Reversing a segment keeps a tour a tour.
pub proof fn lemma_two_opt_move_is_tour(p: Seq<usize>, n: nat, i: int, j: int)
    requires
        is_tour(p, n),
        0 <= i <= j <= p.len(),
    ensures
        is_tour(two_opt_move(p, i, j), n),
{
    let m = two_opt_move(p, i, j);
    assert forall|a: int, b: int| 0 <= a < m.len() && 0 <= b < m.len() && a != b implies m[a]
        != m[b] by {
        let fa = if i <= a < j { i + j - 1 - a } else { a };
        let fb = if i <= b < j { i + j - 1 - b } else { b };
        assert(m[a] == p[fa] && m[b] == p[fb]);
    }
}

/// Exchanging two cities keeps a tour a tour.
pub proof fn lemma_swap_move_is_tour(p: Seq<usize>, n: nat, i: int, j: int)
    requires
        is_tour(p, n),
        0 <= i < p.len(),
        0 <= j < p.len(),
    ensures
        is_tour(swap_move(p, i, j), n),
{
    let m = swap_move(p, i, j);
    assert forall|a: int, b: int| 0 <= a < m.len() && 0 <= b < m.len() && a != b implies m[a]
        != m[b] by {
        let fa = if a == j { i } else if a == i { j } else { a };
        let fb = if b == j { i } else if b == i { j } else { b };
        assert(m[a] == p[fa] && m[b] == p[fb]);
    }
}

/// The cost of a 2-opt move: the two removed edges go, the two new edges come.
pub proof fn lemma_two_opt_move_cost(inst: Instance, p: Seq<usize>, i: int, j: int)
    requires
        inst.wf(),
        valid_cities(p, inst.num_cities as nat),
        1 <= i,
        i + 2 <= j < p.len(),
    ensures
        tour_cost(inst, two_opt_move(p, i, j)) == tour_cost(inst, p) - edge(inst, p, i - 1, i)
            - edge(inst, p, j - 1, j) + edge(inst, p, i - 1, j - 1) + edge(inst, p, i, j),
{
    let a = p.take(i);
    let s = p.subrange(i, j);
    let b = p.skip(j);
    let r = reversed(s);
    let m = two_opt_move(p, i, j);
    assert(p =~= (a + s) + b);
    assert(m =~= (a + r) + b);
    lemma_path_sum_concat(inst, a + s, b);
    lemma_path_sum_concat(inst, a, s);
    lemma_path_sum_concat(inst, a + r, b);
    lemma_path_sum_concat(inst, a, r);
    assert(valid_cities(s, inst.num_cities as nat));
    lemma_path_sum_reversed(inst, s);
    assert((a + s).last() == s.last());
    assert((a + r).last() == r.last());
    assert(m.last() == p.last() && m[0] == p[0]);
}

/// An accepted 2-opt move strictly shortens the tour.
pub proof fn lemma_2opt_move_improves(inst: Instance, p: Seq<usize>, i: int, j: int)
    requires
        inst.wf(),
        valid_cities(p, inst.num_cities as nat),
        improving_2opt(inst, p, i, j),
    ensures
        tour_cost(inst, two_opt_move(p, i, j)) < tour_cost(inst, p),
{
    lemma_two_opt_move_cost(inst, p, i, j);
}

/// The cost of a swap move: only the four edges around the two positions change.
pub proof fn lemma_swap_move_cost(inst: Instance, p: Seq<usize>, i: int, j: int)
    requires
        inst.wf(),
        valid_cities(p, inst.num_cities as nat),
        1 <= i,
        i + 2 <= j,
        j + 1 < p.len(),
    ensures
        tour_cost(inst, swap_move(p, i, j)) == tour_cost(inst, p) - swap_edges(inst, p, i, j)
            + swap_edges(inst, swap_move(p, i, j), i, j),
{
    let a = p.take(i);
    let x = seq![p[i]];
    let mid = p.subrange(i + 1, j);
    let y = seq![p[j]];
    let b = p.skip(j + 1);
    let m = swap_move(p, i, j);
    assert(p =~= (((a + x) + mid) + y) + b);
    assert(m =~= (((a + y) + mid) + x) + b);
    lemma_path_sum_concat(inst, (((a + x) + mid) + y), b);
    lemma_path_sum_concat(inst, ((a + x) + mid), y);
    lemma_path_sum_concat(inst, (a + x), mid);
    lemma_path_sum_concat(inst, a, x);
    lemma_path_sum_concat(inst, (((a + y) + mid) + x), b);
    lemma_path_sum_concat(inst, ((a + y) + mid), x);
    lemma_path_sum_concat(inst, (a + y), mid);
    lemma_path_sum_concat(inst, a, y);
    assert(path_sum(inst, x) == 0 && path_sum(inst, y) == 0);
    assert(m.last() == p.last() && m[0] == p[0]);
}

/// Reverses the positions `i..j` of `path` in place.
fn reverse_segment(path: &mut Vec<usize>, i: usize, j: usize)
    requires
        i <= j <= old(path)@.len(),
    ensures
        final(path)@ == two_opt_move(old(path)@, i as int, j as int),
{
    let ghost p = path@;
    let mut lo = i;
    let mut hi = j;
    while hi - lo >= 2
        invariant
            i <= lo <= hi <= j,
            j <= p.len(),
            lo - i == j - hi,
            path@.len() == p.len(),
            forall|k: int|
                0 <= k < p.len() && (k < i || j <= k || lo <= k < hi) ==> #[trigger] path@[k]
                    == p[k],
            forall|k: int|
                (i <= k < lo || hi <= k < j) ==> #[trigger] path@[k] == p[i + j - 1 - k],
        decreases hi - lo,
    {
        let a = path[lo];
        let b = path[hi - 1];
        path[lo] = b;
        path[hi - 1] = a;
        lo = lo + 1;
        hi = hi - 1;
    }
    assert(path@ =~= two_opt_move(p, i as int, j as int));
}

/// Exchanges the entries at positions `i` and `j` of `path`.
pub(crate) fn swap_positions(path: &mut Vec<usize>, i: usize, j: usize)
    requires
        i < old(path)@.len(),
        j < old(path)@.len(),
    ensures
        final(path)@ == swap_move(old(path)@, i as int, j as int),
{
    let a = path[i];
    let b = path[j];
    path[i] = b;
    path[j] = a;
}

/// The first improving 2-opt move in scanning order, if any.
fn first_improving_2opt(path: &Vec<usize>, instance: &Instance) -> (r: Option<(usize, usize)>)
    requires
        instance.wf(),
        is_tour(path@, instance.num_cities as nat),
    ensures
        r is None ==> is_2opt_optimal(*instance, path@),
        r matches Some((i, j)) ==> improving_2opt(*instance, path@, i as int, j as int) && forall|
            a: int,
            b: int,
        | scanned_before(a, b, i as int, j as int) ==> !#[trigger] improving_2opt(
            *instance,
            path@,
            a,
            b,
        ),
{
    let ghost p = path@;
    let ghost inst = *instance;
    let n = path.len();
    let mut i: usize = 1;
    while i < n - 1
        invariant
            instance.wf(),
            is_tour(p, instance.num_cities as nat),
            path@ == p,
            inst == *instance,
            n == p.len(),
            n >= 1,
            1 <= i,
            forall|a: int, b: int| a < i ==> !#[trigger] improving_2opt(inst, p, a, b),
        decreases n - i,
    {
        let mut j: usize = i + 2;
        while j < n
            invariant
                instance.wf(),
                is_tour(p, instance.num_cities as nat),
                path@ == p,
                inst == *instance,
                n == p.len(),
                1 <= i,
                i + 1 < n,
                i + 2 <= j,
                forall|a: int, b: int| a < i ==> !#[trigger] improving_2opt(inst, p, a, b),
                forall|b: int| b < j ==> !#[trigger] improving_2opt(inst, p, i as int, b),
            decreases n - j,
        {
            let current = instance.distances[path[i - 1]][path[i]] as i64
                + instance.distances[path[j - 1]][path[j]] as i64;
            let candidate = instance.distances[path[i - 1]][path[j - 1]] as i64
                + instance.distances[path[i]][path[j]] as i64;
            if candidate < current {
                return Some((i, j));
            }
            j = j + 1;
        }
        i = i + 1;
    }
    None
}

/// The first improving swap move in scanning order, if any.
fn first_improving_swap(path: &Vec<usize>, instance: &Instance) -> (r: Option<(usize, usize)>)
    requires
        instance.wf(),
        is_tour(path@, instance.num_cities as nat),
    ensures
        r is None ==> is_swap_optimal(*instance, path@),
        r matches Some((i, j)) ==> improving_swap(*instance, path@, i as int, j as int) && forall|
            a: int,
            b: int,
        | scanned_before(a, b, i as int, j as int) ==> !#[trigger] improving_swap(
            *instance,
            path@,
            a,
            b,
        ),
{
    let ghost p = path@;
    let ghost inst = *instance;
    let n = path.len();
    let mut i: usize = 1;
    while n > 3 && i < n - 3
        invariant
            instance.wf(),
            is_tour(p, instance.num_cities as nat),
            path@ == p,
            inst == *instance,
            n == p.len(),
            n >= 1,
            1 <= i,
            forall|a: int, b: int| a < i ==> !#[trigger] improving_swap(inst, p, a, b),
        decreases n - i,
    {
        let mut j: usize = i + 2;
        while j < n - 1
            invariant
                instance.wf(),
                is_tour(p, instance.num_cities as nat),
                path@ == p,
                inst == *instance,
                n == p.len(),
                1 <= i,
                i + 3 < n,
                i + 2 <= j,
                forall|a: int, b: int| a < i ==> !#[trigger] improving_swap(inst, p, a, b),
                forall|b: int| b < j ==> !#[trigger] improving_swap(inst, p, i as int, b),
            decreases n - j,
        {
            let d = &instance.distances;
            let current = d[path[i - 1]][path[i]] as i64 + d[path[i]][path[i + 1]] as i64
                + d[path[j - 1]][path[j]] as i64 + d[path[j]][path[j + 1]] as i64;
            let candidate = d[path[i - 1]][path[j]] as i64 + d[path[j]][path[i + 1]] as i64
                + d[path[j - 1]][path[i]] as i64 + d[path[i]][path[j + 1]] as i64;
            proof {
                let m = swap_move(p, i as int, j as int);
                assert(m[i - 1] == p[i - 1] && m[i as int] == p[j as int] && m[i + 1] == p[i + 1]
                    && m[j - 1] == p[j - 1] && m[j as int] == p[i as int] && m[j + 1] == p[j
                    + 1]);
            }
            if candidate < current {
                return Some((i, j));
            }
            j = j + 1;
        }
        i = i + 1;
    }
    None
}

/// 2-opt descent with first improvement: applies the first improving 2-opt move found by
/// a sweep over `(i, j)`, then sweeps again from the start, until no move improves. The
/// cached length is recomputed before returning.
pub fn local_search_2opt(solution: &mut Solution, instance: &Instance)
    requires
        instance.wf(),
        is_tour(old(solution).path@, instance.num_cities as nat),
    ensures
        final(solution).path@ == descent_2opt(*instance, old(solution).path@),
        is_tour(final(solution).path@, instance.num_cities as nat),
        final(solution).evaluated(*instance),
        is_2opt_optimal(*instance, final(solution).path@),
        tour_cost(*instance, final(solution).path@) <= tour_cost(*instance, old(solution).path@),
        !is_2opt_optimal(*instance, old(solution).path@) ==> tour_cost(
            *instance,
            final(solution).path@,
        ) < tour_cost(*instance, old(solution).path@),
        is_2opt_optimal(*instance, old(solution).path@) ==> final(solution).path@ == old(
            solution,
        ).path@,
        is_2opt_optimal(*instance, old(solution).path@) && old(solution).evaluated(*instance)
            ==> final(solution).total_distance == old(solution).total_distance,
{
    let ghost start = solution.path@;
    let ghost n = instance.num_cities as nat;
    loop
        invariant
            instance.wf(),
            is_tour(solution.path@, n),
            n == instance.num_cities,
            tour_cost(*instance, solution.path@) <= tour_cost(*instance, start),
            !is_2opt_optimal(*instance, start) && solution.path@ != start ==> tour_cost(
                *instance,
                solution.path@,
            ) < tour_cost(*instance, start),
            is_2opt_optimal(*instance, start) ==> solution.path@ == start,
            descent_2opt(*instance, solution.path@) == descent_2opt(*instance, start),
        ensures
            is_2opt_optimal(*instance, solution.path@),
            descent_2opt(*instance, solution.path@) == descent_2opt(*instance, start),
        decreases tour_cost(*instance, solution.path@),
    {
        match first_improving_2opt(&solution.path, instance) {
            None => {
                proof {
                    assert(!exists|a: int, b: int| first_2opt(*instance, solution.path@, a, b));
                }
                break;
            },
            Some((i, j)) => {
                let ghost before = solution.path@;
                reverse_segment(&mut solution.path, i, j);
                proof {
                    lemma_2opt_move_improves(*instance, before, i as int, j as int);
                    assert(first_2opt(*instance, before, i as int, j as int));
                    let (a, b) = choose|a: int, b: int| first_2opt(*instance, before, a, b);
                    lemma_first_2opt_unique(*instance, before, i as int, j as int, a, b);
                    lemma_two_opt_move_is_tour(before, n, i as int, j as int);
                    lemma_tour_cost_nonneg(*instance, solution.path@);
                }
            },
        }
    }
    solution.eval(instance);
}

/// Swap descent with first improvement: exchanges the first pair of non-adjacent cities
/// whose exchange shortens the four edges around them, then sweeps again from the start,
/// until no exchange improves. The cached length is recomputed before returning.
pub fn local_search_swap(solution: &mut Solution, instance: &Instance)
    requires
        instance.wf(),
        is_tour(old(solution).path@, instance.num_cities as nat),
    ensures
        final(solution).path@ == descent_swap(*instance, old(solution).path@),
        is_tour(final(solution).path@, instance.num_cities as nat),
        final(solution).evaluated(*instance),
        is_swap_optimal(*instance, final(solution).path@),
        tour_cost(*instance, final(solution).path@) <= tour_cost(*instance, old(solution).path@),
        !is_swap_optimal(*instance, old(solution).path@) ==> tour_cost(
            *instance,
            final(solution).path@,
        ) < tour_cost(*instance, old(solution).path@),
        is_swap_optimal(*instance, old(solution).path@) ==> final(solution).path@ == old(
            solution,
        ).path@,
        is_swap_optimal(*instance, old(solution).path@) && old(solution).evaluated(*instance)
            ==> final(solution).total_distance == old(solution).total_distance,
{
    let ghost start = solution.path@;
    let ghost n = instance.num_cities as nat;
    loop
        invariant
            instance.wf(),
            is_tour(solution.path@, n),
            n == instance.num_cities,
            tour_cost(*instance, solution.path@) <= tour_cost(*instance, start),
            !is_swap_optimal(*instance, start) && solution.path@ != start ==> tour_cost(
                *instance,
                solution.path@,
            ) < tour_cost(*instance, start),
            is_swap_optimal(*instance, start) ==> solution.path@ == start,
            descent_swap(*instance, solution.path@) == descent_swap(*instance, start),
        ensures
            is_swap_optimal(*instance, solution.path@),
            descent_swap(*instance, solution.path@) == descent_swap(*instance, start),
        decreases tour_cost(*instance, solution.path@),
    {
        match first_improving_swap(&solution.path, instance) {
            None => {
                proof {
                    assert(!exists|a: int, b: int| first_swap(*instance, solution.path@, a, b));
                }
                break;
            },
            Some((i, j)) => {
                let ghost before = solution.path@;
                swap_positions(&mut solution.path, i, j);
                proof {
                    lemma_swap_move_cost(*instance, before, i as int, j as int);
                    assert(first_swap(*instance, before, i as int, j as int));
                    let (a, b) = choose|a: int, b: int| first_swap(*instance, before, a, b);
                    lemma_first_swap_unique(*instance, before, i as int, j as int, a, b);
                    lemma_swap_move_is_tour(before, n, i as int, j as int);
                    lemma_tour_cost_nonneg(*instance, solution.path@);
                }
            },
        }
    }
    solution.eval(instance);
}

proof fn lemma_tour_cost_nonneg(inst: Instance, p: Seq<usize>)
    requires
        inst.wf(),
        is_tour(p, inst.num_cities as nat),
    ensures
        0 <= tour_cost(inst, p),
{
    crate::solution::lemma_tour_cost_bound(inst, p);
}

} // verus!
