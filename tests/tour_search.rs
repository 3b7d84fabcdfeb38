use grasp_tsp::cli::{Cli, GraspVariant};
use grasp_tsp::grasp::{
    constructive_phase, grasp_trial, min_difference, relink_pair, restricted_choice, symmetric_difference,
    update_elite_set, SearchError, SharedBest,
};
use grasp_tsp::instance::{Instance, InstanceError};
use grasp_tsp::local_search::{local_search_2opt, local_search_swap};
use grasp_tsp::solution::{index_of, Solution};

fn instance_of(rows: &[&[i32]]) -> Instance {
    Instance {
        num_cities: rows.len(),
        distances: rows.iter().map(|r| r.to_vec()).collect(),
    }
}

fn four_cities() -> Instance {
    instance_of(&[&[0, 1, 2, 3], &[1, 0, 4, 5], &[2, 4, 0, 6], &[3, 5, 6, 0]])
}

/// Cities on a line at the given positions; the distance is the gap between them.
fn line_instance(positions: &[i32]) -> Instance {
    let rows: Vec<Vec<i32>> = positions
        .iter()
        .map(|&a| positions.iter().map(|&b| (a - b).abs()).collect())
        .collect();
    Instance {
        num_cities: positions.len(),
        distances: rows,
    }
}

fn scattered(n: usize) -> Instance {
    let pts: Vec<(i64, i64)> = (0..n as i64)
        .map(|k| ((k * 37 + 11) % 101, (k * 53 + 7) % 97))
        .collect();
    let distances = pts
        .iter()
        .map(|a| {
            pts.iter()
                .map(|b| ((a.0 - b.0).abs() + (a.1 - b.1).abs()) as i32)
                .collect()
        })
        .collect();
    Instance {
        num_cities: n,
        distances,
    }
}

fn tour_of(path: Vec<usize>) -> Solution {
    Solution {
        path,
        total_distance: 0,
    }
}

fn cost(instance: &Instance, path: &[usize]) -> i32 {
    let n = path.len();
    (0..n)
        .map(|k| instance.distances[path[k]][path[(k + 1) % n]])
        .sum()
}

fn is_permutation(path: &[usize], n: usize) -> bool {
    let mut seen = vec![false; n];
    path.len() == n
        && path.iter().all(|&c| {
            if c >= n || seen[c] {
                false
            } else {
                seen[c] = true;
                true
            }
        })
}

fn permutations(n: usize) -> Vec<Vec<usize>> {
    if n == 0 {
        return vec![vec![]];
    }
    let mut out = vec![];
    for p in permutations(n - 1) {
        for k in 0..=p.len() {
            let mut q = p.clone();
            q.insert(k, n - 1);
            out.push(q);
        }
    }
    out
}

#[test]
fn constructed_tours_are_permutations() {
    for n in [1usize, 2, 3, 5, 10, 31] {
        let instance = scattered(n);
        for _ in 0..20 {
            let s = constructive_phase(&instance);
            assert!(is_permutation(&s.path, n));
            assert_eq!(s.total_distance, 0);
        }
    }
}

#[test]
fn construction_takes_the_nearest_when_the_list_has_one_city() {
    // With four cities, after the first one at most three remain, so the restricted
    // list holds exactly the nearest remaining city.
    let instance = line_instance(&[0, 100, 1, 103]);
    for _ in 0..30 {
        let s = constructive_phase(&instance);
        for k in 1..4 {
            let last = s.path[k - 1];
            let chosen = instance.distances[last][s.path[k]];
            for &other in &s.path[k..] {
                assert!(chosen <= instance.distances[last][other]);
            }
        }
    }
}

#[test]
fn evaluation_is_consistent() {
    let instance = scattered(12);
    let mut s = tour_of((0..12).rev().collect());
    s.eval(&instance);
    let first = s.total_distance;
    s.eval(&instance);
    assert_eq!(s.total_distance, first);
    assert_eq!(first, cost(&instance, &s.path));
}

#[test]
fn evaluation_exact_value() {
    let instance = four_cities();
    let mut s = tour_of(vec![0, 2, 1, 3]);
    s.eval(&instance);
    assert_eq!(s.total_distance, 2 + 4 + 5 + 3);
}

#[test]
fn two_opt_is_a_fixed_point() {
    let instance = scattered(20);
    let mut s = tour_of((0..20).collect());
    local_search_2opt(&mut s, &instance);
    let path = s.path.clone();
    let total = s.total_distance;
    local_search_2opt(&mut s, &instance);
    assert_eq!(s.path, path);
    assert_eq!(s.total_distance, total);
}

#[test]
fn two_opt_never_increases_the_cost() {
    let instance = scattered(25);
    for start in 0..5 {
        let path: Vec<usize> = (0..25).map(|k| (k * 7 + start) % 25).collect();
        let before = cost(&instance, &path);
        let mut s = tour_of(path);
        local_search_2opt(&mut s, &instance);
        assert!(s.total_distance <= before);
        assert_eq!(s.total_distance, cost(&instance, &s.path));
        assert!(is_permutation(&s.path, 25));
    }
}

#[test]
fn two_opt_untangles_a_crossing() {
    // On a line, the tour 0 2 1 3 crosses itself; reversing 2 1 gives the optimum.
    let instance = line_instance(&[0, 10, 20, 30]);
    let mut s = tour_of(vec![0, 2, 1, 3]);
    local_search_2opt(&mut s, &instance);
    assert_eq!(s.path, vec![0, 1, 2, 3]);
    assert_eq!(s.total_distance, 60);
}

#[test]
fn swap_improves_a_misplaced_pair() {
    let instance = line_instance(&[0, 10, 20, 30, 40, 50]);
    let mut s = tour_of(vec![0, 1, 4, 3, 2, 5]);
    local_search_swap(&mut s, &instance);
    assert_eq!(s.path, vec![0, 1, 2, 3, 4, 5]);
    assert_eq!(s.total_distance, 100);
}

#[test]
fn swap_never_increases_the_cost() {
    let instance = scattered(15);
    let path: Vec<usize> = (0..15).map(|k| (k * 4) % 15).collect();
    let before = cost(&instance, &path);
    let mut s = tour_of(path);
    local_search_swap(&mut s, &instance);
    assert!(s.total_distance <= before);
    assert_eq!(s.total_distance, cost(&instance, &s.path));
    assert!(is_permutation(&s.path, 15));
}

#[test]
fn four_city_local_search_reaches_fourteen() {
    let instance = four_cities();
    for p in permutations(4) {
        let mut a = tour_of(p.clone());
        local_search_2opt(&mut a, &instance);
        assert_eq!(a.total_distance, 14);
        let mut b = tour_of(p);
        local_search_swap(&mut b, &instance);
        assert_eq!(b.total_distance, 14);
    }
}

#[test]
fn single_city_instance() {
    let instance = instance_of(&[&[0]]);
    let mut s = constructive_phase(&instance);
    assert_eq!(s.path, vec![0]);
    s.eval(&instance);
    assert_eq!(s.total_distance, 0);
    local_search_2opt(&mut s, &instance);
    assert_eq!(s.path, vec![0]);
    assert_eq!(s.total_distance, 0);
    local_search_swap(&mut s, &instance);
    assert_eq!(s.total_distance, 0);
    let t = grasp_trial(&instance);
    assert_eq!(t.path, vec![0]);
    assert_eq!(t.total_distance, 0);
}

#[test]
fn two_city_instance() {
    let instance = instance_of(&[&[0, 7], &[7, 0]]);
    let t = grasp_trial(&instance);
    assert!(is_permutation(&t.path, 2));
    assert_eq!(t.total_distance, 14);
}

#[test]
fn symmetric_difference_counts_positions() {
    let a = tour_of(vec![0, 1, 2, 3, 4]);
    let b = tour_of(vec![0, 2, 1, 3, 4]);
    assert_eq!(symmetric_difference(&a, &b), 2);
    assert_eq!(symmetric_difference(&b, &a), 2);
    assert_eq!(symmetric_difference(&a, &a), 0);
    let c = tour_of(vec![4, 3, 2]);
    assert_eq!(symmetric_difference(&a, &c), 2);
}

fn evaluated(instance: &Instance, path: Vec<usize>) -> Solution {
    let mut s = tour_of(path);
    s.eval(instance);
    s
}

#[test]
fn elite_pool_rejects_a_near_duplicate() {
    let instance = line_instance(&[0, 10, 20, 30, 40]);
    let mut pool = vec![];
    let a = evaluated(&instance, vec![0, 2, 1, 3, 4]);
    let b = evaluated(&instance, vec![0, 1, 3, 2, 4]);
    update_elite_set(&mut pool, a.clone(), 2, 1);
    update_elite_set(&mut pool, b.clone(), 2, 1);
    assert_eq!(pool.len(), 2);
    // Cheaper than the worst member, but equal to the first one.
    let mut c = a.clone();
    c.total_distance = 0;
    update_elite_set(&mut pool, c, 2, 1);
    assert_eq!(pool.len(), 2);
    assert_eq!(pool[0].path, a.path);
    assert_eq!(pool[0].total_distance, a.total_distance);
    assert_eq!(pool[1].path, b.path);
}

#[test]
fn elite_pool_replaces_the_worst_member() {
    let instance = line_instance(&[0, 10, 20, 30, 40]);
    let mut pool = vec![];
    let a = evaluated(&instance, vec![0, 2, 1, 3, 4]); // 100
    let b = evaluated(&instance, vec![0, 3, 1, 2, 4]); // 120
    let c = evaluated(&instance, vec![0, 1, 2, 3, 4]); // 80
    let d = evaluated(&instance, vec![0, 4, 1, 2, 3]); // 120
    assert_eq!((a.total_distance, b.total_distance), (100, 120));
    assert_eq!((c.total_distance, d.total_distance), (80, 120));
    update_elite_set(&mut pool, a.clone(), 2, 2);
    update_elite_set(&mut pool, b.clone(), 2, 2);
    // At capacity: a candidate no shorter than the worst is discarded.
    update_elite_set(&mut pool, d, 2, 2);
    assert_eq!(pool[0].path, a.path);
    assert_eq!(pool[1].path, b.path);
    // A better one replaces the worst.
    update_elite_set(&mut pool, c.clone(), 2, 2);
    assert_eq!(pool.len(), 2);
    assert_eq!(pool[0].path, a.path);
    assert_eq!(pool[1].path, c.path);
}

#[test]
fn elite_pool_empty_takes_anything() {
    let mut pool = vec![];
    update_elite_set(&mut pool, tour_of(vec![0, 1]), 0, 100);
    assert_eq!(pool.len(), 1);
}

#[test]
fn elite_pool_stays_diverse() {
    let instance = scattered(20);
    let min_diff = min_difference(20);
    let mut pool = vec![];
    for _ in 0..60 {
        let s = grasp_trial(&instance);
        update_elite_set(&mut pool, s, 5, min_diff);
        assert!(pool.len() <= 5);
        for a in 0..pool.len() {
            for b in 0..pool.len() {
                if a != b {
                    assert!(symmetric_difference(&pool[a], &pool[b]) >= min_diff);
                }
            }
        }
    }
}

#[test]
fn min_difference_is_a_rounded_tenth() {
    assert_eq!(min_difference(0), 0);
    assert_eq!(min_difference(4), 0);
    assert_eq!(min_difference(5), 1);
    assert_eq!(min_difference(29), 3);
    assert_eq!(min_difference(127), 13);
    assert_eq!(min_difference(180), 18);
    assert_eq!(min_difference(185), 19);
}

#[test]
fn path_relinking_never_worsens_the_source() {
    let instance = scattered(18);
    for _ in 0..10 {
        let mut source = constructive_phase(&instance);
        source.eval(&instance);
        let target = grasp_trial(&instance);
        let before = source.total_distance;
        source.path_relinking(&target, &instance);
        assert!(source.total_distance <= before);
        assert!(is_permutation(&source.path, 18));
        assert_eq!(source.total_distance, cost(&instance, &source.path));
    }
}

#[test]
fn path_relinking_finds_the_better_target() {
    let instance = line_instance(&[0, 10, 20, 30, 40]);
    let mut source = evaluated(&instance, vec![0, 3, 1, 4, 2]);
    let target = evaluated(&instance, vec![0, 1, 2, 3, 4]);
    source.path_relinking(&target, &instance);
    assert_eq!(source.total_distance, 80);
}

#[test]
fn path_relinking_to_itself_changes_nothing() {
    let instance = scattered(9);
    let source = evaluated(&instance, vec![8, 0, 7, 1, 6, 2, 5, 3, 4]);
    let mut s = source.clone();
    s.path_relinking(&source, &instance);
    assert_eq!(s.path, source.path);
    assert_eq!(s.total_distance, source.total_distance);
}

#[test]
fn relinked_pair_is_locally_optimal_and_no_worse() {
    let instance = scattered(16);
    let a = grasp_trial(&instance);
    let b = grasp_trial(&instance);
    let r = relink_pair(&a, &b, &instance);
    assert!(r.total_distance <= a.total_distance);
    assert!(r.is_evaluated_tour(&instance));
    let mut again = r.clone();
    local_search_2opt(&mut again, &instance);
    assert_eq!(again.path, r.path);
}

#[test]
fn zero_budget_still_yields_a_tour() {
    let instance = scattered(10);
    let mut shared = SharedBest::new();
    let mut trials = 0;
    // The budget has run out before the first check.
    while shared.keep_running(true) {
        let s = grasp_trial(&instance);
        shared.try_publish(&s);
        trials += 1;
    }
    assert_eq!(trials, 1);
    let best = shared.into_best().unwrap();
    assert!(best.is_evaluated_tour(&instance));
    assert_eq!(best.total_distance, cost(&instance, &best.path));
}

#[test]
fn search_without_trials_reports_no_solution() {
    let shared = SharedBest::new();
    assert_eq!(shared.into_best().unwrap_err(), SearchError::NoSolution);
}

#[test]
fn shared_best_keeps_the_strictly_shorter() {
    let mut shared = SharedBest::new();
    assert_eq!(shared.best_cost(), None);
    let mut a = tour_of(vec![0, 1, 2]);
    a.total_distance = 50;
    assert!(shared.try_publish(&a));
    let mut b = tour_of(vec![2, 1, 0]);
    b.total_distance = 50;
    assert!(!shared.try_publish(&b));
    assert_eq!(shared.best.as_ref().unwrap().path, vec![0, 1, 2]);
    b.total_distance = 49;
    assert!(shared.try_publish(&b));
    assert_eq!(shared.best_cost(), Some(49));
    assert!(shared.keep_running(false));
    assert!(!shared.keep_running(true));
    assert!(!shared.keep_running(false));
    assert!(shared.stopped);
}

#[test]
fn instance_validity() {
    assert!(four_cities().is_valid());
    assert!(instance_of(&[&[0]]).is_valid());
    let empty = Instance {
        num_cities: 0,
        distances: vec![],
    };
    assert!(!empty.is_valid());
    assert!(!instance_of(&[&[0, 1], &[2, 0]]).is_valid());
    assert!(!instance_of(&[&[1, 1], &[1, 0]]).is_valid());
    assert!(!instance_of(&[&[0, -1], &[-1, 0]]).is_valid());
    let ragged = Instance {
        num_cities: 2,
        distances: vec![vec![0, 1], vec![1]],
    };
    assert!(!ragged.is_valid());
    let too_far = instance_of(&[&[0, i32::MAX / 2 + 1], &[i32::MAX / 2 + 1, 0]]);
    assert!(!too_far.is_valid());
    let just_fits = instance_of(&[&[0, i32::MAX / 2], &[i32::MAX / 2, 0]]);
    assert!(just_fits.is_valid());
    let mut s = tour_of(vec![0, 1]);
    s.eval(&just_fits);
    assert_eq!(s.total_distance, i32::MAX - 1);
}

#[test]
fn evaluated_tour_check() {
    let instance = four_cities();
    let good = evaluated(&instance, vec![3, 1, 0, 2]);
    assert!(good.is_evaluated_tour(&instance));
    let mut stale = good.clone();
    stale.total_distance += 1;
    assert!(!stale.is_evaluated_tour(&instance));
    assert!(!evaluated_unchecked(vec![0, 1, 1, 2]).is_evaluated_tour(&instance));
    assert!(!evaluated_unchecked(vec![0, 1, 2, 4]).is_evaluated_tour(&instance));
    assert!(!evaluated_unchecked(vec![0, 1, 2]).is_evaluated_tour(&instance));
}

fn evaluated_unchecked(path: Vec<usize>) -> Solution {
    Solution {
        path,
        total_distance: 0,
    }
}

#[test]
fn copy_and_new() {
    let mut s = tour_of(vec![2, 0, 1]);
    s.total_distance = 9;
    let c = s.copy();
    assert_eq!(c.path, s.path);
    assert_eq!(c.total_distance, 9);
    let e = Solution::new(5);
    assert!(e.path.is_empty());
    assert_eq!(e.total_distance, 0);
}

#[test]
fn index_of_finds_the_first() {
    assert_eq!(index_of(&vec![4, 7, 7, 1], 7), 1);
    assert_eq!(index_of(&vec![4, 7, 7, 1], 1), 3);
}

#[test]
fn variant_names() {
    assert_eq!(GraspVariant::Basic.name(), "Basic");
    assert_eq!(GraspVariant::StaticPR.name(), "StaticPR");
    assert_eq!(GraspVariant::Benchmark.name(), "Benchmark");
}

#[test]
fn default_flag_resets_the_run() {
    let mut cli = Cli {
        instance_file: "instances/bays29.txt".to_string(),
        time_limit: 5,
        variant: GraspVariant::StaticPR,
        elite_size: 4,
        default: true,
    };
    cli.apply_default();
    assert_eq!(cli.instance_file, "instances/bier127.tsp");
    assert_eq!(cli.time_limit, 120);
    assert_eq!(cli.variant, GraspVariant::Basic);
    assert_eq!(cli.elite_size, 4);

    let mut keep = Cli {
        instance_file: "x.tsp".to_string(),
        time_limit: 5,
        variant: GraspVariant::StaticPR,
        elite_size: 4,
        default: false,
    };
    keep.apply_default();
    assert_eq!(keep.instance_file, "x.tsp");
    assert_eq!(keep.time_limit, 5);
    assert_eq!(keep.variant, GraspVariant::StaticPR);
}

#[test]
fn restricted_choice_picks_by_rank() {
    // Distances from city 0: 1 -> 50, 2 -> 5, 3 -> 30, 4 -> 10, 5 -> 40, 6 -> 20.
    let instance = line_instance(&[0, 50, 5, 30, 10, 40, 20]);
    let remaining = vec![1, 2, 3, 4, 5, 6];
    // Six cities left: the list holds the two nearest, 2 and 4.
    assert_eq!(restricted_choice(&instance, 0, &remaining, 0), 2);
    assert_eq!(restricted_choice(&instance, 0, &remaining, 1), 4);
    assert_eq!(restricted_choice(&instance, 0, &remaining, 2), 2);
    assert_eq!(restricted_choice(&instance, 0, &remaining, 7), 4);
    // Four cities left: the two nearest are 6 (20) and 3 (30). One left: it is taken.
    let four = vec![5, 3, 1, 6];
    assert_eq!(restricted_choice(&instance, 0, &four, 0), 6);
    assert_eq!(restricted_choice(&instance, 0, &four, 1), 3);
    assert_eq!(restricted_choice(&instance, 0, &vec![5], 123), 5);
}

#[test]
fn full_matrix_is_padded_with_zeros() {
    let rows = vec![vec![0, 3, 4], vec![3, 0]];
    let instance = Instance::from_full_matrix(3, &rows).unwrap();
    assert_eq!(instance.num_cities, 3);
    assert_eq!(
        instance.distances,
        vec![vec![0, 3, 4], vec![3, 0, 0], vec![0, 0, 0]]
    );
    let rows = four_cities().distances;
    assert_eq!(Instance::from_full_matrix(4, &rows).unwrap().distances, rows);
}

#[test]
fn full_matrix_refuses_long_rows() {
    let long_row = vec![vec![0, 1, 2]];
    assert_eq!(
        Instance::from_full_matrix(2, &long_row).unwrap_err(),
        InstanceError::RowTooLong
    );
    let too_many = vec![vec![0], vec![0], vec![0]];
    assert_eq!(
        Instance::from_full_matrix(2, &too_many).unwrap_err(),
        InstanceError::RowTooLong
    );
}

#[test]
fn upper_row_fills_a_symmetric_matrix() {
    // Upper triangle of the four-city matrix, row by row.
    let values = vec![1, 2, 3, 4, 5, 6];
    let instance = Instance::from_upper_row(4, &values).unwrap();
    assert_eq!(instance.distances, four_cities().distances);
    assert!(instance.is_valid());
    // Missing values are zero.
    let short = Instance::from_upper_row(3, &vec![7]).unwrap();
    assert_eq!(short.distances, vec![vec![0, 7, 0], vec![7, 0, 0], vec![0, 0, 0]]);
    let single = Instance::from_upper_row(1, &vec![]).unwrap();
    assert_eq!(single.distances, vec![vec![0]]);
}

#[test]
fn upper_row_refuses_too_many_values() {
    assert_eq!(
        Instance::from_upper_row(3, &vec![1, 2, 3, 4]).unwrap_err(),
        InstanceError::TooManyValues
    );
    assert_eq!(
        Instance::from_upper_row(1, &vec![1]).unwrap_err(),
        InstanceError::TooManyValues
    );
    assert!(Instance::from_upper_row(3, &vec![1, 2, 3]).is_ok());
}
