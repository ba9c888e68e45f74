use tsp_ga::population::{dedup_tours, fresh_group};
use tsp_ga::ranking::lex_less;
use tsp_ga::{
    apply_overrides, breed_from_pop, config_for_cpus, configure, default_config, evolve, merge_era, next_generation,
    sort_pop_objectively, worker_rng, CityTable, Config, ConfigError, Creature, DistanceMap, InMode, Overrides,
    UNREACHABLE,
};

fn tour(v: &[u32]) -> Creature {
    Creature { cities: v.to_vec() }
}

fn is_permutation(c: &Creature, n: u32) -> bool {
    let mut s = c.cities.clone();
    s.sort();
    s == (0..n).collect::<Vec<u32>>()
}

/// Four cities on a unit square, in thousandths: sides 1000, diagonals 1414.
fn square() -> DistanceMap {
    let mut dm = DistanceMap::new(4);
    for a in 0..4u32 {
        for b in 0..4u32 {
            if a != b {
                let diagonal = (a + 2) % 4 == b;
                dm.set_cost(a, b, if diagonal { 1414 } else { 1000 });
            }
        }
    }
    dm
}

fn config_with(population: usize, workers: usize, eras: usize, generations: usize) -> Config {
    Config {
        eras,
        generations,
        population,
        worker_threads: workers,
        in_path: "cities.txt".to_string(),
        dist_path: String::new(),
        in_mode: InMode::DistMode,
        mutation_skip_one_in: 3,
    }
}

/// Runs the whole engine with workers one after another; returns the best cost
/// of each era and the final best tour.
fn run(config: &Config, dm: &DistanceMap, master_seed: u64) -> (Vec<u64>, Creature) {
    let n = dm.num_cities();
    let mut populations: Vec<Vec<Creature>> = Vec::new();
    let mut setup = worker_rng(master_seed, u64::MAX, 0);
    for _ in 0..config.worker_threads {
        populations.push(fresh_group(config.population, &mut setup, n));
    }
    let mut bests = Vec::new();
    let mut best = tour(&[]);
    for era in 0..config.eras {
        let mut outputs = Vec::new();
        for (w, p) in populations.iter().enumerate() {
            outputs.push(evolve(p, worker_rng(master_seed, era as u64, w as u64), dm, n, config));
        }
        let mut pad = worker_rng(master_seed, era as u64, u64::MAX);
        let merged = merge_era(&outputs, config.population, dm, &mut pad, n);
        bests.push(merged[0].fitness(dm));
        best = merged[0].clone();
        populations = (0..config.worker_threads).map(|_| merged.iter().map(|c| c.clone()).collect()).collect();
    }
    (bests, best)
}

#[test]
fn random_tours_are_permutations() {
    for seed in 0..20u64 {
        let mut rng = worker_rng(seed, 0, 0);
        let c = Creature::new_random(&mut rng, 10);
        assert!(is_permutation(&c, 10));
    }
}

#[test]
fn random_tours_are_shuffled() {
    let identity: Vec<u32> = (0..10).collect();
    let shuffled = (0..20u64).filter(|s| Creature::new_random(&mut worker_rng(*s, 0, 0), 10).cities != identity).count();
    assert!(shuffled > 0);
}

#[test]
fn random_tour_of_no_cities_is_empty() {
    let mut rng = worker_rng(1, 2, 3);
    assert!(Creature::new_random(&mut rng, 0).cities.is_empty());
}

#[test]
fn crossover_copies_wrapped_slice_then_fills_from_other() {
    let a = tour(&[0, 1, 2, 3, 4]);
    let b = tour(&[4, 3, 2, 1, 0]);
    assert_eq!(a.crossover_at(&b, 3, 3).cities, vec![3, 4, 0, 2, 1]);
}

#[test]
fn crossover_with_no_slice_copies_other() {
    let a = tour(&[0, 1, 2, 3, 4]);
    let b = tour(&[2, 4, 1, 0, 3]);
    assert_eq!(a.crossover_at(&b, 2, 0).cities, vec![2, 4, 1, 0, 3]);
}

#[test]
fn crossover_with_full_slice_rotates_first_parent() {
    let a = tour(&[0, 1, 2, 3, 4]);
    let b = tour(&[2, 4, 1, 0, 3]);
    assert_eq!(a.crossover_at(&b, 2, 5).cities, vec![2, 3, 4, 0, 1]);
}

#[test]
fn bred_children_are_permutations() {
    let mut rng = worker_rng(7, 0, 0);
    for _ in 0..50 {
        let a = Creature::new_random(&mut rng, 12);
        let b = Creature::new_random(&mut rng, 12);
        let c = a.breed_with(&b, &mut rng, 12);
        assert!(is_permutation(&c, 12));
    }
}

#[test]
fn breeding_from_a_group_gives_permutations() {
    let mut rng = worker_rng(8, 0, 0);
    let group = fresh_group(2, &mut rng, 6);
    for _ in 0..20 {
        assert!(is_permutation(&breed_from_pop(&group, &mut rng, 6), 6));
    }
}

#[test]
fn swapping_twice_restores_tour() {
    let mut c = tour(&[3, 0, 4, 1, 2]);
    c.swap_cities(1, 3);
    assert_eq!(c.cities, vec![3, 1, 4, 0, 2]);
    c.swap_cities(1, 3);
    assert_eq!(c.cities, vec![3, 0, 4, 1, 2]);
}

#[test]
fn mutation_keeps_permutation_and_moves_at_most_two() {
    let mut rng = worker_rng(9, 0, 0);
    for _ in 0..50 {
        let before = Creature::new_random(&mut rng, 8);
        let mut after = before.clone();
        after.mutate(&mut rng, 8);
        assert!(is_permutation(&after, 8));
        let moved = before.cities.iter().zip(after.cities.iter()).filter(|(x, y)| x != y).count();
        assert!(moved == 0 || moved == 2);
    }
}

#[test]
fn fitness_of_square_tours() {
    let dm = square();
    assert_eq!(tour(&[0, 1, 2, 3]).fitness(&dm), 4000);
    assert_eq!(tour(&[0, 2, 1, 3]).fitness(&dm), 4828);
    assert_eq!(tour(&[3, 2, 1, 0]).fitness(&dm), 4000);
}

#[test]
fn fitness_with_missing_leg_is_unreachable() {
    let mut dm = DistanceMap::new(3);
    dm.set_cost(0, 1, 5);
    dm.set_cost(1, 2, 6);
    assert_eq!(tour(&[0, 1, 2]).fitness(&dm), UNREACHABLE);
    dm.set_cost(2, 0, 7);
    assert_eq!(tour(&[0, 1, 2]).fitness(&dm), 18);
    assert_eq!(tour(&[]).fitness(&dm), 0);
}

#[test]
fn distance_map_ignores_pairs_outside() {
    let mut dm = DistanceMap::new(2);
    dm.set_cost(0, 5, 3);
    dm.set_cost(1, 0, 4);
    assert_eq!(dm.cost(0, 5), None);
    assert_eq!(dm.cost(1, 0), Some(4));
    assert_eq!(dm.cost(0, 1), None);
    assert_eq!(dm.num_cities(), 2);
}

#[test]
fn lexicographic_order() {
    assert!(lex_less(&vec![0, 1, 2], &vec![0, 2, 1]));
    assert!(!lex_less(&vec![0, 2, 1], &vec![0, 1, 2]));
    assert!(!lex_less(&vec![0, 1, 2], &vec![0, 1, 2]));
    assert!(lex_less(&vec![0, 1], &vec![0, 1, 2]));
}

#[test]
fn sort_ranks_by_cost_then_sequence() {
    let dm = square();
    let mut pop = vec![tour(&[0, 2, 1, 3]), tour(&[1, 2, 3, 0]), tour(&[0, 1, 2, 3])];
    sort_pop_objectively(&mut pop, &dm);
    let got: Vec<Vec<u32>> = pop.iter().map(|c| c.cities.clone()).collect();
    assert_eq!(got, vec![vec![0, 1, 2, 3], vec![1, 2, 3, 0], vec![0, 2, 1, 3]]);
}

#[test]
fn sorting_same_tours_in_any_order_agrees() {
    let dm = square();
    let mut rng = worker_rng(11, 0, 0);
    let pop = fresh_group(12, &mut rng, 4);
    let mut a: Vec<Creature> = pop.iter().map(|c| c.clone()).collect();
    let mut b: Vec<Creature> = pop.iter().rev().map(|c| c.clone()).collect();
    sort_pop_objectively(&mut a, &dm);
    sort_pop_objectively(&mut b, &dm);
    let ta: Vec<Vec<u32>> = a.iter().map(|c| c.cities.clone()).collect();
    let tb: Vec<Vec<u32>> = b.iter().map(|c| c.cities.clone()).collect();
    assert_eq!(ta, tb);
}

#[test]
fn dedup_keeps_one_of_each_run() {
    let pop = vec![tour(&[0, 1]), tour(&[0, 1]), tour(&[1, 0]), tour(&[1, 0]), tour(&[1, 0]), tour(&[0, 1])];
    let got: Vec<Vec<u32>> = dedup_tours(&pop).iter().map(|c| c.cities.clone()).collect();
    assert_eq!(got, vec![vec![0, 1], vec![1, 0], vec![0, 1]]);
}

#[test]
fn merge_truncates_to_best() {
    let dm = square();
    let outputs = vec![
        vec![tour(&[0, 2, 1, 3]), tour(&[0, 1, 2, 3])],
        vec![tour(&[0, 1, 2, 3]), tour(&[1, 2, 3, 0]), tour(&[0, 1, 3, 2])],
    ];
    let mut rng = worker_rng(1, 0, 0);
    let merged = merge_era(&outputs, 2, &dm, &mut rng, 4);
    let got: Vec<Vec<u32>> = merged.iter().map(|c| c.cities.clone()).collect();
    assert_eq!(got, vec![vec![0, 1, 2, 3], vec![1, 2, 3, 0]]);
}

#[test]
fn merge_pads_after_heavy_dedup() {
    let dm = square();
    let outputs = vec![vec![tour(&[0, 1, 2, 3]), tour(&[0, 1, 2, 3])], vec![tour(&[0, 1, 2, 3])]];
    let mut rng = worker_rng(2, 0, 0);
    let merged = merge_era(&outputs, 5, &dm, &mut rng, 4);
    assert_eq!(merged.len(), 5);
    assert_eq!(merged[0].cities, vec![0, 1, 2, 3]);
    assert!(merged.iter().all(|c| is_permutation(c, 4)));
}

#[test]
fn merge_of_exact_size_keeps_all() {
    let dm = square();
    let outputs = vec![vec![tour(&[0, 2, 1, 3]), tour(&[0, 1, 2, 3])]];
    let mut rng = worker_rng(3, 0, 0);
    let merged = merge_era(&outputs, 2, &dm, &mut rng, 4);
    let got: Vec<Vec<u32>> = merged.iter().map(|c| c.cities.clone()).collect();
    assert_eq!(got, vec![vec![0, 1, 2, 3], vec![0, 2, 1, 3]]);
}

#[test]
fn generation_keeps_better_half() {
    let dm = square();
    let mut rng = worker_rng(4, 0, 0);
    let start = fresh_group(8, &mut rng, 4);
    let mut ranked: Vec<Creature> = start.iter().map(|c| c.clone()).collect();
    sort_pop_objectively(&mut ranked, &dm);
    let mut pop: Vec<Creature> = start.iter().map(|c| c.clone()).collect();
    next_generation(&mut pop, &dm, &mut rng, 4, 3);
    assert_eq!(pop.len(), 8);
    for k in 0..4 {
        assert_eq!(pop[k].cities, ranked[k].cities);
    }
    assert!(pop.iter().all(|c| is_permutation(c, 4)));
}

#[test]
fn evolve_without_generations_copies() {
    let dm = square();
    let mut rng = worker_rng(5, 0, 0);
    let start = fresh_group(6, &mut rng, 4);
    let out = evolve(&start, worker_rng(5, 1, 0), &dm, 4, &config_with(6, 1, 1, 0));
    let a: Vec<Vec<u32>> = start.iter().map(|c| c.cities.clone()).collect();
    let b: Vec<Vec<u32>> = out.iter().map(|c| c.cities.clone()).collect();
    assert_eq!(a, b);
}

#[test]
fn evolve_keeps_population_size() {
    let dm = square();
    let mut rng = worker_rng(6, 0, 0);
    let start = fresh_group(10, &mut rng, 4);
    let out = evolve(&start, worker_rng(6, 1, 0), &dm, 4, &config_with(10, 1, 1, 5));
    assert_eq!(out.len(), 10);
    assert!(out.iter().all(|c| is_permutation(c, 4)));
}

#[test]
fn square_converges_to_perimeter() {
    let dm = square();
    let (bests, best) = run(&config_with(8, 2, 10, 10), &dm, 42);
    assert_eq!(*bests.last().unwrap(), 4000);
    assert!(is_permutation(&best, 4));
}

#[test]
fn same_seed_gives_same_run() {
    let mut dm = DistanceMap::new(7);
    for a in 0..7u32 {
        for b in 0..7u32 {
            dm.set_cost(a, b, (a * 7 + b * 3) % 11 + 1);
        }
    }
    let config = config_with(10, 3, 4, 6);
    let (first, _) = run(&config, &dm, 99);
    let (second, _) = run(&config, &dm, 99);
    assert_eq!(first, second);
}

fn no_overrides() -> Overrides {
    Overrides {
        input_path: None,
        dist_path: None,
        coord_mode: false,
        worker_threads: None,
        eras: None,
        generations: None,
        population: None,
    }
}

#[test]
fn population_of_two_is_rejected() {
    let mut args = no_overrides();
    args.population = Some(2);
    assert!(matches!(configure(config_with(50, 1, 1, 1), args), Err(ConfigError::PopulationTooSmall)));
}

#[test]
fn population_of_three_is_rejected_and_four_accepted() {
    let mut args = no_overrides();
    args.population = Some(3);
    assert!(matches!(configure(config_with(50, 1, 1, 1), args), Err(ConfigError::PopulationTooSmall)));
    let mut args = no_overrides();
    args.population = Some(4);
    assert_eq!(configure(config_with(50, 1, 1, 1), args).ok().unwrap().population, 4);
}

#[test]
fn zero_workers_are_rejected() {
    let mut args = no_overrides();
    args.worker_threads = Some(0);
    assert!(matches!(configure(config_with(50, 1, 1, 1), args), Err(ConfigError::NoWorkers)));
}

#[test]
fn missing_input_path_is_rejected() {
    let mut base = config_with(50, 1, 1, 1);
    base.in_path = String::new();
    assert!(matches!(configure(base, no_overrides()), Err(ConfigError::MissingInputPath)));
    let mut base = config_with(50, 1, 1, 1);
    base.in_path = String::new();
    let mut args = no_overrides();
    args.input_path = Some("d.txt".to_string());
    assert_eq!(configure(base, args).ok().unwrap().in_path, "d.txt");
}

#[test]
fn overrides_replace_given_settings_only() {
    let mut args = no_overrides();
    args.eras = Some(7);
    args.coord_mode = true;
    args.dist_path = Some("out.txt".to_string());
    let c = apply_overrides(config_with(50, 2, 1, 9), args);
    assert_eq!(c.eras, 7);
    assert_eq!(c.generations, 9);
    assert_eq!(c.population, 50);
    assert_eq!(c.worker_threads, 2);
    assert_eq!(c.in_mode, InMode::CoordMode);
    assert_eq!(c.dist_path, "out.txt");
    assert_eq!(c.in_path, "cities.txt");
}

#[test]
fn defaults() {
    let c = default_config();
    assert_eq!((c.eras, c.generations, c.population), (100, 100, 50));
    assert!(c.worker_threads >= 1);
    assert_eq!(c.in_mode, InMode::DistMode);
    assert!(c.in_path.is_empty());
    assert_eq!(c.mutation_skip_one_in, 3);
}

#[test]
fn no_mutation_when_skip_weight_is_one() {
    let mut dm = DistanceMap::new(6);
    for x in 0..6u32 {
        for y in 0..6u32 {
            dm.set_cost(x, y, 1);
        }
    }
    let mut rng = worker_rng(12, 0, 0);
    for _ in 0..10 {
        let mut pop = vec![tour(&[5, 4, 3, 2, 1, 0]), tour(&[0, 1, 2, 3, 4, 5]), tour(&[3, 1, 5, 0, 2, 4]), tour(&[1, 0, 3, 2, 5, 4])];
        next_generation(&mut pop, &dm, &mut rng, 6, 1);
        let group = [tour(&[0, 1, 2, 3, 4, 5]), tour(&[1, 0, 3, 2, 5, 4])];
        assert_eq!(pop[0].cities, group[0].cities);
        assert_eq!(pop[1].cities, group[1].cities);
        for child in &pop[2..] {
            let mut found = false;
            for (i, j) in [(0, 1), (1, 0)] {
                for offset in 0..6 {
                    for count in 0..=6 {
                        if group[i].crossover_at(&group[j], offset, count).cities == child.cities {
                            found = true;
                        }
                    }
                }
            }
            assert!(found);
        }
    }
}

#[test]
fn merge_ignores_worker_order() {
    let dm = square();
    let mut rng = worker_rng(13, 0, 0);
    let a = fresh_group(6, &mut rng, 4);
    let b = fresh_group(6, &mut rng, 4);
    let copy = |p: &Vec<Creature>| p.iter().map(|c| c.clone()).collect::<Vec<Creature>>();
    let first = merge_era(&vec![copy(&a), copy(&b)], 3, &dm, &mut worker_rng(1, 1, 1), 4);
    let second = merge_era(&vec![copy(&b), copy(&a)], 3, &dm, &mut worker_rng(1, 1, 1), 4);
    let t1: Vec<Vec<u32>> = first.iter().map(|c| c.cities.clone()).collect();
    let t2: Vec<Vec<u32>> = second.iter().map(|c| c.cities.clone()).collect();
    assert_eq!(t1, t2);
}

#[test]
fn dedup_of_ranked_population_leaves_each_tour_once() {
    let dm = square();
    let mut rng = worker_rng(14, 0, 0);
    let mut pop = fresh_group(40, &mut rng, 4);
    sort_pop_objectively(&mut pop, &dm);
    let d = dedup_tours(&pop);
    let tours: Vec<Vec<u32>> = d.iter().map(|c| c.cities.clone()).collect();
    for (i, t) in tours.iter().enumerate() {
        assert!(!tours[i + 1..].contains(t));
    }
    for c in &pop {
        assert!(tours.contains(&c.cities));
    }
}

#[test]
fn city_names_keep_their_first_identifier() {
    let mut t = CityTable::new();
    assert_eq!(t.intern("Lyon".to_string()), Some(0));
    assert_eq!(t.intern("Nantes".to_string()), Some(1));
    assert_eq!(t.intern("Lyon".to_string()), Some(0));
    assert_eq!(t.intern("Brest".to_string()), Some(2));
    assert_eq!(t.len(), 3);
    assert_eq!(t.name_of(1), Some("Nantes".to_string()));
    assert_eq!(t.name_of(2), Some("Brest".to_string()));
    assert_eq!(t.name_of(3), None);
}

#[test]
fn empty_city_table() {
    let t = CityTable::new();
    assert_eq!(t.len(), 0);
    assert_eq!(t.name_of(0), None);
}

#[test]
fn default_workers_follow_processor_count() {
    assert_eq!(config_for_cpus(1).worker_threads, 1);
    assert_eq!(config_for_cpus(2).worker_threads, 1);
    assert_eq!(config_for_cpus(8).worker_threads, 7);
    let c = config_for_cpus(4);
    assert_eq!((c.eras, c.generations, c.population, c.mutation_skip_one_in), (100, 100, 50, 3));
    assert!(c.in_path.is_empty() && c.dist_path.is_empty());
    assert_eq!(c.in_mode, InMode::DistMode);
}

#[test]
fn worker_generators_repeat_by_seed_and_differ_by_worker() {
    let a = Creature::new_random(&mut worker_rng(5, 2, 1), 30);
    let b = Creature::new_random(&mut worker_rng(5, 2, 1), 30);
    let c = Creature::new_random(&mut worker_rng(5, 2, 2), 30);
    assert_eq!(a.cities, b.cities);
    assert_ne!(a.cities, c.cities);
}

#[test]
fn evolve_never_loses_best_tour() {
    let dm = square();
    let mut rng = worker_rng(15, 0, 0);
    let mut start = fresh_group(6, &mut rng, 4);
    start[5] = tour(&[2, 3, 0, 1]);
    let out = evolve(&start, worker_rng(15, 1, 0), &dm, 4, &config_with(6, 1, 1, 7));
    assert_eq!(out[0].fitness(&dm), 4000);
}
