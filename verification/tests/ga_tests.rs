use stripboard_autorouter::ga_core::{
    topo_sort, Organism, OrganismPair, Population, RandomIntGenerator, RATE_SCALE,
};
use stripboard_autorouter::ga_interface::GeneticAlgorithm;

fn is_permutation(order: &[usize], n: usize) -> bool {
    let mut seen = vec![false; n];
    for &v in order {
        if v >= n || seen[v] {
            return false;
        }
        seen[v] = true;
    }
    order.len() == n
}

#[test]
fn decode_follows_the_dependencies() {
    // Every connection depends on the one before it; connection 0 on itself.
    assert_eq!(topo_sort(&vec![0, 0, 1, 2]), vec![0, 1, 2, 3]);
    // A circle of two: the pair with the smaller dependency goes first.
    assert_eq!(topo_sort(&vec![1, 0]), vec![1, 0]);
    // Everything depends on the last connection, which depends on itself.
    assert_eq!(topo_sort(&vec![3, 3, 3, 3]), vec![0, 1, 2, 3]);
    assert_eq!(topo_sort(&vec![2, 2, 0]), vec![2, 0, 1]);
    assert_eq!(topo_sort(&vec![0]), vec![0]);
    assert_eq!(topo_sort(&Vec::new()), Vec::<usize>::new());
}

#[test]
fn decode_is_always_a_permutation() {
    let mut generator = RandomIntGenerator::new(7, 42);
    for _ in 0..200 {
        let genes: Vec<usize> = (0..7).map(|_| generator.get_random_int()).collect();
        let order = topo_sort(&genes);
        assert!(is_permutation(&order, 7), "{:?} -> {:?}", genes, order);
    }
}

#[test]
fn random_ints_stay_below_the_bound() {
    let mut generator = RandomIntGenerator::new(3, 1);
    let mut seen = [false; 3];
    for _ in 0..200 {
        let v = generator.get_random_int();
        assert!(v < 3);
        seen[v] = true;
    }
    assert_eq!(seen, [true, true, true]);
    let mut one = RandomIntGenerator::new(1, 5);
    assert_eq!(one.get_random_int(), 0);
}

#[test]
fn same_seed_gives_the_same_numbers() {
    let mut a = RandomIntGenerator::new(1000, 77);
    let mut b = RandomIntGenerator::new(1000, 77);
    let mut c = RandomIntGenerator::new(1000, 78);
    let va: Vec<usize> = (0..20).map(|_| a.get_random_int()).collect();
    let vb: Vec<usize> = (0..20).map(|_| b.get_random_int()).collect();
    let vc: Vec<usize> = (0..20).map(|_| c.get_random_int()).collect();
    assert_eq!(va, vb);
    assert_ne!(va, vc);
    let mut d = a.duplicate();
    assert_eq!(a.get_random_int(), d.get_random_int());
    assert_eq!(a.derive_seed(), d.derive_seed());
}

#[test]
fn organism_operations() {
    let mut o = Organism::new(5, 9);
    assert_eq!(o.gene_vec.len(), 0);
    o.create_random();
    assert_eq!(o.gene_vec.len(), 5);
    assert!(o.gene_vec.iter().all(|&g| g < 5));
    assert!(is_permutation(&o.calc_connection_idx_vec(), 5));
    assert!(o.get_random_crossover_point() < 5);
    o.set_gene(2, 4);
    assert_eq!(o.gene_vec[2], 4);
    let before = o.gene_vec.clone();
    o.mutate();
    let changed = before.iter().zip(o.gene_vec.iter()).filter(|(a, b)| a != b).count();
    assert!(changed <= 1);
    assert!(o.gene_vec.iter().all(|&g| g < 5));
    o.n_completed_routes = 3;
    o.completed_route_cost = 17;
    let copy = o.duplicate();
    assert_eq!(copy.gene_vec, o.gene_vec);
    assert_eq!(copy.n_completed_routes, 3);
    assert_eq!(copy.completed_route_cost, 17);
}

#[test]
fn crossing_swaps_the_tails() {
    let mut a = Organism::new(4, 1);
    let mut b = Organism::new(4, 2);
    a.gene_vec = vec![0, 1, 2, 3];
    b.gene_vec = vec![3, 2, 1, 0];
    let mut pair = OrganismPair::new(a, b);
    Population::cross_at(&mut pair, 1);
    assert_eq!(pair.a.gene_vec, vec![0, 2, 1, 0]);
    assert_eq!(pair.b.gene_vec, vec![3, 1, 2, 3]);
    Population::cross_at(&mut pair, 4);
    assert_eq!(pair.a.gene_vec, vec![0, 2, 1, 0]);
    Population::cross_at(&mut pair, 0);
    assert_eq!(pair.a.gene_vec, vec![3, 1, 2, 3]);
    assert_eq!(pair.b.gene_vec, vec![0, 2, 1, 0]);
}

#[test]
fn tournament_prefers_more_routes_then_lower_cost() {
    let mut p = Population::new(4, 0, 0, 3);
    p.reset(3);
    let fitness = [(1, 50), (2, 90), (2, 80), (0, 0)];
    for (i, &(n, c)) in fitness.iter().enumerate() {
        p.organism_vec[i].n_completed_routes = n;
        p.organism_vec[i].completed_route_cost = c;
    }
    assert_eq!(p.better_of(0, 1), 1);
    assert_eq!(p.better_of(1, 0), 1);
    assert_eq!(p.better_of(1, 2), 2);
    assert_eq!(p.better_of(2, 1), 2);
    assert_eq!(p.better_of(3, 3), 3);
    assert_eq!(p.tournament_winner(&vec![3, 0, 1, 2]), 2);
    assert_eq!(p.tournament_winner(&vec![3]), 3);
    assert_eq!(p.tournament_winner(&vec![0, 0]), 0);
    for _ in 0..50 {
        assert!(p.tournament_select(2) < 4);
        let pair = p.select_pair_tournament(2);
        assert_eq!(pair.a.gene_vec.len(), 3);
        assert_eq!(pair.b.gene_vec.len(), 3);
    }
    // With all four drawn often enough the best one wins.
    assert_eq!(p.tournament_select(200), 2);
}

#[test]
fn rates_of_zero_and_one() {
    // Without crossing and mutation every child is a copy of a parent.
    let mut p = Population::new(6, 0, 0, 11);
    p.reset(5);
    let parents: Vec<Vec<usize>> = p.organism_vec.iter().map(|o| o.gene_vec.clone()).collect();
    p.next_generation();
    assert_eq!(p.organism_vec.len(), 6);
    for child in &p.organism_vec {
        assert!(parents.contains(&child.gene_vec));
    }
    // With certain crossing and mutation the children still are organisms of the circuit.
    let mut q = Population::new(6, RATE_SCALE, RATE_SCALE, 11);
    q.reset(5);
    for _ in 0..5 {
        q.next_generation();
        assert_eq!(q.organism_vec.len(), 6);
        for child in &q.organism_vec {
            assert_eq!(child.gene_vec.len(), 5);
            assert!(child.gene_vec.iter().all(|&g| g < 5));
        }
    }
}

#[test]
fn reservation_follows_the_generations() {
    let mut ga = GeneticAlgorithm::new(4, 700_000, 10_000, 5);
    // Before a circuit is set nothing can be reserved.
    assert_eq!(ga.reserve_ordering(), None);
    ga.reset(3);
    assert_eq!(ga.n_unprocessed_orderings, 4);
    assert_eq!(ga.reserve_ordering(), Some(0));
    assert_eq!(ga.reserve_ordering(), Some(1));
    assert!(is_permutation(&ga.get_ordering(0), 3));
    ga.release_ordering(0, 2, 30);
    assert_eq!(ga.n_unprocessed_orderings, 3);
    assert_eq!(ga.population.organism_vec[0].n_completed_routes, 2);
    assert_eq!(ga.population.organism_vec[0].completed_route_cost, 30);
    assert_eq!(ga.reserve_ordering(), Some(2));
    assert_eq!(ga.reserve_ordering(), Some(3));
    // All handed out, three still unreleased: the caller has to wait.
    assert_eq!(ga.reserve_ordering(), None);
    assert_eq!(ga.next_ordering_idx, 4);
    ga.release_ordering(1, 1, 10);
    ga.release_ordering(2, 3, 40);
    assert_eq!(ga.reserve_ordering(), None);
    ga.release_ordering(3, 0, 0);
    assert_eq!(ga.n_unprocessed_orderings, 0);
    // The next reservation makes the next generation.
    assert_eq!(ga.reserve_ordering(), Some(0));
    assert_eq!(ga.n_unprocessed_orderings, 4);
    assert_eq!(ga.next_ordering_idx, 1);
    for i in 0..4 {
        assert!(is_permutation(&ga.get_ordering(i), 3));
    }
}

fn trace(seed: u64) -> Vec<Vec<usize>> {
    let mut ga = GeneticAlgorithm::new(4, 700_000, 10_000, seed);
    ga.reset(5);
    let mut orderings = Vec::new();
    for _generation in 0..3 {
        let mut reserved = Vec::new();
        while let Some(i) = ga.reserve_ordering() {
            reserved.push(i);
            if reserved.len() == 4 {
                break;
            }
        }
        for &i in &reserved {
            let order = ga.get_ordering(i);
            // A fitness that depends on the order alone.
            let completed = order.iter().position(|&c| c == 0).unwrap();
            let cost: usize = order.iter().enumerate().map(|(k, &c)| k * c).sum();
            orderings.push(order);
            ga.release_ordering(i, completed, cost);
        }
    }
    orderings
}

#[test]
fn fixed_seed_gives_identical_traces() {
    let a = trace(2024);
    let b = trace(2024);
    assert_eq!(a.len(), 12);
    assert_eq!(a, b);
    assert_ne!(a, trace(2025));
}

#[test]
fn fixed_seed_gives_the_recorded_orderings() {
    // Population of four, seed 2024, three generations on a circuit of five connections.
    let golden: Vec<Vec<usize>> = vec![
        vec![1, 4, 0, 2, 3],
        vec![2, 3, 0, 4, 1],
        vec![1, 2, 0, 3, 4],
        vec![1, 0, 3, 2, 4],
        vec![1, 0, 3, 2, 4],
        vec![1, 2, 0, 3, 4],
        vec![2, 3, 0, 4, 1],
        vec![1, 2, 0, 3, 4],
        vec![2, 3, 0, 4, 1],
        vec![1, 2, 0, 3, 4],
        vec![2, 3, 4, 0, 1],
        vec![1, 2, 0, 3, 4],
    ];
    assert_eq!(trace(2024), golden);
}

#[test]
fn certain_crossing_without_mutation() {
    let mut p = Population::new(4, RATE_SCALE, 0, 21);
    p.reset(6);
    let parents: Vec<Vec<usize>> = p.organism_vec.iter().map(|o| o.gene_vec.clone()).collect();
    p.next_generation();
    // Each pair of children has the genes of two parents with their tails exchanged.
    for pair in p.organism_vec.chunks(2) {
        let (ca, cb) = (&pair[0].gene_vec, &pair[1].gene_vec);
        let bred = parents.iter().any(|pa| {
            parents.iter().any(|pb| {
                (0..6).any(|k| {
                    let a: Vec<usize> = pa[..k].iter().chain(pb[k..].iter()).copied().collect();
                    let b: Vec<usize> = pb[..k].iter().chain(pa[k..].iter()).copied().collect();
                    &a == ca && &b == cb
                })
            })
        });
        assert!(bred, "{:?} {:?} from {:?}", ca, cb, parents);
    }
}

#[test]
fn certain_mutation_without_crossing() {
    let mut p = Population::new(4, 0, RATE_SCALE, 22);
    p.reset(6);
    let parents: Vec<Vec<usize>> = p.organism_vec.iter().map(|o| o.gene_vec.clone()).collect();
    p.next_generation();
    // Each child has the genes of a parent but for one gene at most.
    for child in &p.organism_vec {
        let near = parents
            .iter()
            .any(|pa| pa.iter().zip(child.gene_vec.iter()).filter(|(a, b)| a != b).count() <= 1);
        assert!(near);
    }
}
