use genetic::breeding::{
    carry_elite, crossover, mutate_population, recombine, reproduce, select, Individual,
};
use genetic::dna::{Chromosome, Dimension, DNA};
use genetic::ranking::{rank, FitnessRecord, Rate};

fn individual<const L: usize>(x: [u8; L], y: [u8; L], tag: u64) -> Individual<L> {
    let dna = DNA::new(Chromosome::from_bits(x).unwrap(), Chromosome::from_bits(y).unwrap());
    Individual { dna, tag }
}

fn bits_of<const L: usize>(one: &Individual<L>) -> ([u8; L], [u8; L]) {
    (one.dna.chromosome(Dimension::X).bits(), one.dna.chromosome(Dimension::Y).bits())
}

fn same<const L: usize>(a: &Individual<L>, b: &Individual<L>) -> bool {
    a.tag == b.tag && bits_of(a) == bits_of(b)
}

fn differing<const L: usize>(a: [u8; L], b: [u8; L]) -> usize {
    (0..L).filter(|i| a[*i] != b[*i]).count()
}

fn is_swap<const L: usize>(a0: [u8; L], b0: [u8; L], a1: [u8; L], b1: [u8; L]) -> bool {
    (1..L).any(|cut| {
        a1[..cut] == b0[..cut] && b1[..cut] == a0[..cut] && a1[cut..] == a0[cut..]
            && b1[cut..] == b0[cut..]
    })
}

fn sample_population() -> Vec<Individual<8>> {
    vec![
        individual([0, 0, 0, 0, 0, 0, 0, 0], [1, 1, 1, 1, 1, 1, 1, 1], 10),
        individual([1, 1, 1, 1, 1, 1, 1, 1], [0, 0, 0, 0, 0, 0, 0, 0], 11),
        individual([1, 0, 1, 0, 1, 0, 1, 0], [0, 1, 0, 1, 0, 1, 0, 1], 12),
        individual([1, 1, 0, 0, 1, 1, 0, 0], [0, 0, 1, 1, 0, 0, 1, 1], 13),
    ]
}

#[test]
fn crossover_swaps_the_prefix_of_one_dimension() {
    let a = individual([1, 1, 1, 1, 0, 0], [1, 0, 1, 0, 1, 0], 1);
    let b = individual([0, 0, 0, 0, 1, 1], [0, 1, 0, 1, 0, 1], 2);
    let mut first = a.dna;
    let mut second = b.dna;
    crossover(&mut first, &mut second, 2, Dimension::X);
    assert_eq!(first.chromosome(Dimension::X).bits(), [0, 0, 1, 1, 0, 0]);
    assert_eq!(second.chromosome(Dimension::X).bits(), [1, 1, 0, 0, 1, 1]);
    assert_eq!(first.chromosome(Dimension::Y).bits(), [1, 0, 1, 0, 1, 0]);
    assert_eq!(second.chromosome(Dimension::Y).bits(), [0, 1, 0, 1, 0, 1]);
    crossover(&mut first, &mut second, 5, Dimension::Y);
    assert_eq!(first.chromosome(Dimension::Y).bits(), [0, 1, 0, 1, 0, 0]);
    assert_eq!(second.chromosome(Dimension::Y).bits(), [1, 0, 1, 0, 1, 1]);
    assert_eq!(first.chromosome(Dimension::X).bits(), [0, 0, 1, 1, 0, 0]);
}

#[test]
fn crossover_at_the_ends_swaps_nothing_or_all() {
    let a = individual([1, 1, 1], [1, 1, 1], 1);
    let b = individual([0, 0, 0], [0, 0, 0], 2);
    let mut first = a.dna;
    let mut second = b.dna;
    crossover(&mut first, &mut second, 0, Dimension::X);
    assert_eq!(first.chromosome(Dimension::X).bits(), [1, 1, 1]);
    assert_eq!(second.chromosome(Dimension::X).bits(), [0, 0, 0]);
    crossover(&mut first, &mut second, 3, Dimension::X);
    assert_eq!(first.chromosome(Dimension::X).bits(), [0, 0, 0]);
    assert_eq!(second.chromosome(Dimension::X).bits(), [1, 1, 1]);
}

#[test]
fn carry_elite_shifts_the_population_by_one_slot() {
    let population = sample_population();
    let mut next = population.clone();
    let elite = individual([1; 8], [1; 8], 99);
    carry_elite(&mut next, elite);
    assert_eq!(next.len(), 4);
    assert!(same(&next[0], &elite));
    assert!(same(&next[1], &population[0]));
    assert!(same(&next[2], &population[1]));
    assert!(same(&next[3], &population[2]));
}

#[test]
fn carry_elite_into_a_population_of_one() {
    let mut next = vec![individual([0, 1], [1, 0], 1)];
    let elite = individual([1, 1], [0, 0], 2);
    carry_elite(&mut next, elite);
    assert_eq!(next.len(), 1);
    assert!(same(&next[0], &elite));
}

#[test]
fn select_copies_individuals_with_positive_fitness() {
    let population = sample_population();
    let records = rank(&vec![4, 0, 9, -2]);
    for _ in 0..20 {
        let chosen = select(&population, &records);
        assert_eq!(chosen.len(), population.len());
        for one in &chosen {
            assert!(same(one, &population[0]) || same(one, &population[2]));
        }
    }
}

#[test]
fn select_from_a_single_record_copies_its_individual() {
    let population = sample_population();
    let records = vec![FitnessRecord { index: 3, fitness: 1 }];
    let chosen = select(&population, &records);
    assert_eq!(chosen.len(), 4);
    assert!(chosen.iter().all(|one| same(one, &population[3])));
}

#[test]
fn select_follows_the_weights() {
    let population = sample_population();
    let records = vec![
        FitnessRecord { index: 0, fitness: 1_000_000 },
        FitnessRecord { index: 1, fitness: 1 },
    ];
    let mut first = 0;
    let mut drawn = 0;
    for _ in 0..50 {
        for one in select(&population, &records) {
            drawn += 1;
            if same(&one, &population[0]) {
                first += 1;
            }
        }
    }
    assert_eq!(drawn, 200);
    assert!(first >= 190);
}

#[test]
fn select_reaches_every_record() {
    let population = sample_population();
    let records = rank(&vec![5, 5, 5, 5]);
    let mut seen = [false; 4];
    for _ in 0..100 {
        for one in select(&population, &records) {
            for slot in 0..4 {
                if same(&one, &population[slot]) {
                    seen[slot] = true;
                }
            }
        }
    }
    assert_eq!(seen, [true; 4]);
}

#[test]
fn recombine_crosses_two_different_individuals() {
    let start = sample_population();
    for _ in 0..30 {
        let mut individuals = start.clone();
        recombine(&mut individuals);
        assert_eq!(individuals.len(), 4);
        for pair in 0..2 {
            let (a0, b0) = (&start[2 * pair], &start[2 * pair + 1]);
            let (a1, b1) = (&individuals[2 * pair], &individuals[2 * pair + 1]);
            assert_eq!(a1.tag, a0.tag);
            assert_eq!(b1.tag, b0.tag);
            assert!(is_swap(bits_of(a0).0, bits_of(b0).0, bits_of(a1).0, bits_of(b1).0));
            assert!(is_swap(bits_of(a0).1, bits_of(b0).1, bits_of(a1).1, bits_of(b1).1));
        }
    }
}

#[test]
fn recombine_mutates_two_copies_of_one_individual() {
    let twin = individual([1, 0, 1, 0, 1, 0, 1, 0], [0, 0, 0, 0, 1, 1, 1, 1], 7);
    for _ in 0..30 {
        let mut individuals = vec![twin, twin];
        recombine(&mut individuals);
        assert_eq!(individuals.len(), 2);
        for one in &individuals {
            assert_eq!(differing(bits_of(one).0, bits_of(&twin).0), 1);
            assert_eq!(differing(bits_of(one).1, bits_of(&twin).1), 1);
        }
    }
}

#[test]
fn recombine_tags_mutated_twins_afresh() {
    let twin = individual([1; 8], [0; 8], 7);
    let retagged = (0..8).any(|_| {
        let mut individuals = vec![twin, twin];
        recombine(&mut individuals);
        individuals[0].tag != individuals[1].tag
    });
    assert!(retagged);
}

#[test]
fn recombine_leaves_an_unpaired_slot_alone() {
    let start = sample_population();
    let mut individuals = start[..3].to_vec();
    recombine(&mut individuals);
    assert_eq!(individuals.len(), 3);
    assert!(same(&individuals[2], &start[2]));
}

#[test]
fn recombine_leaves_single_bit_chromosomes_uncrossed() {
    let a = individual([1], [0], 1);
    let b = individual([0], [1], 2);
    let mut individuals = vec![a, b];
    recombine(&mut individuals);
    assert!(same(&individuals[0], &a));
    assert!(same(&individuals[1], &b));
}

#[test]
fn recombine_of_nobody_is_nobody() {
    let mut individuals: Vec<Individual<8>> = Vec::new();
    recombine(&mut individuals);
    assert!(individuals.is_empty());
}

#[test]
fn a_mutation_rate_of_zero_changes_nobody() {
    let start = sample_population();
    for _ in 0..20 {
        let mut individuals = start.clone();
        mutate_population(&mut individuals, Rate { numerator: 0, denominator: 1 });
        assert_eq!(individuals.len(), start.len());
        for slot in 0..start.len() {
            assert!(same(&individuals[slot], &start[slot]));
        }
    }
}

#[test]
fn a_mutation_rate_of_one_changes_everybody() {
    let start = sample_population();
    for _ in 0..20 {
        let mut individuals = start.clone();
        mutate_population(&mut individuals, Rate { numerator: 1, denominator: 1 });
        assert_eq!(individuals.len(), start.len());
        for slot in 0..start.len() {
            assert_eq!(individuals[slot].tag, start[slot].tag);
            assert_eq!(differing(bits_of(&individuals[slot]).0, bits_of(&start[slot]).0), 1);
            assert_eq!(differing(bits_of(&individuals[slot]).1, bits_of(&start[slot]).1), 1);
        }
    }
}

#[test]
fn a_mutated_individual_has_one_bit_flipped_in_each_chromosome() {
    let start = sample_population();
    let mut changed = 0;
    let mut kept = 0;
    for _ in 0..100 {
        let mut individuals = start.clone();
        mutate_population(&mut individuals, Rate { numerator: 1, denominator: 2 });
        for slot in 0..start.len() {
            let x = differing(bits_of(&individuals[slot]).0, bits_of(&start[slot]).0);
            let y = differing(bits_of(&individuals[slot]).1, bits_of(&start[slot]).1);
            assert!((x, y) == (0, 0) || (x, y) == (1, 1));
            if x == 1 {
                changed += 1;
            } else {
                kept += 1;
            }
        }
    }
    assert!(changed > 100);
    assert!(kept > 100);
}

#[test]
fn mutation_reaches_every_locus() {
    let start = vec![individual([0; 4], [0; 4], 1)];
    let mut seen_x = [false; 4];
    let mut seen_y = [false; 4];
    for _ in 0..200 {
        let mut individuals = start.clone();
        mutate_population(&mut individuals, Rate { numerator: 1, denominator: 1 });
        let (x, y) = bits_of(&individuals[0]);
        for locus in 0..4 {
            seen_x[locus] |= x[locus] == 1;
            seen_y[locus] |= y[locus] == 1;
        }
    }
    assert_eq!(seen_x, [true; 4]);
    assert_eq!(seen_y, [true; 4]);
}

#[test]
fn reproduce_keeps_the_size_and_carries_the_fittest() {
    let population = sample_population();
    let fitness = vec![3, 8, 0, 8];
    let records = rank(&fitness);
    for _ in 0..30 {
        let next = reproduce(&population, &records, Rate { numerator: 1, denominator: 2 });
        assert_eq!(next.len(), population.len());
        assert!(same(&next[0], &population[1]));
        for one in &next {
            let (x, y) = bits_of(one);
            assert!(x.iter().chain(y.iter()).all(|bit| *bit <= 1));
        }
    }
}

#[test]
fn reproduce_from_one_parent_without_mutation() {
    let population = sample_population();
    let records = vec![FitnessRecord { index: 2, fitness: 6 }];
    let next = reproduce(&population, &records, Rate { numerator: 0, denominator: 1 });
    assert_eq!(next.len(), 4);
    assert!(same(&next[0], &population[2]));
    for one in &next[1..] {
        assert_eq!(differing(bits_of(one).0, bits_of(&population[2]).0), 1);
        assert_eq!(differing(bits_of(one).1, bits_of(&population[2]).1), 1);
    }
}

#[test]
fn random_individuals_are_well_formed() {
    for _ in 0..20 {
        let one = Individual::<16>::random();
        let (x, y) = bits_of(&one);
        assert!(x.iter().chain(y.iter()).all(|bit| *bit <= 1));
    }
}

#[test]
fn random_individuals_get_tags_of_their_own() {
    let first = Individual::<16>::random().tag;
    assert!((0..8).any(|_| Individual::<16>::random().tag != first));
}
