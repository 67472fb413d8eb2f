use genetic::dna::{Dimension, Ratio};
use genetic::ranking::Rate;
use genetic::train::{ConfigError, TrainError, Trainer, TrainerConfig};

fn rate(numerator: u64, denominator: u64) -> Rate {
    Rate { numerator, denominator }
}

fn config(population: usize, mutation: Rate, obsolete: Rate) -> TrainerConfig {
    TrainerConfig { population, mutation_rate: mutation, obsolete_rate: obsolete }
}

fn constant_one(_x: Ratio, _y: Ratio) -> i64 {
    1
}

fn constant_zero(_x: Ratio, _y: Ratio) -> i64 {
    0
}

fn closeness(x: Ratio, y: Ratio) -> i64 {
    let middle = (x.denominator / 2) as i64;
    let off_x = (x.numerator as i64 - middle).abs() >> 8;
    let off_y = (y.numerator as i64 - middle).abs() >> 8;
    (1 << 26) - off_x - off_y
}

#[test]
fn a_constant_positive_objective_never_fails() {
    for epoches in [1, 2, 5, 40] {
        let mut trainer = Trainer::<_, 32>::new(constant_one);
        assert_eq!(trainer.init(config(2, rate(0, 1), rate(0, 1))), Ok(()));
        let report = trainer.start(epoches).unwrap();
        assert_eq!(report.history.len(), epoches);
        assert_eq!(report.population.len(), 2);
        for (g, summary) in report.history.iter().enumerate() {
            assert_eq!(summary.generation, g + 1);
            assert_eq!(summary.best_fitness, 1);
            assert_eq!(summary.survivors, 2);
            assert_eq!(summary.parents, 2);
        }
    }
}

#[test]
fn an_objective_that_is_zero_everywhere_is_degenerate() {
    let mut trainer = Trainer::<_, 32>::new(constant_zero);
    assert_eq!(trainer.init(config(2, rate(0, 1), rate(0, 1))), Ok(()));
    let outcome = trainer.start(10);
    assert_eq!(outcome.unwrap_err(), TrainError::DegeneratePopulation { generation: 1 });
}

#[test]
fn a_negative_objective_is_degenerate() {
    let mut trainer = Trainer::<_, 32>::new(|_x: Ratio, _y: Ratio| -5i64);
    assert_eq!(trainer.init(config(10, rate(1, 100), rate(5, 100))), Ok(()));
    let outcome = trainer.train(3);
    assert_eq!(outcome.unwrap_err(), TrainError::DegeneratePopulation { generation: 1 });
}

#[test]
fn discarding_every_survivor_is_degenerate() {
    let mut trainer = Trainer::<_, 32>::new(constant_one);
    assert_eq!(trainer.init(config(4, rate(0, 1), rate(1, 1))), Ok(()));
    let outcome = trainer.start(3);
    assert_eq!(outcome.unwrap_err(), TrainError::DegeneratePopulation { generation: 1 });
}

#[test]
fn no_generations_leave_the_first_population() {
    let mut trainer = Trainer::<_, 32>::new(constant_zero);
    assert_eq!(trainer.init(config(6, rate(0, 1), rate(0, 1))), Ok(()));
    let report = trainer.start(0).unwrap();
    assert!(report.history.is_empty());
    assert_eq!(report.population.len(), 6);
}

#[test]
fn a_trainer_without_configuration_does_not_run() {
    let mut trainer = Trainer::<_, 32>::new(constant_one);
    assert_eq!(trainer.start(3).unwrap_err(), TrainError::NotConfigured);
    assert_eq!(trainer.train(0).unwrap_err(), TrainError::NotConfigured);
}

#[test]
fn an_empty_population_is_refused() {
    let mut trainer = Trainer::<_, 32>::new(constant_one);
    assert_eq!(
        trainer.init(config(0, rate(0, 1), rate(0, 1))),
        Err(ConfigError::PopulationEmpty)
    );
    assert_eq!(trainer.start(1).unwrap_err(), TrainError::NotConfigured);
}

#[test]
fn an_odd_population_is_refused() {
    let mut trainer = Trainer::<_, 32>::new(constant_one);
    assert_eq!(trainer.init(config(1, rate(0, 1), rate(0, 1))), Err(ConfigError::PopulationOdd));
    assert_eq!(trainer.init(config(99, rate(0, 1), rate(0, 1))), Err(ConfigError::PopulationOdd));
}

#[test]
fn a_rate_outside_zero_to_one_is_refused() {
    let mut trainer = Trainer::<_, 32>::new(constant_one);
    assert_eq!(trainer.init(config(2, rate(2, 1), rate(0, 1))), Err(ConfigError::RateOutOfRange));
    assert_eq!(trainer.init(config(2, rate(0, 1), rate(3, 2))), Err(ConfigError::RateOutOfRange));
    assert_eq!(trainer.init(config(2, rate(0, 0), rate(0, 1))), Err(ConfigError::RateOutOfRange));
    assert_eq!(trainer.init(config(2, rate(0, 1), rate(1, 0))), Err(ConfigError::RateOutOfRange));
}

#[test]
fn a_chromosome_without_bits_is_refused() {
    let mut trainer = Trainer::<_, 0>::new(constant_one);
    assert_eq!(
        trainer.init(config(2, rate(0, 1), rate(0, 1))),
        Err(ConfigError::ChromosomeEmpty)
    );
}

#[test]
fn a_chromosome_beyond_the_machine_word_is_refused() {
    let mut trainer = Trainer::<_, 65>::new(constant_one);
    assert_eq!(
        trainer.init(config(2, rate(0, 1), rate(0, 1))),
        Err(ConfigError::ChromosomeTooLong)
    );
    let mut trainer = Trainer::<_, 64>::new(constant_one);
    assert_eq!(trainer.init(config(2, rate(0, 1), rate(0, 1))), Ok(()));
}

#[test]
fn the_first_broken_rule_is_reported() {
    let mut trainer = Trainer::<_, 0>::new(constant_one);
    assert_eq!(
        trainer.init(config(0, rate(2, 1), rate(2, 1))),
        Err(ConfigError::ChromosomeEmpty)
    );
    let mut trainer = Trainer::<_, 8>::new(constant_one);
    assert_eq!(
        trainer.init(config(0, rate(2, 1), rate(2, 1))),
        Err(ConfigError::PopulationEmpty)
    );
    assert_eq!(
        trainer.init(config(3, rate(2, 1), rate(2, 1))),
        Err(ConfigError::PopulationOdd)
    );
}

#[test]
fn a_refused_configuration_leaves_the_accepted_one() {
    let mut trainer = Trainer::<_, 16>::new(constant_one);
    assert_eq!(trainer.init(config(4, rate(0, 1), rate(0, 1))), Ok(()));
    assert_eq!(trainer.init(config(3, rate(0, 1), rate(0, 1))), Err(ConfigError::PopulationOdd));
    let report = trainer.start(2).unwrap();
    assert_eq!(report.population.len(), 4);
}

#[test]
fn a_new_configuration_replaces_the_old() {
    let mut trainer = Trainer::<_, 16>::new(constant_one);
    assert_eq!(trainer.init(config(4, rate(0, 1), rate(0, 1))), Ok(()));
    assert_eq!(trainer.init(config(8, rate(1, 2), rate(1, 4))), Ok(()));
    let report = trainer.start(2).unwrap();
    assert_eq!(report.population.len(), 8);
    assert_eq!(report.history[0].survivors, 8);
    assert_eq!(report.history[0].parents, 6);
}

#[test]
fn the_population_keeps_its_size() {
    for population in [2, 4, 10, 100] {
        let mut trainer = Trainer::<_, 32>::new(closeness);
        assert_eq!(trainer.init(config(population, rate(1, 100), rate(5, 100))), Ok(()));
        for epoches in [1, 3, 10] {
            let report = trainer.start(epoches).unwrap();
            assert_eq!(report.population.len(), population);
            assert_eq!(report.history.len(), epoches);
        }
    }
}

#[test]
fn summaries_count_survivors_and_parents() {
    let mut trainer = Trainer::<_, 32>::new(closeness);
    assert_eq!(trainer.init(config(100, rate(1, 100), rate(5, 100))), Ok(()));
    let report = trainer.start(20).unwrap();
    for (g, summary) in report.history.iter().enumerate() {
        assert_eq!(summary.generation, g + 1);
        assert_eq!(summary.survivors, 100);
        assert_eq!(summary.parents, 95);
        assert!(summary.best_fitness > 0);
    }
}

#[test]
fn the_best_fitness_never_falls() {
    let mut trainer = Trainer::<_, 32>::new(closeness);
    assert_eq!(trainer.init(config(50, rate(1, 10), rate(1, 10))), Ok(()));
    let report = trainer.start(40).unwrap();
    for pair in report.history.windows(2) {
        assert!(pair[0].best_fitness <= pair[1].best_fitness);
    }
}

#[test]
fn the_fittest_of_the_last_generation_is_in_slot_zero() {
    let mut trainer = Trainer::<_, 32>::new(closeness);
    assert_eq!(trainer.init(config(20, rate(1, 10), rate(1, 10))), Ok(()));
    let report = trainer.start(15).unwrap();
    let (x, y) = report.population[0].dna.get_value();
    assert_eq!(closeness(x, y), report.history[14].best_fitness);
    for one in &report.population {
        let bits = one.dna.chromosome(Dimension::X).bits();
        assert!(bits.iter().all(|bit| *bit <= 1));
    }
}

#[test]
fn the_objective_sees_points_of_the_domain() {
    let checked = |x: Ratio, y: Ratio| -> i64 {
        assert_eq!(x.denominator, 255);
        assert_eq!(y.denominator, 255);
        assert!(x.numerator <= 255);
        assert!(y.numerator <= 255);
        1 + x.numerator as i64
    };
    let mut trainer = Trainer::<_, 8>::new(checked);
    assert_eq!(trainer.init(config(10, rate(1, 2), rate(1, 10))), Ok(()));
    let report = trainer.start(10).unwrap();
    assert!(report.history.iter().all(|summary| summary.best_fitness <= 256));
}

#[test]
fn evaluate_scores_slot_by_slot() {
    let trainer = Trainer::<_, 16>::new(closeness);
    let population: Vec<_> =
        (0..6).map(|_| genetic::breeding::Individual::<16>::random()).collect();
    let fitness = trainer.evaluate(&population);
    assert_eq!(fitness.len(), 6);
    for slot in 0..6 {
        let (x, y) = population[slot].dna.get_value();
        assert_eq!(fitness[slot], closeness(x, y));
    }
}

#[test]
fn search_finds_a_plain_maximum() {
    let mut trainer = Trainer::<_, 32>::new(closeness);
    assert_eq!(trainer.init(config(100, rate(1, 100), rate(5, 100))), Ok(()));
    let report = trainer.start(60).unwrap();
    let first = report.history[0].best_fitness;
    let last = report.history[59].best_fitness;
    assert!(last >= first);
    assert!(last > (1 << 26) - (1 << 23));
}

#[test]
fn populate_makes_the_configured_number_of_individuals() {
    let mut trainer = Trainer::<_, 16>::new(constant_one);
    assert!(trainer.populate().is_err());
    assert_eq!(trainer.init(config(12, rate(0, 1), rate(0, 1))), Ok(()));
    let population = trainer.populate().unwrap();
    assert_eq!(population.len(), 12);
    for one in &population {
        assert!(one.dna.chromosome(Dimension::X).bits().iter().all(|bit| *bit <= 1));
        assert!(one.dna.chromosome(Dimension::Y).bits().iter().all(|bit| *bit <= 1));
    }
}

#[test]
fn evolve_carries_the_fittest_into_slot_zero() {
    let mut trainer = Trainer::<_, 32>::new(closeness);
    assert_eq!(trainer.init(config(30, rate(1, 2), rate(1, 10))), Ok(()));
    let mut population = trainer.populate().unwrap();
    for generation in 1..=10 {
        let fitness = trainer.evaluate(&population);
        let best = *fitness.iter().max().unwrap();
        let first = fitness.iter().position(|score| *score == best).unwrap();
        let (next, summary) = trainer.evolve(&population, generation).unwrap();
        assert_eq!(summary.generation, generation);
        assert_eq!(summary.best_fitness, best);
        assert_eq!(summary.survivors, 30);
        assert_eq!(summary.parents, 27);
        assert_eq!(next.len(), 30);
        assert_eq!(next[0].tag, population[first].tag);
        for dimension in [Dimension::X, Dimension::Y] {
            assert_eq!(
                next[0].dna.chromosome(dimension).bits(),
                population[first].dna.chromosome(dimension).bits()
            );
        }
        population = next;
    }
}

#[test]
fn evolve_counts_only_positive_fitness() {
    let upper_half = |x: Ratio, _y: Ratio| -> i64 {
        if x.numerator > x.denominator / 2 {
            3
        } else {
            -3
        }
    };
    let mut trainer = Trainer::<_, 32>::new(upper_half);
    assert_eq!(trainer.init(config(40, rate(0, 1), rate(1, 2))), Ok(()));
    let population = trainer.populate().unwrap();
    let positive = trainer.evaluate(&population).iter().filter(|score| **score > 0).count();
    match trainer.evolve(&population, 1) {
        Ok((next, summary)) => {
            assert_eq!(summary.survivors, positive);
            assert_eq!(summary.parents, positive - positive / 2);
            assert_eq!(summary.best_fitness, 3);
            assert_eq!(next.len(), 40);
        }
        Err(error) => {
            assert_eq!(positive, 0);
            assert_eq!(error, TrainError::DegeneratePopulation { generation: 1 });
        }
    }
}

#[test]
fn evolve_names_the_degenerate_generation() {
    let mut trainer = Trainer::<_, 32>::new(constant_zero);
    assert_eq!(trainer.init(config(4, rate(0, 1), rate(0, 1))), Ok(()));
    let population = trainer.populate().unwrap();
    assert_eq!(
        trainer.evolve(&population, 17).unwrap_err(),
        TrainError::DegeneratePopulation { generation: 17 }
    );
}

#[test]
fn evolve_without_configuration_does_not_run() {
    let trainer = Trainer::<_, 32>::new(constant_one);
    assert_eq!(trainer.evolve(&Vec::new(), 1).unwrap_err(), TrainError::NotConfigured);
}
