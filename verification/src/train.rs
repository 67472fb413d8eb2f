//! The evolution engine: configuration, the generational loop and what it
//! reports.

use crate::bits::max_value;
use crate::breeding::{all_wf, bred_from, reproduce, Individual};
use crate::dna::Ratio;
use crate::ranking::{
    count_positive, discard_weakest, is_ranking, lemma_count_positive, lemma_ranking_head_is_best,
    rank, records_survivor, FitnessRecord, Rate,
};
use vstd::prelude::*;

verus! {

/// The settings of a run.
#[derive(Clone, Copy, Debug, PartialEq, Eq, Structural)]
pub struct TrainerConfig {
    /// The number of individuals, the same in every generation.
    pub population: usize,
    /// The chance that an individual is mutated in a generation.
    pub mutation_rate: Rate,
    /// The share of the individuals with positive fitness that is discarded
    /// before reproduction.
    pub obsolete_rate: Rate,
}

/// Why a configuration is refused.
#[derive(Clone, Copy, Debug, PartialEq, Eq, Structural)]
pub enum ConfigError {
    /// A chromosome has no bits.
    ChromosomeEmpty,
    /// A chromosome has more than 64 bits, so that what it decodes to does
    /// not fit the machine's integers.
    ChromosomeTooLong,
    /// The population has no individuals.
    PopulationEmpty,
    /// The population cannot be split into pairs.
    PopulationOdd,
    /// A rate is not a ratio between 0 and 1.
    RateOutOfRange,
}

/// Why a run ended early.
#[derive(Clone, Copy, Debug, PartialEq, Eq, Structural)]
pub enum TrainError {
    /// The trainer was never given a configuration that it accepted.
    NotConfigured,
    /// In the named generation, counted from 1, nobody was left to select
    /// parents from: no individual had a positive fitness, or all that had
    /// were discarded.
    DegeneratePopulation { generation: usize },
}

/// What one generation looked like.
#[derive(Clone, Copy, Debug, PartialEq, Eq, Structural)]
pub struct GenerationSummary {
    /// The number of the generation, counted from 1.
    pub generation: usize,
    /// How many individuals had a positive fitness.
    pub survivors: usize,
    /// How many of those were kept as candidates for selection.
    pub parents: usize,
    /// The greatest fitness in the generation.
    pub best_fitness: i64,
}

/// What a run leaves behind.
#[derive(Debug)]
pub struct TrainingReport<const L: usize> {
    /// One summary for each generation, in order.
    pub history: Vec<GenerationSummary>,
    /// The population after the last generation. Once a generation has
    /// run, slot 0 holds the fittest individual of the last one.
    pub population: Vec<Individual<L>>,
}

impl TrainerConfig {
    /// The first rule that the configuration breaks for chromosomes of the
    /// given length, if it breaks one.
    pub open spec fn fault(&self, chromosome_length: nat) -> Option<ConfigError> {
        if chromosome_length == 0 {
            Some(ConfigError::ChromosomeEmpty)
        } else if chromosome_length > 64 {
            Some(ConfigError::ChromosomeTooLong)
        } else if self.population == 0 {
            Some(ConfigError::PopulationEmpty)
        } else if self.population % 2 == 1 {
            Some(ConfigError::PopulationOdd)
        } else if !self.mutation_rate.valid() || !self.obsolete_rate.valid() {
            Some(ConfigError::RateOutOfRange)
        } else {
            None
        }
    }
}

/// A genetic search for the maximizer of `target_func`, which scores the
/// point that a genotype decodes to. Higher is better, and a score that is
/// not positive bars an individual from reproduction.
pub struct Trainer<T, const L: usize> where T: Fn(Ratio, Ratio) -> i64 {
    target_func: T,
    initialized: bool,
    population: usize,
    mutation_rate: Rate,
    obsolete_rate: Rate,
}

impl<T, const L: usize> Trainer<T, L> where T: Fn(Ratio, Ratio) -> i64 {
    /// A trainer holds a configuration only if that configuration breaks no
    /// rule.
    #[verifier::type_invariant]
    spec fn holds_valid_config(self) -> bool {
        self.initialized ==> self.config().fault(L as nat) is None
    }

    /// The function that is maximized.
    pub closed spec fn objective(&self) -> T {
        self.target_func
    }

    /// Whether the trainer holds a configuration.
    pub closed spec fn is_initialized(&self) -> bool {
        self.initialized
    }

    /// The configuration that the trainer holds.
    pub closed spec fn config(&self) -> TrainerConfig {
        TrainerConfig {
            population: self.population,
            mutation_rate: self.mutation_rate,
            obsolete_rate: self.obsolete_rate,
        }
    }

    /// A point that chromosomes of `L` bits can decode to.
    pub open spec fn in_domain(x: Ratio, y: Ratio) -> bool {
        &&& x.numerator <= x.denominator == max_value(L as nat)
        &&& y.numerator <= y.denominator == max_value(L as nat)
    }

    /// The objective can be called on every point of the domain.
    pub open spec fn objective_total(&self) -> bool {
        forall|x: Ratio, y: Ratio|
            Self::in_domain(x, y) ==> call_requires(self.objective(), (x, y))
    }

    /// `score` is a fitness that the objective may give to `individual`.
    pub open spec fn scores(&self, individual: Individual<L>, score: i64) -> bool {
        call_ensures(self.objective(), individual.dna.decoded(), score)
    }

    /// The objective gives a positive score to every point of the domain.
    pub open spec fn always_positive(&self) -> bool {
        forall|x: Ratio, y: Ratio, score: i64|
            Self::in_domain(x, y) && call_ensures(self.objective(), (x, y), score) ==> score > 0
    }

    /// The objective gives a positive score to no point of the domain.
    pub open spec fn never_positive(&self) -> bool {
        forall|x: Ratio, y: Ratio, score: i64|
            Self::in_domain(x, y) && call_ensures(self.objective(), (x, y), score) ==> score <= 0
    }

    /// The objective gives one score to one point, whenever it is asked.
    pub open spec fn deterministic(&self) -> bool {
        forall|x: Ratio, y: Ratio, first: i64, second: i64|
            call_ensures(self.objective(), (x, y), first) && call_ensures(
                self.objective(),
                (x, y),
                second,
            ) ==> first == second
    }

    /// `fitness` holds, slot by slot, a score that the objective may give to
    /// the individuals of `population`.
    pub open spec fn scored(&self, population: Seq<Individual<L>>, fitness: Seq<i64>) -> bool {
        &&& fitness.len() == population.len()
        &&& forall|i: int|
            0 <= i < population.len() ==> self.scores(population[i], #[trigger] fitness[i])
    }

    /// What one generation may make of `population` when its individuals
    /// score `fitness`. With nobody left after the weakest share of the
    /// survivors is discarded, the generation is degenerate. Otherwise the
    /// summary counts the survivors and the candidates that were kept, and
    /// holds the fitness at the head of the ranking; the next population is
    /// bred from the candidates, with the individual at the head of the
    /// ranking in slot 0.
    pub open spec fn generation_fits(
        &self,
        population: Seq<Individual<L>>,
        fitness: Seq<i64>,
        generation: usize,
        outcome: Result<(Vec<Individual<L>>, GenerationSummary), TrainError>,
    ) -> bool {
        let survivors = count_positive(fitness);
        let parents = survivors - self.config().obsolete_rate.share_of(survivors);
        match outcome {
            Ok((next, summary)) => {
                &&& parents >= 1
                &&& summary.generation == generation
                &&& summary.survivors == survivors
                &&& summary.parents == parents
                &&& exists|ranking: Seq<FitnessRecord>|
                    {
                        &&& #[trigger] is_ranking(fitness, ranking)
                        &&& ranking.len() == survivors
                        &&& summary.best_fitness == ranking[0].fitness
                        &&& next@[0] == population[ranking[0].index as int]
                        &&& bred_from(population, ranking.take(parents), next@)
                    }
            },
            Err(error) => parents == 0 && error == (TrainError::DegeneratePopulation {
                generation,
            }),
        }
    }

    /// `summary` can be the summary of generation `number`.
    pub open spec fn summary_fits(&self, summary: GenerationSummary, number: int) -> bool {
        &&& summary.generation == number
        &&& summary.survivors <= self.config().population
        &&& summary.parents == summary.survivors - self.config().obsolete_rate.share_of(
            summary.survivors as nat,
        )
        &&& summary.parents >= 1
        &&& summary.best_fitness > 0
        &&& exists|best: Individual<L>| best.wf() && #[trigger] self.scores(best, summary.best_fitness)
    }

    /// `report` can be what a run of `epoches` generations leaves behind.
    pub open spec fn report_fits(&self, report: TrainingReport<L>, epoches: usize) -> bool {
        &&& report.history@.len() == epoches
        &&& forall|g: int|
            0 <= g < epoches ==> self.summary_fits(#[trigger] report.history@[g], g + 1)
        &&& report.population@.len() == self.config().population
        &&& all_wf(report.population@)
        &&& epoches >= 1 ==> self.scores(
            report.population@[0],
            report.history@[epoches - 1].best_fitness,
        )
        &&& self.deterministic() ==> forall|g: int|
            1 <= g < epoches ==> report.history@[g - 1].best_fitness <= (
            #[trigger] report.history@[g]).best_fitness
    }

    /// What a run of `epoches` generations may end in, whatever the random
    /// source and the objective give. A run that is owed success: one of no
    /// generations, and one whose objective is positive everywhere while
    /// the share to discard leaves somebody. A run that is owed failure in
    /// its first generation: one whose objective is positive nowhere.
    pub open spec fn outcome_fits(
        &self,
        epoches: usize,
        outcome: Result<TrainingReport<L>, TrainError>,
    ) -> bool {
        let population = self.config().population as nat;
        &&& match outcome {
            Ok(report) => self.is_initialized() && self.report_fits(report, epoches),
            Err(TrainError::NotConfigured) => !self.is_initialized(),
            Err(TrainError::DegeneratePopulation { generation }) => self.is_initialized() && 1
                <= generation <= epoches,
        }
        &&& self.is_initialized() && epoches == 0 ==> outcome is Ok
        &&& self.is_initialized() && self.always_positive()
            && self.config().obsolete_rate.share_of(population) < population ==> outcome is Ok
        &&& self.is_initialized() && self.never_positive() && epoches >= 1 ==> outcome == Err::<
            TrainingReport<L>,
            TrainError,
        >(TrainError::DegeneratePopulation { generation: 1 })
    }

    /// A trainer for the given objective, without a configuration yet.
    pub fn new(target_func: T) -> (trainer: Self)
        ensures
            trainer.objective() == target_func,
            !trainer.is_initialized(),
    {
        Trainer {
            target_func,
            initialized: false,
            population: 0,
            mutation_rate: Rate { numerator: 0, denominator: 1 },
            obsolete_rate: Rate { numerator: 0, denominator: 1 },
        }
    }

    /// Gives the trainer its configuration, if that breaks no rule. A
    /// configuration that does is refused with the first rule it breaks,
    /// and the trainer stays as it was.
    pub fn init(&mut self, config: TrainerConfig) -> (outcome: Result<(), ConfigError>)
        ensures
            final(self).objective() == old(self).objective(),
            match config.fault(L as nat) {
                Some(error) => outcome == Err::<(), ConfigError>(error) && final(self).config()
                    == old(self).config() && final(self).is_initialized() == old(self).is_initialized(),
                None => outcome is Ok && final(self).config() == config && final(self).is_initialized(),
            },
    {
        proof {
            use_type_invariant(&*self);
        }
        if L == 0 {
            return Err(ConfigError::ChromosomeEmpty);
        }
        if L > 64 {
            return Err(ConfigError::ChromosomeTooLong);
        }
        if config.population == 0 {
            return Err(ConfigError::PopulationEmpty);
        }
        if config.population % 2 == 1 {
            return Err(ConfigError::PopulationOdd);
        }
        if !config.mutation_rate.is_valid() || !config.obsolete_rate.is_valid() {
            return Err(ConfigError::RateOutOfRange);
        }
        self.initialized = false;
        self.population = config.population;
        self.mutation_rate = config.mutation_rate;
        self.obsolete_rate = config.obsolete_rate;
        self.initialized = true;
        Ok(())
    }

    /// The fitness of every individual of the population, slot by slot:
    /// what the objective gives for the point that the genotype decodes to.
    pub fn evaluate(&self, population: &Vec<Individual<L>>) -> (fitness: Vec<i64>)
        requires
            L <= 64,
            all_wf(population@),
            self.objective_total(),
        ensures
            fitness@.len() == population@.len(),
            forall|i: int|
                0 <= i < population@.len() ==> self.scores(population@[i], #[trigger] fitness@[i]),
    {
        let mut fitness: Vec<i64> = Vec::with_capacity(population.len());
        let mut i: usize = 0;
        while i < population.len()
            invariant
                L <= 64,
                i <= population@.len(),
                all_wf(population@),
                self.objective_total(),
                fitness@.len() == i,
                forall|j: int| 0 <= j < i ==> self.scores(population@[j], #[trigger] fitness@[j]),
            decreases population@.len() - i,
        {
            assert(population@[i as int].wf());
            let (x, y) = population[i].dna.get_value();
            assert(Self::in_domain(x, y));
            assert(call_requires(self.objective(), (x, y)));
            let score = (self.target_func)(x, y);
            fitness.push(score);
            i += 1;
        }
        fitness
    }

    /// A random first population of the configured size.
    pub fn populate(&self) -> (outcome: Result<Vec<Individual<L>>, TrainError>)
        ensures
            match outcome {
                Ok(population) => self.is_initialized() && population@.len()
                    == self.config().population && all_wf(population@),
                Err(error) => !self.is_initialized() && error == TrainError::NotConfigured,
            },
    {
        if !self.initialized {
            return Err(TrainError::NotConfigured);
        }
        let mut rng = rand::thread_rng();
        let mut individuals: Vec<Individual<L>> = Vec::with_capacity(self.population);
        let mut filled: usize = 0;
        while filled < self.population
            invariant
                filled <= self.population,
                individuals@.len() == filled,
                all_wf(individuals@),
            decreases self.population - filled,
        {
            individuals.push(Individual::random_with(&mut rng));
            filled += 1;
        }
        Ok(individuals)
    }

    /// One generation, which the caller numbers. The population is
    /// evaluated and ranked and the weakest share of the survivors
    /// discarded; the next population is bred from the rest, with the
    /// fittest individual carried over into slot 0.
    pub fn evolve(&self, population: &Vec<Individual<L>>, generation: usize) -> (outcome: Result<
        (Vec<Individual<L>>, GenerationSummary),
        TrainError,
    >)
        requires
            self.objective_total(),
            all_wf(population@),
        ensures
            !self.is_initialized() ==> outcome == Err::<
                (Vec<Individual<L>>, GenerationSummary),
                TrainError,
            >(TrainError::NotConfigured),
            self.is_initialized() ==> exists|fitness: Seq<i64>|
                #[trigger] self.scored(population@, fitness) && self.generation_fits(
                    population@,
                    fitness,
                    generation,
                    outcome,
                ),
    {
        proof {
            use_type_invariant(self);
        }
        if !self.initialized {
            return Err(TrainError::NotConfigured);
        }
        let fitness = self.evaluate(population);
        let mut records = rank(&fitness);
        let survivors = records.len();
        let ghost ranking = records@;
        discard_weakest(&mut records, self.obsolete_rate);
        assert(self.scored(population@, fitness@));
        if records.len() == 0 {
            return Err(TrainError::DegeneratePopulation { generation });
        }
        proof {
            lemma_count_positive(fitness@);
            assert forall|p: int| 0 <= p < records@.len() implies (#[trigger] records@[p]).index
                < population@.len() && records@[p].fitness > 0 by {
                assert(records@[p] == ranking[p]);
                assert(records_survivor(fitness@, ranking[p]));
            }
        }
        let summary = GenerationSummary {
            generation,
            survivors,
            parents: records.len(),
            best_fitness: records[0].fitness,
        };
        let next = reproduce(population, &records, self.mutation_rate);
        proof {
            assert(records@[0] == ranking[0]);
            assert(is_ranking(fitness@, ranking));
        }
        Ok((next, summary))
    }

    /// Runs `epoches` generations on a random first population, one
    /// [`Trainer::evolve`] after the other, and reports a summary of each
    /// together with the last population. The run ends early at the first
    /// degenerate generation.
    pub fn train(&mut self, epoches: usize) -> (outcome: Result<TrainingReport<L>, TrainError>)
        requires
            old(self).objective_total(),
        ensures
            final(self).objective() == old(self).objective(),
            final(self).config() == old(self).config(),
            final(self).is_initialized() == old(self).is_initialized(),
            old(self).outcome_fits(epoches, outcome),
    {
        proof {
            use_type_invariant(&*self);
        }
        let mut individuals = match self.populate() {
            Ok(population) => population,
            Err(error) => {
                return Err(error);
            },
        };
        let mut history: Vec<GenerationSummary> = Vec::with_capacity(epoches);
        let mut epoch: usize = 0;
        while epoch < epoches
            invariant
                epoch <= epoches,
                1 <= L <= 64,
                self.is_initialized(),
                self.objective_total(),
                *self == *old(self),
                individuals@.len() == self.config().population,
                all_wf(individuals@),
                history@.len() == epoch,
                forall|g: int| 0 <= g < epoch ==> self.summary_fits(#[trigger] history@[g], g + 1),
                epoch >= 1 ==> self.scores(individuals@[0], history@[epoch - 1].best_fitness),
                self.never_positive() ==> epoch == 0,
                self.deterministic() ==> forall|g: int|
                    1 <= g < epoch ==> history@[g - 1].best_fitness <= (
                    #[trigger] history@[g]).best_fitness,
            decreases epoches - epoch,
        {
            let step = self.evolve(&individuals, epoch + 1);
            let ghost fitness = choose|fitness: Seq<i64>|
                #[trigger] self.scored(individuals@, fitness) && self.generation_fits(
                    individuals@,
                    fitness,
                    (epoch + 1) as usize,
                    step,
                );
            proof {
                lemma_count_positive(fitness);
                assert forall|i: int| 0 <= i < fitness.len() implies (self.always_positive()
                    ==> fitness[i] > 0) && (self.never_positive() ==> fitness[i] <= 0) by {
                    assert(self.scores(individuals@[i], fitness[i]));
                    self.lemma_decoded_in_domain(individuals@[i]);
                }
            }
            match step {
                Err(error) => {
                    return Err(error);
                },
                Ok((next, summary)) => {
                    proof {
                        let ranking = choose|ranking: Seq<FitnessRecord>|
                            {
                                &&& #[trigger] is_ranking(fitness, ranking)
                                &&& ranking.len() == count_positive(fitness)
                                &&& summary.best_fitness == ranking[0].fitness
                                &&& next@[0] == individuals@[ranking[0].index as int]
                                &&& bred_from(
                                    individuals@,
                                    ranking.take(summary.parents as int),
                                    next@,
                                )
                            };
                        let best = ranking[0];
                        assert(records_survivor(fitness, best));
                        assert(self.scores(individuals@[best.index as int], best.fitness));
                        assert(individuals@[best.index as int].wf());
                        assert(self.summary_fits(summary, epoch + 1));
                        assert(self.scores(next@[0], summary.best_fitness));
                        lemma_ranking_head_is_best(fitness, ranking);
                        if epoch >= 1 && self.deterministic() {
                            assert(self.scores(individuals@[0], fitness[0]));
                            assert(history@[epoch - 1].best_fitness == fitness[0]);
                        }
                    }
                    let ghost earlier = history@;
                    history.push(summary);
                    individuals = next;
                    proof {
                        assert forall|g: int| 0 <= g < epoch + 1 implies self.summary_fits(
                            #[trigger] history@[g],
                            g + 1,
                        ) by {
                            if g < epoch {
                                assert(history@[g] == earlier[g]);
                            }
                        }
                        if self.deterministic() {
                            assert forall|g: int| 1 <= g < epoch + 1 implies history@[g
                                - 1].best_fitness <= (#[trigger] history@[g]).best_fitness by {
                                assert(history@[g - 1] == earlier[g - 1]);
                                if g < epoch {
                                    assert(history@[g] == earlier[g]);
                                }
                            }
                        }
                    }
                },
            }
            epoch += 1;
        }
        Ok(TrainingReport { history, population: individuals })
    }

    /// Runs `epoches` generations: see [`Trainer::train`].
    pub fn start(&mut self, epoches: usize) -> (outcome: Result<TrainingReport<L>, TrainError>)
        requires
            old(self).objective_total(),
        ensures
            final(self).objective() == old(self).objective(),
            final(self).config() == old(self).config(),
            final(self).is_initialized() == old(self).is_initialized(),
            old(self).outcome_fits(epoches, outcome),
    {
        self.train(epoches)
    }

    /// A well-formed individual decodes to a point of the domain.
    pub proof fn lemma_decoded_in_domain(&self, individual: Individual<L>)
        requires
            individual.wf(),
            L <= 64,
        ensures
            Self::in_domain(individual.dna.decoded().0, individual.dna.decoded().1),
    {
        individual.dna.x().lemma_decoded_fits();
        individual.dna.y().lemma_decoded_fits();
    }
}

} // verus!
