//! From one generation to the next: selection of parents, crossover,
//! mutation and the carrying over of the fittest.

use crate::bits::{flipped, is_prefix_swap};
use crate::dna::{Dimension, DNA};
use crate::random::draw;
use crate::ranking::{lemma_weight_grows, pick, total_fitness, total_weight, FitnessRecord, Rate};
use rand::rngs::ThreadRng;
use vstd::prelude::*;

verus! {

/// A genotype with an identity tag. Copies of one individual share its tag,
/// which is how a pair of parents that is one individual twice is told
/// from a pair of two.
#[derive(Clone, Copy, Debug)]
pub struct Individual<const L: usize> {
    pub dna: DNA<L>,
    pub tag: u64,
}

impl<const L: usize> Individual<L> {
    /// The genotype is well formed.
    pub open spec fn wf(&self) -> bool {
        self.dna.wf()
    }

    /// An individual with a random genotype and a random tag.
    pub fn random() -> (individual: Self)
        ensures
            individual.wf(),
    {
        let mut rng = rand::thread_rng();
        Self::random_with(&mut rng)
    }

    pub(crate) fn random_with(rng: &mut ThreadRng) -> (individual: Self)
        ensures
            individual.wf(),
    {
        let dna = DNA::random_with(rng);
        let tag = fresh_tag(rng);
        Individual { dna, tag }
    }
}

/// Every individual of the population is well formed.
pub open spec fn all_wf<const L: usize>(population: Seq<Individual<L>>) -> bool {
    forall|i: int| 0 <= i < population.len() ==> (#[trigger] population[i]).wf()
}

/// Each of `chosen` is a copy of an individual that a record of positive
/// fitness names.
pub open spec fn drawn_from<const L: usize>(
    population: Seq<Individual<L>>,
    records: Seq<FitnessRecord>,
    chosen: Seq<Individual<L>>,
) -> bool {
    forall|i: int|
        0 <= i < chosen.len() ==> exists|p: int|
            0 <= p < records.len() && (#[trigger] records[p]).fitness > 0 && (
            #[trigger] chosen[i]) == population[records[p].index as int]
}

/// `after` is `before` with one bit flipped in each chromosome, at
/// `locus_x` in X and at `locus_y` in Y.
pub open spec fn is_mutation<const L: usize>(
    before: DNA<L>,
    after: DNA<L>,
    locus_x: int,
    locus_y: int,
) -> bool {
    &&& 0 <= locus_x < L
    &&& 0 <= locus_y < L
    &&& after.x()@ == before.x()@.update(locus_x, flipped(before.x()@[locus_x]))
    &&& after.y()@ == before.y()@.update(locus_y, flipped(before.y()@[locus_y]))
}

/// `after` is `before` with one bit flipped in each chromosome.
pub open spec fn mutated<const L: usize>(before: DNA<L>, after: DNA<L>) -> bool {
    exists|locus_x: int, locus_y: int| is_mutation(before, after, locus_x, locus_y)
}

/// `a1` and `b1` are `a0` and `b0` after single-point crossover in each
/// dimension: the first `cut_x` bits of X exchanged, and the first `cut_y`
/// bits of Y.
pub open spec fn is_crossover<const L: usize>(
    a0: DNA<L>,
    b0: DNA<L>,
    a1: DNA<L>,
    b1: DNA<L>,
    cut_x: int,
    cut_y: int,
) -> bool {
    &&& 1 <= cut_x < L
    &&& 1 <= cut_y < L
    &&& is_prefix_swap(a0.x()@, b0.x()@, a1.x()@, b1.x()@, cut_x)
    &&& is_prefix_swap(a0.y()@, b0.y()@, a1.y()@, b1.y()@, cut_y)
}

/// What reproduction makes of the pair `a0`, `b0`. Two copies of one
/// individual are each mutated and tagged afresh. Two different individuals
/// are crossed over at a cut point inside the chromosome, and stay as they
/// are where a chromosome of a single bit has no such point.
pub open spec fn pair_recombined<const L: usize>(
    a0: Individual<L>,
    b0: Individual<L>,
    a1: Individual<L>,
    b1: Individual<L>,
) -> bool {
    if a0.tag == b0.tag {
        mutated(a0.dna, a1.dna) && mutated(b0.dna, b1.dna)
    } else if L >= 2 {
        &&& a1.tag == a0.tag
        &&& b1.tag == b0.tag
        &&& exists|cut_x: int, cut_y: int| is_crossover(a0.dna, b0.dna, a1.dna, b1.dna, cut_x, cut_y)
    } else {
        a1 == a0 && b1 == b0
    }
}

/// The pair in slots `2k` and `2k + 1` went through reproduction.
pub open spec fn pair_recombined_at<const L: usize>(
    before: Seq<Individual<L>>,
    after: Seq<Individual<L>>,
    k: int,
) -> bool {
    pair_recombined(before[2 * k], before[2 * k + 1], after[2 * k], after[2 * k + 1])
}

/// `after` is `before` with every consecutive pair of slots put through
/// reproduction. A last slot without a partner stays as it is.
pub open spec fn recombined<const L: usize>(
    before: Seq<Individual<L>>,
    after: Seq<Individual<L>>,
) -> bool {
    &&& after.len() == before.len()
    &&& forall|k: int|
        0 <= k && 2 * k + 1 < before.len() ==> #[trigger] pair_recombined_at(before, after, k)
    &&& before.len() % 2 == 1 ==> after.last() == before.last()
}

/// Each individual of `after` is the one of `before` in the same slot,
/// either unchanged or with one bit flipped in each chromosome.
pub open spec fn mutation_applied<const L: usize>(
    before: Seq<Individual<L>>,
    after: Seq<Individual<L>>,
) -> bool {
    &&& after.len() == before.len()
    &&& forall|i: int|
        0 <= i < before.len() ==> (#[trigger] after[i]) == before[i] || (after[i].tag
            == before[i].tag && mutated(before[i].dna, after[i].dna))
}

/// `next` is `bred` shifted up by one slot, with `elite` in slot 0 and the
/// last of `bred` gone.
pub open spec fn elite_carried<const L: usize>(
    bred: Seq<Individual<L>>,
    elite: Individual<L>,
    next: Seq<Individual<L>>,
) -> bool {
    if bred.len() == 0 {
        next == seq![elite]
    } else {
        next == seq![elite] + bred.drop_last()
    }
}

/// `next` is a generation bred from `population` with the ranked survivors
/// `records` as candidates: it has as many slots, slot 0 holds the fittest
/// of `population` unchanged, and the slots behind it hold, shifted by one,
/// parents that were picked among the candidates, recombined pair by pair
/// and mutated.
pub open spec fn bred_from<const L: usize>(
    population: Seq<Individual<L>>,
    records: Seq<FitnessRecord>,
    next: Seq<Individual<L>>,
) -> bool {
    &&& next.len() == population.len()
    &&& all_wf(next)
    &&& next[0] == population[records[0].index as int]
    &&& exists|parents: Seq<Individual<L>>, crossed: Seq<Individual<L>>, bred: Seq<Individual<L>>|
        #![trigger recombined(parents, crossed), mutation_applied(crossed, bred)]
        {
            &&& parents.len() == population.len()
            &&& drawn_from(population, records, parents)
            &&& recombined(parents, crossed)
            &&& mutation_applied(crossed, bred)
            &&& elite_carried(bred, population[records[0].index as int], next)
        }
}

fn locus<const L: usize>(rng: &mut ThreadRng) -> (drawn: usize)
    requires
        L >= 1,
    ensures
        drawn < L,
{
    draw(rng, 0, L as u128) as usize
}

fn fresh_tag(rng: &mut ThreadRng) -> u64 {
    draw(rng, 0, 0x1_0000_0000_0000_0000) as u64
}

/// Single-point crossover along one dimension: the two genotypes exchange
/// the first `cut` bits of their chromosomes for `dimension`. The fragment
/// is taken from `second`, exchanged into `first`, and what it displaced
/// there goes back into `second`.
pub fn crossover<const L: usize>(
    first: &mut DNA<L>,
    second: &mut DNA<L>,
    cut: usize,
    dimension: Dimension,
)
    requires
        old(first).wf(),
        old(second).wf(),
        cut <= L,
    ensures
        final(first).wf(),
        final(second).wf(),
        is_prefix_swap(
            old(first).along(dimension)@,
            old(second).along(dimension)@,
            final(first).along(dimension)@,
            final(second).along(dimension)@,
            cut as int,
        ),
        dimension == Dimension::X ==> final(first).y() == old(first).y() && final(second).y()
            == old(second).y(),
        dimension == Dimension::Y ==> final(first).x() == old(first).x() && final(second).x()
            == old(second).x(),
{
    let fragment = second.get_fragment(cut, dimension);
    let displaced = first.exchange(fragment, dimension);
    second.exchange(displaced, dimension);
    proof {
        let a0 = old(first).along(dimension)@;
        let b0 = old(second).along(dimension)@;
        assert(first.along(dimension)@ =~= b0.take(cut as int) + a0.skip(cut as int));
        assert(second.along(dimension)@ =~= a0.take(cut as int) + b0.skip(cut as int));
    }
}

/// Picks as many parents as the population has slots, each with a chance
/// proportional to its fitness, and copies them into a new population.
pub fn select<const L: usize>(
    population: &Vec<Individual<L>>,
    records: &Vec<FitnessRecord>,
) -> (chosen: Vec<Individual<L>>)
    requires
        total_weight(records@) > 0,
        forall|p: int|
            0 <= p < records@.len() ==> (#[trigger] records@[p]).index < population@.len(),
    ensures
        chosen@.len() == population@.len(),
        drawn_from(population@, records@, chosen@),
{
    let mut rng = rand::thread_rng();
    let total = total_fitness(records);
    let mut chosen: Vec<Individual<L>> = Vec::with_capacity(population.len());
    let mut i: usize = 0;
    while i < population.len()
        invariant
            i <= population@.len(),
            chosen@.len() == i,
            total == total_weight(records@),
            total > 0,
            forall|p: int|
                0 <= p < records@.len() ==> (#[trigger] records@[p]).index < population@.len(),
            drawn_from(population@, records@, chosen@),
        decreases population@.len() - i,
    {
        let ticket = draw(&mut rng, 0, total);
        let position = pick(records, ticket);
        let parent = population[records[position].index];
        let ghost before = chosen@;
        chosen.push(parent);
        proof {
            assert forall|j: int| 0 <= j < chosen@.len() implies exists|p: int|
                0 <= p < records@.len() && (#[trigger] records@[p]).fitness > 0 && (
                #[trigger] chosen@[j]) == population@[records@[p].index as int] by {
                if j < i {
                    assert(chosen@[j] == before[j]);
                    let p = choose|p: int|
                        0 <= p < records@.len() && (#[trigger] records@[p]).fitness > 0
                            && before[j] == population@[records@[p].index as int];
                    assert(records@[p].fitness > 0);
                } else {
                    assert(records@[position as int].fitness > 0);
                }
            }
        }
        i += 1;
    }
    chosen
}

/// Reproduction: every consecutive pair of slots is crossed over at a
/// random cut point in each dimension, or, where the pair is one individual
/// twice, each of the two is mutated at random loci and tagged afresh.
pub fn recombine<const L: usize>(individuals: &mut Vec<Individual<L>>)
    requires
        L >= 1,
        all_wf(old(individuals)@),
    ensures
        all_wf(final(individuals)@),
        recombined(old(individuals)@, final(individuals)@),
{
    let mut rng = rand::thread_rng();
    let count = individuals.len();
    let mut i: usize = 0;
    while i + 1 < count
        invariant
            L >= 1,
            i % 2 == 0,
            i <= count,
            count == old(individuals)@.len(),
            individuals@.len() == count,
            all_wf(individuals@),
            forall|k: int|
                0 <= k && 2 * k + 1 < i ==> #[trigger] pair_recombined_at(
                    old(individuals)@,
                    individuals@,
                    k,
                ),
            forall|j: int| i <= j < count ==> (#[trigger] individuals@[j]) == old(individuals)@[j],
        decreases count - i,
    {
        let ghost before = individuals@;
        let mut first = individuals[i];
        let mut second = individuals[i + 1];
        let ghost a0 = first;
        let ghost b0 = second;
        assert(a0.wf() && b0.wf());
        if first.tag == second.tag {
            let locus_x = locus::<L>(&mut rng);
            let locus_y = locus::<L>(&mut rng);
            first.dna.mutate((locus_x, locus_y));
            first.tag = fresh_tag(&mut rng);
            assert(is_mutation(a0.dna, first.dna, locus_x as int, locus_y as int));
            let locus_x = locus::<L>(&mut rng);
            let locus_y = locus::<L>(&mut rng);
            second.dna.mutate((locus_x, locus_y));
            second.tag = fresh_tag(&mut rng);
            assert(is_mutation(b0.dna, second.dna, locus_x as int, locus_y as int));
        } else if L >= 2 {
            let cut_x = draw(&mut rng, 1, L as u128) as usize;
            crossover(&mut first.dna, &mut second.dna, cut_x, Dimension::X);
            let cut_y = draw(&mut rng, 1, L as u128) as usize;
            crossover(&mut first.dna, &mut second.dna, cut_y, Dimension::Y);
            assert(is_crossover(a0.dna, b0.dna, first.dna, second.dna, cut_x as int, cut_y as int));
        }
        assert(pair_recombined(a0, b0, first, second));
        individuals[i] = first;
        individuals[i + 1] = second;
        proof {
            let done = (i / 2) as int;
            assert(2 * done == i);
            assert forall|k: int| 0 <= k && 2 * k + 1 < i + 2 implies #[trigger] pair_recombined_at(
                old(individuals)@,
                individuals@,
                k,
            ) by {
                if k < done {
                    assert(pair_recombined_at(old(individuals)@, before, k));
                    assert(individuals@[2 * k] == before[2 * k]);
                    assert(individuals@[2 * k + 1] == before[2 * k + 1]);
                } else {
                    assert(k == done);
                }
            }
            assert forall|j: int| 0 <= j < count implies (#[trigger] individuals@[j]).wf() by {
                if j != i && j != i + 1 {
                    assert(individuals@[j] == before[j]);
                }
            }
        }
        i += 2;
    }
}

/// Mutation: each individual, with the chance that `rate` gives, has one
/// bit flipped at a random locus in each chromosome.
pub fn mutate_population<const L: usize>(individuals: &mut Vec<Individual<L>>, rate: Rate)
    requires
        L >= 1,
        rate.valid(),
        all_wf(old(individuals)@),
    ensures
        all_wf(final(individuals)@),
        mutation_applied(old(individuals)@, final(individuals)@),
        rate.numerator == 0 ==> final(individuals)@ == old(individuals)@,
        rate.numerator == rate.denominator ==> forall|i: int|
            0 <= i < old(individuals)@.len() ==> mutated(
                old(individuals)@[i].dna,
                (#[trigger] final(individuals)@[i]).dna,
            ),
{
    let mut rng = rand::thread_rng();
    let count = individuals.len();
    let mut i: usize = 0;
    while i < count
        invariant
            L >= 1,
            rate.valid(),
            i <= count,
            count == old(individuals)@.len(),
            individuals@.len() == count,
            all_wf(individuals@),
            forall|j: int|
                0 <= j < i ==> (#[trigger] individuals@[j]) == old(individuals)@[j] || (
                individuals@[j].tag == old(individuals)@[j].tag && mutated(
                    old(individuals)@[j].dna,
                    individuals@[j].dna,
                )),
            forall|j: int| i <= j < count ==> (#[trigger] individuals@[j]) == old(individuals)@[j],
            rate.numerator == 0 ==> individuals@ == old(individuals)@,
            rate.numerator == rate.denominator ==> forall|j: int|
                0 <= j < i ==> mutated(old(individuals)@[j].dna, (#[trigger] individuals@[j]).dna),
        decreases count - i,
    {
        let ghost before = individuals@;
        let lot = draw(&mut rng, 0, rate.denominator as u128);
        if lot < rate.numerator as u128 {
            let mut individual = individuals[i];
            let ghost untouched = individual;
            assert(untouched.wf());
            let locus_x = locus::<L>(&mut rng);
            let locus_y = locus::<L>(&mut rng);
            individual.dna.mutate((locus_x, locus_y));
            assert(is_mutation(untouched.dna, individual.dna, locus_x as int, locus_y as int));
            individuals[i] = individual;
        }
        proof {
            assert forall|j: int| 0 <= j < count implies (#[trigger] individuals@[j]).wf() by {
                if j != i {
                    assert(individuals@[j] == before[j]);
                }
            }
            assert forall|j: int| 0 <= j < i + 1 implies (#[trigger] individuals@[j]) == old(individuals)@[j] || (individuals@[j].tag == old(individuals)@[j].tag && mutated(
                old(individuals)@[j].dna,
                individuals@[j].dna,
            )) by {
                if j < i {
                    assert(individuals@[j] == before[j]);
                }
            }
            if rate.numerator == rate.denominator {
                assert forall|j: int| 0 <= j < i + 1 implies mutated(
                    old(individuals)@[j].dna,
                    (#[trigger] individuals@[j]).dna,
                ) by {
                    if j < i {
                        assert(individuals@[j] == before[j]);
                    }
                }
            }
        }
        i += 1;
    }
}

/// Elitism: the last slot goes, and `elite` enters at slot 0, so that the
/// number of slots stays what it was.
pub fn carry_elite<const L: usize>(individuals: &mut Vec<Individual<L>>, elite: Individual<L>)
    ensures
        elite_carried(old(individuals)@, elite, final(individuals)@),
        old(individuals)@.len() >= 1 ==> final(individuals)@.len() == old(individuals)@.len(),
        final(individuals)@[0] == elite,
{
    individuals.pop();
    individuals.insert(0, elite);
    proof {
        let bred = old(individuals)@;
        if bred.len() == 0 {
            assert(individuals@ =~= seq![elite]);
        } else {
            assert(individuals@ =~= seq![elite] + bred.drop_last());
        }
    }
}

/// The next generation. Parents are selected from the ranked survivors
/// `records`, recombined pair by pair and mutated; then the fittest
/// individual of the old population, which the first record names, is
/// carried over unchanged into slot 0.
pub fn reproduce<const L: usize>(
    population: &Vec<Individual<L>>,
    records: &Vec<FitnessRecord>,
    mutation_rate: Rate,
) -> (next: Vec<Individual<L>>)
    requires
        L >= 1,
        mutation_rate.valid(),
        all_wf(population@),
        records@.len() >= 1,
        forall|p: int|
            0 <= p < records@.len() ==> (#[trigger] records@[p]).index < population@.len()
                && records@[p].fitness > 0,
    ensures
        bred_from(population@, records@, next@),
        next@.len() == population@.len(),
        next@[0] == population@[records@[0].index as int],
{
    proof {
        lemma_weight_grows(records@, 1, records@.len() as int);
        assert(records@.take(records@.len() as int) =~= records@);
        assert(records@.take(1).drop_last() =~= Seq::<FitnessRecord>::empty());
        assert(total_weight(records@.take(1).drop_last()) == 0);
        assert(records@.take(1).last() == records@[0]);
    }
    let mut individuals = select(population, records);
    let ghost parents = individuals@;
    proof {
        assert forall|i: int| 0 <= i < parents.len() implies (#[trigger] parents[i]).wf() by {
            let p = choose|p: int|
                0 <= p < records@.len() && (#[trigger] records@[p]).fitness > 0 && parents[i]
                    == population@[records@[p].index as int];
            assert(population@[records@[p].index as int].wf());
        }
    }
    recombine(&mut individuals);
    let ghost crossed = individuals@;
    mutate_population(&mut individuals, mutation_rate);
    let ghost bred = individuals@;
    let elite = population[records[0].index];
    carry_elite(&mut individuals, elite);
    proof {
        assert(recombined(parents, crossed) && mutation_applied(crossed, bred));
        assert forall|i: int| 0 <= i < individuals@.len() implies (#[trigger] individuals@[i]).wf() by {
            if i > 0 {
                assert(individuals@[i] == bred[i - 1]);
            }
        }
    }
    individuals
}

} // verus!
