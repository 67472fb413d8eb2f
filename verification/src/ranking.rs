//! Ranking and fitness-proportionate selection.
//!
//! Each generation the individuals with a positive fitness are ranked from
//! the fittest down, the weakest share of them is discarded, and parents are
//! then picked from the rest with a chance proportional to their fitness.

use vstd::arithmetic::div_mod::{lemma_div_is_ordered, lemma_div_multiples_vanish};
use vstd::prelude::*;

verus! {

/// A share between 0 and 1, as the ratio `numerator / denominator`.
#[derive(Clone, Copy, Debug, PartialEq, Eq, Structural)]
pub struct Rate {
    pub numerator: u64,
    pub denominator: u64,
}

impl Rate {
    /// The ratio is defined and lies in `[0, 1]`.
    pub open spec fn valid(&self) -> bool {
        &&& self.denominator > 0
        &&& self.numerator <= self.denominator
    }

    /// The share of `count`, rounded down: `floor(count * rate)`.
    pub open spec fn share_of(&self, count: nat) -> nat {
        (count * self.numerator as nat) / self.denominator as nat
    }

    /// Whether the ratio is defined and lies in `[0, 1]`.
    pub fn is_valid(&self) -> (valid: bool)
        ensures
            valid == self.valid(),
    {
        self.denominator > 0 && self.numerator <= self.denominator
    }

    /// The share of `count`, rounded down.
    pub fn floor_of(&self, count: usize) -> (share: usize)
        requires
            self.valid(),
        ensures
            share == self.share_of(count as nat),
            share <= count,
    {
        let wide_count = count as u128;
        let numerator = self.numerator as u128;
        let denominator = self.denominator as u128;
        proof {
            let c = wide_count as int;
            let n = numerator as int;
            let d = denominator as int;
            assert(c * n <= 0xffff_ffff_ffff_ffff * 0xffff_ffff_ffff_ffff) by (nonlinear_arith)
                requires
                    0 <= c <= 0xffff_ffff_ffff_ffff,
                    0 <= n <= 0xffff_ffff_ffff_ffff,
            ;
            assert(0 <= c * n <= c * d) by (nonlinear_arith)
                requires
                    0 <= c,
                    0 <= n <= d,
            ;
            lemma_div_is_ordered(c * n, c * d, d);
            assert(c * d == d * c) by (nonlinear_arith);
            lemma_div_multiples_vanish(c, d);
            assert((c * n) / d <= c);
            assert(0 <= (c * n) / d) by (nonlinear_arith)
                requires
                    0 <= c * n,
                    0 < d,
            ;
        }
        (wide_count * numerator / denominator) as usize
    }
}

/// The fitness of the individual in slot `index` of a population.
#[derive(Clone, Copy, Debug, PartialEq, Eq, Structural)]
pub struct FitnessRecord {
    pub index: usize,
    pub fitness: i64,
}

/// `a` comes before `b` in a ranking: it is fitter, or as fit and from an
/// earlier slot.
pub open spec fn outranks(a: FitnessRecord, b: FitnessRecord) -> bool {
    a.fitness > b.fitness || (a.fitness == b.fitness && a.index < b.index)
}

/// Every record outranks all that come after it.
pub open spec fn is_descending(records: Seq<FitnessRecord>) -> bool {
    forall|p: int, q: int|
        0 <= p < q < records.len() ==> outranks(#[trigger] records[p], #[trigger] records[q])
}

/// `record` names a slot of the population and holds its fitness, which is
/// positive.
pub open spec fn records_survivor(fitness: Seq<i64>, record: FitnessRecord) -> bool {
    &&& record.index < fitness.len()
    &&& record.fitness == fitness[record.index as int]
    &&& record.fitness > 0
}

/// The number of positive entries of `fitness`.
pub open spec fn count_positive(fitness: Seq<i64>) -> nat
    decreases fitness.len(),
{
    if fitness.len() == 0 {
        0
    } else {
        count_positive(fitness.drop_last()) + if fitness.last() > 0 {
            1nat
        } else {
            0nat
        }
    }
}

/// `records` is the ranking of the population whose fitness values are
/// `fitness`: it holds one record for each slot with a positive fitness and
/// no other, the fittest first and, among equally fit ones, the earlier slot
/// first.
pub open spec fn is_ranking(fitness: Seq<i64>, records: Seq<FitnessRecord>) -> bool {
    &&& forall|p: int|
        0 <= p < records.len() ==> records_survivor(fitness, #[trigger] records[p])
    &&& is_descending(records)
    &&& forall|i: int|
        0 <= i < fitness.len() && (#[trigger] fitness[i]) > 0 ==> exists|p: int|
            0 <= p < records.len() && (#[trigger] records[p]).index == i
}

/// No more entries are positive than there are entries: all of them where
/// every entry is positive, none where no entry is.
pub proof fn lemma_count_positive(fitness: Seq<i64>)
    ensures
        count_positive(fitness) <= fitness.len(),
        (forall|i: int| 0 <= i < fitness.len() ==> fitness[i] > 0) ==> count_positive(fitness)
            == fitness.len(),
        (forall|i: int| 0 <= i < fitness.len() ==> fitness[i] <= 0) ==> count_positive(fitness)
            == 0,
    decreases fitness.len(),
{
    if fitness.len() > 0 {
        lemma_count_positive(fitness.drop_last());
    }
}

/// The first record of a ranking holds the greatest fitness of the
/// population, and names the earliest slot that has it.
pub proof fn lemma_ranking_head_is_best(fitness: Seq<i64>, records: Seq<FitnessRecord>)
    requires
        is_ranking(fitness, records),
        records.len() > 0,
    ensures
        forall|i: int| 0 <= i < fitness.len() ==> fitness[i] <= records[0].fitness,
        forall|i: int| 0 <= i < records[0].index ==> fitness[i] < records[0].fitness,
{
    assert(records_survivor(fitness, records[0]));
    assert forall|i: int| 0 <= i < fitness.len() implies fitness[i] <= records[0].fitness && (i
        < records[0].index ==> fitness[i] < records[0].fitness) by {
        if fitness[i] > 0 {
            let p = choose|p: int| 0 <= p < records.len() && (#[trigger] records[p]).index == i;
            assert(records_survivor(fitness, records[p]));
            if p > 0 {
                assert(outranks(records[0], records[p]));
            }
        }
    }
}

/// Two descending sequences that hold the same records are one sequence.
proof fn lemma_descending_unique(a: Seq<FitnessRecord>, b: Seq<FitnessRecord>)
    requires
        is_descending(a),
        is_descending(b),
        forall|p: int| 0 <= p < a.len() ==> b.contains(#[trigger] a[p]),
        forall|q: int| 0 <= q < b.len() ==> a.contains(#[trigger] b[q]),
    ensures
        a == b,
    decreases a.len(),
{
    if a.len() == 0 {
        if b.len() > 0 {
            assert(a.contains(b[0]));
        }
        assert(a =~= b);
    } else {
        assert(b.contains(a[0]));
        let q0 = choose|q: int| 0 <= q < b.len() && b[q] == a[0];
        assert(a.contains(b[0]));
        let p0 = choose|p: int| 0 <= p < a.len() && a[p] == b[0];
        if q0 > 0 {
            assert(outranks(b[0], b[q0]));
            if p0 > 0 {
                assert(outranks(a[0], a[p0]));
            }
        }
        assert(a[0] == b[0]);
        let a_rest = a.skip(1);
        let b_rest = b.skip(1);
        assert forall|p: int, q: int| 0 <= p < q < a_rest.len() implies outranks(
            #[trigger] a_rest[p],
            #[trigger] a_rest[q],
        ) by {
            assert(outranks(a[p + 1], a[q + 1]));
        }
        assert forall|p: int, q: int| 0 <= p < q < b_rest.len() implies outranks(
            #[trigger] b_rest[p],
            #[trigger] b_rest[q],
        ) by {
            assert(outranks(b[p + 1], b[q + 1]));
        }
        assert forall|p: int| 0 <= p < a_rest.len() implies b_rest.contains(
            #[trigger] a_rest[p],
        ) by {
            assert(b.contains(a[p + 1]));
            let q = choose|q: int| 0 <= q < b.len() && b[q] == a[p + 1];
            assert(outranks(a[0], a[p + 1]));
            assert(q > 0);
            assert(b_rest[q - 1] == a_rest[p]);
        }
        assert forall|q: int| 0 <= q < b_rest.len() implies a_rest.contains(
            #[trigger] b_rest[q],
        ) by {
            assert(a.contains(b[q + 1]));
            let p = choose|p: int| 0 <= p < a.len() && a[p] == b[q + 1];
            assert(outranks(b[0], b[q + 1]));
            assert(p > 0);
            assert(a_rest[p - 1] == b_rest[q]);
        }
        lemma_descending_unique(a_rest, b_rest);
        assert(a.len() == b.len());
        assert forall|i: int| 0 <= i < a.len() implies a[i] == b[i] by {
            if i > 0 {
                assert(a_rest[i - 1] == b_rest[i - 1]);
            }
        }
        assert(a =~= b);
    }
}

/// A population has one ranking and no other.
pub proof fn lemma_ranking_unique(
    fitness: Seq<i64>,
    first: Seq<FitnessRecord>,
    second: Seq<FitnessRecord>,
)
    requires
        is_ranking(fitness, first),
        is_ranking(fitness, second),
    ensures
        first == second,
{
    assert forall|p: int| 0 <= p < first.len() implies second.contains(#[trigger] first[p]) by {
        assert(records_survivor(fitness, first[p]));
        let i = first[p].index as int;
        assert(fitness[i] > 0);
        let q = choose|q: int| 0 <= q < second.len() && (#[trigger] second[q]).index == i;
        assert(records_survivor(fitness, second[q]));
        assert(second[q] == first[p]);
    }
    assert forall|q: int| 0 <= q < second.len() implies first.contains(#[trigger] second[q]) by {
        assert(records_survivor(fitness, second[q]));
        let i = second[q].index as int;
        assert(fitness[i] > 0);
        let p = choose|p: int| 0 <= p < first.len() && (#[trigger] first[p]).index == i;
        assert(records_survivor(fitness, first[p]));
        assert(first[p] == second[q]);
    }
    lemma_descending_unique(first, second);
}

/// A slot without positive fitness leaves the ranking as it is.
proof fn lemma_rank_skip(fitness: Seq<i64>, records: Seq<FitnessRecord>)
    requires
        fitness.len() > 0,
        fitness.last() <= 0,
        is_ranking(fitness.drop_last(), records),
    ensures
        is_ranking(fitness, records),
{
    let shorter = fitness.drop_last();
    assert forall|p: int| 0 <= p < records.len() implies records_survivor(
        fitness,
        #[trigger] records[p],
    ) by {
        assert(records_survivor(shorter, records[p]));
    }
    assert forall|i: int| 0 <= i < fitness.len() && (#[trigger] fitness[i]) > 0 implies exists|
        p: int,
    |
        0 <= p < records.len() && (#[trigger] records[p]).index == i by {
        assert(shorter[i] > 0);
    }
}

/// A slot with positive fitness enters the ranking behind every record that
/// is at least as fit and before every record that is less fit.
proof fn lemma_rank_insert(fitness: Seq<i64>, records: Seq<FitnessRecord>, at: int)
    requires
        0 < fitness.len() <= usize::MAX + 1,
        fitness.last() > 0,
        is_ranking(fitness.drop_last(), records),
        0 <= at <= records.len(),
        forall|q: int| at <= q < records.len() ==> (#[trigger] records[q]).fitness < fitness.last(),
        forall|q: int| 0 <= q < at ==> (#[trigger] records[q]).fitness >= fitness.last(),
    ensures
        is_ranking(
            fitness,
            records.insert(
                at,
                (FitnessRecord { index: (fitness.len() - 1) as usize, fitness: fitness.last() }),
            ),
        ),
{
    let shorter = fitness.drop_last();
    let entry = FitnessRecord { index: (fitness.len() - 1) as usize, fitness: fitness.last() };
    let longer = records.insert(at, entry);
    assert forall|p: int| 0 <= p < longer.len() implies records_survivor(
        fitness,
        #[trigger] longer[p],
    ) by {
        if p < at {
            assert(longer[p] == records[p]);
            assert(records_survivor(shorter, records[p]));
        } else if p > at {
            assert(longer[p] == records[p - 1]);
            assert(records_survivor(shorter, records[p - 1]));
        }
    }
    assert forall|p: int, q: int| 0 <= p < q < longer.len() implies outranks(
        #[trigger] longer[p],
        #[trigger] longer[q],
    ) by {
        let a = if p < at {
            records[p]
        } else {
            records[p - 1]
        };
        let b = if q < at {
            records[q]
        } else {
            records[q - 1]
        };
        if p != at {
            assert(longer[p] == a);
            assert(records_survivor(shorter, a));
        }
        if q != at {
            assert(longer[q] == b);
            assert(records_survivor(shorter, b));
        }
        if p != at && q != at {
            assert(outranks(a, b));
        }
    }
    assert forall|i: int| 0 <= i < fitness.len() && (#[trigger] fitness[i]) > 0 implies exists|
        p: int,
    |
        0 <= p < longer.len() && (#[trigger] longer[p]).index == i by {
        if i == fitness.len() - 1 {
            assert(longer[at].index == i);
        } else {
            assert(shorter[i] > 0);
            let p = choose|p: int| 0 <= p < records.len() && (#[trigger] records[p]).index == i;
            if p < at {
                assert(longer[p] == records[p]);
            } else {
                assert(longer[p + 1] == records[p]);
            }
        }
    }
}

/// Ranks the individuals with a positive fitness, the fittest first.
/// `fitness[i]` is the fitness of the individual in slot `i`.
pub fn rank(fitness: &Vec<i64>) -> (records: Vec<FitnessRecord>)
    ensures
        is_ranking(fitness@, records@),
        records@.len() == count_positive(fitness@),
        forall|p: int, q: int|
            0 <= p < q < records@.len() ==> (#[trigger] records@[p]).fitness >= (
            #[trigger] records@[q]).fitness,
        forall|p: int| 0 <= p < records@.len() ==> (#[trigger] records@[p]).fitness > 0,
{
    let mut records: Vec<FitnessRecord> = Vec::new();
    let mut i: usize = 0;
    while i < fitness.len()
        invariant
            i <= fitness@.len(),
            is_ranking(fitness@.take(i as int), records@),
            records@.len() == count_positive(fitness@.take(i as int)),
        decreases fitness@.len() - i,
    {
        let score = fitness[i];
        proof {
            assert(fitness@.take(i + 1).drop_last() =~= fitness@.take(i as int));
        }
        if score > 0 {
            let mut at: usize = records.len();
            while at > 0 && records[at - 1].fitness < score
                invariant
                    at <= records@.len(),
                    forall|q: int| at <= q < records@.len() ==> (#[trigger] records@[q]).fitness < score,
                decreases at,
            {
                at -= 1;
            }
            proof {
                assert forall|q: int| 0 <= q < at implies (#[trigger] records@[q]).fitness
                    >= score by {
                    if q < at - 1 {
                        assert(outranks(records@[q], records@[at - 1]));
                    }
                }
                lemma_rank_insert(fitness@.take(i + 1), records@, at as int);
            }
            records.insert(at, FitnessRecord { index: i, fitness: score });
        } else {
            proof {
                lemma_rank_skip(fitness@.take(i + 1), records@);
            }
        }
        i += 1;
    }
    proof {
        assert(fitness@.take(fitness@.len() as int) =~= fitness@);
        assert forall|p: int, q: int| 0 <= p < q < records@.len() implies (
        #[trigger] records@[p]).fitness >= (#[trigger] records@[q]).fitness by {
            assert(outranks(records@[p], records@[q]));
        }
        assert forall|p: int| 0 <= p < records@.len() implies (#[trigger] records@[p]).fitness
            > 0 by {
            assert(records_survivor(fitness@, records@[p]));
        }
    }
    records
}

/// Discards the weakest share of a ranking: the last `floor(len * rate)`
/// records.
pub fn discard_weakest(records: &mut Vec<FitnessRecord>, rate: Rate)
    requires
        rate.valid(),
    ensures
        final(records)@ == old(records)@.take(
            old(records)@.len() - rate.share_of(old(records)@.len()),
        ),
        final(records)@.len() + rate.share_of(old(records)@.len()) == old(records)@.len(),
{
    let discarded = rate.floor_of(records.len());
    records.truncate(records.len() - discarded);
}

/// What a record weighs in selection: its fitness, or nothing where that is
/// not positive.
pub open spec fn weight(record: FitnessRecord) -> nat {
    if record.fitness > 0 {
        record.fitness as nat
    } else {
        0
    }
}

/// The weights of all records together.
pub open spec fn total_weight(records: Seq<FitnessRecord>) -> nat
    decreases records.len(),
{
    if records.len() == 0 {
        0
    } else {
        total_weight(records.drop_last()) + weight(records.last())
    }
}

/// The weights of the first `n` records together grow with `n`.
pub proof fn lemma_weight_grows(records: Seq<FitnessRecord>, m: int, n: int)
    requires
        0 <= m <= n <= records.len(),
    ensures
        total_weight(records.take(m)) <= total_weight(records.take(n)),
    decreases n - m,
{
    if m < n {
        lemma_weight_grows(records, m, n - 1);
        assert(records.take(n).drop_last() =~= records.take(n - 1));
    }
}

/// The weights of all records together.
pub fn total_fitness(records: &Vec<FitnessRecord>) -> (total: u128)
    ensures
        total == total_weight(records@),
{
    let mut total: u128 = 0;
    let mut i: usize = 0;
    while i < records.len()
        invariant
            i <= records@.len(),
            total == total_weight(records@.take(i as int)),
            total <= i * 0x7fff_ffff_ffff_ffff,
        decreases records@.len() - i,
    {
        proof {
            assert(records@.take(i + 1).drop_last() =~= records@.take(i as int));
        }
        let score = records[i].fitness;
        if score > 0 {
            total = total + score as u128;
        }
        i += 1;
    }
    proof {
        assert(records@.take(records@.len() as int) =~= records@);
    }
    total
}

/// The record on which `ticket` falls when the records are laid end to
/// end, each as long as its weight: the first record before whose end the
/// ticket lies. A ticket drawn uniformly below the total weight picks each
/// record with a chance proportional to its fitness.
pub fn pick(records: &Vec<FitnessRecord>, ticket: u128) -> (position: usize)
    requires
        ticket < total_weight(records@),
    ensures
        position < records@.len(),
        total_weight(records@.take(position as int)) <= ticket < total_weight(
            records@.take(position + 1),
        ),
        records@[position as int].fitness > 0,
{
    let mut reach: u128 = 0;
    let mut i: usize = 0;
    while i < records.len()
        invariant
            i <= records@.len(),
            reach == total_weight(records@.take(i as int)),
            reach <= i * 0x7fff_ffff_ffff_ffff,
            reach <= ticket,
        decreases records@.len() - i,
    {
        proof {
            assert(records@.take(i + 1).drop_last() =~= records@.take(i as int));
        }
        let score = records[i].fitness;
        if score > 0 {
            reach = reach + score as u128;
        }
        if ticket < reach {
            return i;
        }
        i += 1;
    }
    proof {
        assert(records@.take(records@.len() as int) =~= records@);
    }
    // Not reached: the ticket lies below the total weight.
    0
}

} // verus!
