//! Chromosomes and genotypes.
//!
//! A [`Chromosome`] is a fixed-length array of bits that decodes to a ratio
//! in `[0, 1]`. A [`DNA`] is a pair of chromosomes, one per coordinate, with
//! the primitives of crossover (fragment extraction and exchange) and of
//! mutation (bit flips).

use crate::bits::{
    bits_value, flipped, is_bits, lemma_all_one, lemma_all_zero, lemma_set_bit, lemma_value_bound,
    lemma_value_push, max_value, overwritten,
};
use crate::random::draw;
use rand::rngs::ThreadRng;
use vstd::arithmetic::power2::{
    lemma2_to64, lemma_pow2_pos, lemma_pow2_strictly_increases, lemma_pow2_unfold,
};
use vstd::prelude::*;

verus! {

/// The usual number of bits of a chromosome.
pub const CHRO_LEN: usize = 32;

/// The exact ratio `numerator / denominator`. A decoded chromosome has
/// `numerator <= denominator`, so the ratio lies in `[0, 1]`.
#[derive(Clone, Copy, Debug, PartialEq, Eq, Structural)]
pub struct Ratio {
    pub numerator: u64,
    pub denominator: u64,
}

/// The coordinate that a chromosome of a genotype encodes.
#[derive(Clone, Copy, Debug, PartialEq, Eq, Structural)]
pub enum Dimension {
    X,
    Y,
}

/// A sequence of `L` bits, each stored as the byte 0 or 1.
#[derive(Clone, Copy, Debug)]
pub struct Chromosome<const L: usize>([u8; L]);

impl<const L: usize> View for Chromosome<L> {
    type V = Seq<u8>;

    closed spec fn view(&self) -> Seq<u8> {
        self.0@
    }
}

impl<const L: usize> Chromosome<L> {
    /// The chromosome holds `L` elements and each is a bit.
    pub open spec fn wf(&self) -> bool {
        &&& self@.len() == L
        &&& is_bits(self@)
    }

    /// What the chromosome decodes to: its bits read as a binary number,
    /// most significant bit first, over the largest number that `L` bits
    /// spell. All bits clear give 0, all bits set give 1.
    pub open spec fn decoded(&self) -> Ratio {
        Ratio { numerator: bits_value(self@) as u64, denominator: max_value(L as nat) as u64 }
    }

    /// A chromosome with the given bits, if each of them is 0 or 1.
    pub fn from_bits(bits: [u8; L]) -> (made: Option<Self>)
        ensures
            made is Some <==> is_bits(bits@),
            made matches Some(c) ==> c.wf() && c@ == bits@,
    {
        let mut i: usize = 0;
        while i < L
            invariant
                i <= L,
                forall|k: int| 0 <= k < i ==> #[trigger] bits@[k] <= 1,
            decreases L - i,
        {
            if bits[i] > 1 {
                return None;
            }
            i += 1;
        }
        Some(Chromosome(bits))
    }

    /// The bits, first to last.
    pub fn bits(&self) -> (bits: [u8; L])
        ensures
            bits@ == self@,
    {
        self.0
    }

    /// A chromosome whose bits are drawn independently, 0 or 1 with equal
    /// chance.
    pub fn random() -> (c: Self)
        ensures
            c.wf(),
    {
        let mut rng = rand::thread_rng();
        Self::random_with(&mut rng)
    }

    pub(crate) fn random_with(rng: &mut ThreadRng) -> (c: Self)
        ensures
            c.wf(),
    {
        let mut list = [0u8; L];
        let mut i: usize = 0;
        while i < L
            invariant
                i <= L,
                forall|k: int| 0 <= k < L ==> #[trigger] list@[k] <= 1,
            decreases L - i,
        {
            let bit = draw(rng, 0, 2);
            list[i] = bit as u8;
            i += 1;
        }
        Chromosome(list)
    }

    /// Decodes the chromosome: its bits read as a binary number, most
    /// significant bit first, over the largest number that `L` bits spell.
    pub fn get_value(&self) -> (ratio: Ratio)
        requires
            self.wf(),
            L <= 64,
        ensures
            ratio == self.decoded(),
            ratio.numerator == bits_value(self@),
            ratio.denominator == max_value(L as nat),
            ratio.numerator <= ratio.denominator,
    {
        let mut numerator: u64 = 0;
        let mut denominator: u64 = 0;
        let mut i: usize = 0;
        proof {
            lemma2_to64();
        }
        while i < L
            invariant
                i <= L <= 64,
                self.wf(),
                numerator == bits_value(self@.take(i as int)),
                denominator == max_value(i as nat),
                numerator <= denominator,
            decreases L - i,
        {
            proof {
                let head = self@.take(i as int);
                let next = self@.take(i + 1);
                assert(next =~= head.push(self@[i as int]));
                lemma_value_push(head, self@[i as int]);
                lemma_value_bound(next);
                lemma_pow2_unfold((i + 1) as nat);
                lemma_pow2_pos(i as nat);
                lemma2_to64();
                if i + 1 < 64 {
                    lemma_pow2_strictly_increases((i + 1) as nat, 64);
                }
            }
            numerator = 2 * numerator + self.0[i] as u64;
            denominator = 2 * denominator + 1;
            i += 1;
        }
        proof {
            assert(self@.take(L as int) =~= self@);
        }
        Ratio { numerator, denominator }
    }

    /// A chromosome with every bit clear decodes to 0, and one with every
    /// bit set decodes to 1.
    pub proof fn lemma_decoded_extremes(self)
        requires
            self.wf(),
            L <= 64,
        ensures
            (forall|i: int| 0 <= i < L ==> self@[i] == 0) ==> self.decoded().numerator == 0,
            (forall|i: int| 0 <= i < L ==> self@[i] == 1) ==> self.decoded().numerator
                == self.decoded().denominator,
            self.decoded().numerator <= self.decoded().denominator,
    {
        self.lemma_decoded_fits();
        if forall|i: int| 0 <= i < L ==> self@[i] == 0 {
            lemma_all_zero(self@);
        }
        if forall|i: int| 0 <= i < L ==> self@[i] == 1 {
            lemma_all_one(self@);
        }
    }

    /// Decoding is monotonic: a chromosome with one more bit set than
    /// another, and equal to it otherwise, decodes to at least as much.
    pub proof fn lemma_decoded_monotonic(self, raised: Self, locus: int)
        requires
            self.wf(),
            L <= 64,
            0 <= locus < L,
            self@[locus] == 0,
            raised@ == self@.update(locus, 1),
        ensures
            raised.decoded().numerator >= self.decoded().numerator,
            raised.decoded().denominator == self.decoded().denominator,
    {
        self.lemma_decoded_fits();
        assert(is_bits(raised@));
        raised.lemma_decoded_fits();
        lemma_set_bit(self@, locus);
    }

    /// What a chromosome of at most 64 bits decodes to fits 64 bits.
    pub proof fn lemma_decoded_fits(self)
        requires
            self.wf(),
            L <= 64,
        ensures
            self.decoded().numerator == bits_value(self@),
            self.decoded().denominator == max_value(L as nat),
            bits_value(self@) <= max_value(L as nat) <= u64::MAX,
    {
        lemma_value_bound(self@);
        lemma2_to64();
        lemma_pow2_pos(L as nat);
        if L < 64 {
            lemma_pow2_strictly_increases(L as nat, 64);
        }
    }

    /// Writes `slice` over the bits from position `anchor` on and returns the
    /// bits that were there.
    pub fn replace_by_slice(&mut self, anchor: usize, slice: &[u8]) -> (replaced: Vec<u8>)
        requires
            old(self).wf(),
            is_bits(slice@),
            anchor + slice@.len() <= L,
        ensures
            final(self).wf(),
            final(self)@ == overwritten(old(self)@, anchor as int, slice@),
            replaced@ == old(self)@.subrange(anchor as int, anchor + slice@.len()),
            is_bits(replaced@),
    {
        let mut result: Vec<u8> = Vec::new();
        let mut i: usize = 0;
        while i < slice.len()
            invariant
                i <= slice@.len(),
                anchor + slice@.len() <= L,
                is_bits(slice@),
                self.wf(),
                old(self).wf(),
                result@ == old(self)@.subrange(anchor as int, anchor + i),
                self@ == overwritten(old(self)@, anchor as int, slice@.take(i as int)),
            decreases slice@.len() - i,
        {
            result.push(self.0[anchor + i]);
            self.0[anchor + i] = slice[i];
            i += 1;
        }
        proof {
            assert(slice@.take(slice@.len() as int) =~= slice@);
        }
        result
    }

    /// Flips the bit at `locus`.
    pub fn flip(&mut self, locus: usize)
        requires
            old(self).wf(),
            locus < L,
        ensures
            final(self).wf(),
            final(self)@ == old(self)@.update(locus as int, flipped(old(self)@[locus as int])),
    {
        let bit = self.0[locus];
        self.0[locus] = 1 - bit;
    }
}

/// A genotype: two chromosomes, the first for X and the second for Y.
#[derive(Clone, Copy, Debug)]
pub struct DNA<const L: usize>(Chromosome<L>, Chromosome<L>);

impl<const L: usize> DNA<L> {
    /// The chromosome that encodes X.
    pub closed spec fn x(&self) -> Chromosome<L> {
        self.0
    }

    /// The chromosome that encodes Y.
    pub closed spec fn y(&self) -> Chromosome<L> {
        self.1
    }

    /// The chromosome that encodes the given coordinate.
    pub open spec fn along(&self, dimension: Dimension) -> Chromosome<L> {
        match dimension {
            Dimension::X => self.x(),
            Dimension::Y => self.y(),
        }
    }

    /// The point that the genotype decodes to, X first, each coordinate as
    /// a ratio in `[0, 1]`.
    pub open spec fn decoded(&self) -> (Ratio, Ratio) {
        (self.x().decoded(), self.y().decoded())
    }

    /// Both chromosomes are well formed.
    pub open spec fn wf(&self) -> bool {
        &&& self.x().wf()
        &&& self.y().wf()
    }

    /// The genotype made of the two chromosomes.
    pub fn new(x: Chromosome<L>, y: Chromosome<L>) -> (dna: Self)
        ensures
            dna.x() == x,
            dna.y() == y,
    {
        DNA(x, y)
    }

    /// The chromosome that encodes the given coordinate.
    pub fn chromosome(&self, dimension: Dimension) -> (c: Chromosome<L>)
        ensures
            c == self.along(dimension),
    {
        match dimension {
            Dimension::X => self.0,
            Dimension::Y => self.1,
        }
    }

    /// A genotype of two independent random chromosomes.
    pub fn random() -> (dna: Self)
        ensures
            dna.wf(),
    {
        DNA(Chromosome::random(), Chromosome::random())
    }

    pub(crate) fn random_with(rng: &mut ThreadRng) -> (dna: Self)
        ensures
            dna.wf(),
    {
        let x = Chromosome::random_with(rng);
        let y = Chromosome::random_with(rng);
        DNA(x, y)
    }

    /// Decodes both chromosomes: the point's coordinates as ratios in
    /// `[0, 1]`, X first.
    pub fn get_value(&self) -> (point: (Ratio, Ratio))
        requires
            self.wf(),
            L <= 64,
        ensures
            point == self.decoded(),
            point.0.numerator <= point.0.denominator == max_value(L as nat),
            point.1.numerator <= point.1.denominator == max_value(L as nat),
    {
        (self.0.get_value(), self.1.get_value())
    }

    /// The first `anchor` bits of the chromosome for `dimension`.
    pub fn get_fragment(&self, anchor: usize, dimension: Dimension) -> (fragment: Vec<u8>)
        requires
            self.wf(),
            anchor <= L,
        ensures
            fragment@ == self.along(dimension)@.take(anchor as int),
            is_bits(fragment@),
    {
        let source = self.chromosome(dimension);
        let mut fragment: Vec<u8> = Vec::new();
        let mut i: usize = 0;
        while i < anchor
            invariant
                i <= anchor <= L,
                source.wf(),
                fragment@ == source@.take(i as int),
            decreases anchor - i,
        {
            fragment.push(source.0[i]);
            proof {
                assert(source@.take(i + 1) =~= source@.take(i as int).push(source@[i as int]));
            }
            i += 1;
        }
        fragment
    }

    /// Writes `fragment` over the first bits of the chromosome for
    /// `dimension` and returns the bits that were there. The other
    /// chromosome stays as it is.
    pub fn exchange(&mut self, fragment: Vec<u8>, dimension: Dimension) -> (displaced: Vec<u8>)
        requires
            old(self).wf(),
            is_bits(fragment@),
            fragment@.len() <= L,
        ensures
            final(self).wf(),
            final(self).along(dimension)@ == overwritten(
                old(self).along(dimension)@,
                0,
                fragment@,
            ),
            displaced@ == old(self).along(dimension)@.take(fragment@.len() as int),
            is_bits(displaced@),
            dimension == Dimension::X ==> final(self).y() == old(self).y(),
            dimension == Dimension::Y ==> final(self).x() == old(self).x(),
    {
        match dimension {
            Dimension::X => self.0.replace_by_slice(0, fragment.as_slice()),
            Dimension::Y => self.1.replace_by_slice(0, fragment.as_slice()),
        }
    }

    /// Flips the bit at `anchors.0` of the X chromosome and the bit at
    /// `anchors.1` of the Y chromosome, and no other.
    pub fn mutate(&mut self, anchors: (usize, usize))
        requires
            old(self).wf(),
            anchors.0 < L,
            anchors.1 < L,
        ensures
            final(self).wf(),
            final(self).x()@ == old(self).x()@.update(
                anchors.0 as int,
                flipped(old(self).x()@[anchors.0 as int]),
            ),
            final(self).y()@ == old(self).y()@.update(
                anchors.1 as int,
                flipped(old(self).y()@[anchors.1 as int]),
            ),
    {
        self.0.flip(anchors.0);
        self.1.flip(anchors.1);
    }
}

} // verus!
