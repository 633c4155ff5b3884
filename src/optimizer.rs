//! Runs the search on integer lengths and lays out the best candidate.
use crate::packing::{
    fitness_of, lemma_sum_lengths_nonneg, lemma_sum_permutation, lemma_sum_prefix, sum_lengths,
    used_length, Bin, DemandPiece, FITNESS_SCALE,
};
use crate::population::Population;
use crate::random::{seeded_rng, shuffle_pieces};
use crate::unit::{bin_ok, BinPackerUnit, Problem};
use vstd::multiset::Multiset;
use vstd::prelude::*;

verus! {

/// Candidates per generation.
pub const POPULATION_SIZE: usize = 100;

/// Generations run by `optimize`.
pub const EPOCHS: usize = 1000;

/// Share of the population bred per generation, in percent.
pub const BREED_PERCENT: usize = 30;

/// Share of the population that survives a generation, in percent.
pub const SURVIVAL_PERCENT: usize = 50;

/// One cut on a stock piece: which demand piece, where it starts, how long.
#[derive(Clone, Copy, Debug, PartialEq, Eq)]
pub struct CutPiece {
    pub id: usize,
    pub location: usize,
    pub length: usize,
}

/// One stock piece of the plan with its cuts, longest first.
#[derive(Debug)]
pub struct StockPiece {
    pub length: usize,
    pub demand_pieces: Vec<CutPiece>,
}

/// A cutting plan.
#[derive(Debug)]
pub struct Solution {
    pub fitness: u64,
    pub repos_pieces: Vec<StockPiece>,
}

/// Why no plan was made.
#[derive(Clone, Copy, Debug, PartialEq, Eq)]
pub enum OptimizeError {
    /// There are no demand pieces.
    NoDemandPieces,
    /// A stock length is zero.
    ZeroStockLength,
    /// Some demand piece is longer than every stock length.
    Infeasible,
}

/// The demand piece a cut stands for.
pub open spec fn cut_piece(c: CutPiece) -> DemandPiece {
    DemandPiece { id: c.id, length: c.length }
}

pub open spec fn cut_pieces(cuts: Seq<CutPiece>) -> Seq<DemandPiece> {
    cuts.map_values(|c: CutPiece| cut_piece(c))
}

/// All demand pieces cut in a plan.
pub open spec fn plan_pieces(plan: Seq<StockPiece>) -> Multiset<DemandPiece>
    decreases plan.len(),
{
    if plan.len() == 0 {
        Multiset::empty()
    } else {
        plan_pieces(plan.drop_last()).add(cut_pieces(plan.last().demand_pieces@).to_multiset())
    }
}

/// The catalog for the given demand lengths: piece `i` has id `i`.
pub open spec fn catalog_of(lengths: Seq<usize>) -> Seq<DemandPiece> {
    Seq::new(lengths.len(), |i: int| DemandPiece { id: i as usize, length: lengths[i] })
}

/// Cuts laid out from the start of the stock piece, longest first, with
/// `spacing` between neighbours, all within the stock piece.
pub open spec fn layout_ok(sp: StockPiece, spacing: int) -> bool {
    let cuts = sp.demand_pieces@;
    &&& cuts.len() > 0
    &&& used_length(cut_pieces(cuts), spacing) <= sp.length
    &&& forall|k: int|
        0 <= k < cuts.len() ==> (#[trigger] cuts[k]).location == sum_lengths(
            cut_pieces(cuts).take(k),
        ) + k * spacing
    &&& forall|i: int, j: int| 0 <= i < j < cuts.len() ==> cuts[i].length >= cuts[j].length
}

/// Some stock length can hold a piece of length `len`.
pub open spec fn fits_some(stock: Seq<usize>, len: usize) -> bool {
    exists|i: int| 0 <= i < stock.len() && #[trigger] stock[i] >= len
}

/// The pieces sorted by descending length.
pub fn sort_by_length_descending(pieces: &Vec<DemandPiece>) -> (r: Vec<DemandPiece>)
    ensures
        r@.to_multiset() == pieces@.to_multiset(),
        r@.len() == pieces@.len(),
        forall|i: int, j: int| 0 <= i < j < r@.len() ==> r@[i].length >= r@[j].length,
{
    broadcast use vstd::seq_lib::group_to_multiset_ensures, vstd::multiset::group_multiset_axioms;

    let mut sorted: Vec<DemandPiece> = Vec::new();
    let mut k: usize = 0;
    proof {
        assert(pieces@.take(0) =~= Seq::<DemandPiece>::empty());
    }
    while k < pieces.len()
        invariant
            k <= pieces@.len(),
            sorted@.to_multiset() == pieces@.take(k as int).to_multiset(),
            sorted@.len() == k,
            forall|i: int, j: int| 0 <= i < j < sorted@.len() ==> sorted@[i].length >= sorted@[j].length,
        decreases pieces@.len() - k,
    {
        let p = pieces[k];
        let mut pos: usize = 0;
        while pos < sorted.len() && sorted[pos].length >= p.length
            invariant
                pos <= sorted@.len(),
                forall|i: int| 0 <= i < pos ==> sorted@[i].length >= p.length,
            decreases sorted@.len() - pos,
        {
            pos = pos + 1;
        }
        let ghost s0 = sorted@;
        sorted.insert(pos, p);
        proof {
            assert(pieces@.take(k as int + 1) =~= pieces@.take(k as int).push(p));
            vstd::seq_lib::to_multiset_insert(s0, pos as int, p);
            vstd::seq_lib::to_multiset_build(pieces@.take(k as int), p);
            assert forall|i: int, j: int| 0 <= i < j < sorted@.len() implies sorted@[i].length >= sorted@[j].length by {
                if pos < s0.len() {
                    assert(s0[pos as int].length < p.length);
                }
            }
        }
        k = k + 1;
    }
    proof {
        assert(pieces@.take(k as int) =~= pieces@);
    }
    sorted
}

/// The stock piece for a bin: its pieces longest first, each starting after
/// the previous one and one spacing.
#[verifier::rlimit(50)]
pub fn layout_bin(bin: &Bin) -> (r: StockPiece)
    requires
        bin.wf(),
        bin.demand_pieces@.len() > 0,
    ensures
        r.length == bin.length,
        layout_ok(r, bin.spacing as int),
        used_length(cut_pieces(r.demand_pieces@), bin.spacing as int) == bin.used,
        cut_pieces(r.demand_pieces@).to_multiset() == bin.demand_pieces@.to_multiset(),
{
    let sorted = sort_by_length_descending(&bin.demand_pieces);
    let ghost sp = bin.spacing as int;
    let ghost s = sorted@;
    let n = sorted.len();
    proof {
        lemma_sum_permutation(s, bin.demand_pieces@);
        assert(used_length(s, sp) == bin.used);
    }
    let mut cuts: Vec<CutPiece> = Vec::new();
    let mut location: usize = 0;
    let mut k: usize = 0;
    proof {
        assert(s.take(0) =~= Seq::<DemandPiece>::empty());
    }
    while k < n
        invariant
            n == s.len(),
            s == sorted@,
            n > 0,
            sp == bin.spacing,
            k <= n,
            bin.wf(),
            used_length(s, sp) == bin.used,
            cut_pieces(cuts@) == s.take(k as int),
            k < n ==> location == sum_lengths(s.take(k as int)) + k * sp,
            forall|q: int| 0 <= q < cuts@.len() ==> (#[trigger] cuts@[q]).location == sum_lengths(
                s.take(q),
            ) + q * sp,
        decreases n - k,
    {
        let p = sorted[k];
        proof {
            lemma_sum_prefix(s, k as int + 1);
            assert(s.take(k as int + 1).drop_last() =~= s.take(k as int));
            assert(sum_lengths(s.take(k as int + 1)) == sum_lengths(s.take(k as int)) + p.length);
            assert(k * sp <= sp * (n - 1)) by (nonlinear_arith)
                requires
                    k < n,
                    sp >= 0,
            ;
            assert(location + p.length <= bin.used);
        }
        let ghost c0 = cuts@;
        cuts.push(CutPiece { id: p.id, location, length: p.length });
        proof {
            assert(cut_pieces(cuts@) =~= s.take(k as int + 1));
        }
        if k + 1 < n {
            proof {
                let next = s[k as int + 1];
                lemma_sum_prefix(s, k as int + 2);
                assert(s.take(k as int + 2).drop_last() =~= s.take(k as int + 1));
                lemma_sum_lengths_nonneg(s.take(k as int));
                assert(k * sp + sp <= sp * (n - 1)) by (nonlinear_arith)
                    requires
                        k + 1 < n,
                        sp >= 0,
                ;
                assert(location + p.length + bin.spacing <= bin.used);
                assert((k + 1) * sp == k * sp + sp) by (nonlinear_arith);
            }
            location = location + p.length + bin.spacing;
        }
        k = k + 1;
    }
    proof {
        assert(s.take(n as int) =~= s);
        assert(cut_pieces(cuts@) == s);
        assert forall|q: int| 0 <= q < cuts@.len() implies cut_pieces(cuts@).take(q) == s.take(q) by {}
        assert forall|i: int, j: int| 0 <= i < j < cuts@.len() implies cuts@[i].length >= cuts@[j].length by {
            assert(cut_pieces(cuts@)[i] == s[i]);
            assert(cut_pieces(cuts@)[j] == s[j]);
        }
    }
    StockPiece { length: bin.length, demand_pieces: cuts }
}

/// `count` candidates, each packed by first fit from its own shuffle of the
/// catalog, all drawn from one generator seeded with `seed`. `None` exactly
/// when some catalog piece is longer than every stock length.
pub fn generate_random_units(pr: &Problem, count: usize, seed: u64) -> (r: Option<Vec<BinPackerUnit>>)
    requires
        pr.wf(),
        count > 0,
    ensures
        r.is_none() <==> exists|i: int| 0 <= i < pr.demand_pieces@.len() && !pr.holds(#[trigger] pr.demand_pieces@[i].length),
        r.is_some() ==> r.unwrap()@.len() == count && forall|i: int| 0 <= i < count ==> (#[trigger] r.unwrap()@[i]).valid(pr),
{
    broadcast use vstd::seq_lib::group_to_multiset_ensures, vstd::multiset::group_multiset_axioms;

    let mut rng = seeded_rng(seed);
    let mut order: Vec<DemandPiece> = Vec::new();
    let mut k: usize = 0;
    while k < pr.demand_pieces.len()
        invariant
            k <= pr.demand_pieces@.len(),
            order@ == pr.demand_pieces@.take(k as int),
        decreases pr.demand_pieces@.len() - k,
    {
        order.push(pr.demand_pieces[k]);
        proof {
            assert(pr.demand_pieces@.take(k as int + 1) =~= pr.demand_pieces@.take(k as int).push(pr.demand_pieces@[k as int]));
        }
        k = k + 1;
    }
    proof {
        assert(order@ =~= pr.demand_pieces@);
    }
    let mut units: Vec<BinPackerUnit> = Vec::new();
    let mut i: usize = 0;
    while i < count
        invariant
            pr.wf(),
            i <= count,
            order@.to_multiset() == pr.catalog(),
            units@.len() == i,
            forall|q: int| 0 <= q < i ==> (#[trigger] units@[q]).valid(pr),
        decreases count - i,
    {
        shuffle_pieces(&mut rng, &mut order);
        proof {
            assert forall|q: int| 0 <= q < order@.len() implies pr.in_catalog(#[trigger] order@[q]) by {
                assert(order@.contains(order@[q]));
                vstd::seq_lib::to_multiset_contains(order@, order@[q]);
                vstd::seq_lib::to_multiset_contains(pr.demand_pieces@, order@[q]);
                assert(pr.demand_pieces@.contains(order@[q]));
                let w = choose|w: int| 0 <= w < pr.demand_pieces@.len() && pr.demand_pieces@[w] == order@[q];
            }
        }
        match BinPackerUnit::new(pr, &order, &mut rng) {
            Some(unit) => {
                units.push(unit);
            },
            None => {
                proof {
                    let q = choose|q: int| 0 <= q < order@.len() && !pr.holds(#[trigger] order@[q].length);
                    assert(order@.contains(order@[q]));
                    vstd::seq_lib::to_multiset_contains(order@, order@[q]);
                    vstd::seq_lib::to_multiset_contains(pr.demand_pieces@, order@[q]);
                    assert(pr.demand_pieces@.contains(order@[q]));
                    let w = choose|w: int| 0 <= w < pr.demand_pieces@.len() && pr.demand_pieces@[w] == order@[q];
                    assert(!pr.holds(pr.demand_pieces@[w].length));
                }
                return None;
            },
        }
        i = i + 1;
    }
    proof {
        if exists|q: int| 0 <= q < pr.demand_pieces@.len() && !pr.holds(#[trigger] pr.demand_pieces@[q].length) {
            let q = choose|q: int| 0 <= q < pr.demand_pieces@.len() && !pr.holds(#[trigger] pr.demand_pieces@[q].length);
            assert(pr.demand_pieces@.contains(pr.demand_pieces@[q]));
            vstd::seq_lib::to_multiset_contains(pr.demand_pieces@, pr.demand_pieces@[q]);
            assert(pr.catalog().count(pr.demand_pieces@[q]) > 0);
            assert(units@[0].valid(pr));
            crate::unit::lemma_pieces_in_catalog(units@[0].bins@, pr);
            lemma_held_piece_fits(units@[0].bins@, pr, pr.demand_pieces@[q]);
        }
    }
    Some(units)
}

/// A piece held by valid bins fits some stock length.
proof fn lemma_held_piece_fits(bins: Seq<Bin>, pr: &Problem, x: DemandPiece)
    requires
        crate::unit::bins_ok(bins, pr),
        crate::unit::pieces_of(bins).count(x) > 0,
    ensures
        pr.holds(x.length),
    decreases bins.len(),
{
    broadcast use vstd::seq_lib::group_to_multiset_ensures, vstd::multiset::group_multiset_axioms;

    let b = bins[bins.len() - 1];
    assert(crate::unit::pieces_of(bins) == crate::unit::pieces_of(bins.drop_last()).add(b.demand_pieces@.to_multiset()));
    if b.demand_pieces@.to_multiset().count(x) > 0 {
        assert(bin_ok(b, pr));
        assert(b.demand_pieces@.contains(x));
        let j = choose|j: int| 0 <= j < b.demand_pieces@.len() && b.demand_pieces@[j] == x;
        assert(b.demand_pieces@[j].length <= b.length);
        let q = choose|q: int| 0 <= q < pr.stock_lengths@.len() && pr.stock_lengths@[q] == b.length;
    } else {
        assert(crate::unit::bins_ok(bins.drop_last(), pr)) by {
            assert forall|i: int| 0 <= i < bins.drop_last().len() implies bin_ok(#[trigger] bins.drop_last()[i], pr) by {
                assert(bins.drop_last()[i] == bins[i]);
            }
        }
        lemma_held_piece_fits(bins.drop_last(), pr, x);
    }
}

/// Squared utilisation of one stock piece of a plan.
pub open spec fn stock_fitness(sp: StockPiece, spacing: int) -> int {
    fitness_of(used_length(cut_pieces(sp.demand_pieces@), spacing), sp.length as int)
}

pub open spec fn plan_fitness_sum(plan: Seq<StockPiece>, spacing: int) -> int
    decreases plan.len(),
{
    if plan.len() == 0 {
        0
    } else {
        plan_fitness_sum(plan.drop_last(), spacing) + stock_fitness(plan.last(), spacing)
    }
}

/// Mean fitness of the stock pieces of a plan.
pub open spec fn plan_fitness(plan: Seq<StockPiece>, spacing: int) -> int {
    if plan.len() == 0 {
        0
    } else {
        plan_fitness_sum(plan, spacing) / plan.len() as int
    }
}

/// A plan for the given lengths: every demand piece cut exactly once, every
/// stock piece of an allowed length with its cuts laid out within it, and a
/// fitness between zero and one.
pub open spec fn solution_ok(sol: Solution, stock: Seq<usize>, demand: Seq<usize>, spacing: int) -> bool {
    &&& plan_pieces(sol.repos_pieces@) == catalog_of(demand).to_multiset()
    &&& forall|q: int|
        0 <= q < sol.repos_pieces@.len() ==> layout_ok(#[trigger] sol.repos_pieces@[q], spacing)
            && stock.contains(sol.repos_pieces@[q].length)
    &&& sol.fitness <= FITNESS_SCALE
    &&& sol.fitness == plan_fitness(sol.repos_pieces@, spacing)
}

/// Collects stock lengths, demand lengths, blade width and seed, all in
/// integer working units, and runs the search on them.
#[derive(Debug)]
pub struct Optimizer {
    pub stock_lengths: Vec<usize>,
    pub demand_lengths: Vec<usize>,
    pub spacing: usize,
    pub random_seed: u64,
}

impl Optimizer {
    /// An optimizer with no lengths, no blade width and seed zero.
    pub fn new() -> (r: Optimizer)
        ensures
            r.stock_lengths@.len() == 0,
            r.demand_lengths@.len() == 0,
            r.spacing == 0,
            r.random_seed == 0,
    {
        Optimizer { stock_lengths: Vec::new(), demand_lengths: Vec::new(), spacing: 0, random_seed: 0 }
    }

    pub fn add_stock_length(&mut self, length: usize)
        ensures
            final(self).stock_lengths@ == old(self).stock_lengths@.push(length),
            final(self).demand_lengths@ == old(self).demand_lengths@,
            final(self).spacing == old(self).spacing,
            final(self).random_seed == old(self).random_seed,
    {
        self.stock_lengths.push(length);
    }

    pub fn add_stock_lengths(&mut self, lengths: &Vec<usize>)
        ensures
            final(self).stock_lengths@ == old(self).stock_lengths@ + lengths@,
            final(self).demand_lengths@ == old(self).demand_lengths@,
            final(self).spacing == old(self).spacing,
            final(self).random_seed == old(self).random_seed,
    {
        let mut i: usize = 0;
        while i < lengths.len()
            invariant
                i <= lengths@.len(),
                self.stock_lengths@ == old(self).stock_lengths@ + lengths@.take(i as int),
                self.demand_lengths@ == old(self).demand_lengths@,
                self.spacing == old(self).spacing,
                self.random_seed == old(self).random_seed,
            decreases lengths@.len() - i,
        {
            self.add_stock_length(lengths[i]);
            proof {
                assert(lengths@.take(i as int + 1) =~= lengths@.take(i as int).push(lengths@[i as int]));
            }
            i = i + 1;
        }
        proof {
            assert(lengths@.take(i as int) =~= lengths@);
        }
    }

    pub fn add_cut_length(&mut self, length: usize)
        ensures
            final(self).demand_lengths@ == old(self).demand_lengths@.push(length),
            final(self).stock_lengths@ == old(self).stock_lengths@,
            final(self).spacing == old(self).spacing,
            final(self).random_seed == old(self).random_seed,
    {
        self.demand_lengths.push(length);
    }

    pub fn add_cut_lengths(&mut self, lengths: &Vec<usize>)
        ensures
            final(self).demand_lengths@ == old(self).demand_lengths@ + lengths@,
            final(self).stock_lengths@ == old(self).stock_lengths@,
            final(self).spacing == old(self).spacing,
            final(self).random_seed == old(self).random_seed,
    {
        let mut i: usize = 0;
        while i < lengths.len()
            invariant
                i <= lengths@.len(),
                self.demand_lengths@ == old(self).demand_lengths@ + lengths@.take(i as int),
                self.stock_lengths@ == old(self).stock_lengths@,
                self.spacing == old(self).spacing,
                self.random_seed == old(self).random_seed,
            decreases lengths@.len() - i,
        {
            self.add_cut_length(lengths[i]);
            proof {
                assert(lengths@.take(i as int + 1) =~= lengths@.take(i as int).push(lengths@[i as int]));
            }
            i = i + 1;
        }
        proof {
            assert(lengths@.take(i as int) =~= lengths@);
        }
    }

    pub fn set_blade_width(&mut self, width: usize)
        ensures
            final(self).spacing == width,
            final(self).stock_lengths@ == old(self).stock_lengths@,
            final(self).demand_lengths@ == old(self).demand_lengths@,
            final(self).random_seed == old(self).random_seed,
    {
        self.spacing = width;
    }

    /// Runs the search and lays out its best candidate. Fails with
    /// `NoDemandPieces` when there is nothing to cut, `ZeroStockLength` when a
    /// stock length is zero, and `Infeasible` when some demand piece is
    /// longer than every stock length; otherwise the plan cuts every demand
    /// piece exactly once, each stock piece within its length.
    pub fn optimize(&self) -> (r: Result<Solution, OptimizeError>)
        ensures
            r == Err::<Solution, OptimizeError>(OptimizeError::NoDemandPieces) <==> self.demand_lengths@.len() == 0,
            r == Err::<Solution, OptimizeError>(OptimizeError::ZeroStockLength) <==> self.demand_lengths@.len() > 0
                && exists|i: int| 0 <= i < self.stock_lengths@.len() && #[trigger] self.stock_lengths@[i] == 0,
            r == Err::<Solution, OptimizeError>(OptimizeError::Infeasible) <==> self.demand_lengths@.len() > 0
                && (forall|i: int| 0 <= i < self.stock_lengths@.len() ==> #[trigger] self.stock_lengths@[i] > 0)
                && exists|i: int| 0 <= i < self.demand_lengths@.len() && !fits_some(self.stock_lengths@, #[trigger] self.demand_lengths@[i]),
            r.is_ok() ==> solution_ok(r.unwrap(), self.stock_lengths@, self.demand_lengths@, self.spacing as int),
    {
        if self.demand_lengths.len() == 0 {
            return Err(OptimizeError::NoDemandPieces);
        }
        let mut stock_lengths: Vec<usize> = Vec::new();
        let mut i: usize = 0;
        while i < self.stock_lengths.len()
            invariant
                i <= self.stock_lengths@.len(),
                self.demand_lengths@.len() > 0,
                stock_lengths@ == self.stock_lengths@.take(i as int),
                forall|k: int| 0 <= k < i ==> #[trigger] self.stock_lengths@[k] > 0,
            decreases self.stock_lengths@.len() - i,
        {
            let length = self.stock_lengths[i];
            if length == 0 {
                return Err(OptimizeError::ZeroStockLength);
            }
            stock_lengths.push(length);
            proof {
                assert(self.stock_lengths@.take(i as int + 1) =~= self.stock_lengths@.take(i as int).push(length));
            }
            i = i + 1;
        }
        proof {
            assert(stock_lengths@ =~= self.stock_lengths@);
        }
        let mut demand_pieces: Vec<DemandPiece> = Vec::new();
        let mut k: usize = 0;
        while k < self.demand_lengths.len()
            invariant
                k <= self.demand_lengths@.len(),
                demand_pieces@ == catalog_of(self.demand_lengths@).take(k as int),
            decreases self.demand_lengths@.len() - k,
        {
            demand_pieces.push(DemandPiece { id: k, length: self.demand_lengths[k] });
            proof {
                assert(demand_pieces@ =~= catalog_of(self.demand_lengths@).take(k as int + 1));
            }
            k = k + 1;
        }
        proof {
            assert(demand_pieces@ =~= catalog_of(self.demand_lengths@));
        }
        let pr = Problem { stock_lengths, demand_pieces, spacing: self.spacing };
        proof {
            assert(pr.stock_lengths@ == self.stock_lengths@);
            assert(pr.demand_pieces@ == catalog_of(self.demand_lengths@));
        }
        let units = match generate_random_units(&pr, POPULATION_SIZE, self.random_seed) {
            Some(units) => units,
            None => {
                proof {
                    let q = choose|q: int| 0 <= q < pr.demand_pieces@.len() && !pr.holds(#[trigger] pr.demand_pieces@[q].length);
                    assert(pr.demand_pieces@[q].length == self.demand_lengths@[q]);
                    assert(!fits_some(self.stock_lengths@, self.demand_lengths@[q]));
                }
                return Err(OptimizeError::Infeasible);
            },
        };
        proof {
            assert forall|q: int| 0 <= q < self.demand_lengths@.len() implies fits_some(self.stock_lengths@, #[trigger] self.demand_lengths@[q]) by {
                assert(pr.demand_pieces@[q].length == self.demand_lengths@[q]);
                assert(pr.holds(pr.demand_pieces@[q].length));
            }
        }
        let mut population = Population::new(
            &pr,
            units,
            POPULATION_SIZE,
            BREED_PERCENT,
            SURVIVAL_PERCENT,
            self.random_seed,
        );
        population.epochs(&pr, EPOCHS);
        let result_units = population.finish(&pr);
        let best = &result_units[0];
        let mut repos_pieces: Vec<StockPiece> = Vec::new();
        let mut b: usize = 0;
        proof {
            assert(best.bins@.take(0) =~= Seq::<Bin>::empty());
        }
        while b < best.bins.len()
            invariant
                pr.wf(),
                pr.stock_lengths@ == self.stock_lengths@,
                pr.spacing == self.spacing,
                best.valid(&pr),
                b <= best.bins@.len(),
                repos_pieces@.len() == b,
                plan_pieces(repos_pieces@) == crate::unit::pieces_of(best.bins@.take(b as int)),
                plan_fitness_sum(repos_pieces@, self.spacing as int) == crate::unit::fitness_sum(best.bins@.take(b as int)),
                forall|q: int| 0 <= q < b ==> layout_ok(#[trigger] repos_pieces@[q], self.spacing as int)
                    && self.stock_lengths@.contains(repos_pieces@[q].length),
            decreases best.bins@.len() - b,
        {
            proof {
                assert(bin_ok(best.bins@[b as int], &pr));
            }
            let piece = layout_bin(&best.bins[b]);
            let ghost laid = repos_pieces@;
            repos_pieces.push(piece);
            proof {
                assert(repos_pieces@.drop_last() =~= laid);
                assert(best.bins@.take(b as int + 1).drop_last() =~= best.bins@.take(b as int));
                assert(best.bins@.take(b as int + 1) =~= best.bins@.take(b as int).push(best.bins@[b as int]));
                crate::unit::lemma_pieces_of_push(best.bins@.take(b as int), best.bins@[b as int]);
            }
            b = b + 1;
        }
        proof {
            assert(best.bins@.take(b as int) =~= best.bins@);
            assert forall|q: int| 0 <= q < best.bins@.len() implies (#[trigger] best.bins@[q]).wf() by {
                assert(bin_ok(best.bins@[q], &pr));
            }
        }
        let fitness = best.fitness();
        Ok(Solution { fitness, repos_pieces })
    }

    pub fn set_random_seed(&mut self, seed: u64)
        ensures
            final(self).random_seed == seed,
            final(self).stock_lengths@ == old(self).stock_lengths@,
            final(self).demand_lengths@ == old(self).demand_lengths@,
            final(self).spacing == old(self).spacing,
    {
        self.random_seed = seed;
    }
}

} // verus!
