//! The evolutionary loop: ranked selection, breeding, survival, replenishment.
use crate::random::{random_index, seeded_rng};
use crate::unit::{bred_from, mean_fitness, BinPackerUnit, Problem};
use vstd::multiset::Multiset;
use rand::rngs::StdRng;
use vstd::prelude::*;

verus! {

broadcast use vstd::seq_lib::group_to_multiset_ensures, vstd::multiset::group_multiset_axioms;

/// Fitness values in descending order.
pub open spec fn descending(f: Seq<u64>) -> bool {
    forall|i: int, j: int| 0 <= i < j < f.len() ==> f[i] >= f[j]
}

/// `c` is a child of two of `parents`.
pub open spec fn child_of(pr: &Problem, parents: Seq<BinPackerUnit>, c: BinPackerUnit) -> bool {
    exists|i: int, j: int|
        0 <= i < parents.len() && 0 <= j < parents.len() && #[trigger] bred_from(
            pr,
            parents[i].bins@,
            parents[j].bins@,
            c.bins@,
        )
}

/// `percent` of `size`, capped at `size`.
pub open spec fn share_of(size: int, percent: int) -> int {
    if percent <= 100 {
        size * percent / 100
    } else {
        size
    }
}

/// How many candidates survive an epoch: the survival share, at least one
/// and at most `size`.
pub open spec fn keep_of(size: int, percent: int) -> int {
    if share_of(size, percent) == 0 {
        1
    } else {
        share_of(size, percent)
    }
}

pub fn share(size: usize, percent: usize) -> (r: usize)
    ensures
        r == share_of(size as int, percent as int),
        r <= size,
{
    if percent <= 100 {
        proof {
            assert(size * percent <= size * 100) by (nonlinear_arith)
                requires
                    percent <= 100,
            ;
        }
        ((size as u128) * (percent as u128) / 100) as usize
    } else {
        size
    }
}

pub fn keep_count(size: usize, percent: usize) -> (r: usize)
    requires
        size > 0,
    ensures
        r == keep_of(size as int, percent as int),
        1 <= r <= size,
{
    let s = share(size, percent);
    if s == 0 {
        1
    } else {
        s
    }
}

/// One epoch from `before` to `after`: `bred` are children of `before`;
/// `pool` holds `before` and `bred`, best first; its first `kept` survive;
/// `refill` are children of the survivors; `after` holds the survivors and
/// `refill`.
pub open spec fn epoch_step(
    pr: &Problem,
    size: usize,
    breed_percent: usize,
    survival_percent: usize,
    before: Seq<BinPackerUnit>,
    bred: Seq<BinPackerUnit>,
    pool: Seq<BinPackerUnit>,
    kept: int,
    refill: Seq<BinPackerUnit>,
    after: Seq<BinPackerUnit>,
) -> bool {
    &&& bred.len() == share_of(size as int, breed_percent as int)
    &&& forall|k: int| 0 <= k < bred.len() ==> #[trigger] child_of(pr, before, bred[k])
    &&& pool.to_multiset() == before.to_multiset().add(bred.to_multiset())
    &&& forall|i: int, j: int|
        0 <= i < j < pool.len() ==> mean_fitness(pool[i].bins@) >= mean_fitness(pool[j].bins@)
    &&& kept == if pool.len() < keep_of(size as int, survival_percent as int) {
        pool.len() as int
    } else {
        keep_of(size as int, survival_percent as int)
    }
    &&& refill.len() == size - kept
    &&& forall|k: int| 0 <= k < refill.len() ==> #[trigger] child_of(pr, pool.take(kept), refill[k])
    &&& after.to_multiset() == pool.take(kept).to_multiset().add(refill.to_multiset())
}

/// `after` follows from `before` by one epoch.
pub open spec fn epoch_of(
    pr: &Problem,
    size: usize,
    breed_percent: usize,
    survival_percent: usize,
    before: Seq<BinPackerUnit>,
    after: Seq<BinPackerUnit>,
) -> bool {
    exists|bred: Seq<BinPackerUnit>, pool: Seq<BinPackerUnit>, kept: int, refill: Seq<BinPackerUnit>|
        #[trigger] epoch_step(pr, size, breed_percent, survival_percent, before, bred, pool, kept, refill, after)
}

/// `hist` runs through `count` epochs from `first` to `last`.
pub open spec fn generations(
    pr: &Problem,
    size: usize,
    breed_percent: usize,
    survival_percent: usize,
    hist: Seq<Seq<BinPackerUnit>>,
    count: int,
    first: Seq<BinPackerUnit>,
    last: Seq<BinPackerUnit>,
) -> bool {
    &&& hist.len() == count + 1
    &&& hist[0] == first
    &&& hist[count] == last
    &&& forall|q: int| 0 <= q < count ==> #[trigger] epoch_of(pr, size, breed_percent, survival_percent, hist[q], hist[q + 1])
}

/// A generation of candidates, kept in descending order of fitness.
pub struct Population {
    pub units: Vec<BinPackerUnit>,
    pub fitness: Vec<u64>,
    pub size: usize,
    pub breed_percent: usize,
    pub survival_percent: usize,
    pub rng: StdRng,
}

impl Population {
    /// Each candidate is valid, its cached fitness is its mean bin fitness,
    /// and the candidates are ordered best first.
    pub open spec fn wf(&self, pr: &Problem) -> bool {
        &&& pr.wf()
        &&& pr.demand_pieces@.len() > 0
        &&& self.units@.len() == self.fitness@.len()
        &&& self.units@.len() > 0
        &&& self.size > 0
        &&& forall|i: int| 0 <= i < self.units@.len() ==> (#[trigger] self.units@[i]).valid(pr)
        &&& forall|i: int|
            0 <= i < self.units@.len() ==> self.fitness@[i] == mean_fitness(
                #[trigger] self.units@[i].bins@,
            )
        &&& descending(self.fitness@)
    }

    /// A population of the given candidates, ordered best first, with room
    /// for `size` of them; `breed_percent` and `survival_percent` are the
    /// shares of `size` that are bred and that survive in each epoch.
    pub fn new(
        pr: &Problem,
        units: Vec<BinPackerUnit>,
        size: usize,
        breed_percent: usize,
        survival_percent: usize,
        seed: u64,
    ) -> (r: Population)
        requires
            pr.wf(),
            pr.demand_pieces@.len() > 0,
            units@.len() > 0,
            size > 0,
            forall|i: int| 0 <= i < units@.len() ==> (#[trigger] units@[i]).valid(pr),
        ensures
            r.wf(pr),
            r.units@.len() == units@.len(),
            r.units@.to_multiset() == units@.to_multiset(),
            r.size == size,
    {
        let mut pop = Population {
            units: Vec::new(),
            fitness: Vec::new(),
            size,
            breed_percent,
            survival_percent,
            rng: seeded_rng(seed),
        };
        let mut units = units;
        let ghost all = units@;
        let mut n: usize = 0;
        while units.len() > 0
            invariant
                pr.wf(),
                pop.units@.len() == pop.fitness@.len(),
                pop.units@.len() + units@.len() == all.len(),
                units@ == all.take(units@.len() as int),
                forall|i: int| 0 <= i < all.len() ==> (#[trigger] all[i]).valid(pr),
                forall|i: int| 0 <= i < pop.units@.len() ==> (#[trigger] pop.units@[i]).valid(pr),
                forall|i: int|
                    0 <= i < pop.units@.len() ==> pop.fitness@[i] == mean_fitness(
                        #[trigger] pop.units@[i].bins@,
                    ),
                descending(pop.fitness@),
                pop.size == size,
                pop.units@.to_multiset().add(units@.to_multiset()) == all.to_multiset(),
            decreases units@.len(),
        {
            let ghost u0 = units@;
            let ghost s0 = pop.units@;
            let unit = units.pop().unwrap();
            proof {
                assert(u0 =~= units@.push(unit));
                assert(all[units@.len() as int] == unit);
                assert(units@ =~= all.take(units@.len() as int));
            }
            pop.insert_sorted(pr, unit);
            proof {
                assert(pop.units@.to_multiset().add(units@.to_multiset()) =~= s0.to_multiset().add(u0.to_multiset()));
            }
        }
        proof {
            assert(units@.to_multiset() =~= Multiset::empty());
            assert(pop.units@.to_multiset() =~= pop.units@.to_multiset().add(units@.to_multiset()));
        }
        pop
    }

    /// Puts `unit` after every candidate at least as fit.
    fn insert_sorted(&mut self, pr: &Problem, unit: BinPackerUnit)
        requires
            unit.valid(pr),
            old(self).units@.len() == old(self).fitness@.len(),
            forall|i: int| 0 <= i < old(self).units@.len() ==> (#[trigger] old(self).units@[i]).valid(pr),
            forall|i: int|
                0 <= i < old(self).units@.len() ==> old(self).fitness@[i] == mean_fitness(
                    #[trigger] old(self).units@[i].bins@,
                ),
            descending(old(self).fitness@),
        ensures
            final(self).units@.len() == final(self).fitness@.len(),
            final(self).units@.len() == old(self).units@.len() + 1,
            forall|i: int| 0 <= i < final(self).units@.len() ==> (#[trigger] final(self).units@[i]).valid(pr),
            forall|i: int|
                0 <= i < final(self).units@.len() ==> final(self).fitness@[i] == mean_fitness(
                    #[trigger] final(self).units@[i].bins@,
                ),
            descending(final(self).fitness@),
            final(self).units@.to_multiset() == old(self).units@.to_multiset().insert(unit),
            final(self).size == old(self).size,
            final(self).breed_percent == old(self).breed_percent,
            final(self).survival_percent == old(self).survival_percent,
    {
        proof {
            assert forall|i: int| 0 <= i < unit.bins@.len() implies (#[trigger] unit.bins@[i]).wf() by {
                assert(crate::unit::bin_ok(unit.bins@[i], pr));
            }
        }
        let f = unit.fitness();
        let n = self.fitness.len();
        let mut pos: usize = 0;
        while pos < n && self.fitness[pos] >= f
            invariant
                n == self.fitness@.len(),
                pos <= n,
                forall|k: int| 0 <= k < pos ==> self.fitness@[k] >= f,
            decreases n - pos,
        {
            pos = pos + 1;
        }
        let ghost f0 = self.fitness@;
        let ghost u0 = self.units@;
        self.fitness.insert(pos, f);
        self.units.insert(pos, unit);
        proof {
            assert forall|i: int, j: int| 0 <= i < j < self.fitness@.len() implies self.fitness@[i] >= self.fitness@[j] by {
                if pos < n {
                    assert(f0[pos as int] < f);
                }
            }
            assert forall|i: int| 0 <= i < self.units@.len() implies (#[trigger] self.units@[i]).valid(pr)
                && self.fitness@[i] == mean_fitness(self.units@[i].bins@) by {
                if i < pos {
                    assert(self.units@[i] == u0[i]);
                } else if i > pos {
                    assert(self.units@[i] == u0[i - 1]);
                }
            }
        }
    }

    /// `count` children, each bred from two of `parents`, chosen with a bias
    /// toward the front (the fitter end) of `parents`.
    pub fn breed_children(
        pr: &Problem,
        parents: &Vec<BinPackerUnit>,
        count: usize,
        rng: &mut StdRng,
    ) -> (r: Vec<BinPackerUnit>)
        requires
            pr.wf(),
            pr.demand_pieces@.len() > 0,
            parents@.len() > 0,
            forall|i: int| 0 <= i < parents@.len() ==> (#[trigger] parents@[i]).valid(pr),
        ensures
            r@.len() == count,
            forall|k: int| 0 <= k < count ==> (#[trigger] r@[k]).valid(pr),
            forall|k: int| 0 <= k < count ==> #[trigger] child_of(pr, parents@, r@[k]),
    {
        let mut children: Vec<BinPackerUnit> = Vec::new();
        let n = parents.len();
        let mut k: usize = 0;
        while k < count
            invariant
                pr.wf(),
                pr.demand_pieces@.len() > 0,
                n == parents@.len(),
                n > 0,
                forall|i: int| 0 <= i < parents@.len() ==> (#[trigger] parents@[i]).valid(pr),
                k <= count,
                children@.len() == k,
                forall|q: int| 0 <= q < k ==> (#[trigger] children@[q]).valid(pr),
                forall|q: int| 0 <= q < k ==> #[trigger] child_of(pr, parents@, children@[q]),
            decreases count - k,
        {
            let a = random_index(rng, 0, n);
            let b = random_index(rng, 0, n);
            let i = if a < b { a } else { b };
            let c = random_index(rng, 0, n);
            let d = random_index(rng, 0, n);
            let j = if c < d { c } else { d };
            let child = parents[i].breed_with(&parents[j], pr, rng);
            proof {
                assert(bred_from(pr, parents@[i as int].bins@, parents@[j as int].bins@, child.bins@));
            }
            children.push(child);
            proof {
                assert(children@[k as int] == child);
            }
            k = k + 1;
        }
        children
    }

    /// Inserts every one of `units` in order of fitness.
    fn insert_all(&mut self, pr: &Problem, units: Vec<BinPackerUnit>)
        requires
            old(self).wf(pr),
            forall|i: int| 0 <= i < units@.len() ==> (#[trigger] units@[i]).valid(pr),
        ensures
            final(self).wf(pr),
            final(self).units@.to_multiset() == old(self).units@.to_multiset().add(units@.to_multiset()),
            final(self).units@.len() == old(self).units@.len() + units@.len(),
            final(self).size == old(self).size,
            final(self).breed_percent == old(self).breed_percent,
            final(self).survival_percent == old(self).survival_percent,
    {
        let mut units = units;
        let ghost all = units@;
        proof {
            assert(all.take(all.len() as int) =~= all);
        }
        while units.len() > 0
            invariant
                self.wf(pr),
                units@.len() <= all.len(),
                units@ == all.take(units@.len() as int),
                forall|i: int| 0 <= i < all.len() ==> (#[trigger] all[i]).valid(pr),
                self.units@.to_multiset().add(units@.to_multiset()) == old(self).units@.to_multiset().add(all.to_multiset()),
                self.size == old(self).size,
                self.breed_percent == old(self).breed_percent,
                self.survival_percent == old(self).survival_percent,
            decreases units@.len(),
        {
            let ghost u0 = units@;
            let ghost s0 = self.units@;
            let unit = units.pop().unwrap();
            proof {
                assert(u0 =~= units@.push(unit));
                assert(all[units@.len() as int] == unit);
                assert(units@ =~= all.take(units@.len() as int));
            }
            self.insert_sorted(pr, unit);
            proof {
                assert(self.units@.to_multiset().add(units@.to_multiset()) =~= s0.to_multiset().add(u0.to_multiset()));
            }
        }
        proof {
            assert(units@.to_multiset() =~= Multiset::empty());
            assert(self.units@.to_multiset() =~= self.units@.to_multiset().add(units@.to_multiset()));
            assert(self.units@.to_multiset().len() == old(self).units@.to_multiset().len() + all.to_multiset().len());
        }
    }

    /// One epoch: `share(size, breed_percent)` children are bred from the
    /// current candidates and join them; the best `keep_count` of all
    /// survive; then children of the survivors fill the population back to
    /// `size`.
    pub fn epoch(&mut self, pr: &Problem)
        requires
            old(self).wf(pr),
        ensures
            final(self).wf(pr),
            final(self).units@.len() == final(self).size,
            final(self).size == old(self).size,
            final(self).breed_percent == old(self).breed_percent,
            final(self).survival_percent == old(self).survival_percent,
            epoch_of(pr, old(self).size, old(self).breed_percent, old(self).survival_percent, old(self).units@, final(self).units@),
    {
        let ghost before = self.units@;
        let breed_count = share(self.size, self.breed_percent);
        let bred = Population::breed_children(pr, &self.units, breed_count, &mut self.rng);
        let ghost bred_seq = bred@;
        self.insert_all(pr, bred);
        let ghost pool = self.units@;
        let keep = keep_count(self.size, self.survival_percent);
        if self.units.len() > keep {
            self.units.truncate(keep);
            self.fitness.truncate(keep);
        }
        let ghost kept = if pool.len() < keep { pool.len() as int } else { keep as int };
        proof {
            assert(self.units@ == pool.take(kept));
        }
        let refill_count = self.size - self.units.len();
        let refill = Population::breed_children(pr, &self.units, refill_count, &mut self.rng);
        let ghost refill_seq = refill@;
        let ghost survivors = self.units@;
        self.insert_all(pr, refill);
        proof {
            assert(epoch_step(pr, self.size, self.breed_percent, self.survival_percent, before, bred_seq, pool, kept, refill_seq, self.units@));
        }
    }

    /// Runs `count` epochs; `hist` below lists the generations, each
    /// following from the one before by one epoch.
    pub fn epochs(&mut self, pr: &Problem, count: usize)
        requires
            old(self).wf(pr),
        ensures
            final(self).wf(pr),
            final(self).size == old(self).size,
            final(self).breed_percent == old(self).breed_percent,
            final(self).survival_percent == old(self).survival_percent,
            count > 0 ==> final(self).units@.len() == final(self).size,
            exists|hist: Seq<Seq<BinPackerUnit>>| #[trigger] generations(pr, old(self).size, old(self).breed_percent, old(self).survival_percent, hist, count as int, old(self).units@, final(self).units@),
    {
        let ghost mut hist: Seq<Seq<BinPackerUnit>> = seq![self.units@];
        let mut k: usize = 0;
        while k < count
            invariant
                self.wf(pr),
                self.size == old(self).size,
                self.breed_percent == old(self).breed_percent,
                self.survival_percent == old(self).survival_percent,
                k <= count,
                k > 0 ==> self.units@.len() == self.size,
                generations(pr, self.size, self.breed_percent, self.survival_percent, hist, k as int, old(self).units@, self.units@),
            decreases count - k,
        {
            let ghost h0 = hist;
            self.epoch(pr);
            proof {
                hist = hist.push(self.units@);
                assert forall|q: int| 0 <= q < k + 1 implies #[trigger] epoch_of(pr, self.size, self.breed_percent, self.survival_percent, hist[q], hist[q + 1]) by {
                    if q < k {
                        assert(hist[q] == h0[q] && hist[q + 1] == h0[q + 1]);
                    }
                }
            }
            k = k + 1;
        }
    }

    /// The candidates, best first.
    pub fn finish(self, pr: &Problem) -> (r: Vec<BinPackerUnit>)
        requires
            self.wf(pr),
        ensures
            r@ == self.units@,
            r@.len() > 0,
            forall|i: int| 0 <= i < r@.len() ==> (#[trigger] r@[i]).valid(pr),
            forall|i: int, j: int|
                0 <= i < j < r@.len() ==> mean_fitness(r@[i].bins@) >= mean_fitness(r@[j].bins@),
    {
        proof {
            assert forall|i: int, j: int| 0 <= i < j < self.units@.len() implies mean_fitness(
                self.units@[i].bins@,
            ) >= mean_fitness(self.units@[j].bins@) by {
                assert(self.fitness@[i] == mean_fitness(self.units@[i].bins@));
                assert(self.fitness@[j] == mean_fitness(self.units@[j].bins@));
            }
        }
        self.units
    }
}

} // verus!
