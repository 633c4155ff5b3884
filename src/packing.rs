use vstd::prelude::*;

verus! {

broadcast use vstd::seq_lib::group_to_multiset_ensures, vstd::multiset::group_multiset_axioms;

/// Fixed-point value of a fitness of one (parts per billion).
pub const FITNESS_SCALE: u64 = 1_000_000_000;

/// One required cut length, tagged with its index in the catalog.
#[derive(Clone, Copy, Debug, PartialEq, Eq, Structural)]
pub struct DemandPiece {
    pub id: usize,
    pub length: usize,
}

/// Sum of the lengths of a sequence of pieces.
pub open spec fn sum_lengths(s: Seq<DemandPiece>) -> int
    decreases s.len(),
{
    if s.len() == 0 {
        0
    } else {
        sum_lengths(s.drop_last()) + s.last().length
    }
}

/// Length taken by pieces laid end to end with `spacing` between neighbours.
pub open spec fn used_length(s: Seq<DemandPiece>, spacing: int) -> int {
    if s.len() == 0 {
        0
    } else {
        sum_lengths(s) + spacing * (s.len() - 1)
    }
}

/// Squared utilisation of `used` out of `capacity`, in parts per billion.
pub open spec fn fitness_of(used: int, capacity: int) -> int
    recommends
        capacity > 0,
{
    let ratio = used * FITNESS_SCALE / capacity;
    ratio * ratio / FITNESS_SCALE as int
}

pub proof fn lemma_sum_lengths_nonneg(s: Seq<DemandPiece>)
    ensures
        sum_lengths(s) >= 0,
    decreases s.len(),
{
    if s.len() > 0 {
        lemma_sum_lengths_nonneg(s.drop_last());
    }
}

/// Holds of the pieces whose id is not marked.
pub open spec fn unmarked(marked: Seq<bool>) -> spec_fn(DemandPiece) -> bool {
    |p: DemandPiece| !marked[p.id as int]
}

/// A stock piece with demand pieces placed left to right.
#[derive(Debug)]
pub struct Bin {
    pub length: usize,
    pub demand_pieces: Vec<DemandPiece>,
    pub spacing: usize,
    pub used: usize,
}

impl Bin {
    /// The placed pieces, with the spacing between them, fit the stock piece,
    /// and `used` caches the length they take.
    pub open spec fn wf(&self) -> bool {
        &&& self.length > 0
        &&& self.used as int == used_length(self.demand_pieces@, self.spacing as int)
        &&& self.used <= self.length
    }

    /// A bin holding a single piece.
    pub fn with_piece(length: usize, spacing: usize, piece: DemandPiece) -> (r: Bin)
        requires
            0 < length,
            piece.length <= length,
        ensures
            r.wf(),
            r.length == length,
            r.spacing == spacing,
            r.demand_pieces@ == seq![piece],
    {
        let mut demand_pieces: Vec<DemandPiece> = Vec::new();
        demand_pieces.push(piece);
        proof {
            assert(demand_pieces@.drop_last() =~= Seq::<DemandPiece>::empty());
            reveal_with_fuel(sum_lengths, 2);
        }
        Bin { length, demand_pieces, spacing, used: piece.length }
    }

    /// Length taken by the placed pieces, spacing between them included.
    pub fn used_length_including_spacing(&self) -> (r: usize)
        requires
            self.wf(),
        ensures
            r as int == used_length(self.demand_pieces@, self.spacing as int),
    {
        self.used
    }

    /// Squared utilisation of the bin, in parts per billion.
    pub fn fitness(&self) -> (r: u64)
        requires
            self.wf(),
        ensures
            r as int == fitness_of(self.used as int, self.length as int),
            r <= FITNESS_SCALE,
    {
        let ratio: u128 = (self.used as u128) * (FITNESS_SCALE as u128) / (self.length as u128);
        proof {
            assert((self.used as int) * FITNESS_SCALE <= (self.length as int) * FITNESS_SCALE)
                by (nonlinear_arith)
                requires
                    self.used <= self.length,
            ;
            assert(ratio <= FITNESS_SCALE) by (nonlinear_arith)
                requires
                    ratio == (self.used as int) * FITNESS_SCALE / (self.length as int),
                    (self.used as int) * FITNESS_SCALE <= (self.length as int) * FITNESS_SCALE,
                    self.length > 0,
            ;
            assert(ratio * ratio <= FITNESS_SCALE * FITNESS_SCALE) by (nonlinear_arith)
                requires
                    ratio <= FITNESS_SCALE,
            ;
            assert(ratio * ratio / (FITNESS_SCALE as int) <= FITNESS_SCALE) by (nonlinear_arith)
                requires
                    ratio * ratio <= FITNESS_SCALE * FITNESS_SCALE,
            ;
        }
        let r: u128 = ratio * ratio / (FITNESS_SCALE as u128);
        r as u64
    }

    /// Appends `piece` after the placed ones when it fits, and returns where it
    /// starts; otherwise leaves the bin as it was.
    pub fn insert(&mut self, piece: DemandPiece) -> (r: Option<usize>)
        requires
            old(self).wf(),
        ensures
            final(self).wf(),
            final(self).length == old(self).length,
            final(self).spacing == old(self).spacing,
            ({
                let start = if old(self).demand_pieces@.len() == 0 {
                    0
                } else {
                    old(self).used + old(self).spacing
                };
                &&& r.is_some() <==> start + piece.length <= old(self).length
                &&& r.is_some() ==> r.unwrap() == start
                    && final(self).demand_pieces@ == old(self).demand_pieces@.push(piece)
                &&& r.is_none() ==> *final(self) == *old(self)
            }),
    {
        let ghost s = self.demand_pieces@;
        let start: usize = if self.demand_pieces.len() == 0 {
            0
        } else {
            if self.spacing > self.length - self.used {
                return None;
            }
            self.used + self.spacing
        };
        if self.length - start >= piece.length {
            self.demand_pieces.push(piece);
            proof {
                assert(self.demand_pieces@.drop_last() =~= s);
                lemma_sum_lengths_nonneg(s);
                if s.len() == 0 {
                    assert(used_length(self.demand_pieces@, self.spacing as int) == piece.length);
                } else {
                    let sp = self.spacing as int;
                    assert(sum_lengths(self.demand_pieces@) == sum_lengths(s) + piece.length);
                    assert(used_length(self.demand_pieces@, sp) == used_length(s, sp) + sp
                        + piece.length) by (nonlinear_arith)
                        requires
                            used_length(self.demand_pieces@, sp) == sum_lengths(
                                self.demand_pieces@,
                            ) + sp * (self.demand_pieces@.len() - 1),
                            used_length(s, sp) == sum_lengths(s) + sp * (s.len() - 1),
                            self.demand_pieces@.len() == s.len() + 1,
                            sum_lengths(self.demand_pieces@) == sum_lengths(s) + piece.length,
                    ;
                }
            }
            self.used = start + piece.length;
            Some(start)
        } else {
            None
        }
    }

    /// A bin equal to this one.
    pub fn copy(&self) -> (r: Bin)
        ensures
            r.length == self.length,
            r.spacing == self.spacing,
            r.used == self.used,
            r.demand_pieces@ == self.demand_pieces@,
    {
        let mut demand_pieces: Vec<DemandPiece> = Vec::new();
        let mut i: usize = 0;
        while i < self.demand_pieces.len()
            invariant
                i <= self.demand_pieces@.len(),
                demand_pieces@ == self.demand_pieces@.take(i as int),
            decreases self.demand_pieces@.len() - i,
        {
            demand_pieces.push(self.demand_pieces[i]);
            proof {
                assert(self.demand_pieces@.take(i as int + 1) =~= self.demand_pieces@.take(i as int).push(self.demand_pieces@[i as int]));
            }
            i = i + 1;
        }
        proof {
            assert(self.demand_pieces@.take(i as int) =~= self.demand_pieces@);
        }
        Bin { length: self.length, demand_pieces, spacing: self.spacing, used: self.used }
    }

    /// The pieces whose id is not marked, in order, and how many are marked.
    pub fn remove_demand_pieces(&self, marked: &Vec<bool>) -> (r: (usize, Vec<DemandPiece>))
        requires
            forall|i: int|
                0 <= i < self.demand_pieces@.len() ==> (#[trigger] self.demand_pieces@[i]).id
                    < marked@.len(),
        ensures
            r.1@ == self.demand_pieces@.filter(unmarked(marked@)),
            r.0 == self.demand_pieces@.len() - r.1@.len(),
            r.0 == 0 <==> r.1@ == self.demand_pieces@,
            forall|j: int| 0 <= j < r.1@.len() ==> self.demand_pieces@.contains(#[trigger] r.1@[j]),
            forall|x: DemandPiece|
                #[trigger] r.1@.to_multiset().count(x) == if marked@[x.id as int] {
                    0
                } else {
                    self.demand_pieces@.to_multiset().count(x)
                },
    {
        let ghost s = self.demand_pieces@;
        let mut kept: Vec<DemandPiece> = Vec::new();
        let n = self.demand_pieces.len();
        proof {
            assert(s.take(0) =~= Seq::<DemandPiece>::empty());
        }
        let mut i: usize = 0;
        while i < n
            invariant
                n == s.len(),
                s == self.demand_pieces@,
                i <= n,
                forall|j: int| 0 <= j < s.len() ==> (#[trigger] s[j]).id < marked@.len(),
                kept@ == s.take(i as int).filter(unmarked(marked@)),
                kept@.len() <= i,
                kept@.len() == i ==> kept@ == s.take(i as int),
                forall|j: int| 0 <= j < kept@.len() ==> s.contains(#[trigger] kept@[j]),
                forall|x: DemandPiece|
                    #[trigger] kept@.to_multiset().count(x) == if marked@[x.id as int] {
                        0
                    } else {
                        s.take(i as int).to_multiset().count(x)
                    },
            decreases n - i,
        {
            let p = self.demand_pieces[i];
            proof {
                assert(s.take(i as int + 1).drop_last() =~= s.take(i as int));
                assert(s.take(i as int + 1).last() == p);
                assert(unmarked(marked@)(p) == !marked@[p.id as int]);
            }
            let ghost k0 = kept@;
            if !marked[p.id] {
                kept.push(p);
            }
            proof {
                assert(s.take(i as int + 1) =~= s.take(i as int).push(p));
                assert(s.contains(p)) by { assert(s[i as int] == p); }
                if kept@.len() == i + 1 {
                    assert(k0.len() == i);
                    assert(kept@ =~= s.take(i as int + 1));
                }
                let f = unmarked(marked@);
                let t1 = s.take(i as int + 1);
                assert(t1 =~= s.take(i as int).push(p));
                s.take(i as int).lemma_filter_push(p, f);
                assert(t1.filter(f) == if f(p) {
                    s.take(i as int).filter(f).push(p)
                } else {
                    s.take(i as int).filter(f)
                });
            }
            i = i + 1;
        }
        proof {
            assert(s.take(n as int) =~= s);
        }
        proof {
            assert(kept@.len() < n ==> kept@ != s);
        }
        (n - kept.len(), kept)
    }
}


/// Summing over a sequence counts the piece at `i` once.
pub proof fn lemma_sum_remove(s: Seq<DemandPiece>, i: int)
    requires
        0 <= i < s.len(),
    ensures
        sum_lengths(s) == sum_lengths(s.remove(i)) + s[i].length,
    decreases s.len(),
{
    if i == s.len() - 1 {
        assert(s.remove(i) =~= s.drop_last());
    } else {
        lemma_sum_remove(s.drop_last(), i);
        assert(s.remove(i).drop_last() =~= s.drop_last().remove(i));
        assert(s.remove(i).last() == s.last());
    }
}

/// Sequences holding the same pieces have the same total length.
pub proof fn lemma_sum_permutation(s1: Seq<DemandPiece>, s2: Seq<DemandPiece>)
    requires
        s1.to_multiset() == s2.to_multiset(),
    ensures
        sum_lengths(s1) == sum_lengths(s2),
        s1.len() == s2.len(),
    decreases s1.len(),
{
    s1.to_multiset_ensures();
    s2.to_multiset_ensures();
    if s1.len() > 0 {
        let x = s1.last();
        assert(s1 =~= s1.drop_last().push(x));
        assert(s1.to_multiset().count(x) > 0);
        assert(s2.contains(x));
        let i = choose|i: int| 0 <= i < s2.len() && s2[i] == x;
        assert(s2.remove(i).to_multiset() == s2.to_multiset().remove(x));
        assert(s1.drop_last().to_multiset() =~= s1.to_multiset().remove(x));
        lemma_sum_permutation(s1.drop_last(), s2.remove(i));
        lemma_sum_remove(s2, i);
    }
}

/// A prefix sum never exceeds the whole sum.
pub proof fn lemma_sum_prefix(s: Seq<DemandPiece>, k: int)
    requires
        0 <= k <= s.len(),
    ensures
        sum_lengths(s.take(k)) <= sum_lengths(s),
        0 <= sum_lengths(s.take(k)),
    decreases s.len() - k,
{
    lemma_sum_lengths_nonneg(s.take(k));
    if k < s.len() {
        lemma_sum_prefix(s, k + 1);
        assert(s.take(k + 1).drop_last() =~= s.take(k));
    } else {
        assert(s.take(k) =~= s);
    }
}

} // verus!
