//! Candidate solutions: full packings of the demand catalog into bins.
use crate::packing::{fitness_of, Bin, DemandPiece, FITNESS_SCALE};
use crate::random::{choose_length, random_index, shuffle_pieces};
use rand::rngs::StdRng;
use vstd::multiset::Multiset;
use vstd::prelude::*;

verus! {

broadcast use vstd::seq_lib::group_to_multiset_ensures, vstd::multiset::group_multiset_axioms;

/// What every candidate packs: the allowed stock lengths, the demand catalog
/// and the blade width, all in working units.
pub struct Problem {
    pub stock_lengths: Vec<usize>,
    pub demand_pieces: Vec<DemandPiece>,
    pub spacing: usize,
}

impl Problem {
    /// Each catalog piece carries its own index as id, and stock lengths are
    /// positive.
    pub open spec fn wf(&self) -> bool {
        &&& forall|i: int|
            0 <= i < self.demand_pieces@.len() ==> (#[trigger] self.demand_pieces@[i]).id == i
        &&& forall|i: int| 0 <= i < self.stock_lengths@.len() ==> #[trigger] self.stock_lengths@[i] > 0
    }

    /// `p` is the catalog's piece with its id.
    pub open spec fn in_catalog(&self, p: DemandPiece) -> bool {
        p.id < self.demand_pieces@.len() && self.demand_pieces@[p.id as int] == p
    }

    /// Some stock length can hold a piece of length `len`.
    pub open spec fn holds(&self, len: usize) -> bool {
        exists|i: int| 0 <= i < self.stock_lengths@.len() && #[trigger] self.stock_lengths@[i] >= len
    }

    /// The multiset of catalog pieces.
    pub open spec fn catalog(&self) -> Multiset<DemandPiece> {
        self.demand_pieces@.to_multiset()
    }
}

/// All pieces held by a sequence of bins.
pub open spec fn pieces_of(bins: Seq<Bin>) -> Multiset<DemandPiece>
    decreases bins.len(),
{
    if bins.len() == 0 {
        Multiset::empty()
    } else {
        pieces_of(bins.drop_last()).add(bins.last().demand_pieces@.to_multiset())
    }
}

/// A bin of a candidate for `pr`: well formed, non-empty, cut from an allowed
/// stock length with the problem's blade width, holding catalog pieces only.
pub open spec fn bin_ok(b: Bin, pr: &Problem) -> bool {
    &&& b.wf()
    &&& b.spacing == pr.spacing
    &&& pr.stock_lengths@.contains(b.length)
    &&& b.demand_pieces@.len() > 0
    &&& forall|j: int| 0 <= j < b.demand_pieces@.len() ==> pr.in_catalog(#[trigger] b.demand_pieces@[j])
    &&& forall|j: int| 0 <= j < b.demand_pieces@.len() ==> (#[trigger] b.demand_pieces@[j]).length <= b.length
}

pub open spec fn bins_ok(bins: Seq<Bin>, pr: &Problem) -> bool {
    forall|i: int| 0 <= i < bins.len() ==> bin_ok(#[trigger] bins[i], pr)
}

/// Sum of the fitness of a sequence of bins.
pub open spec fn fitness_sum(bins: Seq<Bin>) -> int
    decreases bins.len(),
{
    if bins.len() == 0 {
        0
    } else {
        fitness_sum(bins.drop_last()) + fitness_of(bins.last().used as int, bins.last().length as int)
    }
}

/// Mean fitness of the bins, zero for no bins.
pub open spec fn mean_fitness(bins: Seq<Bin>) -> int {
    if bins.len() == 0 {
        0
    } else {
        fitness_sum(bins) / bins.len() as int
    }
}

pub proof fn lemma_pieces_of_push(bins: Seq<Bin>, b: Bin)
    ensures
        pieces_of(bins.push(b)) == pieces_of(bins).add(b.demand_pieces@.to_multiset()),
{
    assert(bins.push(b).drop_last() =~= bins);
}

pub proof fn lemma_pieces_of_concat(a: Seq<Bin>, b: Seq<Bin>)
    ensures
        pieces_of(a + b) == pieces_of(a).add(pieces_of(b)),
    decreases b.len(),
{
    if b.len() == 0 {
        assert(a + b =~= a);
        assert(pieces_of(a).add(Multiset::empty()) =~= pieces_of(a));
    } else {
        assert((a + b).drop_last() =~= a + b.drop_last());
        lemma_pieces_of_concat(a, b.drop_last());
        assert(pieces_of(a + b) =~= pieces_of(a).add(pieces_of(b)));
    }
}

/// Replacing one bin changes the pieces by that bin's pieces alone.
pub proof fn lemma_pieces_of_update(bins: Seq<Bin>, i: int, nb: Bin)
    requires
        0 <= i < bins.len(),
    ensures
        pieces_of(bins.update(i, nb)).add(bins[i].demand_pieces@.to_multiset()) == pieces_of(
            bins,
        ).add(nb.demand_pieces@.to_multiset()),
{
    let pre = bins.take(i);
    let post = bins.skip(i + 1);
    assert(bins =~= pre.push(bins[i]) + post);
    assert(bins.update(i, nb) =~= pre.push(nb) + post);
    lemma_pieces_of_concat(pre.push(bins[i]), post);
    lemma_pieces_of_concat(pre.push(nb), post);
    lemma_pieces_of_push(pre, bins[i]);
    lemma_pieces_of_push(pre, nb);
    assert(pieces_of(bins.update(i, nb)).add(bins[i].demand_pieces@.to_multiset()) =~= pieces_of(
        bins,
    ).add(nb.demand_pieces@.to_multiset()));
}

/// Removing one bin takes away exactly its pieces.
pub proof fn lemma_pieces_of_remove(bins: Seq<Bin>, i: int)
    requires
        0 <= i < bins.len(),
    ensures
        pieces_of(bins.remove(i)).add(bins[i].demand_pieces@.to_multiset()) == pieces_of(bins),
{
    let pre = bins.take(i);
    let post = bins.skip(i + 1);
    assert(bins =~= pre.push(bins[i]) + post);
    assert(bins.remove(i) =~= pre + post);
    lemma_pieces_of_concat(pre.push(bins[i]), post);
    lemma_pieces_of_concat(pre, post);
    lemma_pieces_of_push(pre, bins[i]);
    assert(pieces_of(bins.remove(i)).add(bins[i].demand_pieces@.to_multiset()) =~= pieces_of(
        bins,
    ));
}


/// A catalog with ids equal to positions holds each of its pieces once.
pub proof fn lemma_catalog_count(pr: &Problem)
    requires
        pr.wf(),
    ensures
        forall|x: DemandPiece| #[trigger] pr.catalog().count(x) == if pr.in_catalog(x) { 1nat } else { 0nat },
{
    let s = pr.demand_pieces@;
    assert forall|x: DemandPiece| #[trigger] pr.catalog().count(x) == if pr.in_catalog(x) { 1nat } else { 0nat } by {
        lemma_prefix_count(pr, s.len() as int, x);
        assert(s.take(s.len() as int) =~= s);
    }
}

proof fn lemma_prefix_count(pr: &Problem, k: int, x: DemandPiece)
    requires
        pr.wf(),
        0 <= k <= pr.demand_pieces@.len(),
    ensures
        pr.demand_pieces@.take(k).to_multiset().count(x) == if x.id < k && pr.in_catalog(x) { 1nat } else { 0nat },
    decreases k,
{
    let s = pr.demand_pieces@;
    if k == 0 {
        assert(s.take(0) =~= Seq::<DemandPiece>::empty());
    } else {
        lemma_prefix_count(pr, k - 1, x);
        assert(s.take(k) =~= s.take(k - 1).push(s[k - 1]));
        assert(s[k - 1].id == k - 1);
    }
}

/// Every piece held by valid bins is a catalog piece.
pub proof fn lemma_pieces_in_catalog(bins: Seq<Bin>, pr: &Problem)
    requires
        bins_ok(bins, pr),
    ensures
        forall|x: DemandPiece| #[trigger] pieces_of(bins).count(x) > 0 ==> pr.in_catalog(x),
    decreases bins.len(),
{
    if bins.len() > 0 {
        let b = bins[bins.len() - 1];
        assert(pieces_of(bins) == pieces_of(bins.drop_last()).add(ms(b)));
        assert(bins_ok(bins.drop_last(), pr)) by {
            assert forall|i: int| 0 <= i < bins.drop_last().len() implies bin_ok(#[trigger] bins.drop_last()[i], pr) by {
                assert(bins.drop_last()[i] == bins[i]);
            }
        }
        lemma_pieces_in_catalog(bins.drop_last(), pr);
        assert(bin_ok(bins[bins.len() - 1], pr));
        assert forall|x: DemandPiece| #[trigger] pieces_of(bins).count(x) > 0 implies pr.in_catalog(x) by {
            if b.demand_pieces@.to_multiset().count(x) > 0 {
                assert(b.demand_pieces@.contains(x));
                let j = choose|j: int| 0 <= j < b.demand_pieces@.len() && b.demand_pieces@[j] == x;
                assert(pr.in_catalog(b.demand_pieces@[j]));
            } else {
                assert(pieces_of(bins.drop_last()).count(x) > 0);
            }
        }
    }
}

/// A valid candidate for a non-empty catalog has at least one bin.
pub proof fn lemma_valid_has_bins(u: &BinPackerUnit, pr: &Problem)
    requires
        u.valid(pr),
        pr.demand_pieces@.len() > 0,
    ensures
        u.bins@.len() > 0,
{
    if u.bins@.len() == 0 {
        assert(pr.catalog().len() > 0);
        assert(pieces_of(u.bins@) =~= Multiset::empty());
    }
}

pub proof fn lemma_bins_ok_subrange(bins: Seq<Bin>, pr: &Problem, lo: int, hi: int)
    requires
        bins_ok(bins, pr),
        0 <= lo <= hi <= bins.len(),
    ensures
        bins_ok(bins.subrange(lo, hi), pr),
{
    assert forall|i: int| 0 <= i < bins.subrange(lo, hi).len() implies bin_ok(#[trigger] bins.subrange(lo, hi)[i], pr) by {
        assert(bins.subrange(lo, hi)[i] == bins[lo + i]);
    }
}

/// One bin's pieces as a multiset.
pub open spec fn ms(b: Bin) -> Multiset<DemandPiece> {
    b.demand_pieces@.to_multiset()
}


/// After the marked pieces are taken out of one valid packing and the pieces
/// of a segment of another are put in, each catalog piece is held once again.
proof fn lemma_crossover_cover(
    pr: &Problem,
    a: Seq<Bin>,
    b: Seq<Bin>,
    s: int,
    e: int,
    marks: Seq<bool>,
    kept: Multiset<DemandPiece>,
    displaced: Multiset<DemandPiece>,
)
    requires
        pr.wf(),
        bins_ok(a, pr),
        bins_ok(b, pr),
        pieces_of(a) == pr.catalog(),
        pieces_of(b) == pr.catalog(),
        0 <= s <= e <= b.len(),
        marks.len() == pr.demand_pieces@.len(),
        forall|id: int|
            0 <= id < marks.len() ==> (#[trigger] marks[id] <==> pieces_of(b.subrange(s, e)).count(
                pr.demand_pieces@[id],
            ) > 0),
        forall|x: DemandPiece|
            #[trigger] kept.count(x) + displaced.count(x) == if marks[x.id as int] {
                0
            } else {
                pieces_of(a).count(x)
            },
    ensures
        kept.add(pieces_of(b.subrange(s, e))).add(displaced) == pr.catalog(),
{
    let seg = b.subrange(s, e);
    lemma_catalog_count(pr);
    lemma_bins_ok_subrange(b, pr, s, e);
    lemma_pieces_in_catalog(seg, pr);
    assert(b =~= b.subrange(0, s) + seg + b.subrange(e, b.len() as int));
    lemma_pieces_of_concat(b.subrange(0, s) + seg, b.subrange(e, b.len() as int));
    lemma_pieces_of_concat(b.subrange(0, s), seg);
    assert forall|x: DemandPiece| #[trigger] kept.add(pieces_of(seg)).add(displaced).count(x) == pr.catalog().count(x) by {
        assert(pieces_of(seg).count(x) <= pieces_of(b).count(x));
        if pr.in_catalog(x) {
            assert(pr.demand_pieces@[x.id as int] == x);
        }
    }
    assert(kept.add(pieces_of(seg)).add(displaced) =~= pr.catalog());
}

/// `after` is `before` with the bins of `[start, end)` in reverse order.
pub open spec fn reversed_range(before: Seq<Bin>, after: Seq<Bin>, start: int, end: int) -> bool {
    &&& after.len() == before.len()
    &&& forall|k: int|
        0 <= k < after.len() ==> #[trigger] after[k] == if start <= k < end {
            before[start + end - 1 - k]
        } else {
            before[k]
        }
}

/// Reordering bins keeps them valid and keeps the pieces they hold.
pub proof fn lemma_permuted_bins_ok(before: Seq<Bin>, after: Seq<Bin>, pr: &Problem)
    requires
        bins_ok(before, pr),
        exists|start: int, end: int| 0 <= start <= end <= before.len()
            && #[trigger] reversed_range(before, after, start, end),
    ensures
        bins_ok(after, pr),
        pieces_of(after) == pieces_of(before),
{
    let (start, end) = choose|start: int, end: int| 0 <= start <= end <= before.len()
        && #[trigger] reversed_range(before, after, start, end);
    assert forall|k: int| 0 <= k < after.len() implies bin_ok(#[trigger] after[k], pr) by {
        if start <= k < end {
            assert(bin_ok(before[start + end - 1 - k], pr));
        } else {
            assert(bin_ok(before[k], pr));
        }
    }
    lemma_reversed_pieces(before, after, start, end);
}

proof fn lemma_reversed_pieces(before: Seq<Bin>, after: Seq<Bin>, start: int, end: int)
    requires
        0 <= start <= end <= before.len(),
        reversed_range(before, after, start, end),
    ensures
        pieces_of(after) == pieces_of(before),
    decreases end - start,
{
    if end - start >= 2 {
        let mid = before.update(start, before[end - 1]).update(end - 1, before[start]);
        let u1 = before.update(start, before[end - 1]);
        lemma_pieces_of_update(before, start, before[end - 1]);
        lemma_pieces_of_update(u1, end - 1, before[start]);
        assert(u1[end - 1] == before[end - 1]);
        assert forall|x: DemandPiece| #[trigger] pieces_of(mid).count(x) == pieces_of(before).count(x) by {
            assert(pieces_of(mid).add(ms(u1[end - 1])).count(x) == pieces_of(u1).add(ms(before[start])).count(x));
            assert(pieces_of(u1).add(ms(before[start])).count(x) == pieces_of(before).add(ms(before[end - 1])).count(x));
        }
        assert(pieces_of(mid) =~= pieces_of(before));
        assert(reversed_range(mid, after, start + 1, end - 1));
        lemma_reversed_pieces(mid, after, start + 1, end - 1);
    } else {
        assert(after =~= before);
    }
}

/// Every bin of `before` is still in `after`, at its index, with the same
/// length and its pieces first; bins may only be added after them.
pub open spec fn grown_from(before: Seq<Bin>, after: Seq<Bin>) -> bool {
    &&& before.len() <= after.len()
    &&& forall|i: int|
        0 <= i < before.len() ==> #[trigger] after[i].length == before[i].length
            && after[i].demand_pieces@.len() >= before[i].demand_pieces@.len()
            && after[i].demand_pieces@.take(before[i].demand_pieces@.len() as int)
            == before[i].demand_pieces@
}

/// Bins `[start, end)` of `donor` lead bins `[pos, pos + end - start)` of
/// `bins`: same lengths, the donor's pieces first.
pub open spec fn segment_at(bins: Seq<Bin>, donor: Seq<Bin>, start: int, end: int, pos: int) -> bool {
    &&& 0 <= pos
    &&& pos + (end - start) <= bins.len()
    &&& forall|k: int|
        0 <= k < end - start ==> #[trigger] bins[pos + k].length == donor[start + k].length
            && bins[pos + k].demand_pieces@.len() >= donor[start + k].demand_pieces@.len()
            && bins[pos + k].demand_pieces@.take(donor[start + k].demand_pieces@.len() as int)
            == donor[start + k].demand_pieces@
}

pub proof fn lemma_segment_grown(bins: Seq<Bin>, grown: Seq<Bin>, donor: Seq<Bin>, start: int, end: int, pos: int)
    requires
        segment_at(bins, donor, start, end, pos),
        grown_from(bins, grown),
    ensures
        segment_at(grown, donor, start, end, pos),
{
    assert forall|k: int| 0 <= k < end - start implies #[trigger] grown[pos + k].length == donor[start + k].length
        && grown[pos + k].demand_pieces@.len() >= donor[start + k].demand_pieces@.len()
        && grown[pos + k].demand_pieces@.take(donor[start + k].demand_pieces@.len() as int)
        == donor[start + k].demand_pieces@ by {
        let i = pos + k;
        let n = donor[start + k].demand_pieces@.len() as int;
        assert(bins[pos + k].length == donor[start + k].length);
        assert(grown[i].length == bins[i].length);
        assert(bins[i].demand_pieces@.take(n) == donor[start + k].demand_pieces@);
        assert(grown[i].demand_pieces@.take(bins[i].demand_pieces@.len() as int) == bins[i].demand_pieces@);
        assert(grown[i].demand_pieces@.take(n) =~= bins[i].demand_pieces@.take(n));
    }
}

/// The fitness of one bin.
pub open spec fn bin_fitness(b: Bin) -> int {
    fitness_of(b.used as int, b.length as int)
}

/// Bin `w` is the first of lowest fitness, and that fitness is below a
/// perfect score.
pub open spec fn weakest_bin(bins: Seq<Bin>, w: int) -> bool {
    &&& 0 <= w < bins.len()
    &&& bin_fitness(bins[w]) < FITNESS_SCALE
    &&& forall|k: int| 0 <= k < bins.len() ==> bin_fitness(bins[w]) <= bin_fitness(#[trigger] bins[k])
    &&& forall|k: int| 0 <= k < w ==> bin_fitness(bins[w]) < bin_fitness(#[trigger] bins[k])
}

pub proof fn lemma_grown_refl(bins: Seq<Bin>)
    ensures
        grown_from(bins, bins),
{
    assert forall|i: int| 0 <= i < bins.len() implies (#[trigger] bins[i]).demand_pieces@.take(
        bins[i].demand_pieces@.len() as int,
    ) == bins[i].demand_pieces@ by {
        assert(bins[i].demand_pieces@.take(bins[i].demand_pieces@.len() as int) =~= bins[i].demand_pieces@);
    }
}

pub proof fn lemma_grown_trans(a: Seq<Bin>, b: Seq<Bin>, c: Seq<Bin>)
    requires
        grown_from(a, b),
        grown_from(b, c),
    ensures
        grown_from(a, c),
{
    assert forall|i: int| 0 <= i < a.len() implies #[trigger] c[i].length == a[i].length
        && c[i].demand_pieces@.len() >= a[i].demand_pieces@.len()
        && c[i].demand_pieces@.take(a[i].demand_pieces@.len() as int) == a[i].demand_pieces@ by {
        assert(b[i].length == a[i].length);
        assert(c[i].length == b[i].length);
        let n = a[i].demand_pieces@.len() as int;
        assert(c[i].demand_pieces@.take(n) =~= b[i].demand_pieces@.take(n));
    }
}

/// Where the next piece of a bin would start.
pub open spec fn next_start(b: Bin) -> int {
    if b.demand_pieces@.len() == 0 {
        0
    } else {
        b.used + b.spacing
    }
}

/// Bin `b` has room for `p` after its pieces.
pub open spec fn accepts(b: Bin, p: DemandPiece) -> bool {
    next_start(b) + p.length <= b.length
}

/// Bin `i` is the first that has room for `p`.
pub open spec fn first_accepting(bins: Seq<Bin>, p: DemandPiece, i: int) -> bool {
    &&& 0 <= i < bins.len()
    &&& accepts(bins[i], p)
    &&& forall|k: int| 0 <= k < i ==> !accepts(#[trigger] bins[k], p)
}

/// `after` is `before` with `p` appended to bin `i` and nothing else changed.
pub open spec fn appended_at(before: Seq<Bin>, after: Seq<Bin>, i: int, p: DemandPiece) -> bool {
    &&& after.len() == before.len()
    &&& after[i].length == before[i].length
    &&& after[i].spacing == before[i].spacing
    &&& after[i].demand_pieces@ == before[i].demand_pieces@.push(p)
    &&& forall|k: int| 0 <= k < after.len() && k != i ==> #[trigger] after[k] == before[k]
}

/// `after` is `before` with one new bin holding only `p`, cut from a stock
/// length that can hold it.
pub open spec fn opened_for(pr: &Problem, before: Seq<Bin>, after: Seq<Bin>, p: DemandPiece) -> bool {
    &&& after.len() == before.len() + 1
    &&& after.drop_last() == before
    &&& after.last().demand_pieces@ == seq![p]
    &&& after.last().spacing == pr.spacing
    &&& pr.stock_lengths@.contains(after.last().length)
    &&& after.last().length >= p.length
}

/// One step of first fit: `p` goes to the first bin with room, else to a new
/// bin.
pub open spec fn first_fit_step(pr: &Problem, before: Seq<Bin>, p: DemandPiece, after: Seq<Bin>) -> bool {
    if exists|i: int| first_accepting(before, p, i) {
        exists|i: int| #[trigger] first_accepting(before, p, i) && appended_at(before, after, i, p)
    } else {
        opened_for(pr, before, after, p)
    }
}

/// `end` comes from `start` by placing `pieces` one after another by first
/// fit, through the states in `hist`.
pub open spec fn fit_history(pr: &Problem, start: Seq<Bin>, pieces: Seq<DemandPiece>, end: Seq<Bin>, hist: Seq<Seq<Bin>>) -> bool {
    &&& hist.len() == pieces.len() + 1
    &&& hist[0] == start
    &&& hist.last() == end
    &&& forall|k: int| 0 <= k < pieces.len() ==> first_fit_step(pr, hist[k], pieces[k], #[trigger] hist[k + 1])
}

/// `end` comes from `start` by placing `pieces` in order by first fit.
pub open spec fn placed_by_first_fit(pr: &Problem, start: Seq<Bin>, pieces: Seq<DemandPiece>, end: Seq<Bin>) -> bool {
    exists|hist: Seq<Seq<Bin>>| #[trigger] fit_history(pr, start, pieces, end, hist)
}

pub proof fn lemma_fit_history_start(pr: &Problem, start: Seq<Bin>)
    ensures
        fit_history(pr, start, Seq::empty(), start, seq![start]),
{
}

pub proof fn lemma_fit_history_extend(
    pr: &Problem,
    start: Seq<Bin>,
    pieces: Seq<DemandPiece>,
    mid: Seq<Bin>,
    hist: Seq<Seq<Bin>>,
    p: DemandPiece,
    end: Seq<Bin>,
)
    requires
        fit_history(pr, start, pieces, mid, hist),
        first_fit_step(pr, mid, p, end),
    ensures
        fit_history(pr, start, pieces.push(p), end, hist.push(end)),
{
    let h2 = hist.push(end);
    assert forall|k: int| 0 <= k < pieces.push(p).len() implies first_fit_step(pr, h2[k], pieces.push(p)[k], #[trigger] h2[k + 1]) by {
        if k < pieces.len() {
            assert(h2[k + 1] == hist[k + 1]);
            assert(first_fit_step(pr, hist[k], pieces[k], hist[k + 1]));
        }
    }
}

/// `after` comes from `before` by taking out its weakest bin `w` and placing
/// that bin's pieces again by first fit, in the shuffled order `order`.
pub open spec fn eliminated_at(pr: &Problem, before: Seq<Bin>, w: int, order: Seq<DemandPiece>, after: Seq<Bin>) -> bool {
    &&& weakest_bin(before, w)
    &&& grown_from(before.remove(w), after)
    &&& order.to_multiset() == before[w].demand_pieces@.to_multiset()
    &&& placed_by_first_fit(pr, before.remove(w), order, after)
}

/// What a mutation may do: nothing, an elimination, or an inversion.
pub open spec fn mutated(pr: &Problem, before: Seq<Bin>, after: Seq<Bin>) -> bool {
    ||| after == before
    ||| exists|w: int, order: Seq<DemandPiece>| #[trigger] eliminated_at(pr, before, w, order, after)
    ||| exists|start: int, end: int|
        0 <= start <= end <= before.len() && #[trigger] reversed_range(before, after, start, end)
}

/// A crossover child of `a` and `b`: valid; bins `[s, e)` of `b` set in at
/// or before some bin index of `a`, with only unshared bins of `a` around
/// them; the displaced pieces placed again by first fit.
pub open spec fn crossover_child(pr: &Problem, a: Seq<Bin>, b: Seq<Bin>, c: Seq<Bin>) -> bool {
    &&& bins_ok(c, pr)
    &&& pieces_of(c) == pr.catalog()
    &&& exists|s: int, e: int, pos: int|
        0 <= s <= e < b.len() && pos < a.len() && #[trigger] segment_at(c, b, s, e, pos)
    &&& exists|s: int, e: int, pos: int, frame: Seq<Bin>, displaced: Seq<DemandPiece>|
        0 <= s <= e < b.len() && pos < a.len() && #[trigger] refit_frame(pr, a, b, s, e, pos, frame, displaced, c)
}

/// `c` is a crossover child of `a` and `b` that then went through mutation.
pub open spec fn bred_from(pr: &Problem, a: Seq<Bin>, b: Seq<Bin>, c: Seq<Bin>) -> bool {
    exists|mid: Seq<Bin>| #[trigger] crossover_child(pr, a, b, mid) && mutated(pr, mid, c)
}

/// Two bins with the same length, spacing, fill and pieces.
pub open spec fn same_bin(x: Bin, y: Bin) -> bool {
    x.length == y.length && x.spacing == y.spacing && x.used == y.used && x.demand_pieces@
        == y.demand_pieces@
}

/// `x` is a copy of a bin of `a` that holds none of the pieces in `taken`.
pub open spec fn kept_from(x: Bin, a: Seq<Bin>, taken: Multiset<DemandPiece>) -> bool {
    &&& forall|j: int| 0 <= j < x.demand_pieces@.len() ==> taken.count(#[trigger] x.demand_pieces@[j]) == 0
    &&& exists|i: int| 0 <= i < a.len() && #[trigger] same_bin(x, a[i])
}

/// Before re-placement, a crossover child of `a` and `b` holds bins
/// `[s, e)` of `b` from index `pos` on, and elsewhere only copies of bins of
/// `a` that share no piece with that segment.
pub open spec fn crossover_frame(a: Seq<Bin>, b: Seq<Bin>, s: int, e: int, pos: int, frame: Seq<Bin>) -> bool {
    &&& segment_at(frame, b, s, e, pos)
    &&& forall|q: int|
        0 <= q < frame.len() && !(pos <= q < pos + (e - s)) ==> kept_from(
            #[trigger] frame[q],
            a,
            pieces_of(b.subrange(s, e)),
        )
}

/// `c` comes from the frame by placing `displaced` by first fit.
pub open spec fn refit_frame(
    pr: &Problem,
    a: Seq<Bin>,
    b: Seq<Bin>,
    s: int,
    e: int,
    pos: int,
    frame: Seq<Bin>,
    displaced: Seq<DemandPiece>,
    c: Seq<Bin>,
) -> bool {
    &&& crossover_frame(a, b, s, e, pos, frame)
    &&& placed_by_first_fit(pr, frame, displaced, c)
}

/// One candidate packing.
#[derive(Debug)]
pub struct BinPackerUnit {
    pub bins: Vec<Bin>,
}

impl BinPackerUnit {
    /// Every bin is valid for `pr`.
    pub open spec fn bins_valid(&self, pr: &Problem) -> bool {
        bins_ok(self.bins@, pr)
    }

    /// A valid candidate: valid bins that together hold each catalog piece
    /// exactly once.
    pub open spec fn valid(&self, pr: &Problem) -> bool {
        &&& self.bins_valid(pr)
        &&& pieces_of(self.bins@) == pr.catalog()
    }

    /// Packs the pieces in the given order by first fit. `None` exactly when
    /// some piece is longer than every stock length.
    pub fn new(pr: &Problem, order: &Vec<DemandPiece>, rng: &mut StdRng) -> (r: Option<BinPackerUnit>)
        requires
            pr.wf(),
            forall|i: int| 0 <= i < order@.len() ==> pr.in_catalog(#[trigger] order@[i]),
        ensures
            r.is_none() <==> exists|i: int| 0 <= i < order@.len() && !pr.holds(#[trigger] order@[i].length),
            r.is_some() ==> r.unwrap().bins_valid(pr) && pieces_of(r.unwrap().bins@)
                == order@.to_multiset(),
            r.is_some() ==> placed_by_first_fit(pr, Seq::empty(), order@, r.unwrap().bins@),
    {
        let mut unit = BinPackerUnit { bins: Vec::new() };
        let mut i: usize = 0;
        let ghost mut hist: Seq<Seq<Bin>> = seq![unit.bins@];
        proof {
            assert(unit.bins@ =~= Seq::<Bin>::empty());
            assert(order@.take(0) =~= Seq::<DemandPiece>::empty());
            lemma_fit_history_start(pr, Seq::empty());
        }
        while i < order.len()
            invariant
                pr.wf(),
                forall|k: int| 0 <= k < order@.len() ==> pr.in_catalog(#[trigger] order@[k]),
                i <= order@.len(),
                unit.bins_valid(pr),
                pieces_of(unit.bins@) == order@.take(i as int).to_multiset(),
                forall|k: int| 0 <= k < i ==> pr.holds(#[trigger] order@[k].length),
                fit_history(pr, Seq::empty(), order@.take(i as int), unit.bins@, hist),
            decreases order@.len() - i,
        {
            let piece = order[i];
            let ghost b0 = unit.bins@;
            let placed = unit.first_fit(pr, piece, rng);
            proof {
                assert(order@.take(i as int + 1) =~= order@.take(i as int).push(piece));
                if placed.is_some() {
                    lemma_fit_history_extend(pr, Seq::empty(), order@.take(i as int), b0, hist, piece, unit.bins@);
                    hist = hist.push(unit.bins@);
                }
            }
            if placed.is_none() {
                return None;
            }
            i = i + 1;
        }
        proof {
            assert(order@.take(i as int) =~= order@);
        }
        Some(unit)
    }

    /// Places `piece` in the first bin that takes it, else in a new bin whose
    /// length is drawn among the stock lengths that can hold it. `None`, with
    /// nothing changed, exactly when no stock length can.
    pub fn first_fit(&mut self, pr: &Problem, piece: DemandPiece, rng: &mut StdRng) -> (r: Option<usize>)
        requires
            pr.wf(),
            old(self).bins_valid(pr),
            pr.in_catalog(piece),
        ensures
            final(self).bins_valid(pr),
            r.is_none() <==> !pr.holds(piece.length),
            r.is_some() ==> pieces_of(final(self).bins@) == pieces_of(old(self).bins@).insert(piece),
            r.is_none() ==> final(self).bins@ == old(self).bins@ && *final(rng) == *old(rng),
            grown_from(old(self).bins@, final(self).bins@),
            r.is_some() ==> first_fit_step(pr, old(self).bins@, piece, final(self).bins@),
            forall|i: int| #[trigger] first_accepting(old(self).bins@, piece, i) ==> r == Some(next_start(old(self).bins@[i]) as usize)
                && *final(rng) == *old(rng),
            (forall|i: int| 0 <= i < old(self).bins@.len() ==> !accepts(#[trigger] old(self).bins@[i], piece))
                ==> (r.is_some() ==> r == Some(0usize)),
    {
        let n = self.bins.len();
        let mut i: usize = 0;
        while i < n
            invariant
                n == self.bins@.len(),
                self.bins@ == old(self).bins@,
                i <= n,
                pr.wf(),
                self.bins_valid(pr),
                pr.in_catalog(piece),
                forall|k: int| 0 <= k < i ==> !accepts(#[trigger] self.bins@[k], piece),
                *rng == *old(rng),
            decreases n - i,
        {
            let ghost before = self.bins@;
            proof {
                assert(bin_ok(before[i as int], pr));
            }
            let placed = self.bins[i].insert(piece);
            if placed.is_some() {
                proof {
                    let nb = self.bins@[i as int];
                    assert(self.bins@ == before.update(i as int, nb));
                    lemma_pieces_of_update(before, i as int, nb);
                    assert(nb.demand_pieces@ == before[i as int].demand_pieces@.push(piece));
                    vstd::seq_lib::to_multiset_build(before[i as int].demand_pieces@, piece);
                    assert(nb.demand_pieces@.to_multiset() =~= before[i as int].demand_pieces@.to_multiset().insert(piece));
                    let ms_old = before[i as int].demand_pieces@.to_multiset();
                    assert forall|x: DemandPiece| #[trigger] pieces_of(self.bins@).count(x) == pieces_of(before).insert(piece).count(x) by {
                        assert(pieces_of(self.bins@).add(ms_old).count(x) == pieces_of(before).add(ms_old.insert(piece)).count(x));
                    }
                    assert(pieces_of(self.bins@) =~= pieces_of(before).insert(piece));
                    assert forall|k: int| 0 <= k < self.bins@.len() implies bin_ok(#[trigger] self.bins@[k], pr) by {
                        if k == i {
                            assert(bin_ok(before[k], pr));
                            assert(forall|j: int| 0 <= j < nb.demand_pieces@.len() - 1 ==> nb.demand_pieces@[j] == before[k].demand_pieces@[j]);
                            assert(nb.demand_pieces@.last() == piece);
                        }
                    }
                    assert(pr.stock_lengths@.contains(nb.length));
                    let j = choose|j: int| 0 <= j < pr.stock_lengths@.len() && pr.stock_lengths@[j] == nb.length;
                    assert(pr.stock_lengths@[j] >= piece.length);
                    assert forall|q: int| 0 <= q < before.len() implies #[trigger] self.bins@[q].length == before[q].length
                        && self.bins@[q].demand_pieces@.len() >= before[q].demand_pieces@.len()
                        && self.bins@[q].demand_pieces@.take(before[q].demand_pieces@.len() as int)
                        == before[q].demand_pieces@ by {
                        if q == i {
                            assert(nb.demand_pieces@.take(before[q].demand_pieces@.len() as int) =~= before[q].demand_pieces@);
                        }
                    }
                    assert(first_accepting(before, piece, i as int));
                    assert(appended_at(before, self.bins@, i as int, piece));
                    assert forall|i2: int| #[trigger] first_accepting(before, piece, i2) implies i2 == i by {
                        if i2 < i {
                            assert(!accepts(before[i2], piece));
                        } else if i2 > i {
                            assert(!accepts(before[i as int], piece));
                        }
                    }
                }
                return placed;
            }
            proof {
                assert(self.bins@ =~= before);
            }
            i = i + 1;
        }
        proof {
            assert forall|i2: int| !#[trigger] first_accepting(self.bins@, piece, i2) by {
                if 0 <= i2 < n {
                    assert(!accepts(self.bins@[i2], piece));
                }
            }
        }
        let r = self.add_to_new_bin(pr, piece, rng);
        proof {
            assert forall|q: int| 0 <= q < old(self).bins@.len() implies #[trigger] self.bins@[q].length == old(self).bins@[q].length
                && self.bins@[q].demand_pieces@.len() >= old(self).bins@[q].demand_pieces@.len()
                && self.bins@[q].demand_pieces@.take(old(self).bins@[q].demand_pieces@.len() as int)
                == old(self).bins@[q].demand_pieces@ by {
                if r.is_some() {
                    assert(self.bins@[q] == self.bins@.drop_last()[q]);
                }
                assert(old(self).bins@[q].demand_pieces@.take(old(self).bins@[q].demand_pieces@.len() as int) =~= old(self).bins@[q].demand_pieces@);
            }
        }
        r
    }

    /// Opens a new bin for `piece`, its length drawn among the stock lengths
    /// that can hold it. `None`, with nothing changed, when none can.
    pub fn add_to_new_bin(&mut self, pr: &Problem, piece: DemandPiece, rng: &mut StdRng) -> (r: Option<usize>)
        requires
            pr.wf(),
            old(self).bins_valid(pr),
            pr.in_catalog(piece),
        ensures
            final(self).bins_valid(pr),
            r.is_none() <==> !pr.holds(piece.length),
            r.is_some() ==> r.unwrap() == 0 && pieces_of(final(self).bins@) == pieces_of(old(self).bins@).insert(piece)
                && final(self).bins@.len() == old(self).bins@.len() + 1
                && final(self).bins@.drop_last() == old(self).bins@
                && opened_for(pr, old(self).bins@, final(self).bins@, piece),
            r.is_none() ==> final(self).bins@ == old(self).bins@ && *final(rng) == *old(rng),
    {
        let mut possible_lengths: Vec<usize> = Vec::new();
        let mut i: usize = 0;
        while i < pr.stock_lengths.len()
            invariant
                pr.wf(),
                i <= pr.stock_lengths@.len(),
                forall|k: int| 0 <= k < possible_lengths@.len() ==> #[trigger] possible_lengths@[k] >= piece.length
                    && pr.stock_lengths@.contains(possible_lengths@[k]),
                (forall|k: int| 0 <= k < i ==> #[trigger] pr.stock_lengths@[k] < piece.length) <==> possible_lengths@.len() == 0,
            decreases pr.stock_lengths@.len() - i,
        {
            let length = pr.stock_lengths[i];
            if length >= piece.length {
                possible_lengths.push(length);
                proof {
                    assert(pr.stock_lengths@.contains(length));
                }
            }
            i = i + 1;
        }
        if possible_lengths.len() == 0 {
            return None;
        }
        match choose_length(rng, &possible_lengths) {
            Some(length) => {
                proof {
                    let k = choose|k: int| 0 <= k < possible_lengths@.len() && possible_lengths@[k] == length;
                    let j = choose|j: int| 0 <= j < pr.stock_lengths@.len() && pr.stock_lengths@[j] == length;
                    assert(length > 0);
                }
                let bin = Bin::with_piece(length, pr.spacing, piece);
                let ghost before = self.bins@;
                self.bins.push(bin);
                proof {
                    lemma_pieces_of_push(before, bin);
                    assert(pieces_of(self.bins@) =~= pieces_of(before).insert(piece));
                    assert(self.bins@.drop_last() =~= before);
                    assert(bin_ok(bin, pr));
                }
                Some(0)
            },
            None => None,
        }
    }

    /// Marks the ids of the pieces held by bins `[start, end)`.
    fn mark_segment(&self, pr: &Problem, start: usize, end: usize) -> (marks: Vec<bool>)
        requires
            pr.wf(),
            self.bins_valid(pr),
            start <= end <= self.bins@.len(),
        ensures
            marks@.len() == pr.demand_pieces@.len(),
            forall|id: int|
                0 <= id < marks@.len() ==> (#[trigger] marks@[id] <==> pieces_of(
                    self.bins@.subrange(start as int, end as int),
                ).count(pr.demand_pieces@[id]) > 0),
    {
        let n = pr.demand_pieces.len();
        let mut marks: Vec<bool> = vec![false; n];
        let ghost bins = self.bins@;
        let mut k: usize = start;
        proof {
            assert(bins.subrange(start as int, start as int) =~= Seq::<Bin>::empty());
        }
        while k < end
            invariant
                pr.wf(),
                self.bins_valid(pr),
                bins == self.bins@,
                start <= k <= end <= bins.len(),
                n == pr.demand_pieces@.len(),
                marks@.len() == n,
                forall|id: int|
                    0 <= id < n ==> (#[trigger] marks@[id] <==> pieces_of(
                        bins.subrange(start as int, k as int),
                    ).count(pr.demand_pieces@[id]) > 0),
            decreases end - k,
        {
            let ghost before = pieces_of(bins.subrange(start as int, k as int));
            let bin = &self.bins[k];
            proof {
                assert(bin_ok(*bin, pr));
            }
            let m = bin.demand_pieces.len();
            let mut j: usize = 0;
            proof {
                assert(bin.demand_pieces@.take(0) =~= Seq::<DemandPiece>::empty());
            }
            while j < m
                invariant
                    pr.wf(),
                    bin_ok(*bin, pr),
                    m == bin.demand_pieces@.len(),
                    j <= m,
                    n == pr.demand_pieces@.len(),
                    marks@.len() == n,
                    forall|id: int|
                        0 <= id < n ==> (#[trigger] marks@[id] <==> before.add(
                            bin.demand_pieces@.take(j as int).to_multiset(),
                        ).count(pr.demand_pieces@[id]) > 0),
                decreases m - j,
            {
                let p = bin.demand_pieces[j];
                proof {
                    assert(pr.in_catalog(bin.demand_pieces@[j as int]));
                    assert(bin.demand_pieces@.take(j as int + 1) =~= bin.demand_pieces@.take(j as int).push(p));
                }
                marks.set(p.id, true);
                j = j + 1;
            }
            proof {
                assert(bin.demand_pieces@.take(m as int) =~= bin.demand_pieces@);
                assert(bins.subrange(start as int, k as int + 1) =~= bins.subrange(start as int, k as int).push(*bin));
                lemma_pieces_of_push(bins.subrange(start as int, k as int), *bin);
            }
            k = k + 1;
        }
        marks
    }

    /// Breeds a child: bins `[src_start, src_end)` of `other` go in before bin
    /// `dest` of this candidate, every bin of this candidate that shares a
    /// piece with them is dropped, and the other pieces of the dropped bins,
    /// gathered from the last bin to the first, are placed again by first fit.
    /// The child is valid whatever the cut points.
    pub fn crossover_at(
        &self,
        other: &BinPackerUnit,
        pr: &Problem,
        dest: usize,
        src_start: usize,
        src_end: usize,
        rng: &mut StdRng,
    ) -> (r: BinPackerUnit)
        requires
            pr.wf(),
            self.valid(pr),
            other.valid(pr),
            dest <= self.bins@.len(),
            src_start <= src_end <= other.bins@.len(),
        ensures
            r.valid(pr),
            exists|pos: int| pos <= dest && #[trigger] segment_at(r.bins@, other.bins@, src_start as int, src_end as int, pos),
            exists|frame: Seq<Bin>, displaced: Seq<DemandPiece>, pos: int|
                pos <= dest && #[trigger] refit_frame(pr, self.bins@, other.bins@, src_start as int, src_end as int, pos, frame, displaced, r.bins@),
    {
        let marks = other.mark_segment(pr, src_start, src_end);
        let ghost seg_ms = pieces_of(other.bins@.subrange(src_start as int, src_end as int));
        let ghost a = self.bins@;
        let ghost b = other.bins@;
        let mut front_rev: Vec<Bin> = Vec::new();
        let mut back_rev: Vec<Bin> = Vec::new();
        let mut displaced: Vec<DemandPiece> = Vec::new();
        let mut k: usize = self.bins.len();
        proof {
            assert(a.skip(k as int) =~= Seq::<Bin>::empty());
        }
        while k > 0
            invariant
                pr.wf(),
                self.valid(pr),
                a == self.bins@,
                k <= a.len(),
                marks@.len() == pr.demand_pieces@.len(),
                bins_ok(front_rev@, pr),
                bins_ok(back_rev@, pr),
                dest <= a.len(),
                front_rev@.len() <= if k < dest { dest - k } else { 0 },
                seg_ms == pieces_of(other.bins@.subrange(src_start as int, src_end as int)),
                forall|id: int|
                    0 <= id < marks@.len() ==> (#[trigger] marks@[id] <==> seg_ms.count(pr.demand_pieces@[id]) > 0),
                forall|q: int| 0 <= q < front_rev@.len() ==> kept_from(#[trigger] front_rev@[q], a, seg_ms),
                forall|q: int| 0 <= q < back_rev@.len() ==> kept_from(#[trigger] back_rev@[q], a, seg_ms),
                forall|j: int|
                    0 <= j < displaced@.len() ==> pr.in_catalog(#[trigger] displaced@[j])
                        && pr.holds(displaced@[j].length),
                forall|x: DemandPiece|
                    #[trigger] pieces_of(front_rev@).count(x) + pieces_of(back_rev@).count(x)
                        + displaced@.to_multiset().count(x) == if marks@[x.id as int] {
                        0
                    } else {
                        pieces_of(a.skip(k as int)).count(x)
                    },
            decreases k,
        {
            let idx = k - 1;
            let bin = &self.bins[idx];
            proof {
                assert(bin_ok(*bin, pr));
                assert(a.skip(idx as int) =~= seq![*bin] + a.skip(k as int));
                lemma_pieces_of_concat(seq![*bin], a.skip(k as int));
                lemma_pieces_of_push(Seq::<Bin>::empty(), *bin);
                assert(seq![*bin] =~= Seq::<Bin>::empty().push(*bin));
                assert(pieces_of(Seq::<Bin>::empty()) =~= Multiset::empty());
                assert(pieces_of(a.skip(idx as int)) =~= ms(*bin).add(pieces_of(a.skip(k as int))));
            }
            let (count, mut rest) = bin.remove_demand_pieces(&marks);
            let ghost f0 = front_rev@;
            let ghost b0 = back_rev@;
            let ghost d0 = displaced@;
            if count > 0 {
                proof {
                    assert forall|j: int| 0 <= j < rest@.len() implies pr.in_catalog(#[trigger] rest@[j])
                        && pr.holds(rest@[j].length) by {
                        assert(bin.demand_pieces@.contains(rest@[j]));
                        let i = choose|i: int| 0 <= i < bin.demand_pieces@.len() && bin.demand_pieces@[i] == rest@[j];
                        assert(pr.in_catalog(bin.demand_pieces@[i]));
                        assert(bin.demand_pieces@[i].length <= bin.length);
                        let q = choose|q: int| 0 <= q < pr.stock_lengths@.len() && pr.stock_lengths@[q] == bin.length;
                    }
                }
                let ghost r0 = rest@;
                displaced.append(&mut rest);
                proof {
                    vstd::seq_lib::lemma_multiset_commutative(d0, r0);
                    assert(displaced@ == d0 + r0);
                }
            } else {
                let copy = bin.copy();
                proof {
                    assert(bin_ok(copy, pr)) by {
                        assert(copy.demand_pieces@ == bin.demand_pieces@);
                    }
                    assert(ms(copy) == ms(*bin));
                    assert(same_bin(copy, a[idx as int]));
                    assert forall|j: int| 0 <= j < copy.demand_pieces@.len() implies seg_ms.count(#[trigger] copy.demand_pieces@[j]) == 0 by {
                        let x = copy.demand_pieces@[j];
                        assert(pr.in_catalog(bin.demand_pieces@[j]));
                        assert(rest@.to_multiset().count(x) == bin.demand_pieces@.to_multiset().count(x));
                        assert(bin.demand_pieces@.contains(x));
                        if marks@[x.id as int] {
                            assert(rest@.to_multiset().count(x) == 0);
                        }
                    }
                    assert(kept_from(copy, a, seg_ms));
                }
                if idx < dest {
                    front_rev.push(copy);
                    proof {
                        lemma_pieces_of_push(f0, copy);
                    }
                } else {
                    back_rev.push(copy);
                    proof {
                        lemma_pieces_of_push(b0, copy);
                    }
                }
            }
            k = idx;
        }
        proof {
            assert(a.skip(0) =~= a);
        }
        let ghost front_len = front_rev@.len();
        let ghost kept_front = pieces_of(front_rev@);
        let ghost kept_back = pieces_of(back_rev@);
        let mut bins: Vec<Bin> = Vec::new();
        proof {
            assert(pieces_of(bins@) =~= Multiset::empty());
        }
        while front_rev.len() > 0
            invariant
                bins_ok(bins@, pr),
                bins_ok(front_rev@, pr),
                bins@.len() + front_rev@.len() == front_len,
                forall|q: int| 0 <= q < front_rev@.len() ==> kept_from(#[trigger] front_rev@[q], a, seg_ms),
                forall|q: int| 0 <= q < bins@.len() ==> kept_from(#[trigger] bins@[q], a, seg_ms),
                pieces_of(bins@).add(pieces_of(front_rev@)) == kept_front,
            decreases front_rev@.len(),
        {
            let ghost f0 = front_rev@;
            let ghost c0 = bins@;
            let bin = front_rev.pop().unwrap();
            proof {
                assert(f0 =~= front_rev@.push(bin));
                lemma_pieces_of_push(front_rev@, bin);
                assert(bin_ok(f0[f0.len() - 1], pr));
            }
            bins.push(bin);
            proof {
                lemma_pieces_of_push(c0, bin);
                assert(pieces_of(bins@).add(pieces_of(front_rev@)) =~= kept_front);
            }
        }
        proof {
            assert(pieces_of(front_rev@) =~= Multiset::empty());
            assert(pieces_of(bins@) =~= kept_front);
        }
        let ghost seg = b.subrange(src_start as int, src_end as int);
        let mut k: usize = src_start;
        proof {
            assert(b.subrange(src_start as int, src_start as int) =~= Seq::<Bin>::empty());
            assert(kept_front.add(pieces_of(Seq::<Bin>::empty())) =~= kept_front);
        }
        while k < src_end
            invariant
                pr.wf(),
                other.valid(pr),
                b == other.bins@,
                src_start <= k <= src_end <= b.len(),
                bins_ok(bins@, pr),
                pieces_of(bins@) == kept_front.add(pieces_of(b.subrange(src_start as int, k as int))),
                segment_at(bins@, b, src_start as int, k as int, front_len as int),
                bins@.len() == front_len + (k - src_start),
                forall|q: int| 0 <= q < front_len ==> kept_from(#[trigger] bins@[q], a, seg_ms),
            decreases src_end - k,
        {
            let copy = other.bins[k].copy();
            let ghost c0 = bins@;
            proof {
                assert(bin_ok(b[k as int], pr));
                assert(copy.demand_pieces@ == b[k as int].demand_pieces@);
                assert(b.subrange(src_start as int, k as int + 1) =~= b.subrange(src_start as int, k as int).push(b[k as int]));
                lemma_pieces_of_push(b.subrange(src_start as int, k as int), b[k as int]);
            }
            bins.push(copy);
            proof {
                assert(copy.demand_pieces@.take(copy.demand_pieces@.len() as int) =~= copy.demand_pieces@);
                assert forall|q: int| 0 <= q < k + 1 - src_start implies #[trigger] bins@[front_len + q].length == b[src_start + q].length
                    && bins@[front_len + q].demand_pieces@.len() >= b[src_start + q].demand_pieces@.len()
                    && bins@[front_len + q].demand_pieces@.take(b[src_start + q].demand_pieces@.len() as int)
                    == b[src_start + q].demand_pieces@ by {
                    if q < k - src_start {
                        assert(bins@[front_len + q] == c0[front_len + q]);
                    }
                }
                lemma_pieces_of_push(c0, copy);
                assert(pieces_of(bins@) =~= kept_front.add(pieces_of(b.subrange(src_start as int, k as int + 1))));
            }
            k = k + 1;
        }
        let ghost mid = pieces_of(bins@);
        while back_rev.len() > 0
            invariant
                bins_ok(bins@, pr),
                segment_at(bins@, b, src_start as int, src_end as int, front_len as int),
                bins@.len() >= front_len + (src_end - src_start),
                forall|q: int| 0 <= q < back_rev@.len() ==> kept_from(#[trigger] back_rev@[q], a, seg_ms),
                crossover_frame(a, b, src_start as int, src_end as int, front_len as int, bins@),
                seg_ms == pieces_of(b.subrange(src_start as int, src_end as int)),
                bins_ok(back_rev@, pr),
                pieces_of(bins@).add(pieces_of(back_rev@)) == mid.add(kept_back),
            decreases back_rev@.len(),
        {
            let ghost f0 = back_rev@;
            let ghost c0 = bins@;
            let bin = back_rev.pop().unwrap();
            proof {
                assert(f0 =~= back_rev@.push(bin));
                lemma_pieces_of_push(back_rev@, bin);
                assert(bin_ok(f0[f0.len() - 1], pr));
            }
            bins.push(bin);
            proof {
                assert forall|q: int| 0 <= q < src_end - src_start implies #[trigger] bins@[front_len + q].length == b[src_start + q].length
                    && bins@[front_len + q].demand_pieces@.len() >= b[src_start + q].demand_pieces@.len()
                    && bins@[front_len + q].demand_pieces@.take(b[src_start + q].demand_pieces@.len() as int)
                    == b[src_start + q].demand_pieces@ by {
                    assert(bins@[front_len + q] == c0[front_len + q]);
                }
                lemma_pieces_of_push(c0, bin);
                assert(pieces_of(bins@).add(pieces_of(back_rev@)) =~= mid.add(kept_back));
            }
        }
        proof {
            assert(pieces_of(back_rev@) =~= Multiset::empty());
            assert(pieces_of(bins@) =~= mid.add(kept_back));
            lemma_crossover_cover(
                pr,
                a,
                b,
                src_start as int,
                src_end as int,
                marks@,
                kept_front.add(kept_back),
                displaced@.to_multiset(),
            );
            assert(pieces_of(bins@).add(displaced@.to_multiset()) =~= pr.catalog());
        }
        let mut child = BinPackerUnit { bins };
        let ghost base = pieces_of(child.bins@);
        let ghost frame = child.bins@;
        let ghost mut hist: Seq<Seq<Bin>> = seq![frame];
        let mut j: usize = 0;
        proof {
            lemma_fit_history_start(pr, frame);
            assert(displaced@.take(0) =~= Seq::<DemandPiece>::empty());
        }
        while j < displaced.len()
            invariant
                pr.wf(),
                j <= displaced@.len(),
                child.bins_valid(pr),
                forall|i: int|
                    0 <= i < displaced@.len() ==> pr.in_catalog(#[trigger] displaced@[i])
                        && pr.holds(displaced@[i].length),
                pieces_of(child.bins@) == base.add(displaced@.take(j as int).to_multiset()),
                segment_at(child.bins@, b, src_start as int, src_end as int, front_len as int),
                b == other.bins@,
                fit_history(pr, frame, displaced@.take(j as int), child.bins@, hist),
            decreases displaced@.len() - j,
        {
            let ghost c0 = child.bins@;
            let piece = displaced[j];
            proof {
                assert(pr.in_catalog(displaced@[j as int]));
            }
            child.first_fit(pr, piece, rng);
            proof {
                lemma_segment_grown(c0, child.bins@, b, src_start as int, src_end as int, front_len as int);
                assert(displaced@.take(j as int + 1) =~= displaced@.take(j as int).push(piece));
                assert(pieces_of(child.bins@) =~= base.add(displaced@.take(j as int + 1).to_multiset()));
                lemma_fit_history_extend(pr, frame, displaced@.take(j as int), c0, hist, piece, child.bins@);
                hist = hist.push(child.bins@);
            }
            j = j + 1;
        }
        proof {
            assert(displaced@.take(j as int) =~= displaced@);
            assert(front_len <= dest);
            assert(fit_history(pr, frame, displaced@, child.bins@, hist));
            assert(crossover_frame(a, b, src_start as int, src_end as int, front_len as int, frame));
            assert(refit_frame(pr, a, b, src_start as int, src_end as int, front_len as int, frame, displaced@, child.bins@));
        }
        child
    }

    /// Crossover with cut points drawn at random: `dest` in this candidate's
    /// bin range, then `src_start <= src_end` in the other's.
    pub fn crossover(&self, other: &BinPackerUnit, pr: &Problem, rng: &mut StdRng) -> (r: BinPackerUnit)
        requires
            pr.wf(),
            pr.demand_pieces@.len() > 0,
            self.valid(pr),
            other.valid(pr),
        ensures
            r.valid(pr),
            crossover_child(pr, self.bins@, other.bins@, r.bins@),
    {
        proof {
            lemma_valid_has_bins(self, pr);
            lemma_valid_has_bins(other, pr);
        }
        let dest = random_index(rng, 0, self.bins.len());
        let src_start = random_index(rng, 0, other.bins.len());
        let src_end = random_index(rng, src_start, other.bins.len());
        self.crossover_at(other, pr, dest, src_start, src_end, rng)
    }

    /// With one chance in forty an elimination, with another an inversion,
    /// else nothing: about one chance in twenty of a change. The pieces held
    /// stay the same.
    pub fn mutate(&mut self, pr: &Problem, rng: &mut StdRng)
        requires
            pr.wf(),
            old(self).valid(pr),
        ensures
            final(self).valid(pr),
            mutated(pr, old(self).bins@, final(self).bins@),
    {
        let roll = random_index(rng, 0, 40);
        if roll == 0 {
            self.elimination(pr, rng);
        } else if roll == 1 {
            self.inversion(rng);
            proof {
                lemma_permuted_bins_ok(old(self).bins@, self.bins@, pr);
            }
        }
        proof {
            if roll == 0 {
                if exists|i: int| 0 <= i < old(self).bins@.len() && bin_fitness(#[trigger] old(self).bins@[i]) < FITNESS_SCALE {
                    let (w, order) = choose|w: int, order: Seq<DemandPiece>| #[trigger] eliminated_at(pr, old(self).bins@, w, order, self.bins@);
                    assert(eliminated_at(pr, old(self).bins@, w, order, self.bins@));
                }
            }
        }
    }

    /// Takes out the first bin of lowest fitness below a perfect score,
    /// shuffles its pieces and places them again by first fit. Nothing
    /// changes when every bin is full.
    pub fn elimination(&mut self, pr: &Problem, rng: &mut StdRng)
        requires
            pr.wf(),
            old(self).bins_valid(pr),
        ensures
            final(self).bins_valid(pr),
            pieces_of(final(self).bins@) == pieces_of(old(self).bins@),
            (forall|i: int|
                0 <= i < old(self).bins@.len() ==> bin_fitness(#[trigger] old(self).bins@[i])
                    >= FITNESS_SCALE) ==> final(self).bins@ == old(self).bins@ && *final(rng) == *old(rng),
            (exists|i: int|
                0 <= i < old(self).bins@.len() && bin_fitness(#[trigger] old(self).bins@[i])
                    < FITNESS_SCALE) ==> exists|w: int, order: Seq<DemandPiece>| #[trigger]
                eliminated_at(pr, old(self).bins@, w, order, final(self).bins@),
    {
        let mut worst_fitness: u64 = FITNESS_SCALE;
        let mut worst_idx: usize = 0;
        let n = self.bins.len();
        let mut i: usize = 0;
        while i < n
            invariant
                n == self.bins@.len(),
                i <= n,
                self.bins@ == old(self).bins@,
                old(self).bins_valid(pr),
                worst_fitness <= FITNESS_SCALE,
                worst_fitness < FITNESS_SCALE ==> worst_idx < i && bin_fitness(self.bins@[worst_idx as int]) == worst_fitness,
                forall|k: int| 0 <= k < i ==> worst_fitness <= bin_fitness(#[trigger] self.bins@[k]),
                forall|k: int| 0 <= k < worst_idx ==> worst_fitness < bin_fitness(#[trigger] self.bins@[k]),
                worst_idx <= i,
                worst_fitness == FITNESS_SCALE ==> worst_idx == 0,
            decreases n - i,
        {
            proof {
                assert(bin_ok(self.bins@[i as int], pr));
            }
            let fitness = self.bins[i].fitness();
            if fitness < worst_fitness {
                worst_fitness = fitness;
                worst_idx = i;
            }
            i = i + 1;
        }
        proof {
            if exists|k: int| 0 <= k < n && bin_fitness(#[trigger] self.bins@[k]) < FITNESS_SCALE {
                let k = choose|k: int| 0 <= k < n && bin_fitness(#[trigger] self.bins@[k]) < FITNESS_SCALE;
                assert(worst_fitness <= bin_fitness(self.bins@[k]));
            }
            if forall|k: int| 0 <= k < n ==> bin_fitness(#[trigger] self.bins@[k]) >= FITNESS_SCALE {
                if worst_fitness < FITNESS_SCALE {
                    assert(bin_fitness(self.bins@[worst_idx as int]) >= FITNESS_SCALE);
                }
            }
        }
        if worst_fitness < FITNESS_SCALE {
            let ghost before = self.bins@;
            proof {
                assert(weakest_bin(before, worst_idx as int));
            }
            let worst_bin = self.bins.remove(worst_idx);
            proof {
                lemma_pieces_of_remove(before, worst_idx as int);
                assert(bin_ok(before[worst_idx as int], pr));
                assert forall|k: int| 0 <= k < self.bins@.len() implies bin_ok(#[trigger] self.bins@[k], pr) by {
                    if k < worst_idx {
                        assert(self.bins@[k] == before[k]);
                    } else {
                        assert(self.bins@[k] == before[k + 1]);
                    }
                }
            }
            let mut pieces = worst_bin.demand_pieces;
            let ghost orig = pieces@;
            shuffle_pieces(rng, &mut pieces);
            let ghost base = pieces_of(self.bins@);
            let ghost start = self.bins@;
            let ghost mut hist: Seq<Seq<Bin>> = seq![start];
            let mut j: usize = 0;
            proof {
                lemma_fit_history_start(pr, start);
                lemma_grown_refl(self.bins@);
                assert(pieces@.take(0) =~= Seq::<DemandPiece>::empty());
                assert forall|q: int| 0 <= q < pieces@.len() implies pr.in_catalog(#[trigger] pieces@[q])
                    && pr.holds(pieces@[q].length) by {
                    assert(pieces@.to_multiset().count(pieces@[q]) > 0);
                    assert(orig.contains(pieces@[q]));
                    let w = choose|w: int| 0 <= w < orig.len() && orig[w] == pieces@[q];
                    assert(pr.in_catalog(orig[w]));
                    assert(orig[w].length <= worst_bin.length);
                    assert(pr.stock_lengths@.contains(worst_bin.length));
                    let z = choose|z: int| 0 <= z < pr.stock_lengths@.len() && pr.stock_lengths@[z] == worst_bin.length;
                }
            }
            while j < pieces.len()
                invariant
                    pr.wf(),
                    j <= pieces@.len(),
                    self.bins_valid(pr),
                    forall|q: int|
                        0 <= q < pieces@.len() ==> pr.in_catalog(#[trigger] pieces@[q])
                            && pr.holds(pieces@[q].length),
                    pieces_of(self.bins@) == base.add(pieces@.take(j as int).to_multiset()),
                    grown_from(before.remove(worst_idx as int), self.bins@),
                    start == before.remove(worst_idx as int),
                    fit_history(pr, start, pieces@.take(j as int), self.bins@, hist),
                decreases pieces@.len() - j,
            {
                let piece = pieces[j];
                proof {
                    assert(pr.in_catalog(pieces@[j as int]));
                }
                let ghost c0 = self.bins@;
                self.first_fit(pr, piece, rng);
                proof {
                    lemma_grown_trans(before.remove(worst_idx as int), c0, self.bins@);
                    assert(pieces@.take(j as int + 1) =~= pieces@.take(j as int).push(piece));
                    lemma_fit_history_extend(pr, start, pieces@.take(j as int), c0, hist, piece, self.bins@);
                    hist = hist.push(self.bins@);
                }
                proof {
                    assert(pieces@.take(j as int + 1) =~= pieces@.take(j as int).push(piece));
                    assert(pieces_of(self.bins@) =~= base.add(pieces@.take(j as int + 1).to_multiset()));
                }
                j = j + 1;
            }
            proof {
                assert(pieces@.take(j as int) =~= pieces@);
                assert(pieces_of(self.bins@) =~= pieces_of(before));
                assert(fit_history(pr, start, pieces@, self.bins@, hist));
                assert(weakest_bin(old(self).bins@, worst_idx as int));
                assert(eliminated_at(pr, old(self).bins@, worst_idx as int, pieces@, self.bins@));
            }
        }
    }

    /// Reverses the order of the bins in a range `[start, end)` drawn at
    /// random; no bin changes.
    pub fn inversion(&mut self, rng: &mut StdRng)
        ensures
            exists|start: int, end: int| 0 <= start <= end <= old(self).bins@.len()
                && #[trigger] reversed_range(old(self).bins@, final(self).bins@, start, end),
    {
        let n = self.bins.len();
        if n == 0 {
            proof {
                assert(reversed_range(old(self).bins@, self.bins@, 0, 0));
            }
            return;
        }
        let start = random_index(rng, 0, n);
        let end = random_index(rng, start, n);
        self.reverse_range(start, end);
    }

    /// Reverses the order of bins `[start, end)`.
    pub fn reverse_range(&mut self, start: usize, end: usize)
        requires
            start <= end <= old(self).bins@.len(),
        ensures
            reversed_range(old(self).bins@, final(self).bins@, start as int, end as int),
    {
        let ghost s = self.bins@;
        let mut middle = self.bins.split_off(start);
        let mut tail = middle.split_off(end - start);
        let ghost seg = middle@;
        let ghost len = seg.len();
        while middle.len() > 0
            invariant
                seg.len() == len,
                seg == s.subrange(start as int, end as int),
                tail@ == s.subrange(end as int, s.len() as int),
                start <= end <= s.len(),
                middle@.len() <= len,
                middle@ == seg.take(middle@.len() as int),
                self.bins@.len() == start + (len - middle@.len()),
                forall|k: int| 0 <= k < start ==> #[trigger] self.bins@[k] == s[k],
                forall|k: int| start <= k < self.bins@.len() ==> #[trigger] self.bins@[k] == seg[len - 1 - (k - start)],
            decreases middle@.len(),
        {
            let ghost m0 = middle@;
            let bin = middle.pop().unwrap();
            proof {
                assert(m0[m0.len() - 1] == seg[m0.len() - 1]);
                assert(bin == seg[m0.len() - 1]);
                assert(middle@ =~= seg.take(middle@.len() as int));
            }
            self.bins.push(bin);
        }
        let ghost head = self.bins@;
        self.bins.append(&mut tail);
        proof {
            assert forall|k: int| 0 <= k < self.bins@.len() implies #[trigger] self.bins@[k] == if start <= k < end {
                s[start + end - 1 - k]
            } else {
                s[k]
            } by {
                if k >= end {
                    assert(self.bins@[k] == s.subrange(end as int, s.len() as int)[k - end]);
                } else if k >= start {
                    assert(head[k] == seg[len - 1 - (k - start)]);
                }
            }
        }
    }

    /// Crossover followed by mutation.
    pub fn breed_with(&self, other: &BinPackerUnit, pr: &Problem, rng: &mut StdRng) -> (r: BinPackerUnit)
        requires
            pr.wf(),
            pr.demand_pieces@.len() > 0,
            self.valid(pr),
            other.valid(pr),
        ensures
            r.valid(pr),
            bred_from(pr, self.bins@, other.bins@, r.bins@),
    {
        let mut child = self.crossover(other, pr, rng);
        let ghost mid = child.bins@;
        child.mutate(pr, rng);
        proof {
            assert(crossover_child(pr, self.bins@, other.bins@, mid));
        }
        child
    }

    /// Mean fitness of the bins, in parts per billion; zero for no bins.
    pub fn fitness(&self) -> (r: u64)
        requires
            forall|i: int| 0 <= i < self.bins@.len() ==> (#[trigger] self.bins@[i]).wf(),
        ensures
            r == mean_fitness(self.bins@),
            r <= FITNESS_SCALE,
    {
        let n = self.bins.len();
        if n == 0 {
            return 0;
        }
        let mut sum: u128 = 0;
        let mut i: usize = 0;
        while i < n
            invariant
                n == self.bins@.len(),
                i <= n,
                forall|k: int| 0 <= k < self.bins@.len() ==> (#[trigger] self.bins@[k]).wf(),
                sum == fitness_sum(self.bins@.take(i as int)),
                sum <= i * FITNESS_SCALE,
            decreases n - i,
        {
            let f = self.bins[i].fitness();
            proof {
                assert(self.bins@.take(i as int + 1).drop_last() =~= self.bins@.take(i as int));
                assert(i * FITNESS_SCALE + FITNESS_SCALE == (i + 1) * FITNESS_SCALE) by (nonlinear_arith);
                assert((i + 1) * FITNESS_SCALE <= 0x1_0000_0000_0000_0000 * FITNESS_SCALE) by (nonlinear_arith)
                    requires i < 0x1_0000_0000_0000_0000;
            }
            sum = sum + f as u128;
            i = i + 1;
        }
        proof {
            assert(self.bins@.take(n as int) =~= self.bins@);
            assert((sum as int) / (n as int) <= FITNESS_SCALE) by (nonlinear_arith)
                requires sum <= n * FITNESS_SCALE, n > 0;
        }
        (sum / (n as u128)) as u64
    }
}

} // verus!
