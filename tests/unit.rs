use binpacker1d::packing::{Bin, DemandPiece, FITNESS_SCALE};
use binpacker1d::population::Population;
use binpacker1d::unit::{BinPackerUnit, Problem};
use rand::rngs::StdRng;
use rand::SeedableRng;

fn catalog(lengths: &[usize]) -> Vec<DemandPiece> {
    lengths.iter().enumerate().map(|(id, &length)| DemandPiece { id, length }).collect()
}

fn ids(unit: &BinPackerUnit) -> Vec<usize> {
    let mut ids: Vec<usize> =
        unit.bins.iter().flat_map(|b| b.demand_pieces.iter().map(|p| p.id)).collect();
    ids.sort();
    ids
}

fn problem() -> Problem {
    Problem { stock_lengths: vec![10, 7], demand_pieces: catalog(&[4, 3, 5, 2, 6, 1, 3]), spacing: 0 }
}

#[test]
fn insert_places_after_spacing_and_refuses_overflow() {
    let mut bin = Bin::with_piece(10, 1, DemandPiece { id: 0, length: 4 });
    assert_eq!(bin.insert(DemandPiece { id: 1, length: 3 }), Some(5));
    assert_eq!(bin.used_length_including_spacing(), 8);
    assert_eq!(bin.insert(DemandPiece { id: 2, length: 2 }), None);
    assert_eq!(bin.demand_pieces.len(), 2);
    assert_eq!(bin.insert(DemandPiece { id: 3, length: 1 }), Some(9));
    assert_eq!(bin.used_length_including_spacing(), 10);
}

#[test]
fn bin_fitness_is_squared_utilisation() {
    let bin = Bin::with_piece(10, 0, DemandPiece { id: 0, length: 5 });
    assert_eq!(bin.fitness(), 250_000_000);
    let full = Bin::with_piece(7, 0, DemandPiece { id: 0, length: 7 });
    assert_eq!(full.fitness(), FITNESS_SCALE);
}

#[test]
fn unit_fitness_is_mean_of_bins() {
    let unit = BinPackerUnit {
        bins: vec![
            Bin::with_piece(10, 0, DemandPiece { id: 0, length: 5 }),
            Bin::with_piece(10, 0, DemandPiece { id: 1, length: 10 }),
        ],
    };
    assert_eq!(unit.fitness(), 625_000_000);
    assert_eq!(BinPackerUnit { bins: Vec::new() }.fitness(), 0);
}

#[test]
fn remove_marked_pieces_reports_count() {
    let mut bin = Bin::with_piece(20, 0, DemandPiece { id: 0, length: 4 });
    bin.insert(DemandPiece { id: 1, length: 3 });
    bin.insert(DemandPiece { id: 2, length: 5 });
    let (count, rest) = bin.remove_demand_pieces(&vec![false, true, true]);
    assert_eq!(count, 2);
    assert_eq!(rest, vec![DemandPiece { id: 0, length: 4 }]);
}

#[test]
fn first_fit_uses_first_bin_with_room() {
    let pr = Problem { stock_lengths: vec![10], demand_pieces: catalog(&[6, 6, 3]), spacing: 0 };
    let mut rng = StdRng::seed_from_u64(1);
    let unit = BinPackerUnit::new(&pr, &pr.demand_pieces, &mut rng).unwrap();
    assert_eq!(unit.bins.len(), 2);
    assert_eq!(unit.bins[0].demand_pieces.iter().map(|p| p.id).collect::<Vec<_>>(), vec![0, 2]);
    assert_eq!(unit.bins[1].demand_pieces.iter().map(|p| p.id).collect::<Vec<_>>(), vec![1]);
}

#[test]
fn crossover_keeps_every_piece_once_for_all_cut_points() {
    let pr = problem();
    let mut rng = StdRng::seed_from_u64(9);
    let a = BinPackerUnit::new(&pr, &pr.demand_pieces, &mut rng).unwrap();
    let mut order = pr.demand_pieces.clone();
    order.reverse();
    let b = BinPackerUnit::new(&pr, &order, &mut rng).unwrap();
    for dest in 0..=a.bins.len() {
        for start in 0..=b.bins.len() {
            for end in start..=b.bins.len() {
                let child = a.crossover_at(&b, &pr, dest, start, end, &mut rng);
                assert_eq!(ids(&child), vec![0, 1, 2, 3, 4, 5, 6]);
                for bin in &child.bins {
                    assert!(bin.used_length_including_spacing() <= bin.length);
                    assert!(!bin.demand_pieces.is_empty());
                }
            }
        }
        let child = a.breed_with(&b, &pr, &mut rng);
        assert_eq!(ids(&child), vec![0, 1, 2, 3, 4, 5, 6]);
    }
}

#[test]
fn elimination_keeps_piece_count() {
    let pr = problem();
    let mut rng = StdRng::seed_from_u64(3);
    let mut unit = BinPackerUnit::new(&pr, &pr.demand_pieces, &mut rng).unwrap();
    for _ in 0..10 {
        unit.elimination(&pr, &mut rng);
        assert_eq!(ids(&unit), vec![0, 1, 2, 3, 4, 5, 6]);
    }
}

#[test]
fn elimination_leaves_full_bins_alone() {
    let pr = Problem { stock_lengths: vec![5], demand_pieces: catalog(&[5, 5]), spacing: 0 };
    let mut rng = StdRng::seed_from_u64(3);
    let mut unit = BinPackerUnit::new(&pr, &pr.demand_pieces, &mut rng).unwrap();
    unit.elimination(&pr, &mut rng);
    assert_eq!(unit.bins.len(), 2);
    assert_eq!(unit.bins[0].demand_pieces[0].id, 0);
    assert_eq!(unit.bins[1].demand_pieces[0].id, 1);
}

#[test]
fn reverse_range_only_reorders_bins() {
    let mut unit = BinPackerUnit {
        bins: (0..5).map(|i| Bin::with_piece(10, 0, DemandPiece { id: i, length: i + 1 })).collect(),
    };
    let before: Vec<u64> = unit.bins.iter().map(|b| b.fitness()).collect();
    unit.reverse_range(1, 4);
    let order: Vec<usize> = unit.bins.iter().map(|b| b.demand_pieces[0].id).collect();
    assert_eq!(order, vec![0, 3, 2, 1, 4]);
    let mut after: Vec<u64> = unit.bins.iter().map(|b| b.fitness()).collect();
    after.swap(1, 3);
    assert_eq!(after, before);
    let mut rng = StdRng::seed_from_u64(4);
    unit.inversion(&mut rng);
    let mut ids: Vec<usize> = unit.bins.iter().map(|b| b.demand_pieces[0].id).collect();
    ids.sort();
    assert_eq!(ids, vec![0, 1, 2, 3, 4]);
}

#[test]
fn population_stays_sorted_and_full() {
    let pr = problem();
    let mut rng = StdRng::seed_from_u64(11);
    let mut units = Vec::new();
    for _ in 0..6 {
        units.push(BinPackerUnit::new(&pr, &pr.demand_pieces, &mut rng).unwrap());
    }
    let mut pop = Population::new(&pr, units, 6, 30, 50, 11);
    pop.epochs(&pr, 20);
    assert!(pop.units.len() >= 6);
    for w in pop.fitness.windows(2) {
        assert!(w[0] >= w[1]);
    }
    for (u, f) in pop.units.iter().zip(pop.fitness.iter()) {
        assert_eq!(u.fitness(), *f);
        assert_eq!(ids(u), vec![0, 1, 2, 3, 4, 5, 6]);
    }
}

fn layout(unit: &BinPackerUnit) -> Vec<(usize, Vec<usize>)> {
    unit.bins
        .iter()
        .map(|b| (b.length, b.demand_pieces.iter().map(|p| p.id).collect()))
        .collect()
}

#[test]
fn new_packs_three_fours_by_first_fit() {
    let pr = Problem { stock_lengths: vec![10], demand_pieces: catalog(&[4, 4, 4]), spacing: 0 };
    let mut rng = StdRng::seed_from_u64(0);
    let unit = BinPackerUnit::new(&pr, &pr.demand_pieces, &mut rng).unwrap();
    assert_eq!(layout(&unit), vec![(10, vec![0, 1]), (10, vec![2])]);
    assert_eq!(unit.bins[0].used_length_including_spacing(), 8);
}

#[test]
fn crossover_child_is_fixed_by_cut_points() {
    let pr = Problem { stock_lengths: vec![10], demand_pieces: catalog(&[4, 4, 4]), spacing: 0 };
    let mut rng = StdRng::seed_from_u64(2);
    let a = BinPackerUnit::new(&pr, &pr.demand_pieces, &mut rng).unwrap();
    let order = vec![pr.demand_pieces[0], pr.demand_pieces[2], pr.demand_pieces[1]];
    let b = BinPackerUnit::new(&pr, &order, &mut rng).unwrap();
    assert_eq!(layout(&b), vec![(10, vec![0, 2]), (10, vec![1])]);
    for dest in 0..2 {
        for start in 0..2 {
            for end in start..2 {
                let child = a.crossover_at(&b, &pr, dest, start, end, &mut rng);
                if start == end {
                    assert_eq!(layout(&child), vec![(10, vec![0, 1]), (10, vec![2])]);
                } else {
                    assert_eq!(layout(&child), vec![(10, vec![0, 2]), (10, vec![1])]);
                }
            }
        }
    }
}

#[test]
fn crossover_with_itself_rearranges_bins() {
    let pr = problem();
    let mut rng = StdRng::seed_from_u64(21);
    let a = BinPackerUnit::new(&pr, &pr.demand_pieces, &mut rng).unwrap();
    for _ in 0..10 {
        let child = a.crossover(&a, &pr, &mut rng);
        let mut x = layout(&a);
        let mut y = layout(&child);
        x.sort();
        y.sort();
        assert_eq!(x, y);
    }
}
