use binpacker1d::optimizer::{
    generate_random_units, layout_bin, sort_by_length_descending, OptimizeError, Optimizer,
    Solution,
};
use binpacker1d::packing::{Bin, DemandPiece, FITNESS_SCALE};
use binpacker1d::unit::{BinPackerUnit, Problem};
use rand::rngs::StdRng;
use rand::SeedableRng;

fn optimizer(stock: &[usize], demand: &[usize], spacing: usize, seed: u64) -> Optimizer {
    let mut opt = Optimizer::new();
    opt.add_stock_lengths(&stock.to_vec());
    opt.add_cut_lengths(&demand.to_vec());
    opt.set_blade_width(spacing);
    opt.set_random_seed(seed);
    opt
}

fn check_plan(sol: &Solution, stock: &[usize], demand: &[usize], spacing: usize) {
    let mut seen = vec![0usize; demand.len()];
    for sp in &sol.repos_pieces {
        assert!(stock.contains(&sp.length));
        assert!(!sp.demand_pieces.is_empty());
        let mut expected_location = 0;
        for (k, cut) in sp.demand_pieces.iter().enumerate() {
            assert_eq!(cut.location, expected_location);
            assert_eq!(cut.length, demand[cut.id]);
            if k > 0 {
                assert!(sp.demand_pieces[k - 1].length >= cut.length);
            }
            assert!(cut.location + cut.length <= sp.length);
            seen[cut.id] += 1;
            expected_location = cut.location + cut.length + spacing;
        }
    }
    assert!(seen.iter().all(|&c| c == 1));
    assert!(sol.fitness <= FITNESS_SCALE);
    let mut sum: u128 = 0;
    for sp in &sol.repos_pieces {
        let total: usize = sp.demand_pieces.iter().map(|c| c.length).sum();
        let used = total + spacing * (sp.demand_pieces.len() - 1);
        let ratio = used as u128 * FITNESS_SCALE as u128 / sp.length as u128;
        sum += ratio * ratio / FITNESS_SCALE as u128;
    }
    assert_eq!(sol.fitness as u128, sum / sol.repos_pieces.len() as u128);
}

fn catalog(lengths: &[usize]) -> Vec<DemandPiece> {
    lengths.iter().enumerate().map(|(id, &length)| DemandPiece { id, length }).collect()
}

#[test]
fn three_pieces_of_four_on_stock_of_ten() {
    let sol = optimizer(&[10], &[4, 4, 4], 0, 100).optimize().unwrap();
    check_plan(&sol, &[10], &[4, 4, 4], 0);
    assert_eq!(sol.repos_pieces.len(), 2);
    assert_eq!(sol.fitness, 400_000_000);
    for sp in &sol.repos_pieces {
        let used: usize = sp.demand_pieces.iter().map(|c| c.length).sum();
        assert!(used <= 10);
    }
}

#[test]
fn two_fives_fill_stock_exactly() {
    let sol = optimizer(&[5, 10], &[5, 5], 0, 100).optimize().unwrap();
    check_plan(&sol, &[5, 10], &[5, 5], 0);
    // A single stock piece of ten holding both pieces would be full too.
    assert!(sol.fitness >= FITNESS_SCALE);
    for sp in &sol.repos_pieces {
        let used: usize = sp.demand_pieces.iter().map(|c| c.length).sum();
        assert_eq!(used, sp.length);
    }
}

#[test]
fn piece_longer_than_all_stock_is_infeasible() {
    let r = optimizer(&[5, 8], &[3, 9, 2], 0, 1).optimize();
    assert!(matches!(r, Err(OptimizeError::Infeasible)));
}

#[test]
fn no_demand_pieces_is_an_error() {
    let r = optimizer(&[5], &[], 0, 1).optimize();
    assert!(matches!(r, Err(OptimizeError::NoDemandPieces)));
}

#[test]
fn zero_stock_length_is_an_error() {
    let r = optimizer(&[5, 0], &[3], 0, 1).optimize();
    assert!(matches!(r, Err(OptimizeError::ZeroStockLength)));
}

#[test]
fn same_seed_gives_same_plan() {
    let stock = [9600, 12000];
    let demand = [1000, 2000, 3000, 4000, 2000, 6000, 6000, 5000, 7000, 1600, 8000, 1000, 300];
    let a = optimizer(&stock, &demand, 25, 7).optimize().unwrap();
    let b = optimizer(&stock, &demand, 25, 7).optimize().unwrap();
    assert_eq!(a.fitness, b.fitness);
    assert_eq!(a.repos_pieces.len(), b.repos_pieces.len());
    for (x, y) in a.repos_pieces.iter().zip(b.repos_pieces.iter()) {
        assert_eq!(x.length, y.length);
        assert_eq!(x.demand_pieces, y.demand_pieces);
    }
    check_plan(&a, &stock, &demand, 25);
}

#[test]
fn spacing_is_kept_between_cuts() {
    let sol = optimizer(&[100], &[30, 30, 30], 5, 3).optimize().unwrap();
    check_plan(&sol, &[100], &[30, 30, 30], 5);
    assert_eq!(sol.repos_pieces.len(), 1);
    let locations: Vec<usize> = sol.repos_pieces[0].demand_pieces.iter().map(|c| c.location).collect();
    assert_eq!(locations, vec![0, 35, 70]);
    assert_eq!(sol.fitness, FITNESS_SCALE);
}

#[test]
fn sorting_puts_longest_first_and_keeps_ties_in_order() {
    let pieces = vec![
        DemandPiece { id: 0, length: 3 },
        DemandPiece { id: 1, length: 7 },
        DemandPiece { id: 2, length: 3 },
        DemandPiece { id: 3, length: 9 },
    ];
    let sorted = sort_by_length_descending(&pieces);
    let ids: Vec<usize> = sorted.iter().map(|p| p.id).collect();
    assert_eq!(ids, vec![3, 1, 0, 2]);
}

#[test]
fn layout_places_cuts_longest_first() {
    let mut bin = Bin::with_piece(20, 1, DemandPiece { id: 0, length: 3 });
    assert_eq!(bin.insert(DemandPiece { id: 1, length: 8 }), Some(4));
    let sp = layout_bin(&bin);
    assert_eq!(sp.length, 20);
    let cuts: Vec<(usize, usize, usize)> =
        sp.demand_pieces.iter().map(|c| (c.id, c.location, c.length)).collect();
    assert_eq!(cuts, vec![(1, 0, 8), (0, 9, 3)]);
}

#[test]
fn random_units_cover_the_catalog() {
    let pr = Problem { stock_lengths: vec![10, 12], demand_pieces: catalog(&[4, 5, 6, 3, 7]), spacing: 1 };
    let units = generate_random_units(&pr, 5, 42).unwrap();
    assert_eq!(units.len(), 5);
    for u in &units {
        let mut ids: Vec<usize> = u.bins.iter().flat_map(|b| b.demand_pieces.iter().map(|p| p.id)).collect();
        ids.sort();
        assert_eq!(ids, vec![0, 1, 2, 3, 4]);
    }
    let pr_bad = Problem { stock_lengths: vec![5], demand_pieces: catalog(&[4, 6]), spacing: 0 };
    assert!(generate_random_units(&pr_bad, 3, 42).is_none());
}

#[test]
fn new_bin_length_is_drawn_among_those_that_fit() {
    let pr = Problem { stock_lengths: vec![3, 10, 4], demand_pieces: catalog(&[5]), spacing: 0 };
    let mut rng = StdRng::seed_from_u64(5);
    for _ in 0..20 {
        let mut unit = BinPackerUnit { bins: Vec::new() };
        assert_eq!(unit.add_to_new_bin(&pr, pr.demand_pieces[0], &mut rng), Some(0));
        assert_eq!(unit.bins.len(), 1);
        assert_eq!(unit.bins[0].length, 10);
    }
}

#[test]
fn random_units_use_different_orders() {
    let pr = Problem {
        stock_lengths: vec![100],
        demand_pieces: catalog(&[1, 2, 3, 4, 5, 6, 7, 8]),
        spacing: 0,
    };
    let units = generate_random_units(&pr, 10, 8).unwrap();
    let orders: Vec<Vec<usize>> = units
        .iter()
        .map(|u| u.bins[0].demand_pieces.iter().map(|p| p.id).collect())
        .collect();
    assert!(orders.iter().any(|o| *o != vec![0, 1, 2, 3, 4, 5, 6, 7]));
    assert!(orders.iter().any(|o| *o != orders[0]));
}
