use mcpnr_pnr::legalizer::{TetrisLegalizer, TetrisRows};
use mcpnr_pnr::placement_cell::{get_cell_pos, CellFactory, CellPosError, LegalizedCell, PlacementStructureData};
use mcpnr_pnr::placer::{
    decompose, mobile_cells, plan_net, AnchoredByNet, Clique, DecompositionStrategy, MoveableStar, NetStrategy, Signal,
    StarAllocator, StarIndex, Term, ThresholdCrossover,
};
use mcpnr_pnr::structure_cache::{Structure, StructureBlock};
use mcpnr_pnr::yosys::Cell;

fn signal(cells: &[usize], locked: &[bool]) -> Signal {
    Signal {
        connected_cells: cells.to_vec(),
        moveable_cells: cells.iter().filter(|c| !locked[**c]).count(),
    }
}

/// Three mobile cells and two fixed ones; the fixed cells each tie to the first mobile cell,
/// and the mobile cells share a net.
fn three_cell_net() -> (Vec<bool>, Vec<Signal>) {
    let locked = vec![false, false, false, true, true];
    let signals = vec![signal(&[3, 0], &locked), signal(&[4, 0], &locked), signal(&[0, 1, 2], &locked)];
    (locked, signals)
}

#[test]
fn three_star_terms() {
    let (locked, signals) = three_cell_net();
    let mut strategy = MoveableStar::new();
    let (extra, decisions) = decompose(&mut strategy, &signals);
    assert_eq!(extra, 1);
    assert_eq!(
        decisions,
        vec![NetStrategy::CliqueModel, NetStrategy::CliqueModel, NetStrategy::StarModel { star_idx: StarIndex(0) }]
    );
    assert_eq!(plan_net(decisions[0], &signals[0], &locked, 3), vec![Term::FixedMobile { mobile: 0, fixed: 3 }]);
    assert_eq!(plan_net(decisions[1], &signals[1], &locked, 3), vec![Term::FixedMobile { mobile: 0, fixed: 4 }]);
    assert_eq!(
        plan_net(decisions[2], &signals[2], &locked, 3),
        vec![Term::MobileMobile(3, 0), Term::MobileMobile(3, 1), Term::MobileMobile(3, 2)]
    );
}

#[test]
fn star_pulls_fixed_cells_onto_star_entry() {
    let locked = vec![false, false, true];
    let s = signal(&[0, 2, 1], &locked);
    let terms = plan_net(NetStrategy::StarModel { star_idx: StarIndex(4) }, &s, &locked, 2);
    assert_eq!(
        terms,
        vec![Term::MobileMobile(6, 0), Term::FixedMobile { mobile: 6, fixed: 2 }, Term::MobileMobile(6, 1)]
    );
}

#[test]
fn three_clique_terms() {
    let (locked, signals) = three_cell_net();
    let mut strategy = Clique::new();
    let (extra, decisions) = decompose(&mut strategy, &signals);
    assert_eq!(extra, 0);
    assert_eq!(decisions, vec![NetStrategy::CliqueModel; 3]);
    assert_eq!(
        plan_net(decisions[2], &signals[2], &locked, 3),
        vec![Term::MobileMobile(0, 1), Term::MobileMobile(0, 2), Term::MobileMobile(1, 2)]
    );
}

#[test]
fn clique_skips_pairs_of_fixed_cells() {
    let locked = vec![false, true, true, false];
    let s = signal(&[1, 0, 2, 3], &locked);
    assert_eq!(
        plan_net(NetStrategy::CliqueModel, &s, &locked, 2),
        vec![
            Term::FixedMobile { mobile: 0, fixed: 1 },
            Term::FixedMobile { mobile: 3, fixed: 1 },
            Term::FixedMobile { mobile: 0, fixed: 2 },
            Term::MobileMobile(0, 3),
            Term::FixedMobile { mobile: 3, fixed: 2 },
        ]
    );
}

#[test]
fn three_anchor_by_net_terms() {
    let (locked, signals) = three_cell_net();
    let mut strategy = AnchoredByNet::new();
    let (extra, decisions) = decompose(&mut strategy, &signals);
    assert_eq!(extra, 0);
    assert_eq!(decisions, vec![NetStrategy::CliqueModel, NetStrategy::CliqueModel, NetStrategy::Anchor]);
    assert_eq!(
        plan_net(decisions[2], &signals[2], &locked, 3),
        vec![Term::AnchorMobile(0), Term::AnchorMobile(1), Term::AnchorMobile(2)]
    );
}

#[test]
fn fixed_nets_contribute_nothing() {
    let locked = vec![true, true];
    let s = signal(&[0, 1], &locked);
    let mut strategy = MoveableStar::new();
    assert_eq!(strategy.analyze(&s), NetStrategy::AllFixed);
    assert_eq!(strategy.extra_entries(), 0);
    assert_eq!(plan_net(NetStrategy::AllFixed, &s, &locked, 0), vec![]);
}

#[test]
fn threshold_crossover_splits_by_size() {
    let locked = vec![false; 5];
    let small = signal(&[0, 1], &locked);
    let large = signal(&[0, 1, 2, 3], &locked);
    let mut strategy = ThresholdCrossover::new(3, Clique::new(), MoveableStar::new());
    assert_eq!(strategy.analyze(&small), NetStrategy::CliqueModel);
    assert_eq!(strategy.analyze(&large), NetStrategy::StarModel { star_idx: StarIndex(0) });
    assert_eq!(strategy.analyze(&large), NetStrategy::StarModel { star_idx: StarIndex(1) });
    assert_eq!(strategy.extra_entries(), 2);
    strategy.reset();
    assert_eq!(strategy.extra_entries(), 0);
}

#[test]
fn star_allocator_counts_up_from_zero() {
    let mut a = StarAllocator::new();
    assert_eq!(a.next(), StarIndex(0));
    assert_eq!(a.next(), StarIndex(1));
    assert_eq!(a.count(), 2);
    a.reset();
    assert_eq!(a.next(), StarIndex(0));
}

#[test]
fn mobile_cells_keep_order() {
    let locked = vec![true, false, true, false];
    let s = signal(&[3, 0, 1, 2], &locked);
    assert_eq!(mobile_cells(&s, &locked), vec![3, 1]);
}

#[test]
fn tetris_rows_start_free() {
    let rows = TetrisRows::new(2, 12);
    assert_eq!(rows.max_y, 2);
    assert_eq!(rows.min_x, vec![0, 0, 0, 0]);
}

#[test]
fn tetris_candidates_respect_left_limit_and_width() {
    let mut rows = TetrisRows::new(2, 12);
    rows.occupy(1, 8);
    rows.occupy(2, 3);
    // A cell at x = 10, 4 wide, left limit 5, region 14 wide.
    let c = rows.candidates(12, 10, 4, 5, 14);
    assert_eq!(c, vec![Some((10, 0, 0)), Some((8, 1, 0)), Some((10, 0, 6)), Some((10, 1, 6))]);
    // The same cell in a region 11 wide fits nowhere but in row 1.
    let c = rows.candidates(12, 10, 4, 5, 12);
    assert_eq!(c, vec![None, Some((8, 1, 0)), None, None]);
    // Close to the left edge the free space start is taken as it is.
    let c = rows.candidates(12, 3, 2, 5, 20);
    assert_eq!(c, vec![Some((0, 0, 0)), Some((8, 1, 0)), Some((3, 0, 6)), Some((0, 1, 6))]);
}

#[test]
fn tetris_row_lookup() {
    let rows = TetrisRows::new(2, 12);
    assert_eq!(rows.row_of(1, 0), Some(1));
    assert_eq!(rows.row_of(0, 7), Some(2));
    assert_eq!(rows.row_of(1, 11), Some(3));
    assert_eq!(rows.row_of(0, 12), None);
}

#[test]
fn tetris_legalizer_keeps_left_limit() {
    assert_eq!(TetrisLegalizer::new(7).left_limit(), 7);
}

fn block(pos: [i32; 3]) -> StructureBlock {
    StructureBlock { state: 0, pos, sign: None }
}

#[test]
fn structure_size_spans_origin() {
    let s = Structure {
        data_version: 0,
        size: [0, 0, 0],
        palette: vec![],
        blocks: vec![block([1, 2, 3]), block([4, 0, 5]), block([2, 7, 1])],
    };
    let d = PlacementStructureData::of_structure(&s);
    assert_eq!(d, PlacementStructureData { sx: 4, sy: 7, sz: 5 });
    let s = Structure { data_version: 0, size: [0, 0, 0], palette: vec![], blocks: vec![block([-2, -1, 3])] };
    assert_eq!(PlacementStructureData::of_structure(&s), PlacementStructureData { sx: 2, sy: 1, sz: 3 });
}

#[test]
fn structure_footprint_rounds_up() {
    let d = PlacementStructureData { sx: 5, sy: 17, sz: 4 };
    assert_eq!(d.footprint(), (6, 2, 4));
    let d = PlacementStructureData { sx: 0, sy: 16, sz: 1 };
    assert_eq!(d.footprint(), (0, 1, 2));
}

#[test]
fn cell_factory_remembers_structures() {
    let mut f = CellFactory::new("cells".to_string());
    assert_eq!(f.cached("and.nbt"), None);
    let d = PlacementStructureData { sx: 2, sy: 3, sz: 4 };
    assert_eq!(f.remember("and.nbt", d), d);
    assert_eq!(f.cached("and.nbt"), Some(d));
    assert_eq!(f.cached("or.nbt"), None);
    assert_eq!(f.structure_directory, "cells");
}

fn io_cell(params: &[(&str, &str)]) -> Cell {
    Cell {
        hide_name: 0,
        ty: "MCPNR_SWITCHES".to_string(),
        parameters: params.iter().map(|(k, v)| (k.to_string(), v.to_string())).collect(),
        attributes: vec![],
        port_directions: vec![],
        connections: vec![],
    }
}

#[test]
fn cell_pos_reads_parameters() {
    let c = io_cell(&[("POS_X", "101"), ("POS_Z", "11")]);
    assert_eq!(get_cell_pos(&c).unwrap(), (5, 0, 3));
    let c = io_cell(&[("POS_X", "-1")]);
    assert!(matches!(get_cell_pos(&c), Err(CellPosError::OutOfRange(-1))));
    let c = io_cell(&[("POS_Y", "12")]);
    assert!(matches!(get_cell_pos(&c), Err(CellPosError::Param(_))));
}

#[test]
fn legalized_cell_is_plain_data() {
    let c = LegalizedCell { x: 1, tier_y: 2, z: 3, sx: 4, s_tier_y: 1, sz: 2 };
    let d = c;
    assert_eq!(c, d);
}

#[test]
fn star_ties_every_pin_to_the_star() {
    // Cells 0..3 are mobile; cells 3 and 4 are fixed pins.
    let locked = vec![false, false, false, true, true];
    let signals = vec![signal(&[3, 0], &locked), signal(&[1, 2, 4], &locked)];
    let mut strategy = MoveableStar::new();
    let (extra, decisions) = decompose(&mut strategy, &signals);
    assert_eq!(extra, 1);
    assert_eq!(decisions[1], NetStrategy::StarModel { star_idx: StarIndex(0) });
    assert_eq!(
        plan_net(decisions[1], &signals[1], &locked, 3),
        vec![Term::MobileMobile(3, 1), Term::MobileMobile(3, 2), Term::FixedMobile { mobile: 3, fixed: 4 }]
    );
}
