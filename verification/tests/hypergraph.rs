use mcpnr_pnr::design::{ParameterValue, Position, Signal as DesignSignal, SignalType};
use mcpnr_pnr::hypergraph::{assemble_hypergraph, build_output, cell_metadata, collect_signals, net_metadata, partition_locked_last};
use mcpnr_pnr::placement_cell::LegalizedCell;
use mcpnr_pnr::placer::Signal;
use mcpnr_pnr::yosys::{Cell, ConstOrSignal, NetName};

fn ycell(ty: &str, conns: Vec<(&str, Vec<ConstOrSignal>)>) -> Cell {
    Cell {
        hide_name: 0,
        ty: ty.to_string(),
        parameters: vec![("WIDTH".to_string(), "10".to_string())],
        attributes: vec![("src".to_string(), "top.v:3".to_string())],
        port_directions: vec![],
        connections: conns.into_iter().map(|(k, v)| (k.to_string(), v)).collect(),
    }
}

#[test]
fn signals_group_cells_by_net() {
    let cells = vec![
        ("sw".to_string(), ycell("MCPNR_SWITCHES", vec![("O", vec![ConstOrSignal::Signal(2), ConstOrSignal::Signal(3)])])),
        ("g".to_string(), ycell("and.nbt", vec![
            ("A", vec![ConstOrSignal::Signal(2)]),
            ("B", vec![ConstOrSignal::Const("1".to_string())]),
            ("Y", vec![ConstOrSignal::Signal(4)]),
        ])),
        ("l".to_string(), ycell("MCPNR_LIGHTS", vec![("I", vec![ConstOrSignal::Signal(4), ConstOrSignal::Signal(3)])])),
    ];
    let locked = vec![true, false, true];
    let signals = collect_signals(&cells, &locked);
    let got: Vec<(Vec<usize>, usize)> = signals.iter().map(|s| (s.connected_cells.clone(), s.moveable_cells)).collect();
    assert_eq!(got, vec![(vec![0, 1], 1), (vec![0, 2], 0), (vec![1, 2], 1)]);
}

#[test]
fn locked_cells_go_last() {
    let mut cells = vec!["l0", "m0", "l1", "m1"];
    let mut meta = vec![0, 1, 2, 3];
    let mut locked = vec![true, false, true, false];
    let mut signals = vec![
        Signal { connected_cells: vec![0, 1], moveable_cells: 1 },
        Signal { connected_cells: vec![2, 3], moveable_cells: 1 },
    ];
    let mobile = partition_locked_last(&mut cells, &mut meta, &mut locked, &mut signals);
    assert_eq!(mobile, 2);
    assert_eq!(locked, vec![false, false, true, true]);
    // Cells, metadata and signals moved together.
    for (i, c) in cells.iter().enumerate() {
        assert_eq!(["l0", "m0", "l1", "m1"][meta[i]], *c);
        assert_eq!(c.starts_with('l'), locked[i]);
    }
    assert_eq!(cells[signals[0].connected_cells[0]], "l0");
    assert_eq!(cells[signals[0].connected_cells[1]], "m0");
    assert_eq!(cells[signals[1].connected_cells[0]], "l1");
    assert_eq!(cells[signals[1].connected_cells[1]], "m1");
}

#[test]
fn metadata_keeps_names_and_bits() {
    let c = ycell("and.nbt", vec![("A", vec![ConstOrSignal::Signal(7), ConstOrSignal::Const("0".to_string()), ConstOrSignal::Const("x".to_string())])]);
    let m = cell_metadata(&c);
    assert_eq!(m.ty, "and.nbt");
    assert_eq!(m.parameter[0].0, "WIDTH");
    assert!(matches!(&m.parameter[0].1.value, Some(ParameterValue::Str(s)) if s == "10"));
    assert_eq!(m.attributes[0].0, "src");
    assert_eq!(m.connection[0].0, "A");
    assert_eq!(
        m.connection[0].1.signal,
        vec![
            DesignSignal { ty: Some(SignalType::Id(7)) },
            DesignSignal { ty: Some(SignalType::Constant(0)) },
            DesignSignal { ty: Some(SignalType::Constant(2)) },
        ]
    );
}

#[test]
fn net_metadata_hides_names() {
    let n = NetName { hide_name: 1, bits: vec![ConstOrSignal::Const("1".to_string())], attributes: vec![] };
    let m = net_metadata(&n);
    assert!(m.hide_name);
    assert_eq!(m.bits.unwrap().signal, vec![DesignSignal { ty: Some(SignalType::Constant(1)) }]);
    let n = NetName { hide_name: 0, bits: vec![], attributes: vec![("a".to_string(), "b".to_string())] };
    let m = net_metadata(&n);
    assert!(!m.hide_name);
    assert_eq!(m.attributes.len(), 1);
}

#[test]
fn output_places_cells_in_blocks() {
    let c = ycell("and.nbt", vec![]);
    let meta = vec![cell_metadata(&c), cell_metadata(&c)];
    let cells = vec![LegalizedCell { x: 4, tier_y: 2, z: 6, sx: 2, s_tier_y: 1, sz: 2 }];
    let d = build_output(cells, meta, vec![], "synth".to_string());
    assert_eq!(d.creator, "synth");
    assert_eq!(d.cells.len(), 1);
    assert_eq!(d.cells[0].pos, Some(Position { x: 4, y: 32, z: 6 }));
    assert_eq!(d.cells[0].ty, "and.nbt");
}

#[test]
fn hypergraph_keeps_mobile_counts_after_moving_locked_cells() {
    let cells = vec![
        ("sw".to_string(), ycell("MCPNR_SWITCHES", vec![("O", vec![ConstOrSignal::Signal(2), ConstOrSignal::Signal(3)])])),
        ("g".to_string(), ycell("and.nbt", vec![
            ("A", vec![ConstOrSignal::Signal(2)]),
            ("Y", vec![ConstOrSignal::Signal(4)]),
        ])),
        ("l".to_string(), ycell("MCPNR_LIGHTS", vec![("I", vec![ConstOrSignal::Signal(4), ConstOrSignal::Signal(3)])])),
    ];
    let placed = vec!["sw", "g", "l"];
    let locked = vec![true, false, true];
    let (placed, metadata, locked, mobile, signals) = assemble_hypergraph(&cells, placed, locked);
    assert_eq!(mobile, 1);
    assert_eq!(placed[0], "g");
    assert_eq!(locked, vec![false, true, true]);
    for (i, m) in metadata.iter().enumerate() {
        let name = placed[i];
        let ty = cells.iter().find(|(k, _)| k == name).unwrap().1.ty.clone();
        assert_eq!(m.ty, ty);
    }
    for s in signals.iter() {
        assert_eq!(s.moveable_cells, s.connected_cells.iter().filter(|c| !locked[**c]).count());
    }
    assert_eq!(signals.len(), 3);
}
