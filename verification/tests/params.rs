use mcpnr_pnr::cell_params::{CellExt, CellGetAttribError};
use mcpnr_pnr::design::{Cell as PlacedCell, Parameter, ParameterValue};
use mcpnr_pnr::yosys::Cell as SynthCell;

fn synth(params: &[(&str, &str)]) -> SynthCell {
    SynthCell {
        hide_name: 0,
        ty: "x".to_string(),
        parameters: params.iter().map(|(k, v)| (k.to_string(), v.to_string())).collect(),
        attributes: vec![],
        port_directions: vec![],
        connections: vec![],
    }
}

fn placed(params: Vec<(&str, ParameterValue)>) -> PlacedCell {
    PlacedCell {
        pos: None,
        ty: "x".to_string(),
        parameter: params.into_iter().map(|(k, v)| (k.to_string(), Parameter { value: Some(v) })).collect(),
        attribute: vec![],
        connection: vec![],
    }
}

#[test]
fn synthesized_parameters_are_binary() {
    let c = synth(&[("N", "00000000000000000000000000000110"), ("M", "-101"), ("BAD", "12")]);
    assert_eq!(c.get_param_i64("N").unwrap(), 6);
    assert_eq!(c.get_param_i64("M").unwrap(), -5);
    assert!(matches!(c.get_param_i64("BAD"), Err(CellGetAttribError::ParseFailed(_))));
    assert!(matches!(c.get_param_i64("Q"), Err(CellGetAttribError::AttributeMissing(s)) if s == "Q"));
    assert_eq!(c.get_param_i64_with_default("Q", 9).unwrap(), 9);
    assert!(c.get_param_i64_with_default("BAD", 9).is_err());
}

#[test]
fn placed_parameters_are_decimal_or_integer() {
    let c = placed(vec![("A", ParameterValue::Int(42)), ("B", ParameterValue::Str("-17".to_string())), ("C", ParameterValue::Str("1x".to_string()))]);
    assert_eq!(c.get_param_i64("A").unwrap(), 42);
    assert_eq!(c.get_param_i64("B").unwrap(), -17);
    assert!(matches!(c.get_param_i64("C"), Err(CellGetAttribError::ParseFailed(_))));
    assert!(matches!(c.get_param_i64("D"), Err(CellGetAttribError::AttributeMissing(s)) if s == "D"));
    assert_eq!(c.get_param_i64_with_default("D", 1).unwrap(), 1);
}
